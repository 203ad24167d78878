//! Renaming: checked against the table, carried out on the remote, then in the table.
use crate::hub_api;
use crate::hub_api::{BatchOp, OpModel};
use crate::text;
use crate::text::{clone_opt, concat, str_eq, strip_prefix};
use crate::time::Timestamp;
use crate::virtual_fs;
use crate::virtual_fs::inode;
use crate::virtual_fs::inode::{
    child_path, ChildModel, DirChild, EntryModel, InodeEntry, InodeKind, InodeTable, ROOT_INODE,
};
use crate::virtual_fs::model;
use crate::virtual_fs::model::TableModel;
use crate::virtual_fs::namespace;
use crate::virtual_fs::negative_cache;
use crate::virtual_fs::{Errno, VirtualFs, VirtualFsResult};
use std::collections::HashSet;
use vstd::prelude::*;
use vstd::string::*;

verus! {

broadcast use {
    vstd::std_specs::hash::group_hash_axioms,
    vstd::string::group_string_axioms,
};

/// What is known of a rename before it is carried out.
#[derive(Debug)]
pub struct RenameInfo {
    pub ino: u64,
    pub old_path: String,
    pub kind: InodeKind,
    pub xet_hash: Option<String>,
    pub is_dirty: bool,
    pub new_full_path: String,
    /// The clean files below a directory, each with its path and hash.
    pub descendant_files: Vec<(String, String)>,
}

/// What a `RenameInfo` holds.
pub struct RenameModel {
    pub ino: u64,
    pub old_path: Seq<char>,
    pub kind: InodeKind,
    pub xet_hash: Option<Seq<char>>,
    pub is_dirty: bool,
    pub new_full_path: Seq<char>,
    pub descendant_files: Seq<(Seq<char>, Seq<char>)>,
}

/// What a list of files holds.
pub open spec fn file_models(v: Seq<(String, String)>) -> Seq<(Seq<char>, Seq<char>)> {
    v.map_values(|f: (String, String)| (f.0@, f.1@))
}

impl View for RenameInfo {
    type V = RenameModel;

    open spec fn view(&self) -> RenameModel {
        RenameModel {
            ino: self.ino,
            old_path: self.old_path@,
            kind: self.kind,
            xet_hash: text::opt_text(self.xet_hash),
            is_dirty: self.is_dirty,
            new_full_path: self.new_full_path@,
            descendant_files: file_models(self.descendant_files@),
        }
    }
}

/// Going up `n` times from `a` arrives at `x`, without passing the root.
pub open spec fn climb_hits(t: TableModel, a: u64, x: u64, n: nat) -> bool
    decreases n,
{
    a != ROOT_INODE && if n == 0 {
        a == x
    } else {
        t.inodes.contains_key(a) && climb_hits(t, t.inodes[a].parent, x, (n - 1) as nat)
    }
}

/// `x` is `a` or above it, below the root.
pub open spec fn is_above(t: TableModel, a: u64, x: u64) -> bool {
    exists|n: nat| climb_hits(t, a, x, n)
}

proof fn lemma_above_step(t: TableModel, a: u64, x: u64)
    requires
        a != x,
    ensures
        is_above(t, a, x) <==> a != ROOT_INODE && t.inodes.contains_key(a) && is_above(
            t,
            t.inodes[a].parent,
            x,
        ),
{
    if is_above(t, a, x) {
        let n = choose|n: nat| climb_hits(t, a, x, n);
        assert(climb_hits(t, t.inodes[a].parent, x, (n - 1) as nat));
    }
    if a != ROOT_INODE && t.inodes.contains_key(a) && is_above(t, t.inodes[a].parent, x) {
        let n = choose|n: nat| climb_hits(t, t.inodes[a].parent, x, n);
        assert(climb_hits(t, a, x, n + 1));
    }
}

proof fn lemma_closed_set_misses(t: TableModel, set: Set<u64>, a: u64, x: u64, n: nat)
    requires
        set.contains(a),
        !set.contains(x),
        forall|v: u64| #[trigger] set.contains(v) ==> set.contains(t.inodes[v].parent),
    ensures
        !climb_hits(t, a, x, n),
    decreases n,
{
    if n > 0 {
        lemma_closed_set_misses(t, set, t.inodes[a].parent, x, (n - 1) as nat);
    }
}

/// Old and new place of a rename are not the same.
pub open spec fn moves(
    parent: u64,
    name: Seq<char>,
    newparent: u64,
    newname: Seq<char>,
) -> bool {
    !(parent == newparent && name == newname)
}

/// Whether something of kind `src` may take the place of what is called the same.
pub open spec fn replace_check(
    src: InodeKind,
    existing: EntryModel,
    no_replace: bool,
) -> VirtualFsResult<()> {
    let src_dir = src == InodeKind::Directory;
    let dst_dir = existing.kind == InodeKind::Directory;
    if no_replace {
        Err(Errno::EEXIST)
    } else if !src_dir && dst_dir {
        Err(Errno::EISDIR)
    } else if src_dir && !dst_dir {
        Err(Errno::ENOTDIR)
    } else if src_dir && dst_dir && existing.children.len() > 0 {
        Err(Errno::ENOTEMPTY)
    } else {
        Ok(())
    }
}

/// Whether something of kind `src` may take the place of what is called the same.
fn check_replace(src: InodeKind, existing: &InodeEntry, no_replace: bool) -> (r: VirtualFsResult<()>)
    ensures
        r == replace_check(src, existing@, no_replace),
{
    let src_dir = src == InodeKind::Directory;
    let dst_dir = existing.kind == InodeKind::Directory;
    if no_replace {
        Err(Errno::EEXIST)
    } else if !src_dir && dst_dir {
        Err(Errno::EISDIR)
    } else if src_dir && !dst_dir {
        Err(Errno::ENOTDIR)
    } else if src_dir && dst_dir && existing.children.len() > 0 {
        Err(Errno::ENOTEMPTY)
    } else {
        Ok(())
    }
}

/// What a rename is refused with, if it is.
pub open spec fn rename_check(
    t: TableModel,
    parent: u64,
    name: Seq<char>,
    newparent: u64,
    newname: Seq<char>,
    no_replace: bool,
) -> VirtualFsResult<()> {
    match t.child_named(parent, name) {
        None => Err(Errno::ENOENT),
        Some(x) => {
            let src = t.inodes[x];
            if !t.inodes.contains_key(newparent) {
                Err(Errno::ENOENT)
            } else if src.kind == InodeKind::Directory && is_above(t, newparent, src.inode) {
                Err(Errno::EINVAL)
            } else {
                match t.child_named(newparent, newname) {
                    Some(y) => replace_check(src.kind, t.inodes[y], no_replace),
                    None => Ok(()),
                }
            }
        },
    }
}

/// The clean files with a hash among the children, each with its path and hash.
pub open spec fn clean_file(t: TableModel, c: ChildModel) -> Option<(Seq<char>, Seq<char>)> {
    let e = t.inodes[c.ino];
    if t.inodes.contains_key(c.ino) && e.kind == InodeKind::File && !e.dirty() && e.xet_hash
        is Some {
        Some((e.full_path, e.xet_hash->Some_0))
    } else {
        None
    }
}

/// The clean files below a directory, going down at most `height` levels: its own first, then
/// those of its subdirectories, the last of them first.
pub open spec fn clean_files(t: TableModel, dir: u64, height: nat) -> Seq<(Seq<char>, Seq<char>)>
    decreases height, 0nat,
{
    if height == 0 || !t.inodes.contains_key(dir) {
        Seq::empty()
    } else {
        let children = t.inodes[dir].children;
        children.filter_map(|c: ChildModel| clean_file(t, c)) + clean_files_below(
            t,
            children,
            (height - 1) as nat,
        )
    }
}

/// The clean files below those of `children` that are directories, the last of them first.
pub open spec fn clean_files_below(
    t: TableModel,
    children: Seq<ChildModel>,
    height: nat,
) -> Seq<(Seq<char>, Seq<char>)>
    decreases height, children.len(),
{
    if children.len() == 0 {
        Seq::empty()
    } else {
        let c = children.last();
        let own = if t.inodes.contains_key(c.ino) && t.inodes[c.ino].kind == InodeKind::Directory {
            clean_files(t, c.ino, height)
        } else {
            Seq::empty()
        };
        own + clean_files_below(t, children.drop_last(), height)
    }
}

/// What is to be known of a rename that is not refused.
pub open spec fn rename_info(
    t: TableModel,
    src: EntryModel,
    newparent: u64,
    newname: Seq<char>,
) -> RenameModel {
    RenameModel {
        ino: src.inode,
        old_path: src.full_path,
        kind: src.kind,
        xet_hash: src.xet_hash,
        is_dirty: src.dirty(),
        new_full_path: inode::spec_child_path(t.inodes[newparent].full_path, newname),
        descendant_files: if src.kind == InodeKind::Directory {
            clean_files(t, src.inode, model::height_of(t.inodes, src.inode))
        } else {
            Seq::empty()
        },
    }
}

fn collect_clean_files(
    inodes: &InodeTable,
    dir: u64,
    out: &mut Vec<(String, String)>,
    Ghost(height): Ghost<nat>,
)
    requires
        model::height_within(inodes@.inodes, dir, height),
    ensures
        file_models(final(out)@) == file_models(old(out)@) + clean_files(inodes@, dir, height),
    decreases height,
{
    let ghost t = inodes@;
    let ghost start = file_models(out@);
    let entry = match inodes.get(dir) {
        Some(e) => e,
        None => {
            assert(start + clean_files(t, dir, height) =~= start);
            return;
        },
    };
    let ghost children = entry@.children;
    let ghost below = (height - 1) as nat;
    let ghost pick = |c: ChildModel| clean_file(t, c);
    let mut i: usize = 0;
    proof {
        reveal(Seq::filter_map);
        assert(children.take(0) =~= Seq::empty());
        assert(start + children.take(0).filter_map(pick) =~= start);
    }
    while i < entry.children.len()
        invariant
            i <= entry.children.len(),
            t == inodes@,
            children == inode::child_models(entry.children@),
            pick == (|c: ChildModel| clean_file(t, c)),
            file_models(out@) == start + children.take(i as int).filter_map(pick),
        decreases entry.children.len() - i,
    {
        let ghost low = children.take(i as int).filter_map(pick);
        proof {
            children.lemma_filter_map_take_succ(pick, i as int);
            assert(children[i as int] == entry.children@[i as int]@);
        }
        if let Some(child) = inodes.get(entry.children[i].ino) {
            if child.kind == InodeKind::File && !child.is_dirty() {
                if let Some(hash) = &child.xet_hash {
                    let ghost before = out@;
                    out.push((child.full_path.clone(), hash.clone()));
                    proof {
                        let m = (child.full_path@, hash@);
                        assert(file_models(out@) =~= file_models(before).push(m));
                        assert(start + low.push(m) =~= (start + low).push(m));
                    }
                }
            }
        }
        i += 1;
    }
    assert(children.take(i as int) =~= children);
    let ghost own = start + children.filter_map(pick);
    let ghost all_below = clean_files_below(t, children, below);
    let mut j: usize = entry.children.len();
    assert(children.take(j as int) =~= children);
    assert(own + all_below =~= file_models(out@) + clean_files_below(
        t,
        children.take(j as int),
        below,
    ));
    while j > 0
        invariant
            j <= entry.children.len(),
            t == inodes@,
            children == inode::child_models(entry.children@),
            below < height,
            own + all_below == file_models(out@) + clean_files_below(
                t,
                children.take(j as int),
                below,
            ),
            forall|k: int|
                0 <= k < children.len() ==> model::height_within(
                    t.inodes,
                    (#[trigger] children[k]).ino,
                    below,
                ),
        decreases j,
    {
        j -= 1;
        let ghost here = file_models(out@);
        proof {
            assert(children.take(j + 1).drop_last() =~= children.take(j as int));
            assert(children.take(j + 1).last() == children[j as int]);
            assert(children[j as int] == entry.children@[j as int]@);
        }
        let ino: u64 = entry.children[j].ino;
        let is_dir = match inodes.get(ino) {
            Some(child) => child.kind == InodeKind::Directory,
            None => false,
        };
        if is_dir {
            collect_clean_files(inodes, ino, out, Ghost(below));
            assert(here + (clean_files(t, ino, below) + clean_files_below(
                t,
                children.take(j as int),
                below,
            )) =~= file_models(out@) + clean_files_below(t, children.take(j as int), below));
        } else {
            assert(here + (Seq::<(Seq<char>, Seq<char>)>::empty() + clean_files_below(
                t,
                children.take(j as int),
                below,
            )) =~= file_models(out@) + clean_files_below(t, children.take(j as int), below));
        }
    }
    proof {
        assert(children.take(0) =~= Seq::empty());
        assert(file_models(out@) =~= own + all_below);
        assert(start + (children.filter_map(pick) + all_below) =~= own + all_below);
    }
}

/// Where a file below a renamed directory ends up.
pub open spec fn rebased(old_path: Seq<char>, new_path: Seq<char>, path: Seq<char>) -> Seq<char> {
    match text::stripped(path, old_path) {
        Some(suffix) => new_path + suffix,
        None => new_path + path,
    }
}

/// The operations of a rename, if any: what is clean and has a hash is added under its new path and
/// deleted under the old one.
pub open spec fn rename_op_models(info: RenameModel, mtime_ms: u64) -> Option<Seq<OpModel>> {
    if info.kind == InodeKind::File && !info.is_dirty && info.xet_hash is Some {
        Some(
            seq![
                OpModel::AddFile {
                    path: info.new_full_path,
                    xet_hash: info.xet_hash->Some_0,
                    mtime: mtime_ms,
                    content_type: None,
                },
                OpModel::DeleteFile { path: info.old_path },
            ],
        )
    } else if info.kind == InodeKind::Directory && info.descendant_files.len() > 0 {
        Some(
            info.descendant_files.map_values(|f: (Seq<char>, Seq<char>)| add_op(info, f, mtime_ms))
                + info.descendant_files.map_values(|f: (Seq<char>, Seq<char>)| delete_op(f)),
        )
    } else {
        None
    }
}

/// The operation that adds a file under its new path.
pub open spec fn add_op(info: RenameModel, f: (Seq<char>, Seq<char>), mtime_ms: u64) -> OpModel {
    OpModel::AddFile {
        path: rebased(info.old_path, info.new_full_path, f.0),
        xet_hash: f.1,
        mtime: mtime_ms,
        content_type: None,
    }
}

/// The operation that deletes a file under its old path.
pub open spec fn delete_op(f: (Seq<char>, Seq<char>)) -> OpModel {
    OpModel::DeleteFile { path: f.0 }
}

/// The Hub takes a batch only if all additions come before all deletions, and so they do.
pub proof fn law_adds_come_before_deletes(info: RenameModel, mtime_ms: u64, i: int, j: int)
    requires
        rename_op_models(info, mtime_ms) is Some,
        0 <= i < j < rename_op_models(info, mtime_ms)->Some_0.len(),
        rename_op_models(info, mtime_ms)->Some_0[i] is DeleteFile,
    ensures
        rename_op_models(info, mtime_ms)->Some_0[j] is DeleteFile,
{
}

/// The operations of a rename, if any. Modification times are in milliseconds.
pub fn rename_ops(info: &RenameInfo, mtime_ms: u64) -> (r: Option<Vec<BatchOp>>)
    ensures
        r is Some <==> rename_op_models(info@, mtime_ms) is Some,
        r matches Some(ops) ==> Some(hub_api::op_models(ops@)) == rename_op_models(info@, mtime_ms),
{
    if info.kind == InodeKind::File && !info.is_dirty {
        if let Some(hash) = &info.xet_hash {
            let mut ops: Vec<BatchOp> = Vec::new();
            ops.push(
                BatchOp::AddFile {
                    path: info.new_full_path.clone(),
                    xet_hash: hash.clone(),
                    mtime: mtime_ms,
                    content_type: None,
                },
            );
            ops.push(BatchOp::DeleteFile { path: info.old_path.clone() });
            assert(hub_api::op_models(ops@) =~= rename_op_models(info@, mtime_ms)->Some_0);
            return Some(ops);
        }
    }
    if info.kind == InodeKind::Directory && info.descendant_files.len() > 0 {
        let ghost files = info@.descendant_files;
        let ghost adds = files.map_values(
            |f: (Seq<char>, Seq<char>)| add_op(info@, f, mtime_ms),
        );
        let ghost dels = files.map_values(|f: (Seq<char>, Seq<char>)| delete_op(f));
        let mut ops: Vec<BatchOp> = Vec::new();
        let mut i: usize = 0;
        assert(hub_api::op_models(ops@) =~= adds.take(0));
        while i < info.descendant_files.len()
            invariant
                i <= info.descendant_files.len(),
                files == file_models(info.descendant_files@),
                adds == files.map_values(
                    |f: (Seq<char>, Seq<char>)| add_op(info@, f, mtime_ms),
                ),
                hub_api::op_models(ops@) == adds.take(i as int),
            decreases info.descendant_files.len() - i,
        {
            let file = &info.descendant_files[i];
            let new_path = match strip_prefix(file.0.as_str(), info.old_path.as_str()) {
                Some(suffix) => concat(info.new_full_path.as_str(), suffix),
                None => concat(info.new_full_path.as_str(), file.0.as_str()),
            };
            let ghost before = ops@;
            ops.push(
                BatchOp::AddFile {
                    path: new_path,
                    xet_hash: file.1.clone(),
                    mtime: mtime_ms,
                    content_type: None,
                },
            );
            assert(files[i as int] == (file.0@, file.1@));
            assert(hub_api::op_models(ops@) =~= hub_api::op_models(before).push(adds[i as int]));
            assert(adds.take(i + 1) =~= adds.take(i as int).push(adds[i as int]));
            i += 1;
        }
        assert(adds.take(i as int) =~= adds);
        let mut j: usize = 0;
        assert(adds + dels.take(0) =~= adds);
        while j < info.descendant_files.len()
            invariant
                j <= info.descendant_files.len(),
                files == file_models(info.descendant_files@),
                dels == files.map_values(|f: (Seq<char>, Seq<char>)| delete_op(f)),
                hub_api::op_models(ops@) == adds + dels.take(j as int),
            decreases info.descendant_files.len() - j,
        {
            let ghost before = ops@;
            ops.push(BatchOp::DeleteFile { path: info.descendant_files[j].0.clone() });
            assert(files[j as int].0 == info.descendant_files@[j as int].0@);
            assert(hub_api::op_models(ops@) =~= hub_api::op_models(before).push(dels[j as int]));
            assert(adds + dels.take(j + 1) =~= (adds + dels.take(j as int)).push(dels[j as int]));
            j += 1;
        }
        assert(dels.take(j as int) =~= dels);
        return Some(ops);
    }
    None
}

/// How a rename that the remote has carried out takes effect in the table.
pub enum ApplyPlan {
    Refused(Errno),
    /// Both names stand for one inode already.
    Same,
    /// Take effect, in the place of an inode if there is one.
    Go(Option<u64>),
}

/// How a rename that the remote has carried out takes effect in the table, which may have moved on
/// meanwhile.
pub open spec fn apply_plan(
    t: TableModel,
    info: RenameModel,
    newparent: u64,
    newname: Seq<char>,
    no_replace: bool,
) -> ApplyPlan {
    if !t.inodes.contains_key(info.ino) {
        ApplyPlan::Refused(Errno::ENOENT)
    } else {
        match t.child_named(newparent, newname) {
            Some(y) => if t.inodes[y].inode == info.ino {
                ApplyPlan::Same
            } else {
                match replace_check(info.kind, t.inodes[y], no_replace) {
                    Err(e) => ApplyPlan::Refused(e),
                    Ok(_) => ApplyPlan::Go(Some(y)),
                }
            },
            None => ApplyPlan::Go(None),
        }
    }
}

/// A replaced file has no link and no handle left after it loses the name.
pub open spec fn replaced_goes(
    t: TableModel,
    target: Option<u64>,
    newparent: u64,
    newname: Seq<char>,
    now: Timestamp,
) -> bool {
    target matches Some(y) && t.inodes[y].kind != InodeKind::Directory && {
        let u = t.unlinked(newparent, newname, now);
        let x = t.inodes[y].inode;
        u.inodes.contains_key(x) && u.inodes[x].eviction.open_handles == 0 && u.inodes[x].nlink == 0
    }
}

/// The table once what is in the way of a rename has made way.
pub open spec fn target_removed(
    t: TableModel,
    target: Option<u64>,
    newparent: u64,
    newname: Seq<char>,
    now: Timestamp,
) -> TableModel {
    match target {
        None => t,
        Some(y) => {
            let x = t.inodes[y].inode;
            if t.inodes[y].kind == InodeKind::Directory {
                if t.inodes.contains_key(x) {
                    t.removed(x)
                } else {
                    t
                }
            } else if replaced_goes(t, target, newparent, newname, now) {
                t.unlinked(newparent, newname, now).without(x)
            } else {
                t.unlinked(newparent, newname, now)
            }
        },
    }
}

/// The table with a path to be deleted remotely noted on `ino`.
pub open spec fn delete_noted(t: TableModel, ino: u64, path: Seq<char>) -> TableModel {
    t.updated(
        ino,
        |e: EntryModel| EntryModel { pending_deletes: e.pending_deletes.push(path), ..e },
    )
}

/// The table with the old path of a dirty file noted, if the remote has it.
pub open spec fn own_delete_noted(t: TableModel, info: RenameModel) -> TableModel {
    if info.is_dirty && info.kind == InodeKind::File && info.xet_hash is Some {
        delete_noted(t, info.ino, info.old_path)
    } else {
        t
    }
}

/// The table with the paths noted of those of `children` that are dirty files and that the remote
/// has.
pub open spec fn files_noted(t: TableModel, children: Seq<ChildModel>) -> TableModel
    decreases children.len(),
{
    if children.len() == 0 {
        t
    } else {
        let low = files_noted(t, children.drop_last());
        let x = children.last().ino;
        let e = low.inodes[x];
        if low.inodes.contains_key(x) && e.kind == InodeKind::File && e.dirty() && e.xet_hash
            is Some {
            delete_noted(low, x, e.full_path)
        } else {
            low
        }
    }
}

/// The table with the paths noted of all dirty files below a directory that the remote has, going
/// down at most `height` levels.
pub open spec fn below_noted(t: TableModel, dir: u64, height: nat) -> TableModel
    decreases height, 0nat,
{
    if height == 0 || !t.inodes.contains_key(dir) {
        t
    } else {
        subdirs_noted(
            files_noted(t, t.inodes[dir].children),
            t.inodes[dir].children,
            (height - 1) as nat,
        )
    }
}

/// The table with the paths noted of all dirty files below those of `children` that are
/// directories, the last of them first.
pub open spec fn subdirs_noted(t: TableModel, children: Seq<ChildModel>, height: nat) -> TableModel
    decreases height, children.len(),
{
    if children.len() == 0 {
        t
    } else {
        let x = children.last().ino;
        let high = if t.inodes.contains_key(x) && t.inodes[x].kind == InodeKind::Directory {
            below_noted(t, x, height)
        } else {
            t
        };
        subdirs_noted(high, children.drop_last(), height)
    }
}

proof fn lemma_files_noted_shape(t: TableModel, children: Seq<ChildModel>)
    ensures
        model::same_shape(t.inodes, files_noted(t, children).inodes),
    decreases children.len(),
{
    if children.len() > 0 {
        lemma_files_noted_shape(t, children.drop_last());
    }
}

pub proof fn lemma_below_noted_shape(t: TableModel, dir: u64, height: nat)
    ensures
        model::same_shape(t.inodes, below_noted(t, dir, height).inodes),
    decreases height, 0nat,
{
    if height > 0 && t.inodes.contains_key(dir) {
        lemma_files_noted_shape(t, t.inodes[dir].children);
        lemma_subdirs_noted_shape(
            files_noted(t, t.inodes[dir].children),
            t.inodes[dir].children,
            (height - 1) as nat,
        );
    }
}

proof fn lemma_subdirs_noted_shape(t: TableModel, children: Seq<ChildModel>, height: nat)
    ensures
        model::same_shape(t.inodes, subdirs_noted(t, children, height).inodes),
    decreases height, children.len(),
{
    if children.len() > 0 {
        let x = children.last().ino;
        let high = if t.inodes.contains_key(x) && t.inodes[x].kind == InodeKind::Directory {
            below_noted(t, x, height)
        } else {
            t
        };
        lemma_below_noted_shape(t, x, height);
        lemma_subdirs_noted_shape(high, children.drop_last(), height);
    }
}

fn note_below(inodes: &mut InodeTable, dir: u64, Ghost(height): Ghost<nat>)
    requires
        model::height_within(old(inodes)@.inodes, dir, height),
    ensures
        final(inodes)@ == below_noted(old(inodes)@, dir, height),
    decreases height,
{
    let ghost start = inodes@;
    let children: Vec<u64> = match inodes.get(dir) {
        Some(e) => child_numbers(&e.children),
        None => return,
    };
    let ghost models = start.inodes[dir].children;
    let ghost below = (height - 1) as nat;
    let mut i: usize = 0;
    assert(models.take(0) =~= Seq::empty());
    while i < children.len()
        invariant
            i <= children.len(),
            children@ == models.map_values(|c: ChildModel| c.ino),
            inodes@ == files_noted(start, models.take(i as int)),
        decreases children.len() - i,
    {
        let ino: u64 = children[i];
        proof {
            assert(models.take(i + 1).drop_last() =~= models.take(i as int));
            assert(models.take(i + 1).last().ino == ino);
        }
        let path: Option<String> = match inodes.get(ino) {
            Some(e) => if e.kind == InodeKind::File && e.is_dirty() && e.xet_hash.is_some() {
                Some(e.full_path.clone())
            } else {
                None
            },
            None => None,
        };
        if let Some(p) = path {
            note_delete(inodes, ino, p);
        }
        i += 1;
    }
    assert(models.take(i as int) =~= models);
    let ghost noted = inodes@;
    proof {
        lemma_files_noted_shape(start, models);
    }
    let mut j: usize = children.len();
    assert(models.take(j as int) =~= models);
    while j > 0
        invariant
            j <= children.len(),
            children@ == models.map_values(|c: ChildModel| c.ino),
            below < height,
            subdirs_noted(noted, models, below) == subdirs_noted(
                inodes@,
                models.take(j as int),
                below,
            ),
            model::same_shape(start.inodes, inodes@.inodes),
            forall|k: int|
                0 <= k < models.len() ==> model::height_within(
                    start.inodes,
                    (#[trigger] models[k]).ino,
                    below,
                ),
        decreases j,
    {
        j -= 1;
        let ino: u64 = children[j];
        let ghost here = inodes@;
        proof {
            assert(models.take(j + 1).drop_last() =~= models.take(j as int));
            assert(models.take(j + 1).last() == models[j as int]);
            assert(models[j as int].ino == ino);
            model::lemma_height_shape(start.inodes, here.inodes, ino, below);
            lemma_below_noted_shape(here, ino, below);
        }
        let is_dir = match inodes.get(ino) {
            Some(e) => e.kind == InodeKind::Directory,
            None => false,
        };
        if is_dir {
            note_below(inodes, ino, Ghost(below));
        }
    }
    assert(models.take(0) =~= Seq::empty());
}

/// The inode numbers of a list of children.
fn child_numbers(children: &Vec<DirChild>) -> (r: Vec<u64>)
    ensures
        r@ == inode::child_models(children@).map_values(|c: ChildModel| c.ino),
{
    let ghost inos = inode::child_models(children@).map_values(|c: ChildModel| c.ino);
    let mut out: Vec<u64> = Vec::new();
    let mut i: usize = 0;
    while i < children.len()
        invariant
            i <= children.len(),
            inos == inode::child_models(children@).map_values(|c: ChildModel| c.ino),
            out@ == inos.take(i as int),
        decreases children.len() - i,
    {
        out.push(children[i].ino);
        assert(inos.take(i + 1) =~= inos.take(i as int).push(inos[i as int]));
        i += 1;
    }
    assert(inos.take(i as int) =~= inos);
    out
}

/// Note a path to be deleted remotely on `ino`.
fn note_delete(inodes: &mut InodeTable, ino: u64, path: String)
    ensures
        final(inodes)@ == delete_noted(old(inodes)@, ino, path@),
{
    if let Some(e) = inodes.get_mut(ino) {
        let ghost before = e@.pending_deletes;
        e.pending_deletes.push(path);
        assert(e@.pending_deletes =~= before.push(path@));
    }
}

/// The table when the renamed inode is about to be taken from its old place.
pub open spec fn rename_base(
    t: TableModel,
    info: RenameModel,
    target: Option<u64>,
    newparent: u64,
    newname: Seq<char>,
    now: Timestamp,
) -> TableModel {
    own_delete_noted(target_removed(t, target, newparent, newname, now), info)
}

/// The table when the renamed inode is in its new place, and paths are still the old ones.
pub open spec fn rename_relinked(
    t: TableModel,
    info: RenameModel,
    target: Option<u64>,
    parent: u64,
    oldname: Seq<char>,
    newparent: u64,
    newname: Seq<char>,
    now: Timestamp,
) -> TableModel {
    let base = rename_base(t, info, target, newparent, newname, now);
    let noted = if info.kind == InodeKind::Directory {
        below_noted(base, info.ino, model::height_of(base.inodes, info.ino))
    } else {
        base
    };
    TableModel { paths: noted.paths.remove(info.old_path), ..noted }.moved(
        info.ino,
        parent,
        oldname,
        newparent,
        newname,
    )
}

/// The table after a rename.
pub open spec fn renamed(
    t: TableModel,
    info: RenameModel,
    target: Option<u64>,
    parent: u64,
    oldname: Seq<char>,
    newparent: u64,
    newname: Seq<char>,
    now: Timestamp,
) -> TableModel {
    let repathed = rename_relinked(
        t,
        info,
        target,
        parent,
        oldname,
        newparent,
        newname,
        now,
    ).subtree_repathed(info.ino, info.new_full_path);
    let touched = namespace::dir_touched(
        namespace::dir_touched(repathed, parent, now),
        newparent,
        now,
    );
    touched.updated(info.ino, |e: EntryModel| EntryModel { ctime: now, ..e })
}

/// The tree that a rename works on has no cycle below the renamed inode, before and after it is
/// moved.
pub open spec fn rename_terminates(
    t: TableModel,
    info: RenameModel,
    target: Option<u64>,
    parent: u64,
    oldname: Seq<char>,
    newparent: u64,
    newname: Seq<char>,
    now: Timestamp,
) -> bool {
    &&& info.kind == InodeKind::Directory ==> model::bounded_height(
        rename_base(t, info, target, newparent, newname, now).inodes,
        info.ino,
    )
    &&& model::bounded_height(
        rename_relinked(t, info, target, parent, oldname, newparent, newname, now).inodes,
        info.ino,
    )
}

impl VirtualFs {
    /// Check whether a rename is allowed at all. Returns whether there is anything to do, which
    /// there is not if old and new place are the same.
    pub fn rename(&self, parent: u64, name: &str, newparent: u64, newname: &str) -> (r:
        VirtualFsResult<bool>)
        ensures
            r == match namespace::creation_check(
                self.config.read_only,
                self.config.filter_os_files,
                newname@,
            ) {
                Err(e) => Err::<bool, Errno>(e),
                Ok(_) => Ok(moves(parent, name@, newparent, newname@)),
            },
    {
        if let Err(e) = self.may_create(newname) {
            return Err(e);
        }
        Ok(!(parent == newparent && str_eq(name, newname)))
    }

    /// The directory called `name` in `parent`, if there is one. What is below it has to be known
    /// before a rename.
    pub fn named_dir(&self, parent: u64, name: &str) -> (r: Option<u64>)
        ensures
            r == match self.inodes@.child_named(parent, name@) {
                Some(x) => if self.inodes@.inodes[x].kind == InodeKind::Directory {
                    Some(self.inodes@.inodes[x].inode)
                } else {
                    None
                },
                None => None,
            },
    {
        match self.inodes.lookup_child(parent, name) {
            Some(e) => if e.kind == InodeKind::Directory {
                Some(e.inode)
            } else {
                None
            },
            None => None,
        }
    }

    /// Whether `x` is `start` or above it.
    fn find_above(&self, start: u64, x: u64) -> (r: bool)
        ensures
            r == is_above(self.inodes@, start, x),
    {
        let ghost t = self.inodes@;
        let mut seen: HashSet<u64> = HashSet::new();
        let mut cur: u64 = start;
        proof {
            self.inodes.lemma_finite();
        }
        loop
            invariant
                t == self.inodes@,
                t.inodes.dom().finite(),
                is_above(t, start, x) == is_above(t, cur, x),
                !seen@.contains(x),
                forall|v: u64| #[trigger]
                    seen@.contains(v) ==> t.inodes.contains_key(v) && (seen@.contains(
                        t.inodes[v].parent,
                    ) || t.inodes[v].parent == cur),
            decreases t.inodes.dom().difference(seen@).len(),
        {
            if cur == ROOT_INODE {
                assert forall|n: nat| !climb_hits(t, cur, x, n) by {}
                return false;
            }
            if cur == x {
                assert(climb_hits(t, cur, x, 0));
                return true;
            }
            let known = seen.contains(&cur);
            if known {
                proof {
                    assert forall|n: nat| !climb_hits(t, cur, x, n) by {
                        lemma_closed_set_misses(t, seen@, cur, x, n);
                    }
                }
                return false;
            }
            proof {
                lemma_above_step(t, cur, x);
            }
            match self.inodes.get(cur) {
                Some(e) => {
                    let ghost before = seen@;
                    let _ = seen.insert(cur);
                    proof {
                        assert(t.inodes.dom().difference(seen@) =~= t.inodes.dom().difference(
                            before,
                        ).remove(cur));
                    }
                    cur = e.parent;
                },
                None => return false,
            }
        }
    }

    /// Check a rename and collect what it needs: from directories whose children are known, and
    /// with everything below a renamed directory known.
    pub fn rename_validate(
        &self,
        parent: u64,
        name: &str,
        newparent: u64,
        newname: &str,
        no_replace: bool,
    ) -> (r: VirtualFsResult<RenameInfo>)
        requires
            self.inodes@.child_named(parent, name@) matches Some(x) ==> model::bounded_height(
                self.inodes@.inodes,
                self.inodes@.inodes[x].inode,
            ),
        ensures
            match rename_check(self.inodes@, parent, name@, newparent, newname@, no_replace) {
                Err(e) => r matches Err(err) && err == e,
                Ok(_) => r matches Ok(info) && info@ == rename_info(
                    self.inodes@,
                    self.inodes@.inodes[self.inodes@.child_named(parent, name@)->Some_0],
                    newparent,
                    newname@,
                ),
            },
    {
        let src = match self.inodes.lookup_child(parent, name) {
            Some(e) => e,
            None => return Err(Errno::ENOENT),
        };
        let new_full_path = match self.inodes.get(newparent) {
            Some(e) => child_path(e.full_path.as_str(), newname),
            None => return Err(Errno::ENOENT),
        };
        if src.kind == InodeKind::Directory && self.find_above(newparent, src.inode) {
            return Err(Errno::EINVAL);
        }
        if let Some(existing) = self.inodes.lookup_child(newparent, newname) {
            if let Err(e) = check_replace(src.kind, existing, no_replace) {
                return Err(e);
            }
        }
        let mut descendant_files: Vec<(String, String)> = Vec::new();
        assert(file_models(descendant_files@) =~= Seq::empty());
        if src.kind == InodeKind::Directory {
            let ghost height = model::height_of(self.inodes@.inodes, src.inode);
            collect_clean_files(&self.inodes, src.inode, &mut descendant_files, Ghost(height));
            assert(file_models(descendant_files@) =~= clean_files(
                self.inodes@,
                src.inode,
                height,
            ));
        }
        Ok(
            RenameInfo {
                ino: src.inode,
                old_path: src.full_path.clone(),
                kind: src.kind,
                xet_hash: clone_opt(&src.xet_hash),
                is_dirty: src.is_dirty(),
                new_full_path,
                descendant_files,
            },
        )
    }

    /// Whether old and new name stand for one inode, so that there is nothing to rename.
    pub fn rename_is_same(&self, info: &RenameInfo, newparent: u64, newname: &str) -> (r: bool)
        ensures
            r == (self.inodes@.child_named(newparent, newname@) matches Some(x)
                && self.inodes@.inodes[x].inode == info.ino),
    {
        match self.inodes.lookup_child(newparent, newname) {
            Some(e) => e.inode == info.ino,
            None => false,
        }
    }

    /// Carry out a rename in the table. What is in the way goes, if it may be replaced; files with
    /// local changes keep a note of the remote paths they leave behind. Returns the replaced inode
    /// whose staging file can go, if there is one.
    pub fn rename_apply_local(
        &mut self,
        info: &RenameInfo,
        parent: u64,
        oldname: &str,
        newparent: u64,
        newname: &str,
        no_replace: bool,
        now: Timestamp,
    ) -> (r: VirtualFsResult<Option<u64>>)
        requires
            apply_plan(
                old(self).inodes@,
                info@,
                newparent,
                newname@,
                no_replace,
            ) matches ApplyPlan::Go(target) ==> rename_terminates(
                old(self).inodes@,
                info@,
                target,
                parent,
                oldname@,
                newparent,
                newname@,
                now,
            ),
        ensures
            final(self).config == old(self).config,
            final(self).files == old(self).files,
            final(self).channels == old(self).channels,
            final(self).next_file_handle == old(self).next_file_handle,
            final(self).default_mtime == old(self).default_mtime,
            final(self).negative@ == negative_cache::without_key(
                old(self).negative@,
                info.new_full_path@,
            ),
            old(self).negative.wf() ==> final(self).negative.wf(),
            match apply_plan(old(self).inodes@, info@, newparent, newname@, no_replace) {
                ApplyPlan::Refused(e) => r == Err::<Option<u64>, Errno>(e) && final(self).inodes@
                    == old(self).inodes@,
                ApplyPlan::Same => r == Ok::<Option<u64>, Errno>(None) && final(self).inodes@
                    == old(self).inodes@,
                ApplyPlan::Go(target) => {
                    &&& final(self).inodes@ == renamed(
                        old(self).inodes@,
                        info@,
                        target,
                        parent,
                        oldname@,
                        newparent,
                        newname@,
                        now,
                    )
                    &&& r == if replaced_goes(
                        old(self).inodes@,
                        target,
                        newparent,
                        newname@,
                        now,
                    ) {
                        Ok::<Option<u64>, Errno>(
                            Some(old(self).inodes@.inodes[target->Some_0].inode),
                        )
                    } else {
                        Ok(None)
                    }
                },
            },
    {
        self.negative.remove(info.new_full_path.as_str());
        if self.inodes.get(info.ino).is_none() {
            return Err(Errno::ENOENT);
        }
        let ghost t = self.inodes@;
        let ghost target = self.inodes@.child_named(newparent, newname@);
        let mut replaced: Option<u64> = None;
        let mut existing_dir: Option<u64> = None;
        let mut existing_other: Option<u64> = None;
        if let Some(existing) = self.inodes.lookup_child(newparent, newname) {
            if existing.inode == info.ino {
                return Ok(None);
            }
            if let Err(e) = check_replace(info.kind, existing, no_replace) {
                return Err(e);
            }
            if existing.kind == InodeKind::Directory {
                existing_dir = Some(existing.inode);
            } else {
                existing_other = Some(existing.inode);
            }
        }
        if let Some(ino) = existing_dir {
            let _ = self.inodes.remove(ino);
        }
        if let Some(ino) = existing_other {
            let _ = self.inodes.unlink_one_at(newparent, newname, now);
            if !self.inodes.has_open_handles(ino) {
                if self.inodes.remove_orphan(ino) {
                    replaced = Some(ino);
                }
            }
        }
        assert(self.inodes@ == target_removed(t, target, newparent, newname@, now));
        if info.is_dirty && info.kind == InodeKind::File && info.xet_hash.is_some() {
            note_delete(&mut self.inodes, info.ino, info.old_path.clone());
        }
        let ghost base = self.inodes@;
        assert(base == rename_base(t, info@, target, newparent, newname@, now));
        if info.kind == InodeKind::Directory {
            let ghost height = model::height_of(base.inodes, info.ino);
            note_below(&mut self.inodes, info.ino, Ghost(height));
        }
        self.inodes.remove_path(info.old_path.as_str());
        self.inodes.move_child(info.ino, parent, oldname, newparent, newname);
        assert(self.inodes@ == rename_relinked(
            t,
            info@,
            target,
            parent,
            oldname@,
            newparent,
            newname@,
            now,
        ));
        self.inodes.update_subtree_paths(info.ino, info.new_full_path.clone());
        let ghost repathed = self.inodes@;
        self.inodes.touch_parent(parent, now);
        if parent != newparent {
            self.inodes.touch_parent(newparent, now);
        } else {
            assert(namespace::dir_touched(self.inodes@, parent, now).inodes
                =~= self.inodes@.inodes);
        }
        if let Some(e) = self.inodes.get_mut(info.ino) {
            e.ctime = now;
        }
        Ok(replaced)
    }

    /// What a rename comes to that failed in the table with `errno`. If the remote has been changed
    /// and the source is gone, the rename counts as done, and both directories are listed again.
    pub fn rename_failed(
        &mut self,
        errno: Errno,
        remote_mutated: bool,
        parent: u64,
        newparent: u64,
    ) -> (r: VirtualFsResult<()>)
        ensures
            r == if errno == Errno::ENOENT && remote_mutated {
                Ok::<(), Errno>(())
            } else {
                Err(errno)
            },
            final(self).inodes@ == if r is Ok {
                unlisted(unlisted(old(self).inodes@, parent), newparent)
            } else {
                old(self).inodes@
            },
            old(self).only_inodes(*final(self)),
    {
        if errno == Errno::ENOENT && remote_mutated {
            self.inodes.invalidate_children(parent);
            if parent != newparent {
                self.inodes.invalidate_children(newparent);
            } else {
                assert(unlisted(self.inodes@, parent).inodes =~= self.inodes@.inodes);
            }
            Ok(())
        } else {
            Err(errno)
        }
    }
}

/// The table with a directory to be listed again.
pub open spec fn unlisted(t: TableModel, dir: u64) -> TableModel {
    t.updated(dir, |e: EntryModel| EntryModel { children_loaded: false, ..e })
}

} // verus!
