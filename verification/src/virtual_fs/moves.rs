//! What a rename and a commit tell the Hub: every file is sent once, and no old path is left behind.
use crate::hub_api;
use crate::hub_api::OpModel;
use crate::time::Timestamp;
use crate::virtual_fs::inode;
use crate::virtual_fs::inode::{ChildModel, EntryModel, InodeKind, ROOT_INODE};
use crate::virtual_fs::model;
use crate::virtual_fs::model::TableModel;
use crate::virtual_fs::namespace;
use crate::virtual_fs::relocation;
use crate::virtual_fs::rename;
use crate::virtual_fs::rename::RenameModel;
use crate::virtual_fs::streaming;
use crate::virtual_fs::streaming::{CommitStep, UploadInfo};
use crate::virtual_fs::tree;
use crate::virtual_fs::Errno;
use vstd::prelude::*;

verus! {

/// A walk down the tree leads from `dir` to the file `f`.
pub open spec fn has_file(t: TableModel, dir: u64, f: u64) -> bool {
    &&& model::reachable(t.inodes, set![dir]).contains(f)
    &&& t.inodes[f].kind == InodeKind::File
}

proof fn lemma_below_has(
    t: TableModel,
    s: Seq<ChildModel>,
    height: nat,
    i: int,
    row: (Seq<char>, Seq<char>),
)
    requires
        0 <= i < s.len(),
        t.inodes.contains_key(s[i].ino),
        t.inodes[s[i].ino].kind == InodeKind::Directory,
        rename::clean_files(t, s[i].ino, height).contains(row),
    ensures
        rename::clean_files_below(t, s, height).contains(row),
    decreases s.len(),
{
    let c = s.last();
    let own = if t.inodes.contains_key(c.ino) && t.inodes[c.ino].kind == InodeKind::Directory {
        rename::clean_files(t, c.ino, height)
    } else {
        Seq::empty()
    };
    let low = rename::clean_files_below(t, s.drop_last(), height);
    let all = rename::clean_files_below(t, s, height);
    assert(all == own + low);
    if i == s.len() - 1 {
        let k = choose|k: int| 0 <= k < own.len() && own[k] == row;
        assert(all[k] == row);
    } else {
        lemma_below_has(t, s.drop_last(), height, i, row);
        let k = choose|k: int| 0 <= k < low.len() && low[k] == row;
        assert(all[own.len() + k] == row);
    }
}

/// A clean file with a hash at the end of a walk is among the files of the directory it starts from.
proof fn lemma_file_is_sent(t: TableModel, dir: u64, height: nat, walk: Seq<u64>)
    requires
        model::height_within(t.inodes, dir, height),
        model::is_walk(t.inodes, walk),
        walk[0] == dir,
        walk.len() > 1,
        forall|x: u64| #[trigger]
            t.inodes.contains_key(x) && t.inodes[x].kind != InodeKind::Directory
                ==> t.inodes[x].children.len() == 0,
        t.inodes[walk.last()].kind == InodeKind::File,
        t.inodes[walk.last()].dirty_generation == 0,
        t.inodes[walk.last()].xet_hash is Some,
    ensures
        rename::clean_files(t, dir, height).contains(
            (t.inodes[walk.last()].full_path, t.inodes[walk.last()].xet_hash->Some_0),
        ),
    decreases walk.len(),
{
    let f = walk.last();
    let row = (t.inodes[f].full_path, t.inodes[f].xet_hash->Some_0);
    let s = t.inodes[dir].children;
    let c = walk[1];
    let below = (height - 1) as nat;
    assert(t.inodes.contains_key(walk[0]));
    assert(model::is_child(t.inodes, walk[0], walk[0int + 1]));
    let i = choose|i: int| 0 <= i < s.len() && #[trigger] s[i].ino == c;
    let pick = |k: ChildModel| rename::clean_file(t, k);
    let own = s.filter_map(pick);
    let rest = rename::clean_files_below(t, s, below);
    let all = rename::clean_files(t, dir, height);
    assert(all == own + rest);
    assert(t.inodes.contains_key(c));
    if walk.len() == 2 {
        assert(f == c);
        model::lemma_picked(s, pick, i);
        let k = choose|k: int| 0 <= k < own.len() && own[k] == row;
        assert(all[k] == row);
    } else {
        let tail = walk.skip(1);
        assert(tail.last() == f);
        assert(model::is_walk(t.inodes, tail)) by {
            assert forall|j: int| 0 <= j < tail.len() implies t.inodes.contains_key(
                #[trigger] tail[j],
            ) by {
                assert(tail[j] == walk[j + 1]);
            }
            assert forall|j: int|
                #![trigger tail[j]]
                0 <= j < tail.len() - 1 implies model::is_child(
                t.inodes,
                tail[j],
                tail[j + 1],
            ) by {
                assert(tail[j] == walk[j + 1]);
                assert(model::is_child(t.inodes, walk[j + 1], walk[(j + 1) + 1]));
            }
        }
        assert(model::is_child(t.inodes, walk[1], walk[1int + 1]));
        assert(t.inodes[c].kind == InodeKind::Directory);
        assert(model::height_within(t.inodes, s[i].ino, below));
        lemma_file_is_sent(t, c, below, tail);
        lemma_below_has(t, s, below, i, row);
        let k = choose|k: int| 0 <= k < rest.len() && rest[k] == row;
        assert(all[own.len() + k] == row);
    }
}

/// The row stands for a clean file below `dir`.
spec fn is_row_of(t: TableModel, dir: u64, row: (Seq<char>, Seq<char>), f: u64) -> bool {
    &&& has_file(t, dir, f)
    &&& t.inodes[f].dirty_generation == 0
    &&& t.inodes[f].full_path == row.0
    &&& t.inodes[f].xet_hash == Some(row.1)
}

proof fn lemma_child_reached(t: TableModel, dir: u64, i: int, f: u64)
    requires
        t.inodes.contains_key(dir),
        0 <= i < t.inodes[dir].children.len(),
        model::reachable(t.inodes, set![t.inodes[dir].children[i].ino]).contains(f),
    ensures
        model::reachable(t.inodes, set![dir]).contains(f),
{
    let c = t.inodes[dir].children[i].ino;
    let walk = choose|walk: Seq<u64>| #[trigger]
        model::is_walk(t.inodes, walk) && set![c].contains(walk[0]) && walk.last() == f;
    let longer = seq![dir] + walk;
    assert(model::is_walk(t.inodes, longer)) by {
        assert forall|j: int| 0 <= j < longer.len() implies t.inodes.contains_key(
            #[trigger] longer[j],
        ) by {
            if j > 0 {
                assert(longer[j] == walk[j - 1]);
            }
        }
        assert forall|j: int|
            #![trigger longer[j]]
            0 <= j < longer.len() - 1 implies model::is_child(
            t.inodes,
            longer[j],
            longer[j + 1],
        ) by {
            if j > 0 {
                assert(longer[j] == walk[j - 1]);
                assert(model::is_child(t.inodes, walk[j - 1], walk[(j - 1) + 1]));
                assert(longer[j + 1] == walk[j]);
            } else {
                assert(longer[1] == walk[0]);
                assert(t.inodes[dir].children[i].ino == c);
            }
        }
    }
    assert(longer.last() == f);
    assert(set![dir].contains(longer[0]));
}

/// What is sent for a directory stands for a clean file below it.
proof fn lemma_sent_is_file(
    t: TableModel,
    dir: u64,
    height: nat,
    row: (Seq<char>, Seq<char>),
) -> (f: u64)
    requires
        rename::clean_files(t, dir, height).contains(row),
    ensures
        is_row_of(t, dir, row, f),
    decreases height, 0nat,
{
    let s = t.inodes[dir].children;
    let below = (height - 1) as nat;
    let pick = |k: ChildModel| rename::clean_file(t, k);
    let own = s.filter_map(pick);
    let rest = rename::clean_files_below(t, s, below);
    let all = rename::clean_files(t, dir, height);
    assert(height > 0 && t.inodes.contains_key(dir));
    assert(all == own + rest);
    let k = choose|k: int| 0 <= k < all.len() && all[k] == row;
    if k < own.len() {
        assert(own[k] == row);
        s.lemma_filter_map_contains(pick, row);
        let c = choose|c: ChildModel| #[trigger] s.contains(c) && pick(c) == Some(row);
        let i = choose|i: int| 0 <= i < s.len() && s[i] == c;
        assert(model::is_walk(t.inodes, seq![c.ino]));
        assert(set![c.ino].contains(seq![c.ino][0]));
        assert(seq![c.ino].last() == c.ino);
        lemma_child_reached(t, dir, i, c.ino);
        c.ino
    } else {
        assert(rest[k - own.len()] == row);
        lemma_below_is_file(t, dir, s.len(), below, row)
    }
}

proof fn lemma_below_is_file(
    t: TableModel,
    dir: u64,
    n: nat,
    height: nat,
    row: (Seq<char>, Seq<char>),
) -> (f: u64)
    requires
        t.inodes.contains_key(dir),
        n <= t.inodes[dir].children.len(),
        rename::clean_files_below(t, t.inodes[dir].children.take(n as int), height).contains(row)
            || (n == t.inodes[dir].children.len() && rename::clean_files_below(
            t,
            t.inodes[dir].children,
            height,
        ).contains(row)),
    ensures
        is_row_of(t, dir, row, f),
    decreases height, n + 1,
{
    let s = t.inodes[dir].children;
    assert(s.take(s.len() as int) =~= s);
    let here = s.take(n as int);
    let all = rename::clean_files_below(t, here, height);
    assert(n > 0);
    let c = here.last();
    let own = if t.inodes.contains_key(c.ino) && t.inodes[c.ino].kind == InodeKind::Directory {
        rename::clean_files(t, c.ino, height)
    } else {
        Seq::empty()
    };
    let low = rename::clean_files_below(t, here.drop_last(), height);
    assert(here.drop_last() =~= s.take(n - 1));
    assert(all == own + low);
    let k = choose|k: int| 0 <= k < all.len() && all[k] == row;
    if k < own.len() {
        assert(own[k] == row);
        let f = lemma_sent_is_file(t, c.ino, height, row);
        assert(s[n - 1] == c);
        lemma_child_reached(t, dir, n - 1, f);
        f
    } else {
        assert(low[k - own.len()] == row);
        lemma_below_is_file(t, dir, (n - 1) as nat, height, row)
    }
}

/// The files that the rename of a directory sends are the clean files with a hash that a walk down
/// from it leads to: all of them, and nothing else.
pub proof fn law_rename_sends_every_clean_file(
    t: TableModel,
    x: u64,
    newparent: u64,
    newname: Seq<char>,
    path: Seq<char>,
    hash: Seq<char>,
)
    requires
        tree::wf(t),
        t.inodes.contains_key(x),
        t.inodes[x].kind == InodeKind::Directory,
    ensures
        rename::rename_info(t, t.inodes[x], newparent, newname).descendant_files.contains(
            (path, hash),
        ) <==> exists|f: u64|
            #![trigger t.inodes[f]]
            model::reachable(t.inodes, set![x]).contains(f) && t.inodes[f].kind == InodeKind::File
                && t.inodes[f].dirty_generation == 0 && t.inodes[f].full_path == path
                && t.inodes[f].xet_hash == Some(hash),
{
    tree::law_no_cycles(t, x);
    assert(tree::entry_ok(t, x));
    let h = model::height_of(t.inodes, x);
    let row = (path, hash);
    let files = rename::rename_info(t, t.inodes[x], newparent, newname).descendant_files;
    assert(files == rename::clean_files(t, x, h));
    if files.contains(row) {
        let f = lemma_sent_is_file(t, x, h, row);
        assert(has_file(t, x, f));
    }
    if exists|f: u64|
        #![trigger t.inodes[f]]
        model::reachable(t.inodes, set![x]).contains(f) && t.inodes[f].kind == InodeKind::File
            && t.inodes[f].dirty_generation == 0 && t.inodes[f].full_path == path
            && t.inodes[f].xet_hash == Some(hash) {
        let f = choose|f: u64|
            #![trigger t.inodes[f]]
            model::reachable(t.inodes, set![x]).contains(f) && t.inodes[f].kind == InodeKind::File
                && t.inodes[f].dirty_generation == 0 && t.inodes[f].full_path == path
                && t.inodes[f].xet_hash == Some(hash);
        let walk = choose|walk: Seq<u64>| #[trigger]
            model::is_walk(t.inodes, walk) && set![x].contains(walk[0]) && walk.last() == f;
        assert forall|y: u64| #[trigger]
            t.inodes.contains_key(y) && t.inodes[y].kind
                != InodeKind::Directory implies t.inodes[y].children.len() == 0 by {
            assert(tree::entry_ok(t, y));
        }
        assert(walk.len() > 1);
        lemma_file_is_sent(t, x, h, walk);
    }
}

/// What a walk leads to is under the path of where it starts.
proof fn lemma_walk_prefix(t: TableModel, walk: Seq<u64>)
    requires
        tree::wf(t),
        model::is_walk(t.inodes, walk),
    ensures
        t.inodes[walk[0]].full_path.is_prefix_of(t.inodes[walk.last()].full_path),
    decreases walk.len(),
{
    if walk.len() > 1 {
        let n = walk.len() - 2;
        let front = walk.drop_last();
        lemma_front(t, walk);
        lemma_walk_prefix(t, front);
        let a = walk[n];
        let c = walk.last();
        assert(front.last() == a);
        assert(model::is_child(t.inodes, walk[n], walk[n + 1]));
        let i = choose|i: int|
            0 <= i < t.inodes[a].children.len() && #[trigger] t.inodes[a].children[i].ino == c;
        assert(tree::edge_ok(t, a, t.inodes[a].children[i]));
        assert(tree::place_ok(t, c));
    }
}

/// The rename of a clean file that the remote has adds its content under the new path and deletes
/// the old one. A file with local changes, or one that the remote lacks, is left to the next commit.
pub proof fn law_file_rename_moves_it(
    t: TableModel,
    x: u64,
    newparent: u64,
    newname: Seq<char>,
    mtime_ms: u64,
)
    requires
        t.inodes[x].kind != InodeKind::Directory,
    ensures
        ({
            let e = t.inodes[x];
            let ops = rename::rename_op_models(
                rename::rename_info(t, e, newparent, newname),
                mtime_ms,
            );
            let moves = e.kind == InodeKind::File && e.dirty_generation == 0 && e.xet_hash is Some;
            &&& ops is Some <==> moves
            &&& moves ==> ops->Some_0.len() == 2 && ops->Some_0.contains(
                OpModel::AddFile {
                    path: inode::spec_child_path(t.inodes[newparent].full_path, newname),
                    xet_hash: e.xet_hash->Some_0,
                    mtime: mtime_ms,
                    content_type: None,
                },
            ) && ops->Some_0.contains(OpModel::DeleteFile { path: e.full_path })
        }),
{
    let e = t.inodes[x];
    let ops = rename::rename_op_models(rename::rename_info(t, e, newparent, newname), mtime_ms);
    if ops is Some {
        assert(ops->Some_0[0] is AddFile && ops->Some_0[1] is DeleteFile);
        assert(ops->Some_0.contains(ops->Some_0[0]));
        assert(ops->Some_0.contains(ops->Some_0[1]));
    }
}

/// The file `f` is below `x`, clean, and the remote has it.
pub open spec fn moves_along(t: TableModel, x: u64, f: u64) -> bool {
    &&& model::reachable(t.inodes, set![x]).contains(f)
    &&& t.inodes[f].kind == InodeKind::File
    &&& t.inodes[f].dirty_generation == 0
    &&& t.inodes[f].xet_hash is Some
}

/// The rename of a directory adds every clean file below it that the remote has under its new path,
/// and deletes it under the old one. Nothing else is sent.
pub proof fn law_directory_rename_moves_every_file(
    t: TableModel,
    x: u64,
    newparent: u64,
    newname: Seq<char>,
    mtime_ms: u64,
)
    requires
        tree::wf(t),
        t.inodes.contains_key(x),
        t.inodes[x].kind == InodeKind::Directory,
    ensures
        ({
            let ops = rename::rename_op_models(
                rename::rename_info(t, t.inodes[x], newparent, newname),
                mtime_ms,
            );
            let old = t.inodes[x].full_path;
            let new = inode::spec_child_path(t.inodes[newparent].full_path, newname);
            &&& forall|f: u64|
                #![trigger t.inodes[f]]
                moves_along(t, x, f) ==> ops is Some && ops->Some_0.contains(
                    OpModel::AddFile {
                        path: new + t.inodes[f].full_path.skip(old.len() as int),
                        xet_hash: t.inodes[f].xet_hash->Some_0,
                        mtime: mtime_ms,
                        content_type: None,
                    },
                ) && ops->Some_0.contains(OpModel::DeleteFile { path: t.inodes[f].full_path })
            &&& forall|i: int|
                ops is Some && 0 <= i < ops->Some_0.len() ==> exists|f: u64|
                    #![trigger t.inodes[f]]
                    moves_along(t, x, f) && match #[trigger] ops->Some_0[i] {
                        OpModel::AddFile { path, xet_hash, mtime, content_type } => {
                            &&& path == new + t.inodes[f].full_path.skip(old.len() as int)
                            &&& t.inodes[f].xet_hash == Some(xet_hash)
                            &&& mtime == mtime_ms
                            &&& content_type is None
                        },
                        OpModel::DeleteFile { path } => path == t.inodes[f].full_path,
                    }
        }),
{
    let info = rename::rename_info(t, t.inodes[x], newparent, newname);
    let files = info.descendant_files;
    let ops = rename::rename_op_models(info, mtime_ms);
    let old = t.inodes[x].full_path;
    let new = inode::spec_child_path(t.inodes[newparent].full_path, newname);
    let n = files.len() as int;
    assert forall|f: u64|
        #![trigger t.inodes[f]]
        moves_along(t, x, f) implies ops is Some && ops->Some_0.contains(
        OpModel::AddFile {
            path: new + t.inodes[f].full_path.skip(old.len() as int),
            xet_hash: t.inodes[f].xet_hash->Some_0,
            mtime: mtime_ms,
            content_type: None,
        },
    ) && ops->Some_0.contains(OpModel::DeleteFile { path: t.inodes[f].full_path }) by {
        let path = t.inodes[f].full_path;
        let hash = t.inodes[f].xet_hash->Some_0;
        law_rename_sends_every_clean_file(t, x, newparent, newname, path, hash);
        let k = choose|k: int| 0 <= k < files.len() && files[k] == (path, hash);
        lemma_reached_prefix(t, x, f);
        let all = ops->Some_0;
        assert(all[k] == rename::add_op(info, files[k], mtime_ms));
        assert(all[n + k] == rename::delete_op(files[k]));
    }
    assert forall|i: int| ops is Some && 0 <= i < ops->Some_0.len() implies exists|f: u64|
        #![trigger t.inodes[f]]
        moves_along(t, x, f) && match #[trigger] ops->Some_0[i] {
            OpModel::AddFile { path, xet_hash, mtime, content_type } => {
                &&& path == new + t.inodes[f].full_path.skip(old.len() as int)
                &&& t.inodes[f].xet_hash == Some(xet_hash)
                &&& mtime == mtime_ms
                &&& content_type is None
            },
            OpModel::DeleteFile { path } => path == t.inodes[f].full_path,
        } by {
        let k = if i < n {
            i
        } else {
            i - n
        };
        let row = files[k];
        assert(files.contains(row));
        law_rename_sends_every_clean_file(t, x, newparent, newname, row.0, row.1);
        let f = choose|f: u64|
            #![trigger t.inodes[f]]
            model::reachable(t.inodes, set![x]).contains(f) && t.inodes[f].kind == InodeKind::File
                && t.inodes[f].dirty_generation == 0 && t.inodes[f].full_path == row.0
                && t.inodes[f].xet_hash == Some(row.1);
        lemma_reached_prefix(t, x, f);
        assert(moves_along(t, x, f));
        let op = ops->Some_0[i];
        if i < n {
            assert(op == rename::add_op(info, row, mtime_ms));
        } else {
            assert(op == rename::delete_op(row));
        }
    }
}

/// What a walk leads to is at or under the path of where it starts.
proof fn lemma_walk_under(t: TableModel, walk: Seq<u64>)
    requires
        tree::wf(t),
        model::is_walk(t.inodes, walk),
        t.inodes[walk[0]].full_path.len() > 0,
    ensures
        relocation::under(t.inodes[walk[0]].full_path, t.inodes[walk.last()].full_path),
    decreases walk.len(),
{
    if walk.len() > 1 {
        let n = walk.len() - 2;
        let front = walk.drop_last();
        lemma_front(t, walk);
        lemma_walk_under(t, front);
        let base = t.inodes[walk[0]].full_path;
        let a = walk[n];
        let c = walk.last();
        assert(front.last() == a);
        assert(model::is_child(t.inodes, walk[n], walk[n + 1]));
        let i = choose|i: int|
            0 <= i < t.inodes[a].children.len() && #[trigger] t.inodes[a].children[i].ino == c;
        assert(tree::edge_ok(t, a, t.inodes[a].children[i]));
        assert(tree::place_ok(t, c));
        let above = t.inodes[a].full_path;
        let path = t.inodes[c].full_path;
        assert(above.len() > 0);
        assert(path == above + seq!['/'] + t.inodes[c].name);
        if above == base {
            assert((base + seq!['/']).is_prefix_of(path));
        } else {
            let start = base + seq!['/'];
            assert(start.is_prefix_of(above));
            assert(path.take(start.len() as int) =~= above.take(start.len() as int));
            assert(start.is_prefix_of(path));
        }
    }
}

proof fn lemma_front(t: TableModel, walk: Seq<u64>)
    requires
        model::is_walk(t.inodes, walk),
        walk.len() > 1,
    ensures
        model::is_walk(t.inodes, walk.drop_last()),
{
    let front = walk.drop_last();
    assert forall|j: int| 0 <= j < front.len() implies t.inodes.contains_key(#[trigger] front[j]) by {
        assert(front[j] == walk[j]);
    }
    assert forall|j: int|
        #![trigger front[j]]
        0 <= j < front.len() - 1 implies model::is_child(t.inodes, front[j], front[j + 1]) by {
        assert(front[j] == walk[j]);
    }
}

/// `b` is `a` with more paths noted to be deleted, of files with changes that the remote has.
spec fn only_notes(a: TableModel, b: TableModel) -> bool {
    &&& forall|y: u64| #[trigger] b.inodes.contains_key(y) <==> a.inodes.contains_key(y)
    &&& forall|y: u64| #[trigger]
        b.inodes.contains_key(y) ==> b.inodes[y] == (EntryModel {
            pending_deletes: b.inodes[y].pending_deletes,
            ..a.inodes[y]
        })
    &&& forall|y: u64, p: Seq<char>|
        b.inodes.contains_key(y) && a.inodes[y].pending_deletes.contains(p)
            ==> #[trigger] b.inodes[y].pending_deletes.contains(p)
    &&& forall|y: u64| #[trigger]
        b.inodes.contains_key(y) && !is_changed_file(a.inodes[y]) ==> b.inodes[y].pending_deletes
            == a.inodes[y].pending_deletes
}

proof fn lemma_notes_add_up(a: TableModel, b: TableModel, c: TableModel)
    requires
        only_notes(a, b),
        only_notes(b, c),
    ensures
        only_notes(a, c),
{
    assert forall|y: u64| #[trigger] c.inodes.contains_key(y) implies c.inodes[y] == (EntryModel {
        pending_deletes: c.inodes[y].pending_deletes,
        ..a.inodes[y]
    }) by {
        assert(b.inodes.contains_key(y));
    }
    assert forall|y: u64| #[trigger]
        c.inodes.contains_key(y) && !is_changed_file(a.inodes[y]) implies c.inodes[y].pending_deletes
        == a.inodes[y].pending_deletes by {
        assert(b.inodes.contains_key(y));
    }
    assert forall|y: u64, p: Seq<char>|
        c.inodes.contains_key(y) && a.inodes[y].pending_deletes.contains(p) implies #[trigger] c.inodes[y].pending_deletes.contains(
    p) by {
        assert(b.inodes[y].pending_deletes.contains(p));
    }
}

proof fn lemma_delete_noted(t: TableModel, ino: u64, path: Seq<char>)
    requires
        t.inodes.contains_key(ino) ==> is_changed_file(t.inodes[ino]),
    ensures
        only_notes(t, rename::delete_noted(t, ino, path)),
        t.inodes.contains_key(ino) ==> rename::delete_noted(
            t,
            ino,
            path,
        ).inodes[ino].pending_deletes.contains(path),
{
    let r = rename::delete_noted(t, ino, path);
    if t.inodes.contains_key(ino) {
        let old = t.inodes[ino].pending_deletes;
        assert(r.inodes[ino].pending_deletes == old.push(path));
        assert(old.push(path)[old.len() as int] == path);
        assert forall|p: Seq<char>| old.contains(p) implies #[trigger] old.push(path).contains(p) by {
            let k = choose|k: int| 0 <= k < old.len() && old[k] == p;
            assert(old.push(path)[k] == p);
        }
    }
}

/// The file has changes, and the remote has it.
pub open spec fn is_changed_file(e: EntryModel) -> bool {
    e.kind == InodeKind::File && e.dirty_generation > 0 && e.xet_hash is Some
}

proof fn lemma_files_noted(t: TableModel, s: Seq<ChildModel>)
    ensures
        only_notes(t, rename::files_noted(t, s)),
        forall|i: int|
            #![trigger s[i]]
            0 <= i < s.len() && t.inodes.contains_key(s[i].ino) && is_changed_file(
                t.inodes[s[i].ino],
            ) ==> rename::files_noted(t, s).inodes[s[i].ino].pending_deletes.contains(
                t.inodes[s[i].ino].full_path,
            ),
    decreases s.len(),
{
    if s.len() > 0 {
        let front = s.drop_last();
        let low = rename::files_noted(t, front);
        let r = rename::files_noted(t, s);
        lemma_files_noted(t, front);
        let x = s.last().ino;
        if low.inodes.contains_key(x) && is_changed_file(low.inodes[x]) {
            lemma_delete_noted(low, x, low.inodes[x].full_path);
            lemma_notes_add_up(t, low, r);
        }
        assert forall|i: int|
            #![trigger s[i]]
            0 <= i < s.len() && t.inodes.contains_key(s[i].ino) && is_changed_file(
                t.inodes[s[i].ino],
            ) implies r.inodes[s[i].ino].pending_deletes.contains(
            t.inodes[s[i].ino].full_path,
        ) by {
            assert(low.inodes.contains_key(s[i].ino));
            assert(r.inodes.contains_key(s[i].ino));
            if i < front.len() {
                assert(front[i] == s[i]);
                assert(low.inodes[s[i].ino].pending_deletes.contains(
                    t.inodes[s[i].ino].full_path,
                ));
            }
        }
    }
}

proof fn lemma_below_noted(t: TableModel, dir: u64, height: nat)
    ensures
        only_notes(t, rename::below_noted(t, dir, height)),
    decreases height, 0nat,
{
    if height > 0 && t.inodes.contains_key(dir) {
        let s = t.inodes[dir].children;
        let first = rename::files_noted(t, s);
        lemma_files_noted(t, s);
        lemma_subdirs_noted(first, s, (height - 1) as nat);
        lemma_notes_add_up(t, first, rename::below_noted(t, dir, height));
    }
}

proof fn lemma_subdirs_noted(t: TableModel, s: Seq<ChildModel>, height: nat)
    ensures
        only_notes(t, rename::subdirs_noted(t, s, height)),
    decreases height, s.len(),
{
    if s.len() > 0 {
        let x = s.last().ino;
        let high = if t.inodes.contains_key(x) && t.inodes[x].kind == InodeKind::Directory {
            rename::below_noted(t, x, height)
        } else {
            t
        };
        lemma_below_noted(t, x, height);
        lemma_subdirs_noted(high, s.drop_last(), height);
        lemma_notes_add_up(t, high, rename::subdirs_noted(t, s, height));
    }
}

proof fn lemma_same_walk(a: TableModel, b: TableModel, walk: Seq<u64>)
    requires
        only_notes(a, b),
        model::is_walk(a.inodes, walk),
    ensures
        model::is_walk(b.inodes, walk),
{
    assert forall|j: int|
        #![trigger walk[j]]
        0 <= j < walk.len() - 1 implies model::is_child(b.inodes, walk[j], walk[j + 1]) by {
        assert(model::is_child(a.inodes, walk[j], walk[j + 1]));
        let x = walk[j];
        let i = choose|i: int|
            0 <= i < a.inodes[x].children.len() && #[trigger] a.inodes[x].children[i].ino == walk[j
                + 1];
        assert(b.inodes.contains_key(x));
        assert(b.inodes[x].children[i].ino == walk[j + 1]);
    }
    assert forall|j: int| 0 <= j < walk.len() implies b.inodes.contains_key(#[trigger] walk[j]) by {
        assert(a.inodes.contains_key(walk[j]));
    }
}

spec fn only_dirs_have_children(t: TableModel) -> bool {
    forall|x: u64| #[trigger]
        t.inodes.contains_key(x) && t.inodes[x].kind != InodeKind::Directory
            ==> t.inodes[x].children.len() == 0
}

/// The path of a changed file at the end of a walk is noted when the directory it starts from is
/// renamed.
proof fn lemma_change_is_noted(t: TableModel, dir: u64, height: nat, walk: Seq<u64>)
    requires
        model::height_within(t.inodes, dir, height),
        model::is_walk(t.inodes, walk),
        walk[0] == dir,
        walk.len() > 1,
        only_dirs_have_children(t),
        is_changed_file(t.inodes[walk.last()]),
    ensures
        rename::below_noted(t, dir, height).inodes[walk.last()].pending_deletes.contains(
            t.inodes[walk.last()].full_path,
        ),
    decreases height, 0nat,
{
    let f = walk.last();
    let s = t.inodes[dir].children;
    let c = walk[1];
    let below = (height - 1) as nat;
    assert(t.inodes.contains_key(walk[0]));
    assert(model::is_child(t.inodes, walk[0], walk[0int + 1]));
    let i = choose|i: int| 0 <= i < s.len() && #[trigger] s[i].ino == c;
    let first = rename::files_noted(t, s);
    let r = rename::below_noted(t, dir, height);
    lemma_files_noted(t, s);
    lemma_subdirs_noted(first, s, below);
    assert(t.inodes.contains_key(c));
    assert(t.inodes.contains_key(walk[walk.len() - 1]));
    assert(first.inodes.contains_key(f) && r.inodes.contains_key(f));
    if walk.len() == 2 {
        assert(first.inodes[s[i].ino].pending_deletes.contains(t.inodes[s[i].ino].full_path));
        assert(r.inodes[f].pending_deletes.contains(t.inodes[f].full_path));
    } else {
        let tail = walk.skip(1);
        assert(tail.last() == f);
        assert(model::is_walk(t.inodes, tail)) by {
            assert forall|j: int| 0 <= j < tail.len() implies t.inodes.contains_key(
                #[trigger] tail[j],
            ) by {
                assert(tail[j] == walk[j + 1]);
            }
            assert forall|j: int|
                #![trigger tail[j]]
                0 <= j < tail.len() - 1 implies model::is_child(
                t.inodes,
                tail[j],
                tail[j + 1],
            ) by {
                assert(tail[j] == walk[j + 1]);
                assert(model::is_child(t.inodes, walk[j + 1], walk[(j + 1) + 1]));
            }
        }
        assert(model::is_child(t.inodes, walk[1], walk[1int + 1]));
        assert(t.inodes[c].kind == InodeKind::Directory);
        assert(model::height_within(t.inodes, s[i].ino, below));
        model::lemma_height_shape(t.inodes, first.inodes, c, below);
        lemma_same_walk(t, first, tail);
        assert(first.inodes.contains_key(s[i].ino));
        assert(only_dirs_have_children(first)) by {
            assert forall|y: u64| #[trigger]
                first.inodes.contains_key(y) && first.inodes[y].kind
                    != InodeKind::Directory implies first.inodes[y].children.len() == 0 by {
                assert(t.inodes.contains_key(y));
            }
        }
        lemma_subdir_is_noted(first, s, below, i, tail);
    }
}

proof fn lemma_subdir_is_noted(
    t: TableModel,
    s: Seq<ChildModel>,
    height: nat,
    i: int,
    walk: Seq<u64>,
)
    requires
        0 <= i < s.len(),
        model::height_within(t.inodes, s[i].ino, height),
        t.inodes.contains_key(s[i].ino),
        t.inodes[s[i].ino].kind == InodeKind::Directory,
        model::is_walk(t.inodes, walk),
        walk[0] == s[i].ino,
        walk.len() > 1,
        only_dirs_have_children(t),
        is_changed_file(t.inodes[walk.last()]),
    ensures
        rename::subdirs_noted(t, s, height).inodes[walk.last()].pending_deletes.contains(
            t.inodes[walk.last()].full_path,
        ),
    decreases height, s.len(),
{
    let f = walk.last();
    let x = s.last().ino;
    let high = if t.inodes.contains_key(x) && t.inodes[x].kind == InodeKind::Directory {
        rename::below_noted(t, x, height)
    } else {
        t
    };
    let r = rename::subdirs_noted(t, s, height);
    lemma_below_noted(t, x, height);
    lemma_subdirs_noted(high, s.drop_last(), height);
    assert(t.inodes.contains_key(walk[walk.len() - 1]));
    assert(high.inodes.contains_key(f) && r.inodes.contains_key(f));
    if i == s.len() - 1 {
        lemma_change_is_noted(t, x, height, walk);
        assert(high.inodes[f].pending_deletes.contains(t.inodes[f].full_path));
        assert(r.inodes[f].pending_deletes.contains(t.inodes[f].full_path));
    } else {
        let c = s[i].ino;
        assert(s.drop_last()[i] == s[i]);
        assert(high.inodes.contains_key(c));
        model::lemma_height_shape(t.inodes, high.inodes, c, height);
        lemma_same_walk(t, high, walk);
        assert(only_dirs_have_children(high)) by {
            assert forall|y: u64| #[trigger]
                high.inodes.contains_key(y) && high.inodes[y].kind
                    != InodeKind::Directory implies high.inodes[y].children.len() == 0 by {
                assert(t.inodes.contains_key(y));
            }
        }
        lemma_subdir_is_noted(high, s.drop_last(), height, i, walk);
    }
}

/// Rewriting paths changes nothing but paths.
proof fn lemma_repathed_fields(t: TableModel, ino: u64, path: Seq<char>, height: nat)
    ensures
        only_paths(t, t.repathed(ino, path, height)),
    decreases height, 0nat,
{
    if height > 0 && t.inodes.contains_key(ino) {
        lemma_children_repathed_fields(
            t.path_set(ino, path),
            t.inodes[ino].children,
            t.inodes[ino].full_path,
            path,
            (height - 1) as nat,
        );
        let r = t.repathed(ino, path, height);
        assert forall|y: u64| #[trigger] r.inodes.contains_key(y) implies r.inodes[y] == (
        EntryModel { full_path: r.inodes[y].full_path, ..t.inodes[y] }) by {
            assert(t.path_set(ino, path).inodes.contains_key(y));
        }
    }
}

proof fn lemma_children_repathed_fields(
    t: TableModel,
    s: Seq<ChildModel>,
    from: Seq<char>,
    path: Seq<char>,
    height: nat,
)
    ensures
        only_paths(t, t.children_repathed(s, from, path, height)),
    decreases height, s.len(),
{
    if s.len() > 0 {
        lemma_children_repathed_fields(t, s.drop_last(), from, path, height);
        let rest = t.children_repathed(s.drop_last(), from, path, height);
        let r = t.children_repathed(s, from, path, height);
        if rest.is_placed(s.last(), from) {
            lemma_repathed_fields(
                rest,
                s.last().ino,
                inode::spec_child_path(path, s.last().name),
                height,
            );
            assert forall|y: u64| #[trigger] r.inodes.contains_key(y) implies r.inodes[y] == (
            EntryModel { full_path: r.inodes[y].full_path, ..t.inodes[y] }) by {
                assert(rest.inodes.contains_key(y));
            }
        }
    }
}

spec fn only_paths(a: TableModel, b: TableModel) -> bool {
    &&& forall|y: u64| #[trigger] b.inodes.contains_key(y) <==> a.inodes.contains_key(y)
    &&& forall|y: u64| #[trigger]
        b.inodes.contains_key(y) ==> b.inodes[y] == (EntryModel {
            full_path: b.inodes[y].full_path,
            ..a.inodes[y]
        })
}

/// Once a file with changes that the remote has is renamed, alone or with a directory it is in, its
/// old path is noted to be deleted, and so its next commit does: it adds the file under the new
/// path and deletes the old one. What was noted before is not forgotten, and the changes are kept.
#[verifier::rlimit(40)]
pub proof fn law_renamed_changes_delete_their_old_path(
    t: TableModel,
    parent: u64,
    name: Seq<char>,
    newparent: u64,
    newname: Seq<char>,
    no_replace: bool,
    now: Timestamp,
    f: u64,
    hash: Seq<char>,
    mtime_ms: u64,
)
    requires
        relocation::checked_rename(t, parent, name, newparent, newname, no_replace),
        model::reachable(t.inodes, set![t.child_named(parent, name)->Some_0]).contains(f),
        t.inodes[f].kind == InodeKind::File,
        t.inodes[f].dirty_generation > 0,
        t.inodes[f].xet_hash is Some,
    ensures
        ({
            let x = t.child_named(parent, name)->Some_0;
            let target = t.child_named(newparent, newname);
            let info = rename::rename_info(t, t.inodes[x], newparent, newname);
            let r = rename::renamed(t, info, target, parent, name, newparent, newname, now);
            let e = r.inodes[f];
            let ops = streaming::commit_models(e.full_path, hash, mtime_ms, e.pending_deletes);
            &&& r.inodes.contains_key(f)
            &&& e.dirty_generation == t.inodes[f].dirty_generation
            &&& e.xet_hash == t.inodes[f].xet_hash
            &&& e.size == t.inodes[f].size
            &&& ops.contains(OpModel::DeleteFile { path: t.inodes[f].full_path })
            &&& ops.contains(
                OpModel::AddFile {
                    path: inode::spec_child_path(t.inodes[newparent].full_path, newname)
                        + t.inodes[f].full_path.skip(t.inodes[x].full_path.len() as int),
                    xet_hash: hash,
                    mtime: mtime_ms,
                    content_type: None,
                },
            )
            &&& forall|p: Seq<char>| #[trigger]
                t.inodes[f].pending_deletes.contains(p) ==> ops.contains(
                    OpModel::DeleteFile { path: p },
                )
        }),
{
    let x = t.child_named(parent, name)->Some_0;
    let target = t.child_named(newparent, newname);
    let info = rename::rename_info(t, t.inodes[x], newparent, newname);
    let r = rename::renamed(t, info, target, parent, name, newparent, newname, now);
    relocation::lemma_named(t, parent, name);
    relocation::lemma_ready_to_move(t, parent, name, newparent, newname, no_replace, now);
    relocation::law_rename_keeps_wf(t, parent, name, newparent, newname, no_replace, now);
    let g = relocation::ready_to_move(t, info, target, newparent, newname, now);
    assert(tree::place_ok(t, x));
    assert(!relocation::under(t.inodes[x].full_path, t.inodes[newparent].full_path));
    let walk = choose|walk: Seq<u64>| #[trigger]
        model::is_walk(t.inodes, walk) && set![x].contains(walk[0]) && walk.last() == f;
    let cleared = rename::target_removed(t, target, newparent, newname, now);
    lemma_way_is_clear(t, x, parent, name, newparent, newname, no_replace, now, walk);
    let base = rename::rename_base(t, info, target, newparent, newname, now);
    assert(cleared.inodes[walk[walk.len() - 1]] == t.inodes[walk[walk.len() - 1]]);
    assert(cleared.inodes.contains_key(f) && cleared.inodes[f] == t.inodes[f]);
    if t.inodes[x].kind == InodeKind::Directory {
        let h = model::height_of(base.inodes, x);
        assert(walk.len() > 1);
        assert(only_dirs_have_children(base)) by {
            relocation::lemma_target_removed(t, x, newparent, newname, now);
            assert forall|y: u64| #[trigger]
                base.inodes.contains_key(y) && base.inodes[y].kind
                    != InodeKind::Directory implies base.inodes[y].children.len() == 0 by {
                assert(tree::entry_ok(base, y));
            }
        }
        lemma_change_is_noted(base, x, h, walk);
        lemma_below_noted(base, x, h);
    } else {
        assert(walk.len() == 1) by {
            if walk.len() > 1 {
                assert(model::is_child(t.inodes, walk[0], walk[0int + 1]));
                assert(tree::entry_ok(t, x));
            }
        }
        assert(f == x);
        lemma_delete_noted(cleared, x, info.old_path);
    }
    assert(g.inodes.contains_key(f));
    assert(g.inodes[f].pending_deletes.contains(t.inodes[f].full_path));
    assert(r == put_elsewhere(g, info, parent, name, newparent, newname, now));
    assert(g.inodes.contains_key(parent));
    lemma_put_elsewhere(g, info, parent, name, newparent, newname, now, f);
    let e = r.inodes[f];
    assert(e.pending_deletes == g.inodes[f].pending_deletes);
    law_commit_sends_file_and_deletes(
        e.full_path,
        hash,
        mtime_ms,
        e.pending_deletes,
        t.inodes[f].full_path,
    );
    lemma_walk_under(t, walk);
    lemma_walk_linked(t, walk);
    assert(tree::linked(r.inodes[f]));
    assert forall|p: Seq<char>| #[trigger]
        t.inodes[f].pending_deletes.contains(p) implies streaming::commit_models(
        e.full_path,
        hash,
        mtime_ms,
        e.pending_deletes,
    ).contains(OpModel::DeleteFile { path: p }) by {
        assert(g.inodes[f].pending_deletes.contains(p));
        law_commit_sends_file_and_deletes(e.full_path, hash, mtime_ms, e.pending_deletes, p);
    }
}

/// What a walk comes by after its start is part of the tree.
proof fn lemma_walk_linked(t: TableModel, walk: Seq<u64>)
    requires
        tree::wf(t),
        model::is_walk(t.inodes, walk),
        tree::linked(t.inodes[walk[0]]),
    ensures
        forall|j: int| 0 <= j < walk.len() ==> tree::linked(t.inodes[#[trigger] walk[j]]),
{
    assert forall|j: int| 0 <= j < walk.len() implies tree::linked(t.inodes[#[trigger] walk[j]]) by {
        if j > 0 {
            assert(model::is_child(t.inodes, walk[j - 1], walk[(j - 1) + 1]));
            let a = walk[j - 1];
            let i = choose|i: int|
                0 <= i < t.inodes[a].children.len() && #[trigger] t.inodes[a].children[i].ino
                    == walk[j];
            assert(tree::edge_ok(t, a, t.inodes[a].children[i]));
        }
    }
}

/// What is in the way of a rename goes without touching what is renamed.
proof fn lemma_way_is_clear(
    t: TableModel,
    x: u64,
    parent: u64,
    name: Seq<char>,
    newparent: u64,
    newname: Seq<char>,
    no_replace: bool,
    now: Timestamp,
    walk: Seq<u64>,
)
    requires
        relocation::checked_rename(t, parent, name, newparent, newname, no_replace),
        t.child_named(parent, name) == Some(x),
        !relocation::under(t.inodes[x].full_path, t.inodes[newparent].full_path),
        model::is_walk(t.inodes, walk),
        walk[0] == x,
    ensures
        ({
            let target = t.child_named(newparent, newname);
            let r = rename::target_removed(t, target, newparent, newname, now);
            &&& tree::wf(r)
            &&& model::is_walk(r.inodes, walk)
            &&& forall|j: int|
                0 <= j < walk.len() ==> r.inodes[#[trigger] walk[j]] == t.inodes[walk[j]]
        }),
{
    let target = t.child_named(newparent, newname);
    let r = rename::target_removed(t, target, newparent, newname, now);
    relocation::lemma_named(t, parent, name);
    assert(tree::place_ok(t, x));
    lemma_walk_linked(t, walk);
    if target is Some {
        relocation::lemma_named(t, newparent, newname);
    }
    assert forall|j: int| 0 <= j < walk.len() implies r.inodes.contains_key(#[trigger] walk[j])
        && r.inodes[walk[j]] == t.inodes[walk[j]] && tree::wf(r) by {
        let z = walk[j];
        let part = walk.take(j + 1);
        lemma_part(t, walk, j + 1);
        assert(part.last() == z);
        lemma_walk_under(t, part);
        assert(z != newparent);
        if let Some(y) = target {
            if y == z && j > 0 {
                assert(model::is_child(t.inodes, walk[j - 1], walk[(j - 1) + 1]));
                let a = walk[j - 1];
                let i = choose|i: int|
                    0 <= i < t.inodes[a].children.len() && #[trigger] t.inodes[a].children[i].ino
                        == z;
                assert(tree::edge_ok(t, a, t.inodes[a].children[i]));
                assert(a == newparent);
                let before = walk.take(j);
                lemma_part(t, walk, j);
                assert(before.last() == a);
                lemma_walk_under(t, before);
                assert(false);
            }
            assert(tree::entry_ok(t, y));
        }
        relocation::lemma_target_removed(t, z, newparent, newname, now);
    }
    assert(r.inodes[walk[0]] == t.inodes[walk[0]]);
    assert forall|j: int|
        #![trigger walk[j]]
        0 <= j < walk.len() - 1 implies model::is_child(r.inodes, walk[j], walk[j + 1]) by {
        assert(model::is_child(t.inodes, walk[j], walk[j + 1]));
        let a = walk[j];
        let i = choose|i: int|
            0 <= i < t.inodes[a].children.len() && #[trigger] t.inodes[a].children[i].ino == walk[j
                + 1];
        assert(r.inodes[a].children[i].ino == walk[j + 1]);
    }
}

proof fn lemma_part(t: TableModel, walk: Seq<u64>, n: int)
    requires
        model::is_walk(t.inodes, walk),
        0 < n <= walk.len(),
    ensures
        model::is_walk(t.inodes, walk.take(n)),
        walk.take(n)[0] == walk[0],
{
    let part = walk.take(n);
    assert forall|j: int| 0 <= j < part.len() implies t.inodes.contains_key(#[trigger] part[j]) by {
        assert(part[j] == walk[j]);
    }
    assert forall|j: int|
        #![trigger part[j]]
        0 <= j < part.len() - 1 implies model::is_child(t.inodes, part[j], part[j + 1]) by {
        assert(part[j] == walk[j]);
    }
}

proof fn lemma_reached_prefix(t: TableModel, x: u64, f: u64)
    requires
        tree::wf(t),
        model::reachable(t.inodes, set![x]).contains(f),
    ensures
        t.inodes[x].full_path.is_prefix_of(t.inodes[f].full_path),
{
    let walk = choose|walk: Seq<u64>| #[trigger]
        model::is_walk(t.inodes, walk) && set![x].contains(walk[0]) && walk.last() == f;
    lemma_walk_prefix(t, walk);
}

/// A commit sends the file under its own path with the content that was uploaded, and deletes the
/// paths that are noted on it: each of them, and no other.
pub proof fn law_commit_sends_file_and_deletes(
    path: Seq<char>,
    hash: Seq<char>,
    mtime_ms: u64,
    deletes: Seq<Seq<char>>,
    gone: Seq<char>,
)
    ensures
        ({
            let ops = streaming::commit_models(path, hash, mtime_ms, deletes);
            &&& ops.contains(OpModel::DeleteFile { path: gone }) <==> deletes.contains(gone)
            &&& ops.contains(
                OpModel::AddFile { path, xet_hash: hash, mtime: mtime_ms, content_type: None },
            )
            &&& forall|i: int|
                0 <= i < ops.len() && #[trigger] ops[i] is AddFile ==> i == 0 && ops[i]
                    == (OpModel::AddFile {
                    path,
                    xet_hash: hash,
                    mtime: mtime_ms,
                    content_type: None,
                })
        }),
{
    let ops = streaming::commit_models(path, hash, mtime_ms, deletes);
    let del = OpModel::DeleteFile { path: gone };
    assert(ops[0] is AddFile);
    if ops.contains(del) {
        let i = choose|i: int| 0 <= i < ops.len() && ops[i] == del;
        assert(deletes[i - 1] == gone);
    }
    if deletes.contains(gone) {
        let i = choose|i: int| 0 <= i < deletes.len() && deletes[i] == gone;
        assert(ops[i + 1] == del);
    }
}

/// What makes up an entry, apart from its place in the tree, its links, its times and the paths
/// noted on it.
pub open spec fn same_inside(a: EntryModel, b: EntryModel) -> bool {
    &&& a.inode == b.inode
    &&& a.kind == b.kind
    &&& a.size == b.size
    &&& a.xet_hash == b.xet_hash
    &&& a.etag == b.etag
    &&& a.dirty_generation == b.dirty_generation
    &&& a.staging_is_current == b.staging_is_current
    &&& a.symlink_target == b.symlink_target
    &&& a.mode == b.mode
    &&& a.uid == b.uid
    &&& a.gid == b.gid
    &&& a.atime == b.atime
    &&& a.children_loaded == b.children_loaded
    &&& a.last_revalidated == b.last_revalidated
    &&& a.eviction == b.eviction
}

/// Making way for a rename touches nothing but what is in the way.
proof fn lemma_way_made(
    t: TableModel,
    newparent: u64,
    newname: Seq<char>,
    now: Timestamp,
    z: u64,
)
    requires
        tree::wf(t),
        t.inodes.contains_key(newparent),
        t.inodes[newparent].kind == InodeKind::Directory,
        t.inodes.contains_key(z),
        t.child_named(newparent, newname) matches Some(y) ==> t.inodes[y].children.len() == 0,
    ensures
        ({
            let target = t.child_named(newparent, newname);
            let r = rename::target_removed(t, target, newparent, newname, now);
            match target {
                Some(y) => {
                    let open = t.inodes[y].kind != InodeKind::Directory
                        && t.inodes[y].eviction.open_handles > 0;
                    &&& z != y ==> r.inodes.contains_key(z) && same_inside(t.inodes[z], r.inodes[z])
                    &&& z != y && z != newparent ==> r.inodes[z] == t.inodes[z]
                    &&& z != y ==> r.inodes[z].pending_deletes == t.inodes[z].pending_deletes
                        && r.inodes[z].mtime == t.inodes[z].mtime
                    &&& r.inodes.contains_key(y) <==> open
                    &&& open ==> r.inodes[y] == (EntryModel { nlink: 0, ctime: now, ..t.inodes[y] })
                },
                None => r == t,
            }
        }),
{
    let target = t.child_named(newparent, newname);
    if let Some(y) = target {
        relocation::lemma_named(t, newparent, newname);
        let e = t.inodes[y];
        assert(tree::entry_ok(t, y));
        if e.kind == InodeKind::Directory {
            let rest = t.without(y).detached(e.parent, y, e.kind, false);
            let starts = model::child_inos(e.children);
            assert forall|v: u64| !(#[trigger] t.descendants(y).contains(v)) by {
                if t.descendants(y).contains(v) {
                    let walk = choose|walk: Seq<u64>| #[trigger]
                        model::is_walk(rest.inodes, walk) && starts.contains(walk[0])
                            && walk.last() == v;
                    assert(starts.contains(walk[0]));
                }
            }
        } else {
            let s = t.inodes[newparent].children;
            tree::lemma_first_named(s, newname);
            tree::lemma_first_live(t.inodes, s, newname);
            let i = choose|i: int|
                0 <= i < s.len() && (#[trigger] s[i]).ino == y && s[i].name == newname;
            assert(s[i].name == newname);
            let k = model::first_named(s, newname)->Some_0;
            assert(tree::edge_ok(t, newparent, t.inodes[newparent].children[k]));
            assert(tree::place_ok(t, s[k].ino));
            assert(t.unlink_target(newparent, newname) == Some(y));
        }
    }
}

/// The table once an inode that may be moved has been.
spec fn put_elsewhere(
    g: TableModel,
    info: RenameModel,
    parent: u64,
    name: Seq<char>,
    newparent: u64,
    newname: Seq<char>,
    now: Timestamp,
) -> TableModel {
    let done = TableModel { paths: g.paths.remove(info.old_path), ..g }.moved(
        info.ino,
        parent,
        name,
        newparent,
        newname,
    ).subtree_repathed(info.ino, info.new_full_path);
    namespace::dir_touched(
        namespace::dir_touched(done, parent, now),
        newparent,
        now,
    ).updated(info.ino, |e: EntryModel| EntryModel { ctime: now, ..e })
}

/// Moving an inode changes no content.
proof fn lemma_put_elsewhere(
    g: TableModel,
    info: RenameModel,
    parent: u64,
    name: Seq<char>,
    newparent: u64,
    newname: Seq<char>,
    now: Timestamp,
    z: u64,
)
    requires
        g.inodes.contains_key(parent),
        g.inodes.contains_key(newparent),
        g.inodes.contains_key(info.ino),
        g.inodes[parent].kind == InodeKind::Directory,
        g.inodes[newparent].kind == InodeKind::Directory,
    ensures
        ({
            let r = put_elsewhere(g, info, parent, name, newparent, newname, now);
            &&& r.inodes.contains_key(z) <==> g.inodes.contains_key(z)
            &&& g.inodes.contains_key(z) ==> {
                &&& same_inside(g.inodes[z], r.inodes[z])
                &&& r.inodes[z].pending_deletes == g.inodes[z].pending_deletes
                &&& g.inodes[z].kind != InodeKind::Directory ==> r.inodes[z].nlink
                    == g.inodes[z].nlink
                &&& r.inodes[z].mtime == if z == parent || z == newparent {
                    now
                } else {
                    g.inodes[z].mtime
                }
                &&& z == info.ino ==> r.inodes[z].ctime == now
            }
        }),
{
    let m = TableModel { paths: g.paths.remove(info.old_path), ..g }.moved(
        info.ino,
        parent,
        name,
        newparent,
        newname,
    );
    let h = model::height_of(m.inodes, info.ino);
    lemma_repathed_fields(m, info.ino, info.new_full_path, h);
    let done = m.repathed(info.ino, info.new_full_path, h);
    assert(m.inodes.contains_key(z) <==> g.inodes.contains_key(z));
    assert(done.inodes.contains_key(z) <==> m.inodes.contains_key(z));
}

/// A rename changes the place of what is renamed, and the content of nothing. What was in its way is
/// gone, unless it is a file that is open: that stays for its handles. Both directories are dated.
#[verifier::rlimit(40)]
pub proof fn law_rename_changes_no_content(
    t: TableModel,
    parent: u64,
    name: Seq<char>,
    newparent: u64,
    newname: Seq<char>,
    no_replace: bool,
    now: Timestamp,
    z: u64,
)
    requires
        relocation::checked_rename(t, parent, name, newparent, newname, no_replace),
        t.inodes.contains_key(z),
    ensures
        ({
            let x = t.child_named(parent, name)->Some_0;
            let target = t.child_named(newparent, newname);
            let info = rename::rename_info(t, t.inodes[x], newparent, newname);
            let r = rename::renamed(t, info, target, parent, name, newparent, newname, now);
            let open = t.inodes[z].kind != InodeKind::Directory
                && t.inodes[z].eviction.open_handles > 0;
            &&& target != Some(z) ==> r.inodes.contains_key(z)
            &&& target == Some(z) ==> (r.inodes.contains_key(z) <==> open)
            &&& target == Some(z) && open ==> r.inodes[z].nlink == 0
            &&& r.inodes.contains_key(z) ==> same_inside(t.inodes[z], r.inodes[z])
            &&& target != Some(z) && t.inodes[z].kind != InodeKind::Directory ==> r.inodes[z].nlink
                == t.inodes[z].nlink
            &&& r.inodes.contains_key(z) && !is_changed_file(t.inodes[z])
                ==> r.inodes[z].pending_deletes == t.inodes[z].pending_deletes
            &&& r.inodes.contains_key(z) && z != parent && z != newparent ==> r.inodes[z].mtime
                == t.inodes[z].mtime
            &&& r.inodes[parent].mtime == now
            &&& r.inodes[newparent].mtime == now
            &&& r.inodes[x].ctime == now
            &&& rename::replaced_goes(t, target, newparent, newname, now) <==> target is Some
                && t.inodes[target->Some_0].kind != InodeKind::Directory
                && t.inodes[target->Some_0].eviction.open_handles == 0
        }),
{
    let x = t.child_named(parent, name)->Some_0;
    let target = t.child_named(newparent, newname);
    let info = rename::rename_info(t, t.inodes[x], newparent, newname);
    let r = rename::renamed(t, info, target, parent, name, newparent, newname, now);
    relocation::lemma_named(t, parent, name);
    relocation::lemma_ready_to_move(t, parent, name, newparent, newname, no_replace, now);
    relocation::law_rename_keeps_wf(t, parent, name, newparent, newname, no_replace, now);
    if target is Some {
        relocation::lemma_named(t, newparent, newname);
        assert(tree::entry_ok(t, target->Some_0));
    }
    lemma_way_made(t, newparent, newname, now, z);
    lemma_way_made(t, newparent, newname, now, x);
    lemma_way_made(t, newparent, newname, now, parent);
    lemma_way_made(t, newparent, newname, now, newparent);
    let cleared = rename::target_removed(t, target, newparent, newname, now);
    let base = rename::rename_base(t, info, target, newparent, newname, now);
    if is_changed_file(t.inodes[x]) {
        lemma_delete_noted(cleared, x, info.old_path);
    }
    assert(only_notes(cleared, base));
    let g = relocation::ready_to_move(t, info, target, newparent, newname, now);
    if info.kind == InodeKind::Directory {
        let h = model::height_of(base.inodes, x);
        lemma_below_noted(base, x, h);
        lemma_notes_add_up(cleared, base, g);
    }
    assert(only_notes(cleared, g));
    assert(g.inodes.contains_key(parent) && g.inodes.contains_key(newparent)
        && g.inodes.contains_key(x));
    assert(r == put_elsewhere(g, info, parent, name, newparent, newname, now));
    lemma_put_elsewhere(g, info, parent, name, newparent, newname, now, z);
    lemma_put_elsewhere(g, info, parent, name, newparent, newname, now, parent);
    lemma_put_elsewhere(g, info, parent, name, newparent, newname, now, newparent);
    lemma_put_elsewhere(g, info, parent, name, newparent, newname, now, x);
}

/// What is called `name` can be renamed exactly if it is there, the new directory is known and not
/// the same or below it, and nothing is called `newname` that it may not replace. A file replaces a
/// file, and a directory an empty directory, unless nothing may be replaced.
pub proof fn law_what_can_be_renamed(
    t: TableModel,
    parent: u64,
    name: Seq<char>,
    newparent: u64,
    newname: Seq<char>,
    no_replace: bool,
)
    requires
        tree::wf(t),
        t.inodes.contains_key(newparent) ==> t.inodes[newparent].kind == InodeKind::Directory,
    ensures
        ({
            let r = rename::rename_check(t, parent, name, newparent, newname, no_replace);
            match t.child_named(parent, name) {
                None => r == Err::<(), Errno>(Errno::ENOENT),
                Some(x) => {
                    let from_dir = t.inodes[x].kind == InodeKind::Directory;
                    let known = t.inodes.contains_key(newparent);
                    let inside = from_dir && known && model::reachable(
                        t.inodes,
                        set![x],
                    ).contains(newparent);
                    let ready = known && !inside;
                    &&& r == Err::<(), Errno>(Errno::ENOENT) <==> !known
                    &&& r == Err::<(), Errno>(Errno::EINVAL) <==> inside
                    &&& match t.child_named(newparent, newname) {
                        None => r is Ok <==> ready,
                        Some(y) => {
                            let to_dir = t.inodes[y].kind == InodeKind::Directory;
                            let full = t.inodes[y].children.len() > 0;
                            let fits = from_dir == to_dir && !(to_dir && full);
                            &&& r is Ok <==> ready && !no_replace && fits
                            &&& ready && no_replace ==> r == Err::<(), Errno>(Errno::EEXIST)
                            &&& ready && !no_replace && !from_dir && to_dir ==> r == Err::<
                                (),
                                Errno,
                            >(Errno::EISDIR)
                            &&& ready && !no_replace && from_dir && !to_dir ==> r == Err::<
                                (),
                                Errno,
                            >(Errno::ENOTDIR)
                            &&& ready && !no_replace && from_dir && to_dir && full ==> r == Err::<
                                (),
                                Errno,
                            >(Errno::ENOTEMPTY)
                        },
                    }
                },
            }
        }),
{
    if let Some(x) = t.child_named(parent, name) {
        relocation::lemma_named(t, parent, name);
        if t.inodes.contains_key(newparent) {
            if rename::is_above(t, newparent, x) {
                let n = choose|n: nat| rename::climb_hits(t, newparent, x, n);
                lemma_climb_is_walk(t, newparent, x, n);
            }
            if model::reachable(t.inodes, set![x]).contains(newparent) {
                let walk = choose|walk: Seq<u64>| #[trigger]
                    model::is_walk(t.inodes, walk) && set![x].contains(walk[0]) && walk.last()
                        == newparent;
                assert(walk[0] == x);
                lemma_walk_is_climb(t, walk);
            }
        }
    }
}

/// A rename that the remote has carried out is refused if what is renamed is gone meanwhile, or if it
/// may not replace what has come to be in its new place. There is nothing to do if it is there
/// already.
pub proof fn law_what_is_renamed_in_the_end(
    t: TableModel,
    info: RenameModel,
    newparent: u64,
    newname: Seq<char>,
    no_replace: bool,
)
    requires
        tree::wf(t),
    ensures
        ({
            let plan = rename::apply_plan(t, info, newparent, newname, no_replace);
            let from_dir = info.kind == InodeKind::Directory;
            if !t.inodes.contains_key(info.ino) {
                plan == rename::ApplyPlan::Refused(Errno::ENOENT)
            } else {
                match t.child_named(newparent, newname) {
                    None => plan == rename::ApplyPlan::Go(None),
                    Some(y) => {
                        let to_dir = t.inodes[y].kind == InodeKind::Directory;
                        let full = t.inodes[y].children.len() > 0;
                        let fits = from_dir == to_dir && !(to_dir && full);
                        &&& y == info.ino ==> plan == rename::ApplyPlan::Same
                        &&& y != info.ino && !no_replace && fits ==> plan
                            == rename::ApplyPlan::Go(Some(y))
                        &&& y != info.ino && (no_replace || !fits) ==> plan is Refused
                        &&& y != info.ino && no_replace ==> plan == rename::ApplyPlan::Refused(
                            Errno::EEXIST,
                        )
                    },
                }
            }
        }),
{
    if t.child_named(newparent, newname) is Some {
        relocation::lemma_named(t, newparent, newname);
    }
}

/// What is known of a rename is what is renamed, as it is, and the path that follows from its new
/// place.
pub proof fn law_renames_know_what_they_move(
    t: TableModel,
    x: u64,
    newparent: u64,
    newname: Seq<char>,
)
    requires
        tree::wf(t),
        t.inodes.contains_key(x),
    ensures
        ({
            let info = rename::rename_info(t, t.inodes[x], newparent, newname);
            let dir = t.inodes[newparent].full_path;
            &&& info.ino == x
            &&& info.old_path == t.inodes[x].full_path
            &&& info.kind == t.inodes[x].kind
            &&& info.xet_hash == t.inodes[x].xet_hash
            &&& info.is_dirty <==> t.inodes[x].dirty_generation > 0
            &&& dir.len() > 0 ==> info.new_full_path == dir + seq!['/'] + newname
            &&& dir.len() == 0 ==> info.new_full_path == newname
            &&& info.kind != InodeKind::Directory ==> info.descendant_files.len() == 0
        }),
{
    assert(tree::entry_ok(t, x));
}

/// Going up from a directory arrives where a walk down comes from.
proof fn lemma_climb_is_walk(t: TableModel, a: u64, x: u64, n: nat)
    requires
        tree::wf(t),
        t.inodes.contains_key(a),
        t.inodes[a].kind == InodeKind::Directory,
        rename::climb_hits(t, a, x, n),
    ensures
        model::reachable(t.inodes, set![x]).contains(a),
    decreases n,
{
    if n == 0 {
        model::lemma_reachable_start(t.inodes, set![x], x);
    } else {
        let up = t.inodes[a].parent;
        assert(tree::place_ok(t, a));
        lemma_climb_is_walk(t, up, x, (n - 1) as nat);
        let walk = choose|walk: Seq<u64>| #[trigger]
            model::is_walk(t.inodes, walk) && set![x].contains(walk[0]) && walk.last() == up;
        let longer = walk.push(a);
        assert forall|i: int| 0 <= i < longer.len() implies t.inodes.contains_key(
            #[trigger] longer[i],
        ) by {
            if i < walk.len() {
                assert(longer[i] == walk[i]);
            }
        }
        assert forall|i: int|
            #![trigger longer[i]]
            0 <= i < longer.len() - 1 implies model::is_child(
            t.inodes,
            longer[i],
            longer[i + 1],
        ) by {
            assert(longer[i] == walk[i]);
            if i < walk.len() - 1 {
                assert(longer[i + 1] == walk[i + 1]);
            }
        }
        assert(model::is_walk(t.inodes, longer));
        assert(longer[0] == walk[0] && longer.last() == a);
    }
}

/// A walk down from below the root is a way up.
proof fn lemma_walk_is_climb(t: TableModel, walk: Seq<u64>)
    requires
        tree::wf(t),
        model::is_walk(t.inodes, walk),
        walk[0] != ROOT_INODE,
    ensures
        rename::climb_hits(t, walk.last(), walk[0], (walk.len() - 1) as nat),
    decreases walk.len(),
{
    let n = walk.len() - 1;
    if n > 0 {
        let front = walk.drop_last();
        lemma_front(t, walk);
        lemma_walk_is_climb(t, front);
        assert(model::is_child(t.inodes, walk[n - 1], walk[(n - 1) + 1]));
        let a = walk[n - 1];
        let i = choose|i: int|
            0 <= i < t.inodes[a].children.len() && #[trigger] t.inodes[a].children[i].ino
                == walk[n];
        assert(tree::edge_ok(t, a, t.inodes[a].children[i]));
        assert(front.last() == a && front[0] == walk[0]);
    }
}

/// Content that storage has is sent as the file, if the file is still there: what is sent adds the
/// file under its own path with that content, and deletes each path that is noted on it.
pub proof fn law_stored_content_is_sent(
    t: TableModel,
    ino: u64,
    content: UploadInfo,
    mtime_ms: u64,
    step: CommitStep,
    path: Seq<char>,
)
    requires
        streaming::is_sent(t, ino, content, mtime_ms, step),
    ensures
        t.inodes.contains_key(ino) <==> step is Send,
        step matches CommitStep::Send { info, ops } ==> {
            let sent = hub_api::op_models(ops@);
            &&& info == content
            &&& sent.contains(
                OpModel::AddFile {
                    path: t.inodes[ino].full_path,
                    xet_hash: content.hash@,
                    mtime: mtime_ms,
                    content_type: None,
                },
            )
            &&& sent.contains(OpModel::DeleteFile { path })
                <==> t.inodes[ino].pending_deletes.contains(path)
        },
        !t.inodes.contains_key(ino) ==> step == CommitStep::Ended(Err(Errno::ENOENT)),
{
    if t.inodes.contains_key(ino) {
        law_commit_sends_file_and_deletes(
            t.inodes[ino].full_path,
            content.hash@,
            mtime_ms,
            t.inodes[ino].pending_deletes,
            path,
        );
    }
}

} // verus!
