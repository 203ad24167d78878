//! What holds of an inode table after any number of calls.
use crate::time::Timestamp;
use crate::virtual_fs::inode::{ChildModel, EntryModel, InodeKind, ROOT_INODE};
use crate::virtual_fs::model;
use crate::virtual_fs::model::{NewInode, TableModel};
use std::time::Instant;
use vstd::prelude::*;

verus! {

/// A call that changes an inode table.
pub enum TableCall {
    /// `insert`, at some time.
    Insert { new: NewInode, now: Timestamp, checked: Instant },
    /// `remove`.
    Remove { ino: u64 },
    /// `evict_if_safe`.
    Evict { ino: u64 },
    /// `evict_batch_if_safe`.
    EvictBatch { inos: Seq<u64> },
    /// `update_remote_file`.
    UpdateRemote {
        ino: u64,
        hash: Option<Seq<char>>,
        etag: Option<Seq<char>>,
        size: u64,
        mtime: Timestamp,
    },
    /// `unlink_one`, at some time.
    Unlink { parent: u64, name: Seq<char>, now: Timestamp },
    /// `remove_orphan`.
    RemoveOrphan { ino: u64 },
    /// `move_child`.
    Move { ino: u64, from: u64, old_name: Seq<char>, to: u64, new_name: Seq<char> },
    /// `update_subtree_paths`.
    Repath { ino: u64, path: Seq<char> },
    /// `insert_path`.
    InsertPath { path: Seq<char>, ino: u64 },
    /// `remove_path`.
    RemovePath { path: Seq<char> },
    /// `touch`.
    Touch { ino: u64 },
    /// A change through `get_mut`, or through a call that changes the fields of one entry.
    Edit { ino: u64, entry: EntryModel },
}

impl TableModel {
    /// The table after a call.
    pub open spec fn after(self, call: TableCall) -> TableModel {
        match call {
            TableCall::Insert { new, now, checked } => self.put(new, now, checked),
            TableCall::Remove { ino } => if self.inodes.contains_key(ino) {
                self.removed(ino)
            } else {
                self
            },
            TableCall::Evict { ino } => if self.inodes.contains_key(ino) && model::evictable(
                self.inodes[ino],
            ) {
                self.evicted(ino)
            } else {
                self
            },
            TableCall::EvictBatch { inos } => self.batch_evicted(self.batch(inos)),
            TableCall::UpdateRemote { ino, hash, etag, size, mtime } => if self.inodes.contains_key(
                ino,
            ) && !self.inodes[ino].dirty() {
                self.remote_updated(ino, hash, etag, size, mtime)
            } else {
                self
            },
            TableCall::Unlink { parent, name, now } => self.unlinked(parent, name, now),
            TableCall::RemoveOrphan { ino } => if self.inodes.contains_key(ino)
                && self.inodes[ino].nlink == 0 {
                self.without(ino)
            } else {
                self
            },
            TableCall::Move { ino, from, old_name, to, new_name } => self.moved(
                ino,
                from,
                old_name,
                to,
                new_name,
            ),
            TableCall::Repath { ino, path } => self.subtree_repathed(ino, path),
            TableCall::InsertPath { path, ino } => TableModel {
                paths: self.paths.insert(path, ino),
                ..self
            },
            TableCall::RemovePath { path } => TableModel { paths: self.paths.remove(path), ..self },
            TableCall::Touch { ino } => self.touched(ino),
            TableCall::Edit { ino, entry } => self.updated(ino, |e: EntryModel| entry),
        }
    }

    /// The table after some calls, one after the other.
    pub open spec fn after_all(self, calls: Seq<TableCall>) -> TableModel
        decreases calls.len(),
    {
        if calls.len() == 0 {
            self
        } else {
            self.after_all(calls.drop_last()).after(calls.last())
        }
    }
}

/// How many of the calls are insertions.
pub open spec fn insertions(calls: Seq<TableCall>) -> nat
    decreases calls.len(),
{
    if calls.len() == 0 {
        0
    } else {
        insertions(calls.drop_last()) + if calls.last() is Insert {
            1nat
        } else {
            0nat
        }
    }
}

/// How many inodes a table can be asked for before its numbers could run out.
pub const INSERTION_LIMIT: u64 = 0x8000_0000_0000_0000;

proof fn lemma_number_after(t: TableModel, call: TableCall)
    requires
        t.next_inode < u64::MAX,
    ensures
        t.next_inode <= t.after(call).next_inode,
        t.after(call).next_inode <= t.next_inode + if call is Insert {
            1int
        } else {
            0int
        },
{
    if let TableCall::Repath { ino, path } = call {
        t.lemma_repathed_shape(ino, path, model::height_of(t.inodes, ino));
    }
}

proof fn lemma_number_after_all(t: TableModel, calls: Seq<TableCall>)
    requires
        t.next_inode + insertions(calls) < u64::MAX,
    ensures
        t.next_inode <= t.after_all(calls).next_inode <= t.next_inode + insertions(calls),
    decreases calls.len(),
{
    if calls.len() > 0 {
        lemma_number_after_all(t, calls.drop_last());
        lemma_number_after(t.after_all(calls.drop_last()), calls.last());
    }
}

/// Inode numbers are never given out again: of two insertions into one table, each at a path that
/// was free then, the later one gets the greater number, whatever was called in between, and
/// neither gets that of the root.
pub proof fn law_numbers_are_not_reused(
    soft_limit: usize,
    before: Seq<TableCall>,
    first: NewInode,
    now: Timestamp,
    checked: Instant,
    between: Seq<TableCall>,
    second: Seq<char>,
)
    requires
        insertions(before) + insertions(between) + 2 < INSERTION_LIMIT,
        !TableModel::fresh(soft_limit).after_all(before).paths.contains_key(first.full_path),
        !TableModel::fresh(soft_limit).after_all(before).put(first, now, checked).after_all(
            between,
        ).paths.contains_key(second),
    ensures
        ({
            let a = TableModel::fresh(soft_limit).after_all(before);
            let b = a.put(first, now, checked).after_all(between);
            ROOT_INODE < a.insert_ino(first.full_path) < b.insert_ino(second)
        }),
{
    let start = TableModel::fresh(soft_limit);
    let a = start.after_all(before);
    lemma_number_after_all(start, before);
    lemma_number_after_all(a.put(first, now, checked), between);
}

/// Every number in the table has been given out.
pub open spec fn numbered(t: TableModel) -> bool {
    &&& forall|x: u64| #[trigger] t.inodes.contains_key(x) ==> x < t.next_inode
    &&& forall|x: u64, i: int|
        t.inodes.contains_key(x) && 0 <= i < t.inodes[x].children.len() ==> (
        #[trigger] t.inodes[x].children[i]).ino < t.next_inode
}

/// The inodes of the table and its paths are paired: each inode is filed under its number and found
/// under its path, and each path leads to the inode that has it.
pub open spec fn indexed(t: TableModel) -> bool {
    &&& forall|x: u64| #[trigger]
        t.inodes.contains_key(x) ==> t.inodes[x].inode == x && t.paths.contains_key(
            t.inodes[x].full_path,
        ) && t.paths[t.inodes[x].full_path] == x
    &&& forall|p: Seq<char>| #[trigger]
        t.paths.contains_key(p) ==> t.inodes.contains_key(t.paths[p])
            && t.inodes[t.paths[p]].full_path == p
}

/// A call that leaves the place of the inodes that stay as it is.
pub open spec fn in_place(call: TableCall) -> bool {
    call is Insert || call is Remove || call is Evict || call is EvictBatch || call is UpdateRemote
}

proof fn lemma_filtered(children: Seq<ChildModel>, keep: spec_fn(ChildModel) -> bool, limit: u64)
    requires
        forall|i: int| 0 <= i < children.len() ==> (#[trigger] children[i]).ino < limit,
    ensures
        forall|i: int|
            0 <= i < children.filter(keep).len() ==> (#[trigger] children.filter(keep)[i]).ino
                < limit,
    decreases children.len(),
{
    reveal(Seq::filter);
    if children.len() > 0 {
        lemma_filtered(children.drop_last(), keep, limit);
        let low = children.drop_last().filter(keep);
        assert forall|i: int| 0 <= i < children.filter(keep).len() implies (
        #[trigger] children.filter(keep)[i]).ino < limit by {
            if i < low.len() {
                assert(children.filter(keep)[i] == low[i]);
            }
        }
    }
}

/// Taking inodes out of a table, with their paths, and children off the lists of others.
proof fn lemma_taken_out(t: TableModel, r: TableModel, gone: Set<u64>)
    requires
        numbered(t),
        indexed(t),
        r.next_inode == t.next_inode,
        forall|x: u64| #[trigger]
            r.inodes.contains_key(x) <==> t.inodes.contains_key(x) && !gone.contains(x),
        forall|x: u64| #[trigger]
            r.inodes.contains_key(x) ==> r.inodes[x].inode == t.inodes[x].inode
                && r.inodes[x].full_path == t.inodes[x].full_path,
        forall|x: u64, i: int|
            r.inodes.contains_key(x) && 0 <= i < r.inodes[x].children.len() ==> (
            #[trigger] r.inodes[x].children[i]).ino < t.next_inode,
        forall|p: Seq<char>| #[trigger]
            r.paths.contains_key(p) <==> t.paths.contains_key(p) && !gone.contains(t.paths[p]),
        forall|p: Seq<char>| #[trigger] r.paths.contains_key(p) ==> r.paths[p] == t.paths[p],
    ensures
        numbered(r),
        indexed(r),
{
    assert forall|x: u64| #[trigger] r.inodes.contains_key(x) implies r.inodes[x].inode == x
        && r.paths.contains_key(r.inodes[x].full_path) && r.paths[r.inodes[x].full_path]
        == x by {
        assert(t.inodes.contains_key(x));
        let p = t.inodes[x].full_path;
        assert(t.paths.contains_key(p) && t.paths[p] == x);
        assert(r.paths.contains_key(p));
    }
    assert forall|p: Seq<char>| #[trigger] r.paths.contains_key(p) implies r.inodes.contains_key(
        r.paths[p],
    ) && r.inodes[r.paths[p]].full_path == p by {
        assert(t.paths.contains_key(p));
        assert(r.inodes.contains_key(t.paths[p]));
    }
}

proof fn lemma_insert_kept(t: TableModel, new: NewInode, now: Timestamp, checked: Instant)
    requires
        numbered(t),
        indexed(t),
        t.next_inode < u64::MAX,
    ensures
        numbered(t.put(new, now, checked)),
        indexed(t.put(new, now, checked)),
{
    let r = t.put(new, now, checked);
    if !t.paths.contains_key(new.full_path) {
        let n = t.next_inode;
        assert(!t.inodes.contains_key(n));
        assert forall|x: u64| #[trigger] r.inodes.contains_key(x) implies r.inodes[x].inode == x
            && r.paths.contains_key(r.inodes[x].full_path) && r.paths[r.inodes[x].full_path]
            == x by {
            if x != n {
                assert(t.inodes.contains_key(x));
            }
        }
        assert forall|p: Seq<char>| #[trigger]
            r.paths.contains_key(p) implies r.inodes.contains_key(r.paths[p])
            && r.inodes[r.paths[p]].full_path == p by {
            if p != new.full_path {
                assert(t.paths.contains_key(p));
            }
        }
        assert forall|x: u64, i: int|
            r.inodes.contains_key(x) && 0 <= i < r.inodes[x].children.len() implies (
        #[trigger] r.inodes[x].children[i]).ino < r.next_inode by {
            if x != n {
                assert(t.inodes.contains_key(x));
                if i < t.inodes[x].children.len() {
                    assert(r.inodes[x].children[i] == t.inodes[x].children[i]);
                }
            }
        }
    } else {
        let k = t.paths[new.full_path];
        assert forall|x: u64, i: int|
            r.inodes.contains_key(x) && 0 <= i < r.inodes[x].children.len() implies (
        #[trigger] r.inodes[x].children[i]).ino < r.next_inode by {
            assert(t.inodes.contains_key(x));
            assert(r.inodes[x].children[i] == t.inodes[x].children[i]);
        }
        assert forall|p: Seq<char>| #[trigger]
            r.paths.contains_key(p) implies r.inodes.contains_key(r.paths[p])
            && r.inodes[r.paths[p]].full_path == p by {
            assert(t.paths.contains_key(p));
        }
    }
}

proof fn lemma_detached_children(t: TableModel, ino: u64, kind: InodeKind, invalidate: bool)
    requires
        numbered(t),
        t.inodes.contains_key(ino),
    ensures
        ({
            let r = t.without(ino).detached(t.inodes[ino].parent, ino, kind, invalidate);
            forall|x: u64, i: int|
                r.inodes.contains_key(x) && 0 <= i < r.inodes[x].children.len() ==> (
                #[trigger] r.inodes[x].children[i]).ino < t.next_inode
        }),
{
    let p = t.inodes[ino].parent;
    let r = t.without(ino).detached(p, ino, kind, invalidate);
    assert forall|x: u64, i: int|
        r.inodes.contains_key(x) && 0 <= i < r.inodes[x].children.len() implies (
    #[trigger] r.inodes[x].children[i]).ino < t.next_inode by {
        assert(t.inodes.contains_key(x));
        assert forall|j: int| 0 <= j < t.inodes[x].children.len() implies (
        #[trigger] t.inodes[x].children[j]).ino < t.next_inode by {}
        lemma_filtered(t.inodes[x].children, |c: ChildModel| c.ino != ino, t.next_inode);
        if x != p {
            assert(r.inodes[x].children == t.inodes[x].children);
        } else {
            assert(r.inodes[x].children == model::without_child(t.inodes[x].children, ino));
        }
    }
}

proof fn lemma_remove_kept(t: TableModel, ino: u64)
    requires
        numbered(t),
        indexed(t),
        t.inodes.contains_key(ino),
    ensures
        numbered(t.removed(ino)),
        indexed(t.removed(ino)),
{
    let r = t.removed(ino);
    let kind = t.inodes[ino].kind;
    let rest = t.without(ino).detached(t.inodes[ino].parent, ino, kind, false);
    let below = t.descendants(ino);
    let gone = below.insert(ino);
    let lost = model::paths_of(rest.inodes, below);
    lemma_detached_children(t, ino, kind, false);
    assert forall|x: u64| #[trigger] below.contains(x) implies rest.inodes.contains_key(x) by {
        let walk = choose|walk: Seq<u64>| #[trigger]
            model::is_walk(rest.inodes, walk) && model::child_inos(
                t.inodes[ino].children,
            ).contains(walk[0]) && walk.last() == x;
        assert(rest.inodes.contains_key(walk[walk.len() - 1]));
    }
    assert forall|x: u64| #[trigger] r.inodes.contains_key(x) <==> t.inodes.contains_key(x)
        && !gone.contains(x) by {}
    assert forall|p: Seq<char>| #[trigger] r.paths.contains_key(p) <==> t.paths.contains_key(p)
        && !gone.contains(t.paths[p]) by {
        if t.paths.contains_key(p) {
            let x = t.paths[p];
            assert(t.inodes.contains_key(x));
            if x != ino && below.contains(x) {
                assert(rest.inodes[x].full_path == p);
                assert(lost.contains(p));
            }
            if lost.contains(p) {
                let y = choose|y: u64| #[trigger]
                    below.contains(y) && rest.inodes[y].full_path == p;
                assert(t.inodes.contains_key(y));
                assert(t.inodes[y].full_path == p);
            }
        }
    }
    assert forall|x: u64, i: int|
        r.inodes.contains_key(x) && 0 <= i < r.inodes[x].children.len() implies (
    #[trigger] r.inodes[x].children[i]).ino < t.next_inode by {
        assert(rest.inodes.contains_key(x));
        assert(rest.inodes[x].children[i] == r.inodes[x].children[i]);
    }
    lemma_taken_out(t, r, gone);
}

proof fn lemma_evict_kept(t: TableModel, ino: u64)
    requires
        numbered(t),
        indexed(t),
        t.inodes.contains_key(ino),
    ensures
        numbered(t.evicted(ino)),
        indexed(t.evicted(ino)),
{
    let r = t.evicted(ino);
    lemma_detached_children(t, ino, InodeKind::File, true);
    assert forall|p: Seq<char>| #[trigger] r.paths.contains_key(p) <==> t.paths.contains_key(p)
        && !Set::<u64>::empty().insert(ino).contains(t.paths[p]) by {
        if t.paths.contains_key(p) {
            assert(t.inodes.contains_key(t.paths[p]));
        }
    }
    lemma_taken_out(t, r, Set::<u64>::empty().insert(ino));
}

proof fn lemma_batch_kept(t: TableModel, inos: Seq<u64>)
    requires
        numbered(t),
        indexed(t),
    ensures
        numbered(t.batch_evicted(t.batch(inos))),
        indexed(t.batch_evicted(t.batch(inos))),
{
    let gone = t.batch(inos);
    let r = t.batch_evicted(gone);
    let lost = model::paths_of(t.inodes, gone);
    assert forall|x: u64, i: int|
        r.inodes.contains_key(x) && 0 <= i < r.inodes[x].children.len() implies (
    #[trigger] r.inodes[x].children[i]).ino < t.next_inode by {
        assert(t.inodes.contains_key(x));
        assert forall|j: int| 0 <= j < t.inodes[x].children.len() implies (
        #[trigger] t.inodes[x].children[j]).ino < t.next_inode by {}
        lemma_filtered(
            t.inodes[x].children,
            |c: ChildModel| !(gone.contains(c.ino) && t.inodes[c.ino].parent == x),
            t.next_inode,
        );
        assert(r.inodes[x] == t.pruned(x, gone));
    }
    assert forall|p: Seq<char>| #[trigger] r.paths.contains_key(p) <==> t.paths.contains_key(p)
        && !gone.contains(t.paths[p]) by {
        if t.paths.contains_key(p) {
            let x = t.paths[p];
            assert(t.inodes.contains_key(x));
            if gone.contains(x) {
                assert(lost.contains(p));
            }
            if lost.contains(p) {
                let y = choose|y: u64| #[trigger] gone.contains(y) && t.inodes[y].full_path == p;
                assert(t.inodes.contains_key(y));
            }
        }
    }
    lemma_taken_out(t, r, gone);
}

proof fn lemma_call_kept(t: TableModel, call: TableCall)
    requires
        numbered(t),
        indexed(t),
        in_place(call),
        t.next_inode < u64::MAX,
    ensures
        numbered(t.after(call)),
        indexed(t.after(call)),
{
    match call {
        TableCall::Insert { new, now, checked } => {
            lemma_insert_kept(t, new, now, checked);
        },
        TableCall::Remove { ino } => {
            if t.inodes.contains_key(ino) {
                lemma_remove_kept(t, ino);
            }
        },
        TableCall::Evict { ino } => {
            if t.inodes.contains_key(ino) {
                lemma_evict_kept(t, ino);
            }
        },
        TableCall::EvictBatch { inos } => {
            lemma_batch_kept(t, inos);
        },
        _ => {
            let r = t.after(call);
            assert forall|x: u64, i: int|
                r.inodes.contains_key(x) && 0 <= i < r.inodes[x].children.len() implies (
            #[trigger] r.inodes[x].children[i]).ino < t.next_inode by {
                assert(t.inodes.contains_key(x));
                assert(r.inodes[x].children[i] == t.inodes[x].children[i]);
            }
            assert forall|p: Seq<char>| #[trigger] r.paths.contains_key(p) <==> t.paths.contains_key(p)
                && !Set::<u64>::empty().contains(t.paths[p]) by {}
            lemma_taken_out(t, r, Set::empty());
        },
    }
}

/// Paths and inodes stay paired, whatever is inserted, removed, evicted and updated.
pub proof fn law_paths_and_inodes_are_paired(soft_limit: usize, calls: Seq<TableCall>)
    requires
        forall|i: int| 0 <= i < calls.len() ==> in_place(#[trigger] calls[i]),
        insertions(calls) < INSERTION_LIMIT,
    ensures
        indexed(TableModel::fresh(soft_limit).after_all(calls)),
        numbered(TableModel::fresh(soft_limit).after_all(calls)),
    decreases calls.len(),
{
    let start = TableModel::fresh(soft_limit);
    if calls.len() > 0 {
        let low = calls.drop_last();
        assert forall|i: int| 0 <= i < low.len() implies in_place(#[trigger] low[i]) by {
            assert(calls[i] == low[i]);
        }
        law_paths_and_inodes_are_paired(soft_limit, low);
        lemma_number_after_all(start, low);
        assert(in_place(calls[calls.len() - 1]));
        lemma_call_kept(start.after_all(low), calls.last());
    }
}

/// Removing what was just inserted gives back the inodes and the paths there were before.
pub proof fn law_remove_undoes_insert(
    t: TableModel,
    new: NewInode,
    now: Timestamp,
    checked: Instant,
)
    requires
        numbered(t),
        t.inodes.contains_key(new.parent),
        !t.paths.contains_key(new.full_path),
        new.kind == InodeKind::Directory ==> t.inodes[new.parent].nlink < u32::MAX,
    ensures
        ({
            let ino = t.insert_ino(new.full_path);
            let a = t.put(new, now, checked);
            let e = a.inodes[ino];
            &&& a.inodes.contains_key(ino)
            &&& e.inode == ino && e.name == new.name && e.full_path == new.full_path
            &&& a.removed(ino).inodes == t.inodes
            &&& a.removed(ino).paths == t.paths
        }),
{
    let ino = t.next_inode;
    let a = t.put(new, now, checked);
    let p = new.parent;
    assert(!t.inodes.contains_key(ino));
    assert(a.descendants(ino) =~= Set::empty());
    let children = t.inodes[p].children;
    let longer = children.push(ChildModel { ino, name: new.name });
    let keep = |c: ChildModel| c.ino != ino;
    assert(a.inodes[p].children == longer);
    assert(longer.filter(keep) == children) by {
        reveal(Seq::filter);
        assert(longer.drop_last() =~= children);
        lemma_all_kept(children, keep);
    }
    let rest = a.without(ino).detached(p, ino, new.kind, false);
    assert(rest.inodes[p] == t.inodes[p]);
    assert(a.removed(ino).inodes =~= t.inodes);
    assert(model::paths_of(rest.inodes, a.descendants(ino)) =~= Set::empty());
    assert(a.removed(ino).paths =~= t.paths);
}

proof fn lemma_all_kept(children: Seq<ChildModel>, keep: spec_fn(ChildModel) -> bool)
    requires
        forall|i: int| 0 <= i < children.len() ==> keep(#[trigger] children[i]),
    ensures
        children.filter(keep) == children,
    decreases children.len(),
{
    reveal(Seq::filter);
    if children.len() > 0 {
        lemma_all_kept(children.drop_last(), keep);
        assert(children.drop_last().push(children.last()) =~= children);
    }
}

} // verus!
