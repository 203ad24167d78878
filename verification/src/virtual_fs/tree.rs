//! What holds of every inode table that the filesystem builds, and that each operation keeps it.
use crate::time::Timestamp;
use crate::virtual_fs::inode;
use crate::virtual_fs::inode::{ChildModel, EntryModel, InodeKind, ROOT_INODE};
use crate::virtual_fs::model;
use crate::virtual_fs::model::{NewInode, TableModel};
use std::time::Instant;
use vstd::prelude::*;

verus! {

/// A name that can stand in a directory.
pub open spec fn good_name(name: Seq<char>) -> bool {
    name.len() > 0 && !name.contains('/')
}

/// The inode is part of the tree. A file or symlink without a link is only kept for those who have
/// it open.
pub open spec fn linked(e: EntryModel) -> bool {
    e.kind == InodeKind::Directory || e.nlink > 0
}

/// An entry on its own: it is filed under its number, which has been given out, and only a directory
/// has children.
pub open spec fn entry_ok(t: TableModel, x: u64) -> bool {
    let e = t.inodes[x];
    &&& e.inode == x
    &&& x < t.next_inode
    &&& e.kind != InodeKind::Directory ==> e.children.len() == 0 && e.nlink <= 1
}

/// A child of a directory is in the table, and knows its parent and its name.
pub open spec fn edge_ok(t: TableModel, x: u64, c: ChildModel) -> bool {
    &&& t.inodes.contains_key(c.ino)
    &&& c.ino != ROOT_INODE
    &&& t.inodes[c.ino].parent == x
    &&& t.inodes[c.ino].name == c.name
    &&& linked(t.inodes[c.ino])
}

/// What is part of the tree is listed by its parent, has the path that follows from that, and is
/// found under it.
pub open spec fn place_ok(t: TableModel, x: u64) -> bool {
    let e = t.inodes[x];
    &&& good_name(e.name)
    &&& t.inodes.contains_key(e.parent)
    &&& t.inodes[e.parent].kind == InodeKind::Directory
    &&& model::is_child(t.inodes, e.parent, x)
    &&& e.full_path == inode::spec_child_path(t.inodes[e.parent].full_path, e.name)
    &&& t.paths.contains_key(e.full_path)
    &&& t.paths[e.full_path] == x
}

/// A path leads to an inode of the tree that is at that path.
pub open spec fn path_ok(t: TableModel, p: Seq<char>) -> bool {
    &&& t.inodes.contains_key(t.paths[p])
    &&& t.inodes[t.paths[p]].full_path == p
    &&& linked(t.inodes[t.paths[p]])
}

/// No child is listed twice.
pub open spec fn no_duplicates(children: Seq<ChildModel>) -> bool {
    forall|i: int, j: int|
        0 <= i < j < children.len() ==> (#[trigger] children[i]).ino != (#[trigger] children[j]).ino
}

/// The table is a tree, and its index of paths fits it.
pub open spec fn wf(t: TableModel) -> bool {
    &&& t.inodes.dom().finite()
    &&& t.inodes.contains_key(ROOT_INODE)
    &&& t.inodes[ROOT_INODE].kind == InodeKind::Directory
    &&& t.inodes[ROOT_INODE].full_path == Seq::<char>::empty()
    &&& t.paths.contains_key(Seq::<char>::empty())
    &&& t.paths[Seq::<char>::empty()] == ROOT_INODE
    &&& forall|x: u64| #[trigger] t.inodes.contains_key(x) ==> entry_ok(t, x)
    &&& forall|x: u64| #[trigger]
        t.inodes.contains_key(x) ==> no_duplicates(t.inodes[x].children)
    &&& forall|x: u64, i: int|
        t.inodes.contains_key(x) && 0 <= i < t.inodes[x].children.len() ==> edge_ok(
            t,
            x,
            #[trigger] t.inodes[x].children[i],
        )
    &&& forall|x: u64| #[trigger]
        t.inodes.contains_key(x) && x != ROOT_INODE && linked(t.inodes[x]) ==> place_ok(t, x)
    &&& forall|p: Seq<char>| #[trigger] t.paths.contains_key(p) ==> path_ok(t, p)
}

/// Two entries have the same place in the tree.
pub open spec fn same_place(a: EntryModel, b: EntryModel) -> bool {
    &&& a.inode == b.inode
    &&& a.parent == b.parent
    &&& a.name == b.name
    &&& a.full_path == b.full_path
    &&& a.kind == b.kind
    &&& a.children == b.children
    &&& linked(a) == linked(b)
    &&& a.kind != InodeKind::Directory && a.nlink <= 1 ==> b.nlink <= 1
}

/// Changing what does not concern the place of an inode keeps the tree as it is.
pub proof fn lemma_same_places(a: TableModel, b: TableModel)
    requires
        wf(a),
        forall|x: u64| #[trigger] b.inodes.contains_key(x) <==> a.inodes.contains_key(x),
        forall|x: u64| #[trigger]
            b.inodes.contains_key(x) ==> same_place(a.inodes[x], b.inodes[x]),
        a.paths == b.paths,
        a.next_inode == b.next_inode,
    ensures
        wf(b),
{
    assert(a.inodes.dom() =~= b.inodes.dom());
    assert forall|x: u64| #[trigger]
        b.inodes.contains_key(x) && x != ROOT_INODE && linked(b.inodes[x]) implies place_ok(
        b,
        x,
    ) by {
        assert(a.inodes.contains_key(x));
        assert(place_ok(a, x));
        let p = a.inodes[x].parent;
        assert(b.inodes.contains_key(p));
        assert(model::is_child(b.inodes, p, x)) by {
            let i = choose|i: int|
                0 <= i < a.inodes[p].children.len() && #[trigger] a.inodes[p].children[i].ino == x;
            assert(b.inodes[p].children[i].ino == x);
        }
    }
    assert forall|x: u64, i: int|
        b.inodes.contains_key(x) && 0 <= i < b.inodes[x].children.len() implies edge_ok(
        b,
        x,
        #[trigger] b.inodes[x].children[i],
    ) by {
        assert(a.inodes.contains_key(x));
        assert(edge_ok(a, x, a.inodes[x].children[i]));
    }
    assert forall|x: u64| #[trigger] b.inodes.contains_key(x) implies no_duplicates(
        b.inodes[x].children,
    ) by {
        assert(a.inodes.contains_key(x));
    }
    assert forall|p: Seq<char>| #[trigger] b.paths.contains_key(p) implies path_ok(b, p) by {
        assert(path_ok(a, p));
    }
    assert forall|x: u64| #[trigger] b.inodes.contains_key(x) implies entry_ok(b, x) by {
        assert(entry_ok(a, x));
    }
}

/// Updating one entry without moving it keeps the tree as it is.
pub proof fn lemma_updated_in_place(t: TableModel, x: u64, f: spec_fn(EntryModel) -> EntryModel)
    requires
        wf(t),
        t.inodes.contains_key(x) ==> same_place(t.inodes[x], f(t.inodes[x])),
    ensures
        wf(t.updated(x, f)),
{
    lemma_same_places(t, t.updated(x, f));
}

/// A fresh mount starts out well-formed.
pub proof fn law_fresh_table_is_wf(soft_limit: usize)
    ensures
        wf(TableModel::fresh(soft_limit)),
{
    let t = TableModel::fresh(soft_limit);
    assert(t.inodes.dom() =~= set![ROOT_INODE]);
}

/// What is put in a directory of the tree, under a name that it can have and a path that follows,
/// becomes part of the tree; a path that is known stays as it is.
pub proof fn law_put_keeps_wf(t: TableModel, new: NewInode, now: Timestamp, checked: Instant)
    requires
        wf(t),
        t.inodes.contains_key(new.parent),
        t.inodes[new.parent].kind == InodeKind::Directory,
        good_name(new.name),
        new.full_path == inode::spec_child_path(t.inodes[new.parent].full_path, new.name),
        t.next_inode < u64::MAX,
    ensures
        wf(t.put(new, now, checked)),
{
    if t.paths.contains_key(new.full_path) {
        lemma_updated_in_place(
            t,
            t.paths[new.full_path],
            |e: EntryModel| EntryModel { last_revalidated: Some(checked), ..e },
        );
    } else {
        let e = t.new_entry(new, now, checked);
        let ino = t.next_inode;
        let r = t.inserted(e);
        let p = new.parent;
        assert(!t.inodes.contains_key(ino)) by {
            if t.inodes.contains_key(ino) {
                assert(entry_ok(t, ino));
            }
        }
        let old_children = t.inodes[p].children;
        let new_children = old_children.push(ChildModel { ino, name: new.name });
        assert(r.inodes[p].children == new_children);
        assert(r.inodes[ino].children.len() == 0);
        assert(r.inodes.dom() =~= t.inodes.dom().insert(ino));
        assert forall|x: u64| #[trigger] r.inodes.contains_key(x) implies entry_ok(r, x) by {
            if x != ino {
                assert(entry_ok(t, x));
            }
        }
        assert forall|x: u64| #[trigger] r.inodes.contains_key(x) implies no_duplicates(
            r.inodes[x].children,
        ) by {
            if x == p {
                assert forall|i: int, j: int| 0 <= i < j < new_children.len() implies (
                #[trigger] new_children[i]).ino != (#[trigger] new_children[j]).ino by {
                    assert(edge_ok(t, p, old_children[i]));
                    assert(no_duplicates(old_children));
                    if j < old_children.len() {
                        assert(new_children[j] == old_children[j]);
                    }
                }
            }
        }
        assert forall|x: u64, i: int|
            r.inodes.contains_key(x) && 0 <= i < r.inodes[x].children.len() implies edge_ok(
            r,
            x,
            #[trigger] r.inodes[x].children[i],
        ) by {
            if x == p && i == old_children.len() {
            } else {
                assert(t.inodes[x].children[i] == r.inodes[x].children[i]);
                assert(edge_ok(t, x, t.inodes[x].children[i]));
            }
        }
        assert forall|x: u64| #[trigger]
            r.inodes.contains_key(x) && x != ROOT_INODE && linked(r.inodes[x]) implies place_ok(
            r,
            x,
        ) by {
            if x == ino {
                assert(r.inodes[p].children[old_children.len() as int].ino == ino);
            } else {
                assert(place_ok(t, x));
                let q = t.inodes[x].parent;
                let i = choose|i: int|
                    0 <= i < t.inodes[q].children.len() && #[trigger] t.inodes[q].children[i].ino
                        == x;
                assert(r.inodes[q].children[i].ino == x);
            }
        }
        assert forall|q: Seq<char>| #[trigger] r.paths.contains_key(q) implies path_ok(r, q) by {
            if q != new.full_path {
                assert(path_ok(t, q));
            }
        }
    }
}

/// What a filter of children keeps.
pub proof fn lemma_filtered(s: Seq<ChildModel>, keep: spec_fn(ChildModel) -> bool)
    ensures
        forall|i: int|
            0 <= i < s.filter(keep).len() ==> keep(#[trigger] s.filter(keep)[i]) && s.contains(
                s.filter(keep)[i],
            ),
        forall|i: int|
            0 <= i < s.len() && keep(#[trigger] s[i]) ==> s.filter(keep).contains(s[i]),
        no_duplicates(s) ==> no_duplicates(s.filter(keep)),
    decreases s.len(),
{
    reveal(Seq::filter);
    if s.len() > 0 {
        let low = s.drop_last();
        let f = s.filter(keep);
        let g = low.filter(keep);
        lemma_filtered(low, keep);
        assert forall|i: int| 0 <= i < f.len() implies keep(#[trigger] f[i]) && s.contains(
            f[i],
        ) by {
            if i < g.len() {
                assert(f[i] == g[i]);
                let j = choose|j: int| 0 <= j < low.len() && low[j] == g[i];
                assert(s[j] == f[i]);
            } else {
                assert(s[s.len() - 1] == f[i]);
            }
        }
        assert forall|i: int| 0 <= i < s.len() && keep(#[trigger] s[i]) implies f.contains(
            s[i],
        ) by {
            if i < low.len() {
                assert(low[i] == s[i]);
                let j = choose|j: int| 0 <= j < g.len() && g[j] == low[i];
                assert(f[j] == s[i]);
            } else {
                assert(f[g.len() as int] == s[i]);
            }
        }
        if no_duplicates(s) {
            assert forall|i: int, j: int| 0 <= i < j < low.len() implies (
            #[trigger] low[i]).ino != (#[trigger] low[j]).ino by {
                assert(s[i].ino != s[j].ino);
            }
            assert forall|i: int, j: int| 0 <= i < j < f.len() implies (#[trigger] f[i]).ino != (
            #[trigger] f[j]).ino by {
                assert(f[i] == g[i]);
                if j < g.len() {
                    assert(f[j] == g[j]);
                } else {
                    let k = choose|k: int| 0 <= k < low.len() && low[k] == g[i];
                    assert(s[k].ino != s[s.len() - 1].ino);
                }
            }
        }
    }
}

proof fn lemma_filter_nothing(s: Seq<ChildModel>, keep: spec_fn(ChildModel) -> bool)
    requires
        forall|i: int| 0 <= i < s.len() ==> keep(#[trigger] s[i]),
    ensures
        s.filter(keep) == s,
    decreases s.len(),
{
    reveal(Seq::filter);
    if s.len() > 0 {
        let low = s.drop_last();
        assert forall|i: int| 0 <= i < low.len() implies keep(#[trigger] low[i]) by {
            assert(low[i] == s[i]);
        }
        lemma_filter_nothing(low, keep);
        assert(keep(s[s.len() - 1]));
        assert(low.push(s.last()) =~= s);
    }
}

proof fn lemma_filter_same(
    s: Seq<ChildModel>,
    f: spec_fn(ChildModel) -> bool,
    g: spec_fn(ChildModel) -> bool,
)
    requires
        forall|i: int| 0 <= i < s.len() ==> f(#[trigger] s[i]) == g(s[i]),
    ensures
        s.filter(f) == s.filter(g),
    decreases s.len(),
{
    reveal(Seq::filter);
    if s.len() > 0 {
        let low = s.drop_last();
        assert forall|i: int| 0 <= i < low.len() implies f(#[trigger] low[i]) == g(low[i]) by {
            assert(low[i] == s[i]);
        }
        lemma_filter_same(low, f, g);
        assert(f(s[s.len() - 1]) == g(s[s.len() - 1]));
    }
}

/// Holds of the children that are not in `gone`.
pub open spec fn staying(gone: Set<u64>) -> spec_fn(ChildModel) -> bool {
    |c: ChildModel| !gone.contains(c.ino)
}

/// `r` is what is left of `t` without the inodes of `gone`, which hold everything below them.
pub open spec fn is_pruning(t: TableModel, r: TableModel, gone: Set<u64>) -> bool {
    &&& !gone.contains(ROOT_INODE)
    &&& forall|x: u64| #[trigger]
        r.inodes.contains_key(x) <==> t.inodes.contains_key(x) && !gone.contains(x)
    &&& forall|x: u64| #[trigger]
        r.inodes.contains_key(x) ==> same_place(
            t.inodes[x],
            (EntryModel { children: t.inodes[x].children, ..r.inodes[x] }),
        ) && r.inodes[x].children == t.inodes[x].children.filter(staying(gone))
    &&& forall|x: u64, i: int|
        gone.contains(x) && t.inodes.contains_key(x) && 0 <= i < t.inodes[x].children.len()
            ==> gone.contains((#[trigger] t.inodes[x].children[i]).ino)
    &&& forall|p: Seq<char>| #[trigger]
        r.paths.contains_key(p) <==> t.paths.contains_key(p) && !gone.contains(t.paths[p])
    &&& forall|p: Seq<char>| #[trigger] r.paths.contains_key(p) ==> r.paths[p] == t.paths[p]
    &&& r.next_inode == t.next_inode
}

proof fn lemma_pruning_keeps_wf(t: TableModel, r: TableModel, gone: Set<u64>)
    requires
        wf(t),
        is_pruning(t, r, gone),
    ensures
        wf(r),
{
    assert(r.inodes.dom().subset_of(t.inodes.dom())) by {
        assert forall|x: u64| r.inodes.dom().contains(x) implies t.inodes.dom().contains(x) by {
            assert(r.inodes.contains_key(x));
        }
    }
    vstd::set_lib::lemma_set_subset_finite(t.inodes.dom(), r.inodes.dom());
    assert forall|x: u64| #[trigger] r.inodes.contains_key(x) implies entry_ok(r, x) by {
        assert(entry_ok(t, x));
        lemma_filtered(t.inodes[x].children, staying(gone));
        if r.inodes[x].children.len() > 0 {
            assert(t.inodes[x].children.contains(r.inodes[x].children[0]));
        }
    }
    assert forall|x: u64| #[trigger] r.inodes.contains_key(x) implies no_duplicates(
        r.inodes[x].children,
    ) by {
        assert(t.inodes.contains_key(x));
        lemma_filtered(t.inodes[x].children, staying(gone));
    }
    assert forall|x: u64, i: int|
        r.inodes.contains_key(x) && 0 <= i < r.inodes[x].children.len() implies edge_ok(
        r,
        x,
        #[trigger] r.inodes[x].children[i],
    ) by {
        assert(t.inodes.contains_key(x));
        let s = t.inodes[x].children;
        let keep = staying(gone);
        lemma_filtered(s, keep);
        let c = r.inodes[x].children[i];
        assert(keep(s.filter(keep)[i]));
        let j = choose|j: int| 0 <= j < s.len() && s[j] == c;
        assert(edge_ok(t, x, t.inodes[x].children[j]));
        assert(r.inodes.contains_key(c.ino));
    }
    assert forall|x: u64| #[trigger]
        r.inodes.contains_key(x) && x != ROOT_INODE && linked(r.inodes[x]) implies place_ok(
        r,
        x,
    ) by {
        assert(t.inodes.contains_key(x));
        assert(place_ok(t, x));
        let p = t.inodes[x].parent;
        let s = t.inodes[p].children;
        let i = choose|i: int| 0 <= i < s.len() && #[trigger] s[i].ino == x;
        assert(t.inodes[p].children[i].ino == x);
        assert(!gone.contains(p));
        assert(r.inodes.contains_key(p));
        let keep = staying(gone);
        lemma_filtered(s, keep);
        assert(keep(s[i]));
        let f = s.filter(keep);
        let j = choose|j: int| 0 <= j < f.len() && f[j] == s[i];
        assert(r.inodes[p].children[j].ino == x);
        assert(r.paths.contains_key(r.inodes[x].full_path));
    }
    assert forall|p: Seq<char>| #[trigger] r.paths.contains_key(p) implies path_ok(r, p) by {
        assert(path_ok(t, p));
        assert(r.inodes.contains_key(t.paths[p]));
    }
    assert(r.inodes.contains_key(ROOT_INODE));
    assert(r.paths.contains_key(Seq::<char>::empty()));
}

proof fn lemma_only_own_path(t: TableModel, x: u64, p: Seq<char>)
    requires
        wf(t),
        t.inodes.contains_key(x),
        x != ROOT_INODE,
        linked(t.inodes[x]),
        t.paths.contains_key(p),
    ensures
        t.paths[p] == x <==> p == t.inodes[x].full_path,
{
    assert(place_ok(t, x));
    assert(path_ok(t, p));
}

/// Evicting inodes together, as far as they may be evicted, keeps the tree.
pub proof fn law_batch_eviction_keeps_wf(t: TableModel, inos: Seq<u64>)
    requires
        wf(t),
    ensures
        wf(t.batch_evicted(t.batch(inos))),
{
    let gone = t.batch(inos);
    let r = t.batch_evicted(gone);
    assert forall|x: u64| #[trigger] r.inodes.contains_key(x) implies same_place(
        t.inodes[x],
        (EntryModel { children: t.inodes[x].children, ..r.inodes[x] }),
    ) && r.inodes[x].children == t.inodes[x].children.filter(staying(gone)) by {
        assert(t.inodes.contains_key(x));
        let s = t.inodes[x].children;
        let f = |c: ChildModel| !(gone.contains(c.ino) && t.inodes[c.ino].parent == x);
        assert forall|i: int| 0 <= i < s.len() implies f(#[trigger] s[i]) == staying(gone)(
            s[i],
        ) by {
            assert(edge_ok(t, x, t.inodes[x].children[i]));
        }
        lemma_filter_same(s, f, staying(gone));
        if !(exists|i: u64| #[trigger] gone.contains(i) && t.inodes[i].parent == x) {
            assert forall|i: int| 0 <= i < s.len() implies f(#[trigger] s[i]) by {}
            lemma_filter_nothing(s, f);
        }
    }
    assert forall|x: u64, i: int|
        gone.contains(x) && t.inodes.contains_key(x) && 0 <= i
            < t.inodes[x].children.len() implies gone.contains(
        (#[trigger] t.inodes[x].children[i]).ino,
    ) by {
        assert(entry_ok(t, x));
    }
    let lost = model::paths_of(t.inodes, gone);
    assert forall|p: Seq<char>| #[trigger] t.paths.contains_key(p) implies (lost.contains(p)
        <==> gone.contains(t.paths[p])) by {
        assert(path_ok(t, p));
        if lost.contains(p) {
            let x = choose|x: u64| #[trigger] gone.contains(x) && t.inodes[x].full_path == p;
            lemma_only_own_path(t, x, p);
        }
    }
    assert(is_pruning(t, r, gone));
    lemma_pruning_keeps_wf(t, r, gone);
}

/// Evicting an inode that may be evicted keeps the tree.
pub proof fn law_eviction_keeps_wf(t: TableModel, ino: u64)
    requires
        wf(t),
        t.inodes.contains_key(ino),
        model::evictable(t.inodes[ino]),
    ensures
        wf(t.evicted(ino)),
{
    let gone = set![ino];
    let r = t.evicted(ino);
    let p = t.inodes[ino].parent;
    assert(entry_ok(t, ino));
    assert(place_ok(t, ino));
    assert forall|x: u64| #[trigger] r.inodes.contains_key(x) implies same_place(
        t.inodes[x],
        (EntryModel { children: t.inodes[x].children, ..r.inodes[x] }),
    ) && r.inodes[x].children == t.inodes[x].children.filter(staying(gone)) by {
        lemma_one_child_gone(t, x, ino);
    }
    assert forall|q: Seq<char>| #[trigger] t.paths.contains_key(q) implies (q
        == t.inodes[ino].full_path <==> t.paths[q] == ino) by {
        lemma_only_own_path(t, ino, q);
    }
    assert(is_pruning(t, r, gone));
    lemma_pruning_keeps_wf(t, r, gone);
}

proof fn lemma_one_child_gone(t: TableModel, x: u64, ino: u64)
    requires
        wf(t),
        t.inodes.contains_key(x),
        t.inodes.contains_key(ino),
    ensures
        model::without_child(t.inodes[x].children, ino) == t.inodes[x].children.filter(
            staying(set![ino]),
        ),
        x != t.inodes[ino].parent ==> t.inodes[x].children.filter(staying(set![ino]))
            == t.inodes[x].children,
{
    let s = t.inodes[x].children;
    let f = |c: ChildModel| c.ino != ino;
    lemma_filter_same(s, f, staying(set![ino]));
    if x != t.inodes[ino].parent {
        assert forall|i: int| 0 <= i < s.len() implies staying(set![ino])(#[trigger] s[i]) by {
            assert(edge_ok(t, x, t.inodes[x].children[i]));
        }
        lemma_filter_nothing(s, staying(set![ino]));
    }
}

/// Removing an inode of the tree other than the root, with everything below it, keeps the tree.
pub proof fn law_removal_keeps_wf(t: TableModel, ino: u64)
    requires
        wf(t),
        t.inodes.contains_key(ino),
        ino != ROOT_INODE,
        linked(t.inodes[ino]),
    ensures
        wf(t.removed(ino)),
{
    let p = t.inodes[ino].parent;
    let rest = t.without(ino).detached(p, ino, t.inodes[ino].kind, false);
    let starts = model::child_inos(t.inodes[ino].children);
    let below = t.descendants(ino);
    let gone = below.insert(ino);
    let r = t.removed(ino);
    assert(place_ok(t, ino));
    assert forall|x: u64| #[trigger] rest.inodes.contains_key(x) implies rest.inodes[x].children
        == t.inodes[x].children.filter(staying(set![ino])) by {
        lemma_one_child_gone(t, x, ino);
    }
    assert forall|x: u64| #[trigger] below.contains(x) implies t.inodes.contains_key(x) && x
        != ROOT_INODE && linked(t.inodes[x]) && gone.contains(t.inodes[x].parent) by {
        lemma_descendant(t, ino, x);
    }
    assert forall|x: u64, i: int|
        gone.contains(x) && t.inodes.contains_key(x) && 0 <= i
            < t.inodes[x].children.len() implies gone.contains(
        (#[trigger] t.inodes[x].children[i]).ino,
    ) by {
        let c = t.inodes[x].children[i];
        assert(edge_ok(t, x, c));
        if c.ino != ino {
            assert(rest.inodes.contains_key(c.ino));
            if x == ino {
                assert(starts.contains(c.ino));
                model::lemma_reachable_start(rest.inodes, starts, c.ino);
            } else {
                assert(below.contains(x));
                lemma_descendant(t, ino, x);
                assert(rest.inodes.contains_key(x));
                let kept = t.inodes[x].children.filter(staying(set![ino]));
                lemma_filtered(t.inodes[x].children, staying(set![ino]));
                assert(staying(set![ino])(t.inodes[x].children[i]));
                let j = choose|j: int| 0 <= j < kept.len() && kept[j] == c;
                assert(rest.inodes[x].children[j].ino == c.ino);
                assert(model::is_child(rest.inodes, x, c.ino));
                model::lemma_reachable_step(rest.inodes, starts, x, c.ino);
            }
        }
    }
    assert forall|x: u64| #[trigger] r.inodes.contains_key(x) implies same_place(
        t.inodes[x],
        (EntryModel { children: t.inodes[x].children, ..r.inodes[x] }),
    ) && r.inodes[x].children == t.inodes[x].children.filter(staying(gone)) by {
        let s = t.inodes[x].children;
        assert(t.inodes.contains_key(x));
        assert forall|i: int| 0 <= i < s.len() implies staying(set![ino])(#[trigger] s[i])
            == staying(gone)(s[i]) by {
            assert(edge_ok(t, x, t.inodes[x].children[i]));
            if below.contains(s[i].ino) {
                assert(gone.contains(t.inodes[s[i].ino].parent));
            }
        }
        lemma_filter_same(s, staying(set![ino]), staying(gone));
    }
    let lost = model::paths_of(rest.inodes, below);
    assert forall|q: Seq<char>| #[trigger] t.paths.contains_key(q) implies ((lost.contains(q) || q
        == t.inodes[ino].full_path) <==> gone.contains(t.paths[q])) by {
        assert(path_ok(t, q));
        lemma_only_own_path(t, ino, q);
        if lost.contains(q) {
            let x = choose|x: u64| #[trigger]
                below.contains(x) && rest.inodes[x].full_path == q;
            lemma_descendant(t, ino, x);
            lemma_only_own_path(t, x, q);
        }
        let y = t.paths[q];
        if below.contains(y) {
            lemma_descendant(t, ino, y);
            assert(rest.inodes[y].full_path == q);
        }
    }
    assert(is_pruning(t, r, gone));
    lemma_pruning_keeps_wf(t, r, gone);
}

/// A descendant is part of the tree, and so is its parent, which goes too.
proof fn lemma_descendant(t: TableModel, ino: u64, x: u64)
    requires
        wf(t),
        t.inodes.contains_key(ino),
        t.descendants(ino).contains(x),
    ensures
        t.inodes.contains_key(x),
        x != ino,
        x != ROOT_INODE,
        linked(t.inodes[x]),
        t.descendants(ino).insert(ino).contains(t.inodes[x].parent),
        t.inodes[x].full_path == t.without(ino).detached(
            t.inodes[ino].parent,
            ino,
            t.inodes[ino].kind,
            false,
        ).inodes[x].full_path,
{
    let rest = t.without(ino).detached(t.inodes[ino].parent, ino, t.inodes[ino].kind, false);
    let starts = model::child_inos(t.inodes[ino].children);
    let walk = choose|walk: Seq<u64>| #[trigger]
        model::is_walk(rest.inodes, walk) && starts.contains(walk[0]) && walk.last() == x;
    let n = walk.len() as int;
    assert(rest.inodes.contains_key(walk[n - 1]));
    if n == 1 {
        let i = choose|i: int|
            0 <= i < t.inodes[ino].children.len() && #[trigger] t.inodes[ino].children[i].ino == x;
        assert(edge_ok(t, ino, t.inodes[ino].children[i]));
    } else {
        let a = walk[n - 2];
        assert(model::is_child(rest.inodes, walk[n - 2], walk[n - 2 + 1]));
        let before = walk.drop_last();
        assert(model::is_walk(rest.inodes, before)) by {
            assert forall|i: int| 0 <= i < before.len() implies rest.inodes.contains_key(
                #[trigger] before[i],
            ) by {
                assert(rest.inodes.contains_key(walk[i]));
            }
            assert forall|i: int| 0 <= i < before.len() - 1 implies model::is_child(
                rest.inodes,
                #[trigger] before[i],
                before[i + 1],
            ) by {
                assert(model::is_child(rest.inodes, walk[i], walk[i + 1]));
            }
        }
        assert(before[0] == walk[0] && before.last() == a);
        assert(t.descendants(ino).contains(a));
        lemma_one_child_gone(t, a, ino);
        lemma_filtered(t.inodes[a].children, staying(set![ino]));
        let i = choose|i: int|
            0 <= i < rest.inodes[a].children.len() && #[trigger] rest.inodes[a].children[i].ino
                == x;
        let c = rest.inodes[a].children[i];
        assert(t.inodes[a].children.contains(c));
        let j = choose|j: int| 0 <= j < t.inodes[a].children.len() && t.inodes[a].children[j] == c;
        assert(edge_ok(t, a, t.inodes[a].children[j]));
    }
}

/// What looking for an edge by its name finds.
pub proof fn lemma_first_named(children: Seq<ChildModel>, name: Seq<char>)
    ensures
        match model::first_named(children, name) {
            Some(i) => 0 <= i < children.len() && children[i].name == name,
            None => forall|i: int| 0 <= i < children.len() ==> (#[trigger] children[i]).name != name,
        },
    decreases children.len(),
{
    if children.len() > 0 {
        lemma_first_named(children.drop_last(), name);
        assert forall|i: int| 0 <= i < children.len() - 1 implies #[trigger] children[i]
            == children.drop_last()[i] by {}
    }
}

/// Unlinking a file or symlink keeps the tree; it is no longer part of it.
pub proof fn law_unlink_keeps_wf(t: TableModel, parent: u64, name: Seq<char>, now: Timestamp)
    requires
        wf(t),
        t.unlink_reaches(parent, name),
        t.inodes[t.unlink_target(parent, name)->Some_0].kind != InodeKind::Directory,
    ensures
        wf(t.unlinked(parent, name, now)),
        !linked(t.unlinked(parent, name, now).inodes[t.unlink_target(parent, name)->Some_0]),
{
    let ino = t.unlink_target(parent, name)->Some_0;
    let s = t.inodes[parent].children;
    lemma_first_named(s, name);
    let k = model::first_named(s, name)->Some_0;
    assert(edge_ok(t, parent, t.inodes[parent].children[k]));
    assert(entry_ok(t, ino));
    assert(entry_ok(t, parent));
    assert(place_ok(t, ino));
    let path = t.inodes[ino].full_path;
    let r = t.unlinked(parent, name, now);
    let rest = s.remove(k);
    assert(no_duplicates(s));
    assert(r.inodes.dom() =~= t.inodes.dom());
    assert(r.inodes[parent].children == rest);
    assert(r.paths == t.paths.remove(path));
    assert forall|i: int| 0 <= i < rest.len() implies #[trigger] rest[i] == s[if i < k {
        i
    } else {
        i + 1
    }] by {}
    assert forall|x: u64| #[trigger] r.inodes.contains_key(x) implies entry_ok(r, x) by {
        assert(entry_ok(t, x));
    }
    assert forall|x: u64| #[trigger] r.inodes.contains_key(x) implies no_duplicates(
        r.inodes[x].children,
    ) by {
        assert(t.inodes.contains_key(x));
    }
    assert forall|x: u64, i: int|
        r.inodes.contains_key(x) && 0 <= i < r.inodes[x].children.len() implies edge_ok(
        r,
        x,
        #[trigger] r.inodes[x].children[i],
    ) by {
        assert(t.inodes.contains_key(x));
        if x == parent {
            let j = if i < k {
                i
            } else {
                i + 1
            };
            assert(rest[i] == s[j]);
            assert(edge_ok(t, parent, t.inodes[parent].children[j]));
            assert(s[j].ino != s[k].ino);
        } else {
            assert(edge_ok(t, x, t.inodes[x].children[i]));
        }
    }
    assert forall|x: u64| #[trigger]
        r.inodes.contains_key(x) && x != ROOT_INODE && linked(r.inodes[x]) implies place_ok(
        r,
        x,
    ) by {
        assert(t.inodes.contains_key(x));
        assert(place_ok(t, x));
        let q = t.inodes[x].parent;
        let i = choose|i: int|
            0 <= i < t.inodes[q].children.len() && #[trigger] t.inodes[q].children[i].ino == x;
        if q == parent {
            let j = if i < k {
                i
            } else {
                i - 1
            };
            assert(i != k);
            assert(rest[j] == s[i]);
            assert(r.inodes[q].children[j].ino == x);
        } else {
            assert(r.inodes[q].children[i].ino == x);
        }
        lemma_only_own_path(t, ino, t.inodes[x].full_path);
    }
    assert forall|p: Seq<char>| #[trigger] r.paths.contains_key(p) implies path_ok(r, p) by {
        assert(path_ok(t, p));
        lemma_only_own_path(t, ino, p);
    }
}

/// Dropping an inode that is no longer part of the tree keeps it, as long as nothing new has come to
/// be at its path.
pub proof fn law_orphan_removal_keeps_wf(t: TableModel, ino: u64)
    requires
        wf(t),
        t.inodes.contains_key(ino),
        !linked(t.inodes[ino]),
        !t.paths.contains_key(t.inodes[ino].full_path),
    ensures
        wf(t.without(ino)),
{
    let gone = set![ino];
    let r = t.without(ino);
    assert(entry_ok(t, ino));
    assert forall|x: u64| #[trigger] r.inodes.contains_key(x) implies same_place(
        t.inodes[x],
        (EntryModel { children: t.inodes[x].children, ..r.inodes[x] }),
    ) && r.inodes[x].children == t.inodes[x].children.filter(staying(gone)) by {
        let s = t.inodes[x].children;
        assert(t.inodes.contains_key(x));
        assert forall|i: int| 0 <= i < s.len() implies staying(gone)(#[trigger] s[i]) by {
            assert(edge_ok(t, x, t.inodes[x].children[i]));
        }
        lemma_filter_nothing(s, staying(gone));
    }
    assert forall|p: Seq<char>| #[trigger] t.paths.contains_key(p) implies t.paths[p] != ino by {
        assert(path_ok(t, p));
    }
    assert(is_pruning(t, r, gone));
    lemma_pruning_keeps_wf(t, r, gone);
}

/// A path tells the directory and the name that it is made of.
pub proof fn lemma_child_path_injective(
    a: Seq<char>,
    n: Seq<char>,
    b: Seq<char>,
    m: Seq<char>,
)
    requires
        good_name(n),
        good_name(m),
        inode::spec_child_path(a, n) == inode::spec_child_path(b, m),
    ensures
        a == b,
        n == m,
{
    let x = inode::spec_child_path(a, n);
    let y = inode::spec_child_path(b, m);
    assert(a.len() > 0 ==> x.len() == a.len() + 1 + n.len());
    assert(b.len() > 0 ==> y.len() == b.len() + 1 + m.len());
    if a.len() > 0 {
        assert(x[a.len() as int] == '/');
        if b.len() == 0 {
            assert(m[a.len() as int] == '/');
        } else {
            assert(y[b.len() as int] == '/');
            if a.len() > b.len() {
                assert(y[a.len() as int] == m[a.len() - b.len() - 1]);
                assert(m.contains('/'));
            } else if b.len() > a.len() {
                assert(x[b.len() as int] == n[b.len() - a.len() - 1]);
                assert(n.contains('/'));
            } else {
                assert(x.subrange(0, a.len() as int) =~= a);
                assert(y.subrange(0, a.len() as int) =~= b);
                assert(x.skip(a.len() as int + 1) =~= n);
                assert(y.skip(a.len() as int + 1) =~= m);
            }
        }
    } else if b.len() > 0 {
        assert(y[b.len() as int] == '/');
        assert(n[b.len() as int] == '/');
    } else {
        assert(a =~= b);
    }
}

/// What looking for a name among children finds.
pub proof fn lemma_first_live(inodes: Map<u64, EntryModel>, children: Seq<ChildModel>, name: Seq<char>)
    ensures
        match model::first_live(inodes, children, name) {
            Some(x) => inodes.contains_key(x) && exists|i: int|
                0 <= i < children.len() && (#[trigger] children[i]).ino == x && children[i].name
                    == name,
            None => forall|i: int|
                0 <= i < children.len() ==> (#[trigger] children[i]).name != name
                    || !inodes.contains_key(children[i].ino),
        },
    decreases children.len(),
{
    if children.len() > 0 {
        let low = children.drop_last();
        lemma_first_live(inodes, low, name);
        assert forall|i: int| 0 <= i < low.len() implies #[trigger] children[i] == low[i] by {}
        match model::first_live(inodes, low, name) {
            Some(x) => {
                let i = choose|i: int|
                    0 <= i < low.len() && (#[trigger] low[i]).ino == x && low[i].name == name;
                assert(children[i].ino == x);
            },
            None => {
                let last = children.len() - 1;
                assert(children[last] == children.last());
            },
        }
    }
}

/// Looking up a name in a directory and looking up the path that follows find the same inode.
pub proof fn law_names_and_paths_agree(t: TableModel, dir: u64, name: Seq<char>)
    requires
        wf(t),
        t.inodes.contains_key(dir),
        t.inodes[dir].kind == InodeKind::Directory,
        good_name(name),
    ensures
        ({
            let path = inode::spec_child_path(t.inodes[dir].full_path, name);
            t.child_named(dir, name) == if t.paths.contains_key(path) {
                Some(t.paths[path])
            } else {
                None
            }
        }),
{
    let s = t.inodes[dir].children;
    let base = t.inodes[dir].full_path;
    let path = inode::spec_child_path(base, name);
    lemma_first_live(t.inodes, s, name);
    match t.child_named(dir, name) {
        Some(x) => {
            let i = choose|i: int|
                0 <= i < s.len() && (#[trigger] s[i]).ino == x && s[i].name == name;
            assert(edge_ok(t, dir, t.inodes[dir].children[i]));
            assert(place_ok(t, x));
        },
        None => {
            if t.paths.contains_key(path) {
                let x = t.paths[path];
                assert(path_ok(t, path));
                assert(path.len() > 0);
                assert(x != ROOT_INODE);
                assert(place_ok(t, x));
                let q = t.inodes[x].parent;
                lemma_child_path_injective(
                    t.inodes[q].full_path,
                    t.inodes[x].name,
                    base,
                    name,
                );
                lemma_dir_at_path(t, q);
                lemma_dir_at_path(t, dir);
                let i = choose|i: int| 0 <= i < s.len() && #[trigger] s[i].ino == x;
                assert(edge_ok(t, dir, t.inodes[dir].children[i]));
            }
        },
    }
}

/// A directory is found under its path.
pub proof fn lemma_dir_at_path(t: TableModel, dir: u64)
    requires
        wf(t),
        t.inodes.contains_key(dir),
        t.inodes[dir].kind == InodeKind::Directory,
    ensures
        t.paths.contains_key(t.inodes[dir].full_path),
        t.paths[t.inodes[dir].full_path] == dir,
{
    if dir != ROOT_INODE {
        assert(place_ok(t, dir));
    }
}

/// A bound on the lengths of the paths of some inodes.
pub proof fn lemma_longest(inodes: Map<u64, EntryModel>, set: Set<u64>) -> (max: nat)
    requires
        set.finite(),
    ensures
        forall|x: u64| #[trigger] set.contains(x) ==> inodes[x].full_path.len() <= max,
    decreases set.len(),
{
    if set.len() == 0 {
        assert forall|x: u64| #[trigger] set.contains(x) implies false by {
            vstd::set_lib::lemma_set_empty_equivalency_len(set);
        }
        0
    } else {
        let a = set.choose();
        vstd::set_lib::lemma_set_empty_equivalency_len(set);
        assert(set.contains(a));
        let low = lemma_longest(inodes, set.remove(a));
        let len = inodes[a].full_path.len();
        let max = if len > low {
            len
        } else {
            low
        };
        assert forall|x: u64| #[trigger] set.contains(x) implies inodes[x].full_path.len()
            <= max by {
            if x != a {
                assert(set.remove(a).contains(x));
            }
        }
        max
    }
}

proof fn lemma_height(t: TableModel, max: nat, x: u64, height: nat)
    requires
        wf(t),
        forall|y: u64| #[trigger] t.inodes.contains_key(y) ==> t.inodes[y].full_path.len() <= max,
        t.inodes.contains_key(x) ==> t.inodes[x].full_path.len() + height > max,
    ensures
        model::height_within(t.inodes, x, height),
    decreases height,
{
    if t.inodes.contains_key(x) {
        assert forall|i: int| 0 <= i < t.inodes[x].children.len() implies model::height_within(
            t.inodes,
            (#[trigger] t.inodes[x].children[i]).ino,
            (height - 1) as nat,
        ) by {
            let c = t.inodes[x].children[i];
            assert(edge_ok(t, x, c));
            assert(place_ok(t, c.ino));
            lemma_height(t, max, c.ino, (height - 1) as nat);
        }
    }
}

/// There is no cycle below any inode.
pub proof fn law_no_cycles(t: TableModel, x: u64)
    requires
        wf(t),
    ensures
        model::bounded_height(t.inodes, x),
{
    let max = lemma_longest(t.inodes, t.inodes.dom());
    assert forall|y: u64| #[trigger] t.inodes.contains_key(y) implies t.inodes[y].full_path.len()
        <= max by {
        assert(t.inodes.dom().contains(y));
    }
    lemma_height(t, max, x, max + 1);
}

} // verus!
