//! That a rename keeps the tree, and puts everything below what is renamed under its new path.
use crate::time::Timestamp;
use crate::virtual_fs::inode;
use crate::virtual_fs::inode::{ChildModel, EntryModel, InodeKind, ROOT_INODE};
use crate::virtual_fs::model;
use crate::virtual_fs::model::TableModel;
use crate::virtual_fs::namespace;
use crate::virtual_fs::rename;
use crate::virtual_fs::rename::{ApplyPlan, RenameModel};
use crate::virtual_fs::tree;
use vstd::prelude::*;

verus! {

/// The path is `base`, or leads to something below it.
pub open spec fn under(base: Seq<char>, path: Seq<char>) -> bool {
    path == base || (base + seq!['/']).is_prefix_of(path)
}

/// A path under `old`, put under `new` instead.
pub open spec fn moved_path(old: Seq<char>, new: Seq<char>, path: Seq<char>) -> Seq<char> {
    new + path.skip(old.len() as int)
}

proof fn lemma_prefix_chars(base: Seq<char>, path: Seq<char>)
    requires
        (base + seq!['/']).is_prefix_of(path),
    ensures
        path.len() > base.len(),
        path[base.len() as int] == '/',
        path.take(base.len() as int) == base,
{
    let b = base + seq!['/'];
    assert(b.len() == base.len() + 1);
    assert(path.subrange(0, b.len() as int) == b);
    assert(path.subrange(0, b.len() as int)[base.len() as int] == path[base.len() as int]);
    assert(b[base.len() as int] == '/');
    assert(path.take(base.len() as int) =~= b.take(base.len() as int));
    assert(b.take(base.len() as int) =~= base);
}

proof fn lemma_chars_prefix(base: Seq<char>, path: Seq<char>)
    requires
        path.len() > base.len(),
        path[base.len() as int] == '/',
        path.take(base.len() as int) == base,
    ensures
        (base + seq!['/']).is_prefix_of(path),
{
    let b = base + seq!['/'];
    assert(b.len() == base.len() + 1);
    assert forall|i: int| 0 <= i < b.len() implies b[i] == path.subrange(0, b.len() as int)[i] by {
        if i < base.len() {
            assert(path.take(base.len() as int)[i] == base[i]);
        }
    }
    assert(b =~= path.subrange(0, b.len() as int));
}

/// What is in a directory under `base` is under `base` too.
proof fn lemma_under_child(base: Seq<char>, dir: Seq<char>, name: Seq<char>)
    requires
        under(base, dir),
        base.len() > 0,
    ensures
        under(base, inode::spec_child_path(dir, name)),
{
    let p = inode::spec_child_path(dir, name);
    if dir == base {
        assert(p[base.len() as int] == '/');
        assert(p.take(base.len() as int) =~= base);
    } else {
        lemma_prefix_chars(base, dir);
        assert(p[base.len() as int] == dir[base.len() as int]);
        assert(p.take(base.len() as int) =~= dir.take(base.len() as int));
    }
    lemma_chars_prefix(base, p);
}

/// What is under `base` without being at it is in a directory under `base`.
proof fn lemma_under_parent(base: Seq<char>, dir: Seq<char>, name: Seq<char>)
    requires
        tree::good_name(name),
        base.len() > 0,
        under(base, inode::spec_child_path(dir, name)),
        inode::spec_child_path(dir, name) != base,
    ensures
        under(base, dir),
{
    let p = inode::spec_child_path(dir, name);
    lemma_prefix_chars(base, p);
    let n = base.len() as int;
    if dir.len() == 0 {
        assert(name[n] == '/');
        assert(name.contains('/'));
    } else {
        assert(p.len() == dir.len() + 1 + name.len());
        if n > dir.len() {
            assert(p[n] == name[n - dir.len() - 1]);
            assert(name.contains('/'));
        } else {
            assert(p.take(n) =~= dir.take(n));
            if n == dir.len() {
                assert(dir.take(n) =~= dir);
            } else {
                assert(p[n] == dir[n]);
                lemma_chars_prefix(base, dir);
            }
        }
    }
}

/// Nothing is under both of two paths of which neither is under the other.
proof fn lemma_under_apart(a: Seq<char>, b: Seq<char>, path: Seq<char>)
    requires
        under(a, path),
        under(b, path),
    ensures
        under(a, b) || under(b, a),
{
    if path != a && path != b {
        lemma_prefix_chars(a, path);
        lemma_prefix_chars(b, path);
        if a.len() == b.len() {
        } else if a.len() < b.len() {
            assert(b[a.len() as int] == path.take(b.len() as int)[a.len() as int]);
            assert(b.take(a.len() as int) =~= path.take(a.len() as int)) by {
                assert(path.take(b.len() as int).take(a.len() as int) =~= path.take(
                    a.len() as int,
                ));
            }
            lemma_chars_prefix(a, b);
        } else {
            assert(a[b.len() as int] == path.take(a.len() as int)[b.len() as int]);
            assert(a.take(b.len() as int) =~= path.take(b.len() as int)) by {
                assert(path.take(a.len() as int).take(b.len() as int) =~= path.take(
                    b.len() as int,
                ));
            }
            lemma_chars_prefix(b, a);
        }
    }
}

proof fn lemma_under_longer(base: Seq<char>, path: Seq<char>)
    requires
        under(base, path),
    ensures
        path.len() >= base.len(),
        path.take(base.len() as int) == base,
        path != base ==> path.len() > base.len() && path[base.len() as int] == '/',
{
    if path == base {
        assert(path.take(base.len() as int) =~= base);
    } else {
        lemma_prefix_chars(base, path);
    }
}

proof fn lemma_moved_under(old: Seq<char>, new: Seq<char>, path: Seq<char>)
    requires
        under(old, path),
    ensures
        under(new, moved_path(old, new, path)),
{
    lemma_under_longer(old, path);
    let q = moved_path(old, new, path);
    if path == old {
        assert(q =~= new);
    } else {
        assert(q[new.len() as int] == path[old.len() as int]);
        assert(q.take(new.len() as int) =~= new);
        lemma_chars_prefix(new, q);
    }
}

proof fn lemma_moved_injective(old: Seq<char>, new: Seq<char>, p: Seq<char>, q: Seq<char>)
    requires
        under(old, p),
        under(old, q),
        moved_path(old, new, p) == moved_path(old, new, q),
    ensures
        p == q,
{
    lemma_under_longer(old, p);
    lemma_under_longer(old, q);
    let a = moved_path(old, new, p);
    let b = moved_path(old, new, q);
    assert(a.skip(new.len() as int) =~= p.skip(old.len() as int));
    assert(b.skip(new.len() as int) =~= q.skip(old.len() as int));
    assert(p =~= p.take(old.len() as int) + p.skip(old.len() as int));
    assert(q =~= q.take(old.len() as int) + q.skip(old.len() as int));
}

proof fn lemma_moved_child(old: Seq<char>, new: Seq<char>, dir: Seq<char>, name: Seq<char>)
    requires
        under(old, dir),
        old.len() > 0,
        new.len() > 0,
    ensures
        moved_path(old, new, inode::spec_child_path(dir, name)) == inode::spec_child_path(
            moved_path(old, new, dir),
            name,
        ),
{
    lemma_under_longer(old, dir);
    let p = inode::spec_child_path(dir, name);
    assert(p.skip(old.len() as int) =~= dir.skip(old.len() as int) + seq!['/'] + name);
    assert(moved_path(old, new, p) =~= moved_path(old, new, dir) + seq!['/'] + name);
}

/// An inode of the tree whose path is under `base` has something at `base` above it.
proof fn lemma_base_exists(t: TableModel, y: u64, base: Seq<char>)
    requires
        tree::wf(t),
        t.inodes.contains_key(y),
        tree::linked(t.inodes[y]),
        base.len() > 0,
        under(base, t.inodes[y].full_path),
    ensures
        t.paths.contains_key(base),
    decreases t.inodes[y].full_path.len(),
{
    lemma_under_longer(base, t.inodes[y].full_path);
    assert(y != ROOT_INODE);
    assert(tree::place_ok(t, y));
    if t.inodes[y].full_path != base {
        let p = t.inodes[y].parent;
        lemma_under_parent(base, t.inodes[p].full_path, t.inodes[y].name);
        lemma_base_exists(t, p, base);
    }
}

/// An inode of the tree whose path is under that of `x` has `x` above it.
proof fn lemma_under_is_above(t: TableModel, y: u64, x: u64)
    requires
        tree::wf(t),
        t.inodes.contains_key(y),
        tree::linked(t.inodes[y]),
        t.inodes.contains_key(x),
        tree::linked(t.inodes[x]),
        x != ROOT_INODE,
        under(t.inodes[x].full_path, t.inodes[y].full_path),
    ensures
        rename::is_above(t, y, x),
        y != x ==> t.inodes[x].kind == InodeKind::Directory,
    decreases t.inodes[y].full_path.len(),
{
    let base = t.inodes[x].full_path;
    assert(tree::place_ok(t, x));
    assert(base.len() > 0);
    lemma_under_longer(base, t.inodes[y].full_path);
    assert(y != ROOT_INODE);
    assert(tree::place_ok(t, y));
    if t.inodes[y].full_path == base {
        assert(y == x);
        assert(rename::climb_hits(t, y, x, 0));
    } else {
        let p = t.inodes[y].parent;
        lemma_under_parent(base, t.inodes[p].full_path, t.inodes[y].name);
        lemma_under_is_above(t, p, x);
        let n = choose|n: nat| rename::climb_hits(t, p, x, n);
        assert(rename::climb_hits(t, y, x, n + 1));
    }
}

/// What is below a directory is under one of its children.
proof fn lemma_under_some_child(t: TableModel, a: u64, y: u64)
    requires
        tree::wf(t),
        t.inodes.contains_key(a),
        t.inodes[a].full_path.len() > 0,
        t.inodes.contains_key(y),
        tree::linked(t.inodes[a]),
        tree::linked(t.inodes[y]),
        y != a,
        under(t.inodes[a].full_path, t.inodes[y].full_path),
    ensures
        exists|i: int|
            0 <= i < t.inodes[a].children.len() && under(
                t.inodes[(#[trigger] t.inodes[a].children[i]).ino].full_path,
                t.inodes[y].full_path,
            ),
    decreases t.inodes[y].full_path.len(),
{
    let base = t.inodes[a].full_path;
    assert(a != ROOT_INODE);
    assert(tree::place_ok(t, a));
    lemma_under_longer(base, t.inodes[y].full_path);
    assert(y != ROOT_INODE);
    assert(tree::place_ok(t, y));
    let p = t.inodes[y].parent;
    lemma_under_parent(base, t.inodes[p].full_path, t.inodes[y].name);
    if p == a {
        let i = choose|i: int|
            0 <= i < t.inodes[a].children.len() && #[trigger] t.inodes[a].children[i].ino == y;
        assert(under(t.inodes[t.inodes[a].children[i].ino].full_path, t.inodes[y].full_path));
    } else {
        lemma_under_some_child(t, a, p);
        let i = choose|i: int|
            0 <= i < t.inodes[a].children.len() && under(
                t.inodes[(#[trigger] t.inodes[a].children[i]).ino].full_path,
                t.inodes[p].full_path,
            );
        let c = t.inodes[a].children[i];
        assert(tree::edge_ok(t, a, c));
        assert(tree::place_ok(t, c.ino));
        lemma_under_child(t.inodes[c.ino].full_path, t.inodes[p].full_path, t.inodes[y].name);
        assert(under(t.inodes[t.inodes[a].children[i].ino].full_path, t.inodes[y].full_path));
    }
}

/// A subtree on its way to another path: `g` is the tree before, `m` the table in which its edges
/// are in place and its paths are not.
pub struct Relocation {
    pub g: TableModel,
    pub m: TableModel,
    pub x: u64,
    pub new: Seq<char>,
}

impl Relocation {
    /// The path that the subtree leaves.
    pub open spec fn source(self) -> Seq<char> {
        self.g.inodes[self.x].full_path
    }

    /// The inode is in the tree, at or below `a`.
    pub open spec fn below(self, a: u64, y: u64) -> bool {
        self.g.inodes.contains_key(y) && tree::linked(self.g.inodes[y]) && under(
            self.g.inodes[a].full_path,
            self.g.inodes[y].full_path,
        )
    }

    /// The inodes at or below `a`.
    pub open spec fn subtree(self, a: u64) -> Set<u64> {
        Set::new(|y: u64| self.below(a, y))
    }

    /// Where an inode of the subtree goes.
    pub open spec fn goal(self, y: u64) -> Seq<char> {
        moved_path(self.source(), self.new, self.g.inodes[y].full_path)
    }

    /// The new path is free, and neither path is under the other.
    pub open spec fn ok(self) -> bool {
        &&& tree::wf(self.g)
        &&& self.g.inodes.contains_key(self.x)
        &&& tree::linked(self.g.inodes[self.x])
        &&& self.x != ROOT_INODE
        &&& self.new.len() > 0
        &&& !under(self.source(), self.new)
        &&& !under(self.new, self.source())
        &&& !self.g.paths.contains_key(self.new)
        &&& forall|y: u64| #[trigger]
            self.m.inodes.contains_key(y) <==> self.g.inodes.contains_key(y)
        &&& forall|y: u64| #[trigger]
            self.m.inodes.contains_key(y) ==> self.m.inodes[y].full_path
                == self.g.inodes[y].full_path
        &&& forall|y: u64| #[trigger]
            self.below(self.x, y) ==> self.m.inodes[y].children == self.g.inodes[y].children
        &&& self.m.paths == self.g.paths.remove(self.source())
    }

    /// The table when the inodes of `done` have got their new paths.
    pub open spec fn stage(self, t: TableModel, done: Set<u64>) -> bool {
        &&& t.next_inode == self.m.next_inode
        &&& forall|y: u64| #[trigger] done.contains(y) ==> self.below(self.x, y)
        &&& forall|y: u64| #[trigger] t.inodes.contains_key(y) <==> self.m.inodes.contains_key(y)
        &&& forall|y: u64| #[trigger]
            t.inodes.contains_key(y) ==> t.inodes[y] == (EntryModel {
                full_path: if done.contains(y) {
                    self.goal(y)
                } else {
                    self.g.inodes[y].full_path
                },
                ..self.m.inodes[y]
            })
        &&& forall|p: Seq<char>| #[trigger]
            t.paths.contains_key(p) ==> t.inodes.contains_key(t.paths[p]) && tree::linked(
                self.g.inodes[t.paths[p]],
            ) && t.inodes[t.paths[p]].full_path == p
        &&& forall|y: u64| #[trigger]
            t.inodes.contains_key(y) && tree::linked(self.g.inodes[y]) && (y != self.x
                || done.contains(y)) ==> t.paths.contains_key(t.inodes[y].full_path)
                && t.paths[t.inodes[y].full_path] == y
    }

    proof fn lemma_found(self, y: u64)
        requires
            tree::wf(self.g),
            self.g.inodes.contains_key(y),
            tree::linked(self.g.inodes[y]),
        ensures
            self.g.paths.contains_key(self.g.inodes[y].full_path),
            self.g.paths[self.g.inodes[y].full_path] == y,
    {
        if y != ROOT_INODE {
            assert(tree::place_ok(self.g, y));
        }
    }

    proof fn lemma_start(self)
        requires
            self.ok(),
        ensures
            self.stage(self.m, Set::empty()),
    {
        let g = self.g;
        let m = self.m;
        assert(tree::place_ok(g, self.x));
        assert forall|p: Seq<char>| #[trigger] m.paths.contains_key(p) implies m.inodes.contains_key(
            m.paths[p],
        ) && tree::linked(g.inodes[m.paths[p]]) && m.inodes[m.paths[p]].full_path == p by {
            assert(g.paths.contains_key(p));
            assert(tree::path_ok(g, p));
            assert(m.inodes.contains_key(g.paths[p]));
        }
        assert forall|y: u64| #[trigger]
            m.inodes.contains_key(y) && tree::linked(g.inodes[y]) && y
                != self.x implies m.paths.contains_key(m.inodes[y].full_path)
            && m.paths[m.inodes[y].full_path] == y by {
            self.lemma_found(y);
            self.lemma_found(self.x);
        }
    }

    /// The path that an inode goes to is not that of another inode.
    proof fn lemma_goal_is_free(self, t: TableModel, done: Set<u64>, a: u64, z: u64)
        requires
            self.ok(),
            self.stage(t, done),
            self.below(self.x, a),
            t.inodes.contains_key(z),
            tree::linked(self.g.inodes[z]),
            z != a,
        ensures
            t.inodes[z].full_path != self.goal(a),
            self.source().len() > 0,
    {
        let g = self.g;
        let old = self.source();
        assert(tree::place_ok(g, self.x));
        lemma_moved_under(old, self.new, g.inodes[a].full_path);
        self.lemma_found(a);
        self.lemma_found(z);
        if t.inodes[z].full_path == self.goal(a) {
            if done.contains(z) {
                assert(self.below(self.x, z));
                lemma_moved_injective(old, self.new, g.inodes[z].full_path, g.inodes[a].full_path);
            } else {
                lemma_base_exists(g, z, self.new);
            }
        }
    }

    /// Setting the path of one inode of the subtree.
    proof fn lemma_set(self, t: TableModel, done: Set<u64>, a: u64)
        requires
            self.ok(),
            self.stage(t, done),
            self.below(self.x, a),
            !done.contains(a),
        ensures
            self.stage(t.path_set(a, self.goal(a)), done.insert(a)),
    {
        let g = self.g;
        let r = t.path_set(a, self.goal(a));
        let more = done.insert(a);
        let was = g.inodes[a].full_path;
        assert(t.inodes.contains_key(a)) by {
            assert(self.m.inodes.contains_key(a));
        }
        assert(t.inodes[a].full_path == was);
        assert(tree::place_ok(g, self.x));
        assert forall|y: u64| #[trigger]
            t.inodes.contains_key(y) && tree::linked(g.inodes[y]) && y != a implies t.inodes[y].full_path
            != was by {
            if t.inodes[y].full_path == was {
                self.lemma_found(y);
                self.lemma_found(a);
                if done.contains(y) {
                    lemma_moved_under(self.source(), self.new, g.inodes[y].full_path);
                    lemma_under_apart(self.source(), self.new, was);
                }
            }
        }
        assert forall|p: Seq<char>| #[trigger] r.paths.contains_key(p) implies r.inodes.contains_key(
            r.paths[p],
        ) && tree::linked(g.inodes[r.paths[p]]) && r.inodes[r.paths[p]].full_path == p by {
            if p != self.goal(a) {
                assert(t.paths.contains_key(p));
                assert(t.paths[p] != a);
            }
        }
        assert forall|y: u64| #[trigger]
            r.inodes.contains_key(y) && tree::linked(g.inodes[y]) && (y != self.x
                || more.contains(y)) implies r.paths.contains_key(r.inodes[y].full_path)
            && r.paths[r.inodes[y].full_path] == y by {
            if y != a {
                assert(t.inodes.contains_key(y));
                self.lemma_goal_is_free(t, done, a, y);
            }
        }
    }

    /// The inodes at or below the first `k` children of `a`.
    pub open spec fn upto(self, a: u64, k: int) -> Set<u64> {
        Set::new(
            |y: u64|
                exists|i: int|
                    0 <= i < k && self.below((#[trigger] self.g.inodes[a].children[i]).ino, y),
        )
    }

    proof fn lemma_siblings_apart(self, a: u64, i: int, j: int, y: u64)
        requires
            self.ok(),
            self.g.inodes.contains_key(a),
            0 <= i < self.g.inodes[a].children.len(),
            0 <= j < self.g.inodes[a].children.len(),
            i != j,
            self.below(self.g.inodes[a].children[i].ino, y),
        ensures
            !self.below(self.g.inodes[a].children[j].ino, y),
    {
        let g = self.g;
        if self.below(g.inodes[a].children[j].ino, y) {
            let c = g.inodes[a].children[i];
            let d = g.inodes[a].children[j];
            assert(tree::no_duplicates(g.inodes[a].children));
            assert(c.ino != d.ino);
            assert(tree::edge_ok(g, a, c));
            assert(tree::edge_ok(g, a, d));
            assert(tree::place_ok(g, c.ino));
            assert(tree::place_ok(g, d.ino));
            let pc = g.inodes[c.ino].full_path;
            let pd = g.inodes[d.ino].full_path;
            lemma_under_apart(pc, pd, g.inodes[y].full_path);
            if under(pc, pd) {
                lemma_under_parent(pc, g.inodes[a].full_path, d.name);
                lemma_under_longer(pc, g.inodes[a].full_path);
            } else {
                lemma_under_parent(pd, g.inodes[a].full_path, c.name);
                lemma_under_longer(pd, g.inodes[a].full_path);
            }
        }
    }

    /// What is below a child is below its parent, which is not below the child.
    proof fn lemma_child_below(self, a: u64, i: int)
        requires
            self.ok(),
            self.below(self.x, a),
            0 <= i < self.g.inodes[a].children.len(),
        ensures
            self.below(self.x, self.g.inodes[a].children[i].ino),
            !self.below(self.g.inodes[a].children[i].ino, a),
            self.goal(self.g.inodes[a].children[i].ino) == inode::spec_child_path(
                self.goal(a),
                self.g.inodes[a].children[i].name,
            ),
            forall|y: u64| #[trigger]
                self.below(self.g.inodes[a].children[i].ino, y) ==> self.below(a, y),
    {
        let g = self.g;
        let c = g.inodes[a].children[i];
        assert(tree::edge_ok(g, a, c));
        assert(tree::place_ok(g, c.ino));
        assert(tree::place_ok(g, self.x));
        let pa = g.inodes[a].full_path;
        let pc = g.inodes[c.ino].full_path;
        lemma_under_longer(self.source(), pa);
        lemma_under_child(self.source(), pa, c.name);
        lemma_under_child(pa, pa, c.name);
        lemma_moved_child(self.source(), self.new, pa, c.name);
        if self.below(c.ino, a) {
            lemma_under_longer(pc, pa);
        }
        assert forall|y: u64| #[trigger] self.below(c.ino, y) implies self.below(a, y) by {
            lemma_under_through(pa, pc, g.inodes[y].full_path);
        }
    }

    proof fn lemma_all_children(self, a: u64)
        requires
            self.ok(),
            self.below(self.x, a),
        ensures
            self.subtree(a) == self.upto(a, self.g.inodes[a].children.len() as int).insert(a),
    {
        let g = self.g;
        let n = g.inodes[a].children.len() as int;
        assert(tree::place_ok(g, self.x));
        lemma_under_longer(self.source(), g.inodes[a].full_path);
        assert forall|y: u64| self.subtree(a).contains(y) <==> self.upto(a, n).insert(a).contains(
            y,
        ) by {
            if self.subtree(a).contains(y) && y != a {
                lemma_under_some_child(g, a, y);
                let i = choose|i: int|
                    0 <= i < n && under(
                        g.inodes[(#[trigger] g.inodes[a].children[i]).ino].full_path,
                        g.inodes[y].full_path,
                    );
                assert(self.below(g.inodes[a].children[i].ino, y));
            }
            if self.upto(a, n).contains(y) {
                let i = choose|i: int|
                    0 <= i < n && self.below((#[trigger] g.inodes[a].children[i]).ino, y);
                self.lemma_child_below(a, i);
            }
        }
        assert(self.subtree(a) =~= self.upto(a, n).insert(a));
    }

    /// Repathing a part of the subtree gets all of it done.
    proof fn lemma_repath(self, t: TableModel, done: Set<u64>, a: u64, height: nat)
        requires
            self.ok(),
            self.stage(t, done),
            self.below(self.x, a),
            forall|y: u64| #[trigger] done.contains(y) ==> !self.below(a, y),
            model::height_within(self.m.inodes, a, height),
        ensures
            self.stage(t.repathed(a, self.goal(a), height), done.union(self.subtree(a))),
        decreases height, 0nat,
    {
        let n = self.g.inodes[a].children.len();
        assert(self.m.inodes.contains_key(a));
        assert(t.inodes.contains_key(a));
        assert(self.below(a, a));
        assert(!done.contains(a));
        self.lemma_set(t, done, a);
        let first = t.path_set(a, self.goal(a));
        let children = self.g.inodes[a].children;
        assert(t.inodes[a].children == children);
        assert forall|i: int| 0 <= i < n implies model::height_within(
            self.m.inodes,
            (#[trigger] children[i]).ino,
            (height - 1) as nat,
        ) by {
            assert(self.m.inodes[a].children[i] == children[i]);
        }
        assert forall|y: u64, i: int|
            0 <= i < n && #[trigger] done.insert(a).contains(y) implies !self.below(
            (#[trigger] children[i]).ino,
            y,
        ) by {
            self.lemma_child_below(a, i);
        }
        self.lemma_repath_children(first, done.insert(a), a, n, (height - 1) as nat);
        assert(children.take(n as int) =~= children);
        self.lemma_all_children(a);
        assert(done.insert(a).union(self.upto(a, n as int)) =~= done.union(self.subtree(a)));
    }

    proof fn lemma_repath_children(
        self,
        t: TableModel,
        done: Set<u64>,
        a: u64,
        k: nat,
        height: nat,
    )
        requires
            self.ok(),
            self.stage(t, done),
            self.below(self.x, a),
            k <= self.g.inodes[a].children.len(),
            forall|y: u64, i: int|
                0 <= i < k && #[trigger] done.contains(y) ==> !self.below(
                    (#[trigger] self.g.inodes[a].children[i]).ino,
                    y,
                ),
            forall|i: int|
                0 <= i < k ==> model::height_within(
                    self.m.inodes,
                    (#[trigger] self.g.inodes[a].children[i]).ino,
                    height,
                ),
        ensures
            self.stage(
                t.children_repathed(
                    self.g.inodes[a].children.take(k as int),
                    self.g.inodes[a].full_path,
                    self.goal(a),
                    height,
                ),
                done.union(self.upto(a, k as int)),
            ),
        decreases height, k + 1,
    {
        let children = self.g.inodes[a].children;
        if k == 0 {
            assert(children.take(0) =~= Seq::empty());
            assert(done.union(self.upto(a, 0)) =~= done);
        } else {
            let m = (k - 1) as nat;
            let c = children[m as int];
            self.lemma_repath_children(t, done, a, m, height);
            let from = self.g.inodes[a].full_path;
            let mid = t.children_repathed(children.take(m as int), from, self.goal(a), height);
            let got = done.union(self.upto(a, m as int));
            self.lemma_child_below(a, m as int);
            assert forall|y: u64| #[trigger] got.contains(y) implies !self.below(c.ino, y) by {
                if !done.contains(y) {
                    let i = choose|i: int|
                        0 <= i < m && self.below((#[trigger] children[i]).ino, y);
                    self.lemma_siblings_apart(a, i, m as int, y);
                }
            }
            assert(self.below(c.ino, c.ino));
            assert(mid.is_placed(c, from)) by {
                assert(tree::edge_ok(self.g, a, c));
                assert(tree::place_ok(self.g, c.ino));
                assert(!got.contains(c.ino));
                assert(self.m.inodes.contains_key(c.ino));
                assert(mid.inodes.contains_key(c.ino));
            }
            self.lemma_repath(mid, got, c.ino, height);
            assert(children.take(k as int).drop_last() =~= children.take(m as int));
            assert(children.take(k as int).last() == c);
            assert(got.union(self.subtree(c.ino)) =~= done.union(self.upto(a, k as int))) by {
                assert forall|y: u64| got.union(self.subtree(c.ino)).contains(y) <==> done.union(
                    self.upto(a, k as int),
                ).contains(y) by {
                    if self.upto(a, k as int).contains(y) {
                        let i = choose|i: int|
                            0 <= i < k && self.below((#[trigger] children[i]).ino, y);
                        if i < m {
                            assert(self.upto(a, m as int).contains(y));
                        }
                    }
                    if self.upto(a, m as int).contains(y) {
                        let i = choose|i: int|
                            0 <= i < m && self.below((#[trigger] children[i]).ino, y);
                        assert(self.below(children[i].ino, y));
                    }
                }
            }
        }
    }
}

proof fn lemma_under_through(a: Seq<char>, b: Seq<char>, path: Seq<char>)
    requires
        under(a, b),
        under(b, path),
    ensures
        under(a, path),
{
    lemma_under_longer(a, b);
    lemma_under_longer(b, path);
    if b != a && path != b {
        assert(path.take(a.len() as int) =~= path.take(b.len() as int).take(a.len() as int));
        assert(path[a.len() as int] == path.take(b.len() as int)[a.len() as int]);
        lemma_chars_prefix(a, path);
    }
}

pub proof fn lemma_first_edge(children: Seq<ChildModel>, ino: u64, name: Seq<char>)
    ensures
        match model::first_edge(children, ino, name) {
            Some(i) => 0 <= i < children.len() && children[i].ino == ino && children[i].name
                == name,
            None => forall|i: int|
                0 <= i < children.len() ==> (#[trigger] children[i]).ino != ino || children[i].name
                    != name,
        },
    decreases children.len(),
{
    if children.len() > 0 {
        let low = children.drop_last();
        lemma_first_edge(low, ino, name);
        assert forall|i: int| 0 <= i < low.len() implies #[trigger] children[i] == low[i] by {}
        if model::first_edge(children, ino, name) is None {
            assert(children[children.len() - 1] == children.last());
        }
    }
}

/// The table in which `x` has its new place, and its old path is no longer known.
pub open spec fn relinked(g: TableModel, x: u64, np: u64, nn: Seq<char>) -> TableModel {
    TableModel { paths: g.paths.remove(g.inodes[x].full_path), ..g }.moved(
        x,
        g.inodes[x].parent,
        g.inodes[x].name,
        np,
        nn,
    )
}

/// `x` can be put in the directory `np` under the name `nn`: nothing is there, and `np` is not below
/// `x`.
pub open spec fn can_move(g: TableModel, x: u64, np: u64, nn: Seq<char>) -> bool {
    &&& tree::wf(g)
    &&& g.inodes.contains_key(x)
    &&& tree::linked(g.inodes[x])
    &&& x != ROOT_INODE
    &&& g.inodes.contains_key(np)
    &&& g.inodes[np].kind == InodeKind::Directory
    &&& tree::good_name(nn)
    &&& !g.paths.contains_key(inode::spec_child_path(g.inodes[np].full_path, nn))
    &&& !under(g.inodes[x].full_path, g.inodes[np].full_path)
}

/// The children of a directory once `x` has its new place.
proof fn lemma_relinked_children(g: TableModel, x: u64, np: u64, nn: Seq<char>, y: u64)
    requires
        can_move(g, x, np, nn),
        g.inodes.contains_key(y),
    ensures
        ({
            let old_children = g.inodes[y].children;
            let new_children = relinked(g, x, np, nn).inodes[y].children;
            &&& tree::no_duplicates(new_children)
            &&& forall|i: int|
                0 <= i < new_children.len() ==> (y == np && #[trigger] new_children[i]
                    == ChildModel { ino: x, name: nn }) || (new_children[i].ino != x
                    && old_children.contains(new_children[i]))
            &&& forall|j: int|
                0 <= j < old_children.len() && (#[trigger] old_children[j]).ino != x
                    ==> new_children.contains(old_children[j])
            &&& y == np ==> new_children.contains(ChildModel { ino: x, name: nn })
            &&& y != g.inodes[x].parent && y != np ==> new_children == old_children
        }),
{
    let p = g.inodes[x].parent;
    let name = g.inodes[x].name;
    let s = g.inodes[y].children;
    let t = relinked(g, x, np, nn).inodes[y].children;
    let edge = ChildModel { ino: x, name: nn };
    assert(tree::place_ok(g, x));
    assert(tree::no_duplicates(s));
    assert(p != x) by {
        if p == x {
            assert(g.inodes[x].full_path.len() > g.inodes[x].full_path.len());
        }
    }
    assert(np != x);
    lemma_first_edge(g.inodes[p].children, x, name);
    let i0 = choose|i: int|
        0 <= i < g.inodes[p].children.len() && #[trigger] g.inodes[p].children[i].ino == x;
    assert(tree::edge_ok(g, p, g.inodes[p].children[i0]));
    assert(model::first_edge(g.inodes[p].children, x, name) is Some);
    let k = model::first_edge(g.inodes[p].children, x, name)->Some_0;
    let taken = if y == p {
        s.remove(k)
    } else {
        s
    };
    assert(t == if y == np {
        taken.push(edge)
    } else {
        taken
    });
    assert forall|i: int| 0 <= i < taken.len() implies (#[trigger] taken[i]).ino != x && s.contains(
        taken[i],
    ) by {
        if y == p {
            let j = if i < k {
                i
            } else {
                i + 1
            };
            assert(taken[i] == s[j]);
            assert(s[j].ino != s[k].ino);
        } else {
            assert(taken[i] == s[i]);
            assert(tree::edge_ok(g, y, g.inodes[y].children[i]));
        }
    }
    assert forall|j: int| 0 <= j < s.len() && (#[trigger] s[j]).ino != x implies taken.contains(
        s[j],
    ) by {
        if y == p {
            let i = if j < k {
                j
            } else {
                j - 1
            };
            assert(taken[i] == s[j]);
        } else {
            assert(taken[j] == s[j]);
        }
    }
    assert(tree::no_duplicates(taken)) by {
        if y == p {
            assert forall|i: int, j: int| 0 <= i < j < taken.len() implies (#[trigger] taken[i]).ino
                != (#[trigger] taken[j]).ino by {
                let a = if i < k {
                    i
                } else {
                    i + 1
                };
                let b = if j < k {
                    j
                } else {
                    j + 1
                };
                assert(taken[i] == s[a] && taken[j] == s[b]);
            }
        }
    }
    if y == np {
        assert(t[taken.len() as int] == edge);
        assert forall|j: int| 0 <= j < s.len() && (#[trigger] s[j]).ino != x implies t.contains(
            s[j],
        ) by {
            let i = choose|i: int| 0 <= i < taken.len() && taken[i] == s[j];
            assert(t[i] == s[j]);
        }
        assert forall|i: int, j: int| 0 <= i < j < t.len() implies (#[trigger] t[i]).ino != (
        #[trigger] t[j]).ino by {
            assert(t[i] == taken[i]);
            if j < taken.len() {
                assert(t[j] == taken[j]);
            }
        }
        assert forall|i: int| 0 <= i < t.len() implies (#[trigger] t[i] == edge) || (t[i].ino != x
            && s.contains(t[i])) by {
            if i < taken.len() {
                assert(t[i] == taken[i]);
            }
        }
    }
}

proof fn lemma_relocation_ok(g: TableModel, x: u64, np: u64, nn: Seq<char>) -> (rel: Relocation)
    requires
        can_move(g, x, np, nn),
    ensures
        rel.ok(),
        rel.g == g,
        rel.m == relinked(g, x, np, nn),
        rel.x == x,
        rel.new == inode::spec_child_path(g.inodes[np].full_path, nn),
        model::bounded_height(rel.m.inodes, x),
{
    let new = inode::spec_child_path(g.inodes[np].full_path, nn);
    let m = relinked(g, x, np, nn);
    let rel = Relocation { g, m, x, new };
    let p = g.inodes[x].parent;
    assert(tree::place_ok(g, x));
    if under(rel.source(), new) {
        lemma_under_parent(rel.source(), g.inodes[np].full_path, nn);
    }
    if under(new, rel.source()) {
        lemma_base_exists(g, x, new);
    }
    assert forall|y: u64| #[trigger] rel.below(x, y) implies m.inodes[y].children
        == g.inodes[y].children by {
        lemma_under_longer(rel.source(), g.inodes[y].full_path);
        lemma_relinked_children(g, x, np, nn, y);
    }
    assert(rel.ok());
    let max = tree::lemma_longest(g.inodes, g.inodes.dom());
    assert forall|y: u64| #[trigger] g.inodes.contains_key(y) implies g.inodes[y].full_path.len()
        <= max by {
        assert(g.inodes.dom().contains(y));
    }
    rel.lemma_height(max, x, max + 1);
    rel
}

impl Relocation {
    proof fn lemma_height(self, max: nat, a: u64, height: nat)
        requires
            self.ok(),
            self.below(self.x, a),
            forall|y: u64| #[trigger]
                self.g.inodes.contains_key(y) ==> self.g.inodes[y].full_path.len() <= max,
            self.g.inodes[a].full_path.len() + height > max,
        ensures
            model::height_within(self.m.inodes, a, height),
        decreases height,
    {
        let s = self.g.inodes[a].children;
        assert(self.m.inodes[a].children == s);
        assert forall|i: int| 0 <= i < self.m.inodes[a].children.len() implies model::height_within(
            self.m.inodes,
            (#[trigger] self.m.inodes[a].children[i]).ino,
            (height - 1) as nat,
        ) by {
            assert(self.m.inodes[a].children[i] == s[i]);
            self.lemma_child_below(a, i);
            assert(tree::edge_ok(self.g, a, self.g.inodes[a].children[i]));
            assert(tree::place_ok(self.g, s[i].ino));
            self.lemma_height(max, s[i].ino, (height - 1) as nat);
        }
    }
}

/// Moving something to a free place, and giving everything in it the path that follows, keeps the
/// tree.
#[verifier::rlimit(60)]
#[verifier::spinoff_prover]
proof fn lemma_relocated_wf(g: TableModel, x: u64, np: u64, nn: Seq<char>)
    requires
        can_move(g, x, np, nn),
    ensures
        ({
            let new = inode::spec_child_path(g.inodes[np].full_path, nn);
            let r = relinked(g, x, np, nn).subtree_repathed(x, new);
            &&& tree::wf(r)
            &&& model::bounded_height(relinked(g, x, np, nn).inodes, x)
            &&& forall|y: u64| #[trigger] r.inodes.contains_key(y) <==> g.inodes.contains_key(y)
            &&& forall|y: u64| #[trigger]
                r.inodes.contains_key(y) ==> r.inodes[y].full_path == if tree::linked(g.inodes[y])
                    && under(g.inodes[x].full_path, g.inodes[y].full_path) {
                    moved_path(g.inodes[x].full_path, new, g.inodes[y].full_path)
                } else {
                    g.inodes[y].full_path
                }
            &&& forall|y: u64| #[trigger]
                r.inodes.contains_key(y) ==> tree::linked(r.inodes[y]) == tree::linked(g.inodes[y])
            &&& r.inodes[x].parent == np
            &&& r.inodes[x].name == nn
            &&& tree::linked(r.inodes[x])
        }),
{
    let rel = lemma_relocation_ok(g, x, np, nn);
    let new = rel.new;
    let m = rel.m;
    let old_path = rel.source();
    let h = model::height_of(m.inodes, x);
    let r = m.repathed(x, new, h);
    assert(rel.below(x, x));
    assert(old_path.skip(old_path.len() as int) =~= Seq::empty());
    assert(rel.goal(x) =~= new);
    rel.lemma_start();
    rel.lemma_repath(m, Set::empty(), x, h);
    let done = Set::<u64>::empty().union(rel.subtree(x));
    assert(rel.stage(r, done));
    assert forall|y: u64| #[trigger] done.contains(y) <==> rel.below(x, y) by {}
    let p = g.inodes[x].parent;
    assert(tree::place_ok(g, x));
    assert(r.inodes.dom() =~= g.inodes.dom());
    assert forall|y: u64| #[trigger] r.inodes.contains_key(y) implies tree::entry_ok(r, y) by {
        assert(m.inodes.contains_key(y));
        assert(tree::entry_ok(g, y));
        assert(tree::entry_ok(g, p));
        assert(tree::entry_ok(g, np));
        lemma_relinked_children(g, x, np, nn, y);
    }
    assert forall|y: u64| #[trigger] r.inodes.contains_key(y) implies tree::no_duplicates(
        r.inodes[y].children,
    ) by {
        assert(g.inodes.contains_key(y));
        lemma_relinked_children(g, x, np, nn, y);
    }
    assert forall|y: u64, i: int|
        r.inodes.contains_key(y) && 0 <= i < r.inodes[y].children.len() implies tree::edge_ok(
        r,
        y,
        #[trigger] r.inodes[y].children[i],
    ) by {
        assert(g.inodes.contains_key(y));
        lemma_relinked_children(g, x, np, nn, y);
        let c = r.inodes[y].children[i];
        assert(m.inodes[y].children[i] == c);
        assert(r.inodes.contains_key(x));
        if !(y == np && c == (ChildModel { ino: x, name: nn })) {
            let s = g.inodes[y].children;
            let j = choose|j: int| 0 <= j < s.len() && s[j] == c;
            assert(tree::edge_ok(g, y, g.inodes[y].children[j]));
            assert(r.inodes.contains_key(c.ino));
        }
    }
    assert forall|y: u64| #[trigger]
        r.inodes.contains_key(y) && y != ROOT_INODE && tree::linked(
            r.inodes[y],
        ) implies tree::place_ok(r, y) by {
        assert(m.inodes.contains_key(y));
        assert(tree::linked(g.inodes[y]));
        assert(tree::place_ok(g, y));
        assert(r.inodes.contains_key(np));
        if y == x {
            lemma_relinked_children(g, x, np, nn, np);
            let s = m.inodes[np].children;
            let i = choose|i: int| 0 <= i < s.len() && s[i] == (ChildModel { ino: x, name: nn });
            assert(r.inodes[np].children[i].ino == x);
            assert(!rel.below(x, np));
        } else {
            let q = g.inodes[y].parent;
            assert(r.inodes.contains_key(q));
            lemma_relinked_children(g, x, np, nn, q);
            let s = g.inodes[q].children;
            let j = choose|j: int| 0 <= j < s.len() && #[trigger] s[j].ino == y;
            let t = m.inodes[q].children;
            let i = choose|i: int| 0 <= i < t.len() && t[i] == s[j];
            assert(r.inodes[q].children[i].ino == y);
            if rel.below(x, q) {
                lemma_under_child(old_path, g.inodes[q].full_path, g.inodes[y].name);
                lemma_moved_child(old_path, new, g.inodes[q].full_path, g.inodes[y].name);
            } else if rel.below(x, y) {
                if g.inodes[y].full_path == old_path {
                    rel.lemma_found(x);
                    rel.lemma_found(y);
                } else {
                    lemma_under_parent(old_path, g.inodes[q].full_path, g.inodes[y].name);
                }
            }
        }
    }
    assert forall|q: Seq<char>| #[trigger] r.paths.contains_key(q) implies tree::path_ok(r, q) by {
        assert(m.inodes.contains_key(r.paths[q]));
    }
    assert(!rel.below(x, ROOT_INODE)) by {
        if rel.below(x, ROOT_INODE) {
            lemma_under_longer(old_path, g.inodes[ROOT_INODE].full_path);
        }
    }
    assert(r.inodes.contains_key(ROOT_INODE));
    assert(r.inodes.contains_key(x));
    assert(r.inodes[ROOT_INODE].full_path == Seq::<char>::empty());
    assert(r.paths.contains_key(r.inodes[ROOT_INODE].full_path));
}

/// Every inode of `a` has the same place in `b`.
pub open spec fn same_places(a: TableModel, b: TableModel) -> bool {
    &&& forall|x: u64| #[trigger] b.inodes.contains_key(x) <==> a.inodes.contains_key(x)
    &&& forall|x: u64| #[trigger]
        b.inodes.contains_key(x) ==> tree::same_place(a.inodes[x], b.inodes[x])
    &&& a.paths == b.paths
    &&& a.next_inode == b.next_inode
}

proof fn lemma_same_places_join(a: TableModel, b: TableModel, c: TableModel)
    requires
        same_places(a, b),
        same_places(b, c),
    ensures
        same_places(a, c),
{
    assert forall|x: u64| #[trigger] c.inodes.contains_key(x) implies tree::same_place(
        a.inodes[x],
        c.inodes[x],
    ) by {
        assert(b.inodes.contains_key(x));
    }
    assert forall|x: u64| #[trigger] c.inodes.contains_key(x) <==> a.inodes.contains_key(x) by {
        assert(b.inodes.contains_key(x) <==> a.inodes.contains_key(x));
    }
}

proof fn lemma_files_noted_in_place(t: TableModel, children: Seq<ChildModel>)
    ensures
        same_places(t, rename::files_noted(t, children)),
    decreases children.len(),
{
    if children.len() > 0 {
        let low = rename::files_noted(t, children.drop_last());
        lemma_files_noted_in_place(t, children.drop_last());
        lemma_same_places_join(t, low, rename::files_noted(t, children));
    }
}

proof fn lemma_below_noted_in_place(t: TableModel, dir: u64, height: nat)
    ensures
        same_places(t, rename::below_noted(t, dir, height)),
    decreases height, 0nat,
{
    if height > 0 && t.inodes.contains_key(dir) {
        let children = t.inodes[dir].children;
        let files = rename::files_noted(t, children);
        lemma_files_noted_in_place(t, children);
        lemma_subdirs_noted_in_place(files, children, (height - 1) as nat);
        lemma_same_places_join(t, files, rename::below_noted(t, dir, height));
    }
}

proof fn lemma_subdirs_noted_in_place(t: TableModel, children: Seq<ChildModel>, height: nat)
    ensures
        same_places(t, rename::subdirs_noted(t, children, height)),
    decreases height, children.len(),
{
    if children.len() > 0 {
        let x = children.last().ino;
        let high = if t.inodes.contains_key(x) && t.inodes[x].kind == InodeKind::Directory {
            rename::below_noted(t, x, height)
        } else {
            t
        };
        lemma_below_noted_in_place(t, x, height);
        lemma_subdirs_noted_in_place(high, children.drop_last(), height);
        lemma_same_places_join(t, high, rename::subdirs_noted(t, children, height));
    }
}

/// What a name leads to is in the tree, in that directory and under that name.
pub proof fn lemma_named(t: TableModel, dir: u64, name: Seq<char>)
    requires
        tree::wf(t),
        t.child_named(dir, name) is Some,
    ensures
        ({
            let x = t.child_named(dir, name)->Some_0;
            &&& t.inodes.contains_key(dir)
            &&& t.inodes.contains_key(x)
            &&& t.inodes[x].inode == x
            &&& x != ROOT_INODE
            &&& tree::linked(t.inodes[x])
            &&& t.inodes[x].parent == dir
            &&& t.inodes[x].name == name
            &&& tree::place_ok(t, x)
            &&& x != dir
        }),
{
    let x = t.child_named(dir, name)->Some_0;
    let s = t.inodes[dir].children;
    tree::lemma_first_live(t.inodes, s, name);
    let i = choose|i: int| 0 <= i < s.len() && (#[trigger] s[i]).ino == x && s[i].name == name;
    assert(tree::edge_ok(t, dir, t.inodes[dir].children[i]));
    assert(tree::entry_ok(t, x));
    assert(tree::place_ok(t, x));
}

/// Making way for a rename keeps the tree and frees the path, and leaves what is renamed, and both
/// directories, where they are.
pub proof fn lemma_target_removed(
    t: TableModel,
    x: u64,
    newparent: u64,
    newname: Seq<char>,
    now: Timestamp,
)
    requires
        tree::wf(t),
        t.inodes.contains_key(x),
        tree::linked(t.inodes[x]),
        t.inodes.contains_key(newparent),
        t.inodes[newparent].kind == InodeKind::Directory,
        x != newparent,
        tree::good_name(newname),
        t.child_named(newparent, newname) matches Some(y) ==> y != x && t.inodes[y].children.len()
            == 0,
    ensures
        ({
            let target = t.child_named(newparent, newname);
            let r = rename::target_removed(t, target, newparent, newname, now);
            &&& tree::wf(r)
            &&& r.inodes.contains_key(x)
            &&& r.inodes[x] == t.inodes[x]
            &&& r.inodes.contains_key(newparent)
            &&& r.inodes[newparent].kind == InodeKind::Directory
            &&& r.inodes[newparent].full_path == t.inodes[newparent].full_path
            &&& !r.paths.contains_key(
                inode::spec_child_path(t.inodes[newparent].full_path, newname),
            )
            &&& forall|y: u64| #[trigger] r.inodes.contains_key(y) ==> t.inodes.contains_key(y)
                && r.inodes[y].full_path == t.inodes[y].full_path && (tree::linked(r.inodes[y])
                ==> tree::linked(t.inodes[y]))
        }),
{
    let target = t.child_named(newparent, newname);
    let r = rename::target_removed(t, target, newparent, newname, now);
    let path = inode::spec_child_path(t.inodes[newparent].full_path, newname);
    tree::law_names_and_paths_agree(t, newparent, newname);
    if let Some(y) = target {
        lemma_named(t, newparent, newname);
        let e = t.inodes[y];
        if e.kind == InodeKind::Directory {
            tree::law_removal_keeps_wf(t, y);
            let rest = t.without(y).detached(e.parent, y, e.kind, false);
            let starts = model::child_inos(e.children);
            assert forall|z: u64| !(#[trigger] t.descendants(y).contains(z)) by {
                if t.descendants(y).contains(z) {
                    let walk = choose|walk: Seq<u64>| #[trigger]
                        model::is_walk(rest.inodes, walk) && starts.contains(walk[0])
                            && walk.last() == z;
                    assert(starts.contains(walk[0]));
                }
            }
        } else {
            let s = t.inodes[newparent].children;
            tree::lemma_first_named(s, newname);
            tree::lemma_first_live(t.inodes, s, newname);
            let i = choose|i: int|
                0 <= i < s.len() && (#[trigger] s[i]).ino == y && s[i].name == newname;
            assert(s[i].name == newname);
            let k = model::first_named(s, newname)->Some_0;
            assert(tree::edge_ok(t, newparent, t.inodes[newparent].children[k]));
            assert(tree::place_ok(t, s[k].ino));
            assert(s[k].ino == y);
            tree::law_unlink_keeps_wf(t, newparent, newname, now);
            let u = t.unlinked(newparent, newname, now);
            assert(u.inodes[y].full_path == path);
            if rename::replaced_goes(t, target, newparent, newname, now) {
                tree::law_orphan_removal_keeps_wf(u, y);
            }
        }
    }
}

/// The tree in which a rename takes what it moves from its old place.
pub open spec fn ready_to_move(
    t: TableModel,
    info: RenameModel,
    target: Option<u64>,
    newparent: u64,
    newname: Seq<char>,
    now: Timestamp,
) -> TableModel {
    let base = rename::rename_base(t, info, target, newparent, newname, now);
    if info.kind == InodeKind::Directory {
        rename::below_noted(base, info.ino, model::height_of(base.inodes, info.ino))
    } else {
        base
    }
}

/// A rename that is checked on a tree.
pub open spec fn checked_rename(
    t: TableModel,
    parent: u64,
    name: Seq<char>,
    newparent: u64,
    newname: Seq<char>,
    no_replace: bool,
) -> bool {
    &&& tree::wf(t)
    &&& t.child_named(parent, name) is Some
    &&& t.inodes[newparent].kind == InodeKind::Directory
    &&& tree::good_name(newname)
    &&& rename::rename_check(t, parent, name, newparent, newname, no_replace) is Ok
    &&& t.child_named(newparent, newname) != t.child_named(parent, name)
}

pub proof fn lemma_ready_to_move(
    t: TableModel,
    parent: u64,
    name: Seq<char>,
    newparent: u64,
    newname: Seq<char>,
    no_replace: bool,
    now: Timestamp,
)
    requires
        checked_rename(t, parent, name, newparent, newname, no_replace),
    ensures
        ({
            let x = t.child_named(parent, name)->Some_0;
            let target = t.child_named(newparent, newname);
            let info = rename::rename_info(t, t.inodes[x], newparent, newname);
            let g = ready_to_move(t, info, target, newparent, newname, now);
            &&& info.ino == x
            &&& can_move(g, x, newparent, newname)
            &&& info.old_path == g.inodes[x].full_path
            &&& info.new_full_path == inode::spec_child_path(
                g.inodes[newparent].full_path,
                newname,
            )
            &&& g.inodes[x].parent == parent
            &&& g.inodes[x].name == name
            &&& model::bounded_height(
                rename::rename_base(t, info, target, newparent, newname, now).inodes,
                x,
            )
            &&& forall|y: u64| #[trigger] g.inodes.contains_key(y) ==> t.inodes.contains_key(y)
                && g.inodes[y].full_path == t.inodes[y].full_path && (tree::linked(g.inodes[y])
                ==> tree::linked(t.inodes[y]))
        }),
{
    let x = t.child_named(parent, name)->Some_0;
    let target = t.child_named(newparent, newname);
    let info = rename::rename_info(t, t.inodes[x], newparent, newname);
    lemma_named(t, parent, name);
    assert(!under(t.inodes[x].full_path, t.inodes[newparent].full_path)) by {
        if under(t.inodes[x].full_path, t.inodes[newparent].full_path) {
            lemma_under_is_above(t, newparent, x);
        }
    }
    if let Some(y) = target {
        lemma_named(t, newparent, newname);
        assert(tree::entry_ok(t, y));
    }
    lemma_target_removed(t, x, newparent, newname, now);
    let t1 = rename::target_removed(t, target, newparent, newname, now);
    let base = rename::rename_base(t, info, target, newparent, newname, now);
    assert(same_places(t1, base));
    tree::lemma_same_places(t1, base);
    tree::law_no_cycles(base, x);
    let g = ready_to_move(t, info, target, newparent, newname, now);
    lemma_below_noted_in_place(base, x, model::height_of(base.inodes, x));
    assert(same_places(base, g));
    tree::lemma_same_places(base, g);
    lemma_same_places_join(t1, base, g);
    assert(g.inodes.contains_key(x) && g.inodes.contains_key(newparent));
    assert forall|y: u64| #[trigger] g.inodes.contains_key(y) implies t.inodes.contains_key(y)
        && g.inodes[y].full_path == t.inodes[y].full_path && (tree::linked(g.inodes[y])
        ==> tree::linked(t.inodes[y])) by {
        assert(t1.inodes.contains_key(y));
    }
}

proof fn lemma_touches(done: TableModel, parent: u64, newparent: u64, x: u64, now: Timestamp)
    requires
        tree::wf(done),
    ensures
        ({
            let r = namespace::dir_touched(
                namespace::dir_touched(done, parent, now),
                newparent,
                now,
            ).updated(x, |e: EntryModel| EntryModel { ctime: now, ..e });
            tree::wf(r) && same_places(done, r)
        }),
{
    let one = namespace::dir_touched(done, parent, now);
    let two = namespace::dir_touched(one, newparent, now);
    let r = two.updated(x, |e: EntryModel| EntryModel { ctime: now, ..e });
    assert(same_places(done, one));
    assert(same_places(one, two));
    assert(same_places(two, r));
    lemma_same_places_join(done, one, two);
    lemma_same_places_join(done, two, r);
    tree::lemma_same_places(done, r);
}

/// After a rename, the new name leads to what was renamed, and the old one to nothing.
proof fn lemma_new_place(
    t: TableModel,
    g: TableModel,
    r: TableModel,
    info: RenameModel,
    parent: u64,
    name: Seq<char>,
    newparent: u64,
    newname: Seq<char>,
    x: u64,
)
    requires
        tree::wf(t),
        t.child_named(parent, name) == Some(x),
        can_move(g, x, newparent, newname),
        info.old_path == t.inodes[x].full_path,
        info.old_path == g.inodes[x].full_path,
        info.new_full_path == inode::spec_child_path(g.inodes[newparent].full_path, newname),
        tree::wf(r),
        r.inodes.contains_key(x),
        tree::linked(r.inodes[x]),
        r.inodes[x].parent == newparent,
        r.inodes[x].name == newname,
        forall|y: u64| #[trigger]
            r.inodes.contains_key(y) && tree::linked(r.inodes[y]) ==> r.inodes[y].full_path
                == if under(info.old_path, t.inodes[y].full_path) {
                moved_path(info.old_path, info.new_full_path, t.inodes[y].full_path)
            } else {
                t.inodes[y].full_path
            },
    ensures
        r.child_named(newparent, newname) == Some(x),
        r.child_named(parent, name) is None,
{
    lemma_named(t, parent, name);
    assert(tree::place_ok(r, x));
    tree::law_names_and_paths_agree(r, newparent, newname);
    if r.child_named(parent, name) is Some {
        lemma_named(r, parent, name);
        let z = r.child_named(parent, name)->Some_0;
        assert(!under(info.old_path, t.inodes[parent].full_path)) by {
            if under(info.old_path, t.inodes[parent].full_path) {
                lemma_under_longer(info.old_path, t.inodes[parent].full_path);
            }
        }
        assert(tree::linked(r.inodes[parent]));
        assert(r.inodes[z].full_path == info.old_path);
        if under(info.old_path, t.inodes[z].full_path) {
            lemma_moved_under(info.old_path, info.new_full_path, t.inodes[z].full_path);
            lemma_base_exists(g, x, info.new_full_path);
        }
    }
}

/// A rename that is checked and carried out on the same tree comes to an end and keeps the tree.
/// What was renamed is found under its new name and no longer under the old one, and everything
/// below it has the path that follows.
pub proof fn law_rename_keeps_wf(
    t: TableModel,
    parent: u64,
    name: Seq<char>,
    newparent: u64,
    newname: Seq<char>,
    no_replace: bool,
    now: Timestamp,
)
    requires
        checked_rename(t, parent, name, newparent, newname, no_replace),
    ensures
        ({
            let x = t.child_named(parent, name)->Some_0;
            let target = t.child_named(newparent, newname);
            let info = rename::rename_info(t, t.inodes[x], newparent, newname);
            let r = rename::renamed(t, info, target, parent, name, newparent, newname, now);
            &&& rename::apply_plan(t, info, newparent, newname, no_replace) == ApplyPlan::Go(target)
            &&& rename::rename_terminates(
                t,
                info,
                target,
                parent,
                name,
                newparent,
                newname,
                now,
            )
            &&& tree::wf(r)
            &&& r.child_named(newparent, newname) == Some(x)
            &&& r.child_named(parent, name) is None
            &&& forall|y: u64| #[trigger] r.inodes.contains_key(y) ==> t.inodes.contains_key(y)
            &&& forall|y: u64| #[trigger]
                r.inodes.contains_key(y) && tree::linked(r.inodes[y]) ==> r.inodes[y].full_path
                    == if under(info.old_path, t.inodes[y].full_path) {
                    moved_path(info.old_path, info.new_full_path, t.inodes[y].full_path)
                } else {
                    t.inodes[y].full_path
                }
        }),
{
    let x = t.child_named(parent, name)->Some_0;
    let target = t.child_named(newparent, newname);
    let info = rename::rename_info(t, t.inodes[x], newparent, newname);
    let r = rename::renamed(t, info, target, parent, name, newparent, newname, now);
    let g = ready_to_move(t, info, target, newparent, newname, now);
    lemma_ready_to_move(t, parent, name, newparent, newname, no_replace, now);
    lemma_named(t, parent, name);
    if target is Some {
        lemma_named(t, newparent, newname);
    }
    lemma_relocated_wf(g, x, newparent, newname);
    let m = relinked(g, x, newparent, newname);
    assert(m == rename::rename_relinked(
        t,
        info,
        target,
        parent,
        name,
        newparent,
        newname,
        now,
    ));
    let done = m.subtree_repathed(x, info.new_full_path);
    lemma_touches(done, parent, newparent, x, now);
    assert(same_places(done, r));
    assert forall|y: u64| #[trigger] r.inodes.contains_key(y) implies t.inodes.contains_key(y)
        && (tree::linked(r.inodes[y]) ==> r.inodes[y].full_path == if under(
        info.old_path,
        t.inodes[y].full_path,
    ) {
        moved_path(info.old_path, info.new_full_path, t.inodes[y].full_path)
    } else {
        t.inodes[y].full_path
    }) by {
        assert(done.inodes.contains_key(y) && g.inodes.contains_key(y));
    }
    assert(r.inodes.contains_key(x) && done.inodes.contains_key(x));
    lemma_new_place(t, g, r, info, parent, name, newparent, newname, x);
}

} // verus!
