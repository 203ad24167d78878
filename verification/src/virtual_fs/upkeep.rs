//! What putting inodes in the table, using them and taking them out does to it.
use crate::time::Timestamp;
use crate::virtual_fs;
use crate::virtual_fs::entries;
use crate::virtual_fs::inode::{ChildModel, EntryModel, InodeKind};
use crate::virtual_fs::laws;
use crate::virtual_fs::listing;
use crate::virtual_fs::model;
use crate::virtual_fs::model::{NewInode, TableModel};
use crate::virtual_fs::tree;
use std::time::Instant;
use vstd::prelude::*;

verus! {

/// What a walk from an inode arrives at goes with it.
proof fn lemma_subtree_goes(t: TableModel, ino: u64, walk: Seq<u64>)
    requires
        tree::wf(t),
        model::is_walk(t.inodes, walk),
        walk[0] == ino,
        walk.last() != ino,
    ensures
        t.descendants(ino).contains(walk.last()),
    decreases walk.len(),
{
    if exists|k: int| 0 < k < walk.len() && #[trigger] walk[k] == ino {
        let k = choose|k: int| 0 < k < walk.len() && #[trigger] walk[k] == ino;
        let rest = walk.skip(k);
        lemma_later_part(t, walk, k);
        assert(rest.last() == walk.last());
        lemma_subtree_goes(t, ino, rest);
    } else {
        let p = t.inodes[ino].parent;
        let rest = t.without(ino).detached(p, ino, t.inodes[ino].kind, false);
        let starts = model::child_inos(t.inodes[ino].children);
        let tail = walk.skip(1);
        assert(walk.len() > 1);
        assert forall|i: int| 0 <= i < tail.len() implies rest.inodes.contains_key(
            #[trigger] tail[i],
        ) by {
            assert(tail[i] == walk[i + 1]);
            assert(walk[i + 1] != ino);
        }
        assert forall|i: int|
            #![trigger tail[i]]
            0 <= i < tail.len() - 1 implies model::is_child(rest.inodes, tail[i], tail[i + 1]) by {
            let a = walk[i + 1];
            assert(tail[i] == a && tail[i + 1] == walk[i + 2]);
            assert(model::is_child(t.inodes, walk[i + 1], walk[(i + 1) + 1]));
            let k = choose|k: int|
                0 <= k < t.inodes[a].children.len() && #[trigger] t.inodes[a].children[k].ino
                    == walk[i + 2];
            assert(walk[i + 2] != ino && a != ino);
            if a == p {
                let keep = |c: ChildModel| c.ino != ino;
                let s = t.inodes[a].children;
                tree::lemma_filtered(s, keep);
                assert(keep(s[k]));
                let f = s.filter(keep);
                let j = choose|j: int| 0 <= j < f.len() && f[j] == s[k];
                assert(rest.inodes[a].children[j].ino == walk[i + 2]);
            } else {
                assert(rest.inodes[a].children[k].ino == walk[i + 2]);
            }
        }
        assert(model::is_walk(rest.inodes, tail));
        assert(model::is_child(t.inodes, walk[0], walk[0int + 1]));
        let k = choose|k: int|
            0 <= k < t.inodes[ino].children.len() && #[trigger] t.inodes[ino].children[k].ino
                == walk[1];
        assert(starts.contains(tail[0]));
        assert(tail.last() == walk.last());
    }
}

proof fn lemma_later_part(t: TableModel, walk: Seq<u64>, k: int)
    requires
        model::is_walk(t.inodes, walk),
        0 <= k < walk.len(),
    ensures
        model::is_walk(t.inodes, walk.skip(k)),
{
    let rest = walk.skip(k);
    assert forall|i: int| 0 <= i < rest.len() implies t.inodes.contains_key(#[trigger] rest[i]) by {
        assert(rest[i] == walk[i + k]);
    }
    assert forall|i: int|
        #![trigger rest[i]]
        0 <= i < rest.len() - 1 implies model::is_child(t.inodes, rest[i], rest[i + 1]) by {
        assert(rest[i] == walk[i + k] && rest[i + 1] == walk[(i + k) + 1]);
    }
}

/// Removing an inode removes it and everything below it, with their paths, and nothing else.
pub proof fn law_removal_takes_the_subtree(t: TableModel, ino: u64, x: u64)
    requires
        tree::wf(t),
        t.inodes.contains_key(ino),
        t.inodes.contains_key(x),
    ensures
        t.removed(ino).inodes.contains_key(x) <==> !model::reachable(t.inodes, set![ino]).contains(
            x,
        ),
        t.removed(ino).inodes.contains_key(x) && x != t.inodes[ino].parent
            ==> t.removed(ino).inodes[x] == t.inodes[x],
        model::reachable(t.inodes, set![ino]).contains(x) && tree::linked(t.inodes[x])
            ==> !t.removed(ino).paths.contains_key(t.inodes[x].full_path),
{
    if model::reachable(t.inodes, set![ino]).contains(x) && x != ino {
        let walk = choose|walk: Seq<u64>| #[trigger]
            model::is_walk(t.inodes, walk) && set![ino].contains(walk[0]) && walk.last() == x;
        assert(walk[0] == ino);
        lemma_subtree_goes(t, ino, walk);
        let rest = t.without(ino).detached(
            t.inodes[ino].parent,
            ino,
            t.inodes[ino].kind,
            false,
        );
        assert(rest.inodes.contains_key(x) && rest.inodes[x].full_path == t.inodes[x].full_path);
        assert(model::paths_of(rest.inodes, t.descendants(ino)).contains(t.inodes[x].full_path));
    }
    if t.descendants(ino).contains(x) {
        laws::lemma_descendants_in_subtree(t, ino, x);
    }
    if x == ino {
        model::lemma_reachable_start(t.inodes, set![ino], ino);
    }
}

/// Putting something at a path that is known leaves what is there as it is, apart from when it was
/// last checked. At a new path it is there as it was given, as the next inode, at the end of its
/// directory.
pub proof fn law_put_keeps_or_adds(t: TableModel, new: NewInode, now: Timestamp, checked: Instant)
    requires
        tree::wf(t),
        t.inodes.contains_key(new.parent),
        t.next_inode < u64::MAX,
    ensures
        ({
            let r = t.put(new, now, checked);
            &&& t.paths.contains_key(new.full_path) ==> {
                let x = t.paths[new.full_path];
                &&& t.insert_ino(new.full_path) == x
                &&& r.inodes[x] == (EntryModel { last_revalidated: Some(checked), ..t.inodes[x] })
                &&& entries::rest_kept(t, r, x, x)
                &&& r.paths == t.paths
                &&& r.next_inode == t.next_inode
            }
            &&& !t.paths.contains_key(new.full_path) ==> {
                let x = t.next_inode;
                let e = r.inodes[x];
                let before = t.inodes[new.parent].children;
                let after = r.inodes[new.parent].children;
                &&& t.insert_ino(new.full_path) == x
                &&& r.inodes.contains_key(x)
                &&& !t.inodes.contains_key(x)
                &&& e.inode == x
                &&& e.parent == new.parent
                &&& e.name == new.name
                &&& e.full_path == new.full_path
                &&& e.kind == new.kind
                &&& e.size == new.size
                &&& e.mtime == new.mtime
                &&& e.xet_hash == new.xet_hash
                &&& e.mode == new.mode
                &&& e.uid == new.uid
                &&& e.gid == new.gid
                &&& e.dirty_generation == 0
                &&& e.pending_deletes.len() == 0
                &&& e.children.len() == 0
                &&& e.children_loaded <==> new.kind != InodeKind::Directory
                &&& e.last_revalidated == Some(checked)
                &&& after.len() == before.len() + 1
                &&& after.last().ino == x
                &&& after.last().name == new.name
                &&& after.drop_last() == before
                &&& r.paths.contains_key(new.full_path) && r.paths[new.full_path] == x
                &&& r.next_inode == x + 1
                &&& entries::rest_kept(t, r, x, new.parent)
            }
        }),
{
    let r = t.put(new, now, checked);
    assert(!t.inodes.contains_key(t.next_inode)) by {
        if t.inodes.contains_key(t.next_inode) {
            assert(tree::entry_ok(t, t.next_inode));
        }
    }
    if t.paths.contains_key(new.full_path) {
        assert(tree::path_ok(t, new.full_path));
    } else {
        assert(r.inodes[new.parent].children.drop_last() =~= t.inodes[new.parent].children);
    }
}

/// What was used later counts as used later: it is the last of the two to be swept.
pub proof fn law_later_use_counts(t: TableModel, a: u64, b: u64)
    requires
        t.soft_limit > 0,
        t.touch_counter < u64::MAX - 1,
        t.inodes.contains_key(a),
        t.inodes.contains_key(b),
        a != b,
    ensures
        ({
            let r = t.touched(a).touched(b);
            &&& r.before(a, b)
            &&& !r.before(b, a)
            &&& r.inodes[a].eviction.last_touched < r.inodes[b].eviction.last_touched
            &&& r.inodes.dom() == t.inodes.dom()
        }),
{
    let r = t.touched(a).touched(b);
    assert(r.inodes.dom() =~= t.inodes.dom());
}

/// Which inodes are flushed, compared with the remote, listed again, and swept.
pub proof fn law_what_the_background_works_on(t: TableModel, x: u64)
    requires
        t.inodes.contains_key(x),
    ensures
        ({
            let e = t.inodes[x];
            let file = e.kind == InodeKind::File;
            &&& t.dirty_files().contains(x) <==> file && e.dirty_generation > 0 && e.nlink > 0
            &&& t.files().contains(x) <==> file
            &&& t.loaded_dirs().contains(x) <==> e.kind == InodeKind::Directory
                && e.children_loaded
            &&& t.sweepable_files().contains(x) ==> file && e.dirty_generation == 0 && e.nlink > 0
                && e.pending_deletes.len() == 0 && e.eviction.open_handles == 0
        }),
{
}

/// A directory shows itself first, then its parent, then its children, each of those once.
pub proof fn law_directories_show_themselves(t: TableModel, dir: u64)
    requires
        tree::wf(t),
        t.inodes.contains_key(dir),
    ensures
        ({
            let r = listing::shown(t, dir);
            &&& r.len() == 2 + t.inodes[dir].children.len()
            &&& r[0] == (dir, InodeKind::Directory, seq!['.'])
            &&& r[1] == (t.inodes[dir].parent, InodeKind::Directory, seq!['.', '.'])
            &&& forall|i: int|
                0 <= i < t.inodes[dir].children.len() ==> r[#[trigger] (i + 2)] == (
                    t.inodes[dir].children[i].ino,
                    t.inodes[t.inodes[dir].children[i].ino].kind,
                    t.inodes[dir].children[i].name,
                )
        }),
{
    reveal_strlit(".");
    reveal_strlit("..");
    assert("."@ =~= seq!['.']);
    assert(".."@ =~= seq!['.', '.']);
    let s = t.inodes[dir].children;
    assert forall|i: int| 0 <= i < s.len() implies t.inodes.contains_key((#[trigger] s[i]).ino)
        && t.inodes[s[i].ino].inode == s[i].ino by {
        assert(tree::edge_ok(t, dir, t.inodes[dir].children[i]));
        assert(tree::entry_ok(t, s[i].ino));
    }
    laws::lemma_all_shown(t, s);
    let r = listing::shown(t, dir);
    assert forall|i: int| 0 <= i < s.len() implies r[#[trigger] (i + 2)] == (
        s[i].ino,
        t.inodes[s[i].ino].kind,
        s[i].name,
    ) by {
        assert(laws::rows(t, s)[i] == r[i + 2]);
    }
}

/// The directories in a directory are those of its children that are directories.
pub proof fn law_subdirectories_are_children(t: TableModel, dir: u64, x: u64)
    requires
        tree::wf(t),
        t.inodes.contains_key(dir),
    ensures
        listing::subdirs(t, dir).contains(x) <==> model::is_child(t.inodes, dir, x)
            && t.inodes[x].kind == InodeKind::Directory,
{
    let s = t.inodes[dir].children;
    let keep = |c: ChildModel|
        t.inodes.contains_key(c.ino) && t.inodes[c.ino].kind == InodeKind::Directory;
    tree::lemma_filtered(s, keep);
    let f = s.filter(keep);
    let r = listing::subdirs(t, dir);
    assert(r == f.map_values(|c: ChildModel| c.ino));
    if r.contains(x) {
        let i = choose|i: int| 0 <= i < r.len() && r[i] == x;
        assert(f[i].ino == x);
        assert(keep(f[i]));
        let j = choose|j: int| 0 <= j < s.len() && s[j] == f[i];
        assert(t.inodes[dir].children[j].ino == x);
    }
    if model::is_child(t.inodes, dir, x) && t.inodes[x].kind == InodeKind::Directory {
        let j = choose|j: int|
            0 <= j < t.inodes[dir].children.len() && #[trigger] t.inodes[dir].children[j].ino == x;
        assert(tree::edge_ok(t, dir, t.inodes[dir].children[j]));
        assert(keep(s[j]));
        let i = choose|i: int| 0 <= i < f.len() && f[i] == s[j];
        assert(r[i] == x);
    }
}

/// A directory is listed exactly while its children are not known.
pub proof fn law_unlisted_directories_are_listed(t: TableModel, ino: u64)
    ensures
        ({
            let r = listing::load_status(t, ino);
            let e = t.inodes[ino];
            let dir = t.inodes.contains_key(ino) && e.kind == InodeKind::Directory;
            &&& r is Ok <==> dir
            &&& dir && e.children_loaded ==> r->Ok_0 is None
            &&& dir && !e.children_loaded ==> r->Ok_0 == Some(e.full_path)
            &&& r == Err::<Option<Seq<char>>, virtual_fs::Errno>(virtual_fs::Errno::ENOENT)
                <==> !t.inodes.contains_key(ino)
            &&& listing::wants_listing(t, ino) <==> dir && !e.children_loaded
        }),
{
}

/// What an operating system leaves behind is known by its name: one of a few, or any that starts
/// with a dot and an underscore.
pub proof fn law_leftovers_are_known_by_name(rest: Seq<char>)
    ensures
        virtual_fs::junk(seq!['.', '_'] + rest),
        rest.len() > 0 && rest[0] != '.' && rest[0] != '_' && rest[0] != 'T' && rest[0] != 'd'
            ==> !virtual_fs::junk(rest),
{
    reveal_strlit("._");
    reveal_strlit(".DS_Store");
    reveal_strlit(".Spotlight-V100");
    reveal_strlit(".Trashes");
    reveal_strlit(".fseventsd");
    reveal_strlit("__MACOSX");
    reveal_strlit("Thumbs.db");
    reveal_strlit("desktop.ini");
    let name = seq!['.', '_'] + rest;
    assert(name.subrange(0, 2) =~= "._"@);
    if rest.len() > 0 && "._"@.is_prefix_of(rest) {
        assert(rest.subrange(0, 2)[0] == rest[0]);
    }
}

} // verus!
