//! What a directory holds once it has been listed.
use crate::hub_api;
use crate::hub_api::TreeModel;
use crate::text;
use crate::virtual_fs::entries;
use crate::virtual_fs::inode;
use crate::virtual_fs::inode::{ChildModel, EntryModel, InodeKind, ROOT_INODE};
use crate::virtual_fs::laws;
use crate::virtual_fs::listing;
use crate::virtual_fs::listing::{ContextModel, Intake};
use crate::virtual_fs::model;
use crate::virtual_fs::model::TableModel;
use crate::virtual_fs::tree;
use vstd::prelude::*;

verus! {

/// A listed path is that of `name` in the directory at `prefix`, or of something below it.
pub open spec fn shows(prefix: Seq<char>, path: Seq<char>, name: Seq<char>) -> bool {
    path == entries::path_in(prefix, name) || exists|rest: Seq<char>|
        path == #[trigger] entries::path_in(prefix, name + seq!['/'] + rest)
}

/// A listed path is below the directory at `prefix`, through names that are not empty.
pub open spec fn is_below(prefix: Seq<char>, path: Seq<char>) -> bool {
    exists|rel: Seq<char>|
        rel.len() > 0 && rel[0] != '/' && path == #[trigger] entries::path_in(prefix, rel)
}

/// A directory can be listed, and what is listed is below it.
pub open spec fn can_take_in(
    t: TableModel,
    parent: u64,
    es: Seq<TreeModel>,
    c: ContextModel,
) -> bool {
    &&& laws::can_list(t, parent, c, es.len())
    &&& forall|i: int| 0 <= i < es.len() ==> is_below(c.prefix, (#[trigger] es[i]).path)
}

proof fn lemma_relative(prefix: Seq<char>, rel: Seq<char>)
    ensures
        listing::relative(prefix, entries::path_in(prefix, rel)) == rel,
{
    if prefix.len() > 0 {
        let path = entries::path_in(prefix, rel);
        reveal_strlit("/");
        let rest = seq!['/'] + rel;
        assert(prefix.is_prefix_of(path));
        assert(path.skip(prefix.len() as int) =~= rest);
        assert("/"@ =~= seq!['/']);
        assert("/"@.is_prefix_of(rest));
        assert(rest.skip(1) =~= rel);
    }
}

proof fn lemma_no_slash(name: Seq<char>)
    requires
        !name.contains('/'),
    ensures
        text::split_first(name, '/') is None,
{
    assert forall|j: int| 0 <= j < name.len() implies name[j] != '/' by {
        assert(name.contains(name[j]));
    }
    text::lemma_split_first_at(name, '/', name.len() as int);
}

/// How an entry below the directory is taken: for itself, or for the directory it is in.
proof fn lemma_shown_as(prefix: Seq<char>, path: Seq<char>, name: Seq<char>)
    requires
        is_below(prefix, path),
        tree::good_name(name),
    ensures
        ({
            let rel = listing::relative(prefix, path);
            &&& path == entries::path_in(prefix, rel)
            &&& rel.len() > 0
            &&& text::split_first(rel, '/') is Some ==> {
                let dir = text::split_first(rel, '/')->Some_0.0;
                &&& tree::good_name(dir)
                &&& shows(prefix, path, name) <==> dir == name
            }
            &&& text::split_first(rel, '/') is None ==> {
                &&& tree::good_name(rel)
                &&& shows(prefix, path, name) <==> rel == name
            }
        }),
{
    let rel = choose|rel: Seq<char>|
        rel.len() > 0 && rel[0] != '/' && path == #[trigger] entries::path_in(prefix, rel);
    lemma_relative(prefix, rel);
    text::lemma_split_first(rel, '/');
    lemma_no_slash(name);
    if shows(prefix, path, name) && path != entries::path_in(prefix, name) {
        let rest = choose|rest: Seq<char>|
            path == #[trigger] entries::path_in(prefix, name + seq!['/'] + rest);
        lemma_relative(prefix, name + seq!['/'] + rest);
        assert(rel == name + seq!['/'] + rest);
        assert forall|j: int| 0 <= j < name.len() implies rel[j] != '/' by {
            assert(rel[j] == name[j]);
            assert(name.contains(name[j]));
        }
        text::lemma_split_first_at(rel, '/', name.len() as int);
        assert(rel.take(name.len() as int) =~= name);
    } else if shows(prefix, path, name) {
        lemma_relative(prefix, name);
    }
    match text::split_first(rel, '/') {
        Some((dir, rest)) => {
            if dir.len() == 0 {
                assert(rel[0] == '/');
            }
            assert(rel =~= dir + seq!['/'] + rest);
            if dir == name {
                assert(path == entries::path_in(prefix, name + seq!['/'] + rest));
            }
        },
        None => {},
    }
}

proof fn lemma_fits(c: ContextModel, e: TreeModel)
    requires
        is_below(c.prefix, e.path),
    ensures
        laws::entry_fits(c, e),
{
    let name = seq!['a'];
    assert(!name.contains('/')) by {
        if name.contains('/') {
            let i = choose|i: int| 0 <= i < name.len() && name[i] == '/';
            assert(name[i] == 'a');
        }
    }
    lemma_shown_as(c.prefix, e.path, name);
}

/// The names that are taken in are those that are shown.
proof fn lemma_names_taken(
    t: TableModel,
    parent: u64,
    es: Seq<TreeModel>,
    c: ContextModel,
    name: Seq<char>,
)
    requires
        forall|i: int| 0 <= i < es.len() ==> is_below(c.prefix, (#[trigger] es[i]).path),
        tree::good_name(name),
    ensures
        ({
            let s = listing::all_taken_in(t, parent, es, c);
            s.names.contains(name) || s.dirs.contains(name) <==> exists|i: int|
                0 <= i < es.len() && shows(c.prefix, (#[trigger] es[i]).path, name)
        }),
    decreases es.len(),
{
    if es.len() > 0 {
        let front = es.drop_last();
        assert forall|i: int| 0 <= i < front.len() implies is_below(
            c.prefix,
            (#[trigger] front[i]).path,
        ) by {
            assert(front[i] == es[i]);
        }
        lemma_names_taken(t, parent, front, c, name);
        let last = es[es.len() - 1];
        assert(last == es.last());
        lemma_shown_as(c.prefix, last.path, name);
        if exists|i: int| 0 <= i < front.len() && shows(c.prefix, (#[trigger] front[i]).path, name) {
            let i = choose|i: int|
                0 <= i < front.len() && shows(c.prefix, (#[trigger] front[i]).path, name);
            assert(shows(c.prefix, es[i].path, name));
        }
        if exists|i: int| 0 <= i < es.len() && shows(c.prefix, (#[trigger] es[i]).path, name) {
            let i = choose|i: int|
                0 <= i < es.len() && shows(c.prefix, (#[trigger] es[i]).path, name);
            if i < front.len() {
                assert(front[i] == es[i]);
            }
        }
    }
}

/// A path that nothing listed shows is not added.
proof fn lemma_paths_taken(
    t: TableModel,
    parent: u64,
    es: Seq<TreeModel>,
    c: ContextModel,
    name: Seq<char>,
)
    requires
        forall|i: int| 0 <= i < es.len() ==> is_below(c.prefix, (#[trigger] es[i]).path),
        tree::good_name(name),
        !t.paths.contains_key(entries::path_in(c.prefix, name)),
        forall|i: int| 0 <= i < es.len() ==> !shows(c.prefix, (#[trigger] es[i]).path, name),
    ensures
        !listing::all_taken_in(t, parent, es, c).table.paths.contains_key(
            entries::path_in(c.prefix, name),
        ),
    decreases es.len(),
{
    if es.len() > 0 {
        let front = es.drop_last();
        assert forall|i: int| 0 <= i < front.len() implies is_below(
            c.prefix,
            (#[trigger] front[i]).path,
        ) && !shows(c.prefix, front[i].path, name) by {
            assert(front[i] == es[i]);
        }
        lemma_paths_taken(t, parent, front, c, name);
        let last = es[es.len() - 1];
        assert(last == es.last());
        lemma_shown_as(c.prefix, last.path, name);
        let rel = listing::relative(c.prefix, last.path);
        let path = entries::path_in(c.prefix, name);
        match text::split_first(rel, '/') {
            Some((dir, _)) => {
                if inode::spec_child_path(c.prefix, dir) == path {
                    lemma_relative(c.prefix, dir);
                    lemma_relative(c.prefix, name);
                }
            },
            None => {},
        }
    }
}

/// What is in the table at some point of taking in a listing stays, with its content.
proof fn lemma_later_kept(
    t: TableModel,
    parent: u64,
    es: Seq<TreeModel>,
    c: ContextModel,
    i: int,
    left: nat,
)
    requires
        laws::can_list(t, parent, c, es.len() + left),
        forall|j: int| 0 <= j < es.len() ==> laws::entry_fits(c, #[trigger] es[j]),
        0 <= i <= es.len(),
    ensures
        laws::content_kept(
            listing::all_taken_in(t, parent, es.take(i), c).table,
            listing::all_taken_in(t, parent, es, c).table,
        ),
        laws::can_list(listing::all_taken_in(t, parent, es, c).table, parent, c, left),
    decreases es.len(),
{
    laws::lemma_all_taken_in(t, parent, es, c, left);
    if i == es.len() {
        assert(es.take(i) =~= es);
    } else {
        let front = es.drop_last();
        assert forall|j: int| 0 <= j < front.len() implies laws::entry_fits(
            c,
            #[trigger] front[j],
        ) by {
            assert(front[j] == es[j]);
        }
        lemma_later_kept(t, parent, front, c, i, left + 1);
        assert(front.take(i) =~= es.take(i));
        assert(laws::entry_fits(c, es[es.len() - 1]));
        laws::lemma_taken_in(
            listing::all_taken_in(t, parent, front, c),
            parent,
            es.last(),
            c,
            left,
        );
        let a = listing::all_taken_in(t, parent, es.take(i), c).table;
        let b = listing::all_taken_in(t, parent, front, c).table;
        let r = listing::all_taken_in(t, parent, es, c).table;
        assert forall|x: u64| #[trigger] a.inodes.contains_key(x) implies r.inodes.contains_key(x)
            && laws::same_content(a.inodes[x], r.inodes[x]) by {
            assert(b.inodes.contains_key(x));
        }
    }
}

/// Owner, mode and time of an entry are the same.
pub open spec fn same_attributes(a: EntryModel, b: EntryModel) -> bool {
    &&& a.mode == b.mode
    &&& a.uid == b.uid
    &&& a.gid == b.gid
    &&& a.mtime == b.mtime
}

/// Taking in an entry changes the attributes of nothing that is there, and the ETag only of what it
/// is about.
proof fn lemma_attributes_kept(s: Intake, parent: u64, e: TreeModel, c: ContextModel, x: u64)
    requires
        tree::wf(s.table),
        s.table.inodes.contains_key(x),
    ensures
        ({
            let r = listing::taken_in(s, parent, e, c).table;
            &&& r.inodes.contains_key(x)
            &&& same_attributes(s.table.inodes[x], r.inodes[x])
            &&& s.table.inodes[x].full_path != e.path ==> r.inodes[x].etag
                == s.table.inodes[x].etag
        }),
{
    assert(tree::entry_ok(s.table, x));
    if s.table.paths.contains_key(e.path) {
        assert(tree::path_ok(s.table, e.path));
    }
}

/// What is in the table at some point of taking in a listing keeps its attributes, and its ETag
/// unless it is listed again.
proof fn lemma_attributes_stay(
    t: TableModel,
    parent: u64,
    es: Seq<TreeModel>,
    c: ContextModel,
    i: int,
    left: nat,
    x: u64,
)
    requires
        laws::can_list(t, parent, c, es.len() + left),
        forall|j: int| 0 <= j < es.len() ==> laws::entry_fits(c, #[trigger] es[j]),
        0 <= i <= es.len(),
        listing::all_taken_in(t, parent, es.take(i), c).table.inodes.contains_key(x),
    ensures
        ({
            let a = listing::all_taken_in(t, parent, es.take(i), c).table;
            let r = listing::all_taken_in(t, parent, es, c).table;
            &&& r.inodes.contains_key(x)
            &&& same_attributes(a.inodes[x], r.inodes[x])
            &&& (forall|j: int|
                i <= j < es.len() ==> (#[trigger] es[j]).path != a.inodes[x].full_path)
                ==> r.inodes[x].etag == a.inodes[x].etag
        }),
    decreases es.len(),
{
    if i == es.len() {
        assert(es.take(i) =~= es);
    } else {
        let front = es.drop_last();
        assert forall|j: int| 0 <= j < front.len() implies laws::entry_fits(
            c,
            #[trigger] front[j],
        ) by {
            assert(front[j] == es[j]);
        }
        assert(front.take(i) =~= es.take(i));
        lemma_attributes_stay(t, parent, front, c, i, left + 1, x);
        lemma_later_kept(t, parent, front, c, i, left + 1);
        let a = listing::all_taken_in(t, parent, es.take(i), c).table;
        let b = listing::all_taken_in(t, parent, front, c);
        lemma_attributes_kept(b, parent, es.last(), c, x);
        assert(b.table.inodes[x].full_path == a.inodes[x].full_path);
        if forall|j: int| i <= j < es.len() ==> (#[trigger] es[j]).path != a.inodes[x].full_path {
            assert forall|j: int| i <= j < front.len() implies (#[trigger] front[j]).path
                != a.inodes[x].full_path by {
                assert(front[j] == es[j]);
            }
            assert(es[es.len() - 1] == es.last());
        }
    }
}

/// Removing one child of a directory leaves the others as they are.
proof fn lemma_sibling_stays(t: TableModel, parent: u64, gone: u64, x: u64)
    requires
        tree::wf(t),
        t.inodes.contains_key(gone),
        t.inodes.contains_key(x),
        gone != ROOT_INODE,
        tree::linked(t.inodes[gone]),
        tree::linked(t.inodes[x]),
        t.inodes[gone].parent == parent,
        t.inodes[x].parent == parent,
        x != gone,
        x != ROOT_INODE,
    ensures
        t.removed(gone).inodes.contains_key(x),
        t.removed(gone).inodes[x] == t.inodes[x],
{
    assert(tree::place_ok(t, gone));
    assert(tree::place_ok(t, x));
    assert(t.inodes[gone].full_path.len() > t.inodes[parent].full_path.len());
    assert(t.inodes[x].full_path.len() > t.inodes[parent].full_path.len());
    let rest = t.without(gone).detached(parent, gone, t.inodes[gone].kind, false);
    let starts = model::child_inos(t.inodes[gone].children);
    if t.descendants(gone).contains(x) {
        let walk = choose|walk: Seq<u64>| #[trigger]
            model::is_walk(rest.inodes, walk) && starts.contains(walk[0]) && walk.last() == x;
        if walk.len() == 1 {
            let k = choose|k: int|
                0 <= k < t.inodes[gone].children.len() && #[trigger] t.inodes[gone].children[k].ino
                    == x;
            assert(tree::edge_ok(t, gone, t.inodes[gone].children[k]));
        } else {
            let m = walk.len() - 2;
            let a = walk[m];
            assert(model::is_child(rest.inodes, walk[m], walk[m + 1]));
            let k = choose|k: int|
                0 <= k < rest.inodes[a].children.len() && #[trigger] rest.inodes[a].children[k].ino
                    == x;
            let edge = rest.inodes[a].children[k];
            assert(t.inodes[a].children.contains(edge)) by {
                if a == parent {
                    let keep = |c: ChildModel| c.ino != gone;
                    tree::lemma_filtered(t.inodes[a].children, keep);
                    let f = t.inodes[a].children.filter(keep);
                    assert(f[k] == edge);
                    let j = choose|j: int|
                        0 <= j < t.inodes[a].children.len() && t.inodes[a].children[j] == f[k];
                    assert(t.inodes[a].children[j] == edge);
                } else {
                    assert(t.inodes[a].children[k] == edge);
                }
            }
            let j = choose|j: int|
                0 <= j < t.inodes[a].children.len() && t.inodes[a].children[j] == edge;
            assert(tree::edge_ok(t, a, t.inodes[a].children[j]));
            assert(a == parent);
            let part = walk.take(m + 1);
            assert(model::is_walk(rest.inodes, part)) by {
                assert forall|i: int| 0 <= i < part.len() implies rest.inodes.contains_key(
                    #[trigger] part[i],
                ) by {
                    assert(part[i] == walk[i]);
                }
                assert forall|i: int|
                    #![trigger part[i]]
                    0 <= i < part.len() - 1 implies model::is_child(
                    rest.inodes,
                    part[i],
                    part[i + 1],
                ) by {
                    assert(part[i] == walk[i] && part[i + 1] == walk[i + 1]);
                }
            }
            assert(part[0] == walk[0] && part.last() == a);
            assert(t.descendants(gone).contains(parent));
            laws::lemma_descendant_is_longer(t, gone, parent);
        }
    }
}

/// Removing children of a directory leaves the others as they are.
proof fn lemma_others_stay(t: TableModel, parent: u64, inos: Seq<u64>, x: u64)
    requires
        tree::wf(t),
        t.inodes.contains_key(x),
        tree::linked(t.inodes[x]),
        t.inodes[x].parent == parent,
        x != ROOT_INODE,
        !inos.contains(x),
        forall|i: int|
            0 <= i < inos.len() && t.inodes.contains_key(#[trigger] inos[i]) ==> inos[i]
                != ROOT_INODE && tree::linked(t.inodes[inos[i]]) && t.inodes[inos[i]].parent
                == parent,
    ensures
        listing::idle_removed(t, inos).inodes.contains_key(x),
        listing::idle_removed(t, inos).inodes[x] == t.inodes[x],
        forall|y: u64| #[trigger]
            listing::idle_removed(t, inos).inodes.contains_key(y) ==> t.inodes.contains_key(y)
                && listing::idle_removed(t, inos).inodes[y].parent == t.inodes[y].parent,
    decreases inos.len(),
{
    if inos.len() > 0 {
        let front = inos.drop_last();
        let last = inos.last();
        assert(inos[inos.len() - 1] == last);
        assert forall|i: int|
            0 <= i < front.len() && t.inodes.contains_key(#[trigger] front[i]) implies front[i]
            != ROOT_INODE && tree::linked(t.inodes[front[i]]) && t.inodes[front[i]].parent
            == parent by {
            assert(front[i] == inos[i]);
        }
        assert(!front.contains(x)) by {
            if front.contains(x) {
                let i = choose|i: int| 0 <= i < front.len() && front[i] == x;
                assert(inos[i] == x);
            }
        }
        lemma_others_stay(t, parent, front, x);
        laws::lemma_idle_removed(t, front);
        let low = listing::idle_removed(t, front);
        if low.inodes.contains_key(last) && !low.subtree_busy(last) {
            assert(t.inodes.contains_key(inos[inos.len() - 1]));
            lemma_sibling_stays(low, parent, last, x);
        }
        let r = listing::idle_removed(t, inos);
        assert forall|y: u64| #[trigger]
            r.inodes.contains_key(y) implies t.inodes.contains_key(y) && r.inodes[y].parent
            == t.inodes[y].parent by {
            assert(low.inodes.contains_key(y));
        }
    }
}

/// The children that a listing no longer shows, in the state it leaves.
proof fn lemma_stale(t: TableModel, parent: u64, es: Seq<TreeModel>, c: ContextModel)
    requires
        can_take_in(t, parent, es, c),
    ensures
        ({
            let s = listing::all_taken_in(t, parent, es, c);
            let stale = listing::stale_children(s, parent);
            &&& laws::can_list(s.table, parent, c, 0)
            &&& laws::content_kept(t, s.table)
            &&& forall|i: int|
                0 <= i < stale.len() && s.table.inodes.contains_key(#[trigger] stale[i])
                    ==> stale[i] != ROOT_INODE && tree::linked(s.table.inodes[stale[i]])
                    && s.table.inodes[stale[i]].parent == parent && !s.names.contains(
                    s.table.inodes[stale[i]].name,
                ) && !s.dirs.contains(s.table.inodes[stale[i]].name)
        }),
{
    assert forall|i: int| 0 <= i < es.len() implies laws::entry_fits(c, #[trigger] es[i]) by {
        lemma_fits(c, es[i]);
    }
    laws::lemma_all_taken_in(t, parent, es, c, 0);
    let s = listing::all_taken_in(t, parent, es, c);
    let stale = listing::stale_children(s, parent);
    let children = s.table.inodes[parent].children;
    let pick = |k: ChildModel| listing::is_stale(s, k);
    tree::lemma_filtered(children, pick);
    let f = children.filter(pick);
    assert forall|i: int|
        0 <= i < stale.len() && s.table.inodes.contains_key(#[trigger] stale[i]) implies stale[i]
        != ROOT_INODE && tree::linked(s.table.inodes[stale[i]]) && s.table.inodes[stale[i]].parent
        == parent && !s.names.contains(s.table.inodes[stale[i]].name) && !s.dirs.contains(
        s.table.inodes[stale[i]].name,
    ) by {
        assert(stale[i] == f[i].ino);
        let j = choose|j: int| 0 <= j < children.len() && children[j] == f[i];
        assert(tree::edge_ok(s.table, parent, s.table.inodes[parent].children[j]));
        assert(pick(f[i]));
    }
}

/// What is put in the directory when entry `i` is taken in is found there in the end.
proof fn lemma_taken_is_found(
    t: TableModel,
    parent: u64,
    es: Seq<TreeModel>,
    c: ContextModel,
    i: int,
    name: Seq<char>,
    x: u64,
)
    requires
        can_take_in(t, parent, es, c),
        0 <= i < es.len(),
        tree::good_name(name),
        shows(c.prefix, es[i].path, name),
        x == listing::all_taken_in(t, parent, es.take(i), c).table.next_inode,
        ({
            let next = listing::all_taken_in(t, parent, es.take(i + 1), c).table;
            &&& next.inodes.contains_key(x)
            &&& next.inodes[x].full_path == entries::path_in(c.prefix, name)
            &&& tree::linked(next.inodes[x])
        }),
    ensures
        ({
            let next = listing::all_taken_in(t, parent, es.take(i + 1), c).table;
            let r = listing::listed(t, parent, es, c);
            let a = next.inodes[x];
            let b = r.inodes[x];
            &&& r.child_named(parent, name) == Some(x)
            &&& laws::same_content(a, b)
            &&& same_attributes(a, b)
            &&& (forall|j: int| i < j < es.len() ==> (#[trigger] es[j]).path != a.full_path)
                ==> b.etag == a.etag
            &&& r.inodes[parent].children_loaded
        }),
{
    let low = listing::all_taken_in(t, parent, es.take(i), c);
    let next = listing::all_taken_in(t, parent, es.take(i + 1), c);
    let s = listing::all_taken_in(t, parent, es, c);
    assert forall|j: int| 0 <= j < es.len() implies laws::entry_fits(c, #[trigger] es[j]) by {
        lemma_fits(c, es[j]);
    }
    let first = es.take(i);
    assert forall|j: int| 0 <= j < first.len() implies laws::entry_fits(c, #[trigger] first[j]) by {
        assert(first[j] == es[j]);
    }
    laws::lemma_all_taken_in(t, parent, first, c, 1);
    assert(tree::entry_ok(low.table, ROOT_INODE));
    assert(tree::entry_ok(low.table, parent));
    lemma_later_kept(t, parent, es, c, i + 1, 0);
    lemma_attributes_stay(t, parent, es, c, i + 1, 0, x);
    lemma_stale(t, parent, es, c);
    assert(s.table.inodes.contains_key(x));
    assert(laws::same_content(next.table.inodes[x], s.table.inodes[x]));
    assert(tree::place_ok(s.table, x));
    tree::law_names_and_paths_agree(s.table, parent, name);
    entries::lemma_child(s.table, parent, name, x);
    lemma_names_taken(t, parent, es, c, name);
    let stale = listing::stale_children(s, parent);
    assert(!stale.contains(x)) by {
        if stale.contains(x) {
            let k = choose|k: int| 0 <= k < stale.len() && stale[k] == x;
            assert(s.table.inodes.contains_key(stale[k]));
        }
    }
    lemma_others_stay(s.table, parent, stale, x);
    laws::lemma_idle_removed(s.table, stale);
    let idle = listing::idle_removed(s.table, stale);
    tree::lemma_updated_in_place(
        idle,
        parent,
        |e: EntryModel| EntryModel { children_loaded: true, ..e },
    );
    let r = listing::listed(t, parent, es, c);
    assert(idle.inodes.contains_key(parent)) by {
        assert(tree::place_ok(idle, x));
    }
    assert(tree::place_ok(r, x));
    tree::law_names_and_paths_agree(r, parent, name);
}

/// A listed file or directory that is not known yet is found in the directory afterwards, with the
/// hash, the size, the time and the OID it is listed with, owned by the mount. The directory counts
/// as listed.
pub proof fn law_listed_entries_are_found(
    t: TableModel,
    parent: u64,
    es: Seq<TreeModel>,
    c: ContextModel,
    i: int,
    name: Seq<char>,
)
    requires
        can_take_in(t, parent, es, c),
        0 <= i < es.len(),
        tree::good_name(name),
        es[i].path == entries::path_in(c.prefix, name),
        !t.paths.contains_key(es[i].path),
        forall|j: int| 0 <= j < i ==> !shows(c.prefix, (#[trigger] es[j]).path, name),
    ensures
        ({
            let r = listing::listed(t, parent, es, c);
            let x = r.child_named(parent, name)->Some_0;
            let e = r.inodes[x];
            let dir = es[i].entry_type == "directory"@;
            &&& r.child_named(parent, name) is Some
            &&& e.full_path == es[i].path
            &&& e.kind == if dir {
                InodeKind::Directory
            } else {
                InodeKind::File
            }
            &&& e.xet_hash == es[i].xet_hash
            &&& e.size == if es[i].size is Some {
                es[i].size->Some_0
            } else {
                0
            }
            &&& es[i].mtime is None ==> e.mtime == c.default_mtime
            &&& es[i].mtime matches Some(text) ==> e.mtime == hub_api::mtime_of(
                hub_api::rfc3339_seconds(text),
            )
            &&& es[i].oid is Some && (forall|j: int|
                i < j < es.len() ==> (#[trigger] es[j]).path != es[i].path) ==> e.etag == es[i].oid
            &&& e.mode == if dir {
                0o755u16
            } else {
                0o644
            }
            &&& e.uid == c.uid
            &&& e.gid == c.gid
            &&& e.dirty_generation == 0
            &&& r.inodes[parent].children_loaded
        }),
{
    let first = es.take(i);
    assert forall|j: int| 0 <= j < first.len() implies is_below(c.prefix, (#[trigger] first[j]).path)
        && !shows(c.prefix, first[j].path, name) by {
        assert(first[j] == es[j]);
    }
    lemma_paths_taken(t, parent, first, c, name);
    assert(es.take(i + 1).drop_last() =~= first);
    assert(es.take(i + 1).last() == es[i]);
    lemma_relative(c.prefix, name);
    lemma_no_slash(name);
    let low = listing::all_taken_in(t, parent, first, c);
    let x = low.table.next_inode;
    assert(x != parent) by {
        assert forall|j: int| 0 <= j < first.len() implies laws::entry_fits(
            c,
            #[trigger] first[j],
        ) by {
            lemma_fits(c, first[j]);
        }
        laws::lemma_all_taken_in(t, parent, first, c, 1);
        assert(tree::entry_ok(low.table, parent));
    }
    assert(shows(c.prefix, es[i].path, name));
    lemma_taken_is_found(t, parent, es, c, i, name, x);
}

/// A listed path that is further down shows the directory that it is in: one that is not known yet
/// is found afterwards, owned by the mount and still to be listed itself.
pub proof fn law_nested_entries_show_directories(
    t: TableModel,
    parent: u64,
    es: Seq<TreeModel>,
    c: ContextModel,
    i: int,
    name: Seq<char>,
    rest: Seq<char>,
)
    requires
        can_take_in(t, parent, es, c),
        0 <= i < es.len(),
        tree::good_name(name),
        es[i].path == entries::path_in(c.prefix, name + seq!['/'] + rest),
        !t.paths.contains_key(entries::path_in(c.prefix, name)),
        forall|j: int| 0 <= j < i ==> !shows(c.prefix, (#[trigger] es[j]).path, name),
    ensures
        ({
            let r = listing::listed(t, parent, es, c);
            let x = r.child_named(parent, name)->Some_0;
            let e = r.inodes[x];
            &&& r.child_named(parent, name) is Some
            &&& e.full_path == entries::path_in(c.prefix, name)
            &&& e.kind == InodeKind::Directory
            &&& e.xet_hash is None
            &&& e.mtime == c.default_mtime
            &&& e.mode == 0o755
            &&& e.uid == c.uid
            &&& e.gid == c.gid
            &&& e.dirty_generation == 0
            &&& r.inodes[parent].children_loaded
        }),
{
    let first = es.take(i);
    assert forall|j: int| 0 <= j < first.len() implies is_below(c.prefix, (#[trigger] first[j]).path)
        && !shows(c.prefix, first[j].path, name) by {
        assert(first[j] == es[j]);
    }
    lemma_paths_taken(t, parent, first, c, name);
    lemma_names_taken(t, parent, first, c, name);
    assert(es.take(i + 1).drop_last() =~= first);
    assert(es.take(i + 1).last() == es[i]);
    assert(shows(c.prefix, es[i].path, name));
    lemma_shown_as(c.prefix, es[i].path, name);
    lemma_relative(c.prefix, name + seq!['/'] + rest);
    let rel = name + seq!['/'] + rest;
    text::lemma_split_first(rel, '/');
    assert(rel[name.len() as int] == '/');
    assert(rel.contains('/'));
    let low = listing::all_taken_in(t, parent, first, c);
    let x = low.table.next_inode;
    assert(x != parent) by {
        assert forall|j: int| 0 <= j < first.len() implies laws::entry_fits(
            c,
            #[trigger] first[j],
        ) by {
            lemma_fits(c, first[j]);
        }
        laws::lemma_all_taken_in(t, parent, first, c, 1);
        assert(tree::entry_ok(low.table, parent));
    }
    lemma_taken_is_found(t, parent, es, c, i, name, x);
}

/// Taking in a listing changes the children of no other directory that is there.
proof fn lemma_children_kept(
    t: TableModel,
    parent: u64,
    es: Seq<TreeModel>,
    c: ContextModel,
    left: nat,
    x: u64,
)
    requires
        laws::can_list(t, parent, c, es.len() + left),
        forall|j: int| 0 <= j < es.len() ==> laws::entry_fits(c, #[trigger] es[j]),
        t.inodes.contains_key(x),
        x != parent,
    ensures
        listing::all_taken_in(t, parent, es, c).table.inodes.contains_key(x),
        listing::all_taken_in(t, parent, es, c).table.inodes[x].children == t.inodes[x].children,
    decreases es.len(),
{
    if es.len() > 0 {
        let front = es.drop_last();
        assert forall|j: int| 0 <= j < front.len() implies laws::entry_fits(
            c,
            #[trigger] front[j],
        ) by {
            assert(front[j] == es[j]);
        }
        lemma_children_kept(t, parent, front, c, left + 1, x);
        laws::lemma_all_taken_in(t, parent, front, c, left + 1);
        let low = listing::all_taken_in(t, parent, front, c).table;
        assert(tree::entry_ok(low, x));
    }
}

/// A walk down from a child of the directory goes through what was there before.
proof fn lemma_old_walk(
    t: TableModel,
    parent: u64,
    es: Seq<TreeModel>,
    c: ContextModel,
    walk: Seq<u64>,
)
    requires
        laws::can_list(t, parent, c, es.len()),
        forall|j: int| 0 <= j < es.len() ==> laws::entry_fits(c, #[trigger] es[j]),
        model::is_walk(listing::all_taken_in(t, parent, es, c).table.inodes, walk),
        t.inodes.contains_key(walk[0]),
        tree::linked(t.inodes[walk[0]]),
        t.inodes[walk[0]].full_path.len() > t.inodes[parent].full_path.len(),
    ensures
        model::is_walk(t.inodes, walk),
        tree::linked(t.inodes[walk.last()]),
        t.inodes[walk.last()].full_path.len() > t.inodes[parent].full_path.len(),
    decreases walk.len(),
{
    let s = listing::all_taken_in(t, parent, es, c).table;
    if walk.len() == 1 {
        assert(walk.last() == walk[0]);
        assert forall|i: int| 0 <= i < walk.len() implies t.inodes.contains_key(
            #[trigger] walk[i],
        ) by {
            assert(i == 0);
        }
    } else {
        let front = walk.drop_last();
        assert forall|i: int| 0 <= i < front.len() implies s.inodes.contains_key(
            #[trigger] front[i],
        ) by {
            assert(front[i] == walk[i]);
        }
        assert forall|i: int|
            #![trigger front[i]]
            0 <= i < front.len() - 1 implies model::is_child(s.inodes, front[i], front[i + 1]) by {
            assert(front[i] == walk[i] && front[i + 1] == walk[i + 1]);
        }
        assert(model::is_walk(s.inodes, front));
        assert(front[0] == walk[0]);
        lemma_old_walk(t, parent, es, c, front);
        let n = walk.len() - 1;
        let a = walk[n - 1];
        assert(front.last() == a);
        assert(front[n - 1] == a);
        lemma_children_kept(t, parent, es, c, 0, a);
        assert(model::is_child(s.inodes, walk[n - 1], walk[(n - 1) + 1]));
        let k = choose|k: int|
            0 <= k < s.inodes[a].children.len() && #[trigger] s.inodes[a].children[k].ino
                == walk[n];
        assert(t.inodes[a].children[k].ino == walk[n]);
        assert(tree::edge_ok(t, a, t.inodes[a].children[k]));
        assert(tree::place_ok(t, walk[n]));
        assert forall|i: int| 0 <= i < walk.len() implies t.inodes.contains_key(
            #[trigger] walk[i],
        ) by {
            if i < n {
                assert(front[i] == walk[i]);
            }
        }
        assert forall|i: int|
            #![trigger walk[i]]
            0 <= i < walk.len() - 1 implies model::is_child(t.inodes, walk[i], walk[i + 1]) by {
            if i < n - 1 {
                assert(front[i] == walk[i] && front[i + 1] == walk[i + 1]);
            }
        }
    }
}

/// Removing idle subtrees leaves no more children than there were.
proof fn lemma_fewer_children(t: TableModel, inos: Seq<u64>, a: u64, x: u64)
    requires
        listing::idle_removed(t, inos).inodes.contains_key(a),
        model::is_child(listing::idle_removed(t, inos).inodes, a, x),
    ensures
        t.inodes.contains_key(a),
        model::is_child(t.inodes, a, x),
    decreases inos.len(),
{
    if inos.len() > 0 {
        let low = listing::idle_removed(t, inos.drop_last());
        let r = listing::idle_removed(t, inos);
        let gone = inos.last();
        let k = choose|k: int|
            0 <= k < r.inodes[a].children.len() && #[trigger] r.inodes[a].children[k].ino == x;
        if r != low && a == low.inodes[gone].parent {
            let keep = |c: ChildModel| c.ino != gone;
            let s = low.inodes[a].children;
            tree::lemma_filtered(s, keep);
            let f = s.filter(keep);
            assert(f[k] == r.inodes[a].children[k]);
            let j = choose|j: int| 0 <= j < s.len() && s[j] == f[k];
            assert(low.inodes[a].children[j].ino == x);
        } else {
            assert(low.inodes[a].children[k].ino == x);
        }
        lemma_fewer_children(t, inos.drop_last(), a, x);
    }
}

/// What is idle stays idle while other subtrees are removed, and so it goes in its turn.
proof fn lemma_idle_subtree_goes(t: TableModel, inos: Seq<u64>, x: u64)
    requires
        tree::wf(t),
        t.inodes.contains_key(x),
        !t.subtree_busy(x),
        inos.contains(x),
        forall|i: int|
            0 <= i < inos.len() && t.inodes.contains_key(#[trigger] inos[i]) ==> inos[i]
                != ROOT_INODE && tree::linked(t.inodes[inos[i]]),
    ensures
        !listing::idle_removed(t, inos).inodes.contains_key(x),
    decreases inos.len(),
{
    let front = inos.drop_last();
    let low = listing::idle_removed(t, front);
    assert forall|i: int|
        0 <= i < front.len() && t.inodes.contains_key(#[trigger] front[i]) implies front[i]
        != ROOT_INODE && tree::linked(t.inodes[front[i]]) by {
        assert(front[i] == inos[i]);
    }
    laws::lemma_idle_removed(t, front);
    let at = choose|i: int| 0 <= i < inos.len() && inos[i] == x;
    if at < front.len() {
        assert(front[at] == x);
        lemma_idle_subtree_goes(t, front, x);
    } else if low.inodes.contains_key(x) {
        if low.subtree_busy(x) {
            let y = choose|y: u64| #[trigger]
                model::reachable(low.inodes, set![x]).contains(y) && low.inodes[y].busy();
            let walk = choose|walk: Seq<u64>| #[trigger]
                model::is_walk(low.inodes, walk) && set![x].contains(walk[0]) && walk.last() == y;
            assert forall|i: int| 0 <= i < walk.len() implies t.inodes.contains_key(
                #[trigger] walk[i],
            ) by {
                assert(low.inodes.contains_key(walk[i]));
            }
            assert forall|i: int|
                #![trigger walk[i]]
                0 <= i < walk.len() - 1 implies model::is_child(t.inodes, walk[i], walk[i + 1]) by {
                lemma_fewer_children(t, front, walk[i], walk[i + 1]);
            }
            assert(model::is_walk(t.inodes, walk));
            assert(model::reachable(t.inodes, set![x]).contains(y));
            assert(low.inodes.contains_key(y));
        }
    }
}

/// What a listing of its directory does not show goes, a file or a directory with everything in it,
/// unless something of that is dirty or open.
pub proof fn law_unlisted_children_go(
    t: TableModel,
    parent: u64,
    es: Seq<TreeModel>,
    c: ContextModel,
    name: Seq<char>,
    x: u64,
)
    requires
        can_take_in(t, parent, es, c),
        tree::good_name(name),
        t.child_named(parent, name) == Some(x),
        forall|y: u64| #[trigger]
            model::reachable(t.inodes, set![x]).contains(y) ==> t.inodes[y].dirty_generation == 0
                && t.inodes[y].eviction.open_handles == 0,
        forall|j: int| 0 <= j < es.len() ==> !shows(c.prefix, (#[trigger] es[j]).path, name),
    ensures
        !listing::listed(t, parent, es, c).inodes.contains_key(x),
        listing::listed(t, parent, es, c).child_named(parent, name) != Some(x),
{
    let s = listing::all_taken_in(t, parent, es, c);
    lemma_stale(t, parent, es, c);
    entries::lemma_child(t, parent, name, x);
    model::lemma_reachable_start(t.inodes, set![x], x);
    assert(tree::place_ok(t, x));
    assert(s.table.inodes.contains_key(x));
    assert(tree::place_ok(s.table, x));
    tree::law_names_and_paths_agree(s.table, parent, name);
    entries::lemma_child(s.table, parent, name, x);
    lemma_names_taken(t, parent, es, c, name);
    assert forall|i: int| 0 <= i < es.len() implies laws::entry_fits(c, #[trigger] es[i]) by {
        lemma_fits(c, es[i]);
    }
    assert(!s.table.subtree_busy(x)) by {
        if s.table.subtree_busy(x) {
            let y = choose|y: u64| #[trigger]
                model::reachable(s.table.inodes, set![x]).contains(y) && s.table.inodes[y].busy();
            let walk = choose|walk: Seq<u64>| #[trigger]
                model::is_walk(s.table.inodes, walk) && set![x].contains(walk[0]) && walk.last()
                    == y;
            assert(walk[0] == x);
            lemma_old_walk(t, parent, es, c, walk);
            assert(model::reachable(t.inodes, set![x]).contains(y));
            assert(t.inodes.contains_key(y));
        }
    }
    let children = s.table.inodes[parent].children;
    let pick = |k: ChildModel| listing::is_stale(s, k);
    let f = children.filter(pick);
    let stale = listing::stale_children(s, parent);
    tree::lemma_first_live(s.table.inodes, children, name);
    let j = choose|j: int|
        0 <= j < children.len() && (#[trigger] children[j]).ino == x && children[j].name == name;
    assert(pick(children[j]));
    children.lemma_filter_contains(pick, j);
    let k = choose|k: int| 0 <= k < f.len() && f[k] == children[j];
    assert(stale[k] == x);
    lemma_idle_subtree_goes(s.table, stale, x);
    let r = listing::listed(t, parent, es, c);
    assert(r.inodes.contains_key(x) ==> listing::idle_removed(s.table, stale).inodes.contains_key(x));
    if r.child_named(parent, name) == Some(x) {
        tree::lemma_first_live(r.inodes, r.inodes[parent].children, name);
    }
}

} // verus!
