//! What the operations of the filesystem keep, and what they never lose.
use crate::hub_api::TreeModel;
use crate::text;
use crate::time::Timestamp;
use crate::virtual_fs;
use crate::virtual_fs::inode;
use crate::virtual_fs::inode::{ChildModel, EntryModel, EvictionState, InodeKind, ROOT_INODE};
use crate::virtual_fs::listing;
use crate::virtual_fs::listing::{ContextModel, Intake};
use crate::virtual_fs::lookup;
use crate::virtual_fs::model;
use crate::virtual_fs::model::{NewInode, TableModel};
use crate::virtual_fs::namespace;
use crate::virtual_fs::poll;
use crate::virtual_fs::poll::UpdateModel;
use crate::virtual_fs::streaming;
use crate::virtual_fs::tree;
use std::time::Instant;
use vstd::prelude::*;

verus! {

/// A name that is free can be given to something new in a directory.
pub open spec fn can_create(t: TableModel, parent: u64, name: Seq<char>) -> bool {
    &&& tree::wf(t)
    &&& tree::good_name(name)
    &&& namespace::name_check(t, parent, name) is Ok
    &&& t.next_inode < u64::MAX
}

/// What is put under a free name is found under it, as the next inode.
proof fn lemma_put_is_found(
    t: TableModel,
    new: NewInode,
    now: Timestamp,
    checked: Instant,
    r: TableModel,
)
    requires
        can_create(t, new.parent, new.name),
        new.full_path == inode::spec_child_path(t.inodes[new.parent].full_path, new.name),
        tree::wf(r),
        forall|x: u64| #[trigger]
            t.put(new, now, checked).inodes.contains_key(x) ==> r.inodes.contains_key(x)
                && tree::same_place(t.put(new, now, checked).inodes[x], r.inodes[x]),
    ensures
        !t.paths.contains_key(new.full_path),
        t.insert_ino(new.full_path) == t.next_inode,
        r.child_named(new.parent, new.name) == Some(t.next_inode),
        r.inodes[t.next_inode].kind == new.kind,
{
    tree::law_names_and_paths_agree(t, new.parent, new.name);
    let p = t.put(new, now, checked);
    let ino = t.next_inode;
    assert(!t.inodes.contains_key(ino)) by {
        if t.inodes.contains_key(ino) {
            assert(tree::entry_ok(t, ino));
        }
    }
    assert(p.inodes.contains_key(ino) && p.inodes.contains_key(new.parent));
    assert(ino != ROOT_INODE);
    assert(tree::place_ok(r, ino));
    tree::law_names_and_paths_agree(r, new.parent, new.name);
}

/// Creating a file, directory or symlink under a free name keeps the tree, and the name leads to it.
pub proof fn law_creation_keeps_wf(
    t: TableModel,
    parent: u64,
    name: Seq<char>,
    target: Seq<char>,
    size: u64,
    mode: u16,
    uid: u32,
    gid: u32,
    now: Timestamp,
    checked: Instant,
)
    requires
        can_create(t, parent, name),
    ensures
        ({
            let new = namespace::new_child(
                t,
                parent,
                name,
                InodeKind::File,
                size,
                mode,
                uid,
                gid,
                now,
            );
            let r = namespace::file_created(t, new, now, checked);
            &&& tree::wf(r)
            &&& r.child_named(parent, name) == Some(t.next_inode)
            &&& r.inodes[t.next_inode].dirty()
        }),
        ({
            let new = namespace::new_child(
                t,
                parent,
                name,
                InodeKind::Directory,
                size,
                mode,
                uid,
                gid,
                now,
            );
            let r = namespace::dir_created(t, new, now, checked);
            tree::wf(r) && r.child_named(parent, name) == Some(t.next_inode)
        }),
        ({
            let new = namespace::new_child(
                t,
                parent,
                name,
                InodeKind::Symlink,
                size,
                mode,
                uid,
                gid,
                now,
            );
            let r = namespace::symlink_created(t, new, target, now, checked);
            &&& tree::wf(r)
            &&& r.child_named(parent, name) == Some(t.next_inode)
            &&& r.inodes[t.next_inode].symlink_target == Some(target)
        }),
{
    let touch = |e: EntryModel| EntryModel { mtime: now, ctime: now, ..e };
    let file = namespace::new_child(t, parent, name, InodeKind::File, size, mode, uid, gid, now);
    let dir = namespace::new_child(
        t,
        parent,
        name,
        InodeKind::Directory,
        size,
        mode,
        uid,
        gid,
        now,
    );
    let link = namespace::new_child(
        t,
        parent,
        name,
        InodeKind::Symlink,
        size,
        mode,
        uid,
        gid,
        now,
    );
    tree::law_put_keeps_wf(t, file, now, checked);
    tree::law_put_keeps_wf(t, dir, now, checked);
    tree::law_put_keeps_wf(t, link, now, checked);
    let ino = t.insert_ino(file.full_path);
    let dirty = |e: EntryModel|
        EntryModel { dirty_generation: inode::next_generation(e.dirty_generation), ..e };
    tree::lemma_updated_in_place(t.put(file, now, checked), ino, dirty);
    tree::lemma_updated_in_place(t.put(file, now, checked).updated(ino, dirty), parent, touch);
    lemma_put_is_found(t, file, now, checked, namespace::file_created(t, file, now, checked));
    let loaded = |e: EntryModel| EntryModel { children_loaded: true, ..e };
    tree::lemma_updated_in_place(t.put(dir, now, checked), ino, loaded);
    tree::lemma_updated_in_place(t.put(dir, now, checked).updated(ino, loaded), parent, touch);
    lemma_put_is_found(t, dir, now, checked, namespace::dir_created(t, dir, now, checked));
    let points = |e: EntryModel| EntryModel { symlink_target: Some(target), ..e };
    tree::lemma_updated_in_place(t.put(link, now, checked), ino, points);
    tree::lemma_updated_in_place(t.put(link, now, checked).updated(ino, points), parent, touch);
    lemma_put_is_found(
        t,
        link,
        now,
        checked,
        namespace::symlink_created(t, link, target, now, checked),
    );
}

/// Deleting the name of a file or symlink keeps the tree, and the name leads nowhere. Who has the
/// file open keeps it.
pub proof fn law_deletion_keeps_wf(
    t: TableModel,
    parent: u64,
    name: Seq<char>,
    now: Timestamp,
)
    requires
        tree::wf(t),
        tree::good_name(name),
        t.child_named(parent, name) is Some,
        t.inodes[t.child_named(parent, name)->Some_0].kind != InodeKind::Directory,
    ensures
        ({
            let x = t.child_named(parent, name)->Some_0;
            let r = namespace::name_deleted(t, parent, name, x, now);
            &&& tree::wf(r)
            &&& r.child_named(parent, name) is None
            &&& t.inodes[x].eviction.open_handles > 0 ==> r.inodes.contains_key(x)
        }),
{
    let x = t.child_named(parent, name)->Some_0;
    let s = t.inodes[parent].children;
    tree::lemma_first_live(t.inodes, s, name);
    tree::lemma_first_named(s, name);
    let i = choose|i: int| 0 <= i < s.len() && (#[trigger] s[i]).ino == x && s[i].name == name;
    assert(s[i].name == name);
    let k = model::first_named(s, name)->Some_0;
    assert(tree::edge_ok(t, parent, t.inodes[parent].children[k]));
    assert(tree::edge_ok(t, parent, t.inodes[parent].children[i]));
    assert(tree::place_ok(t, s[k].ino));
    assert(tree::place_ok(t, x));
    assert(s[k].ino == x);
    tree::law_unlink_keeps_wf(t, parent, name, now);
    let u = t.unlinked(parent, name, now);
    let after = namespace::dir_touched(u, parent, now);
    tree::lemma_updated_in_place(
        u,
        parent,
        |e: EntryModel| EntryModel { mtime: now, ctime: now, ..e },
    );
    let path = t.inodes[x].full_path;
    assert(!after.paths.contains_key(path));
    assert(after.inodes[x].full_path == path);
    assert(parent != x);
    let r = namespace::name_deleted(t, parent, name, x, now);
    assert(!tree::linked(after.inodes[x]));
    if r == after.without(x) {
        tree::law_orphan_removal_keeps_wf(after, x);
    }
    tree::law_names_and_paths_agree(r, parent, name);
}

/// Deleting a directory keeps the tree.
pub proof fn law_rmdir_keeps_wf(t: TableModel, parent: u64, ino: u64, now: Timestamp)
    requires
        tree::wf(t),
        t.inodes.contains_key(ino),
        t.inodes[ino].kind == InodeKind::Directory,
        ino != ROOT_INODE,
    ensures
        tree::wf(namespace::dir_touched(t.removed(ino), parent, now)),
{
    tree::law_removal_keeps_wf(t, ino);
    tree::lemma_updated_in_place(
        t.removed(ino),
        parent,
        |e: EntryModel| EntryModel { mtime: now, ctime: now, ..e },
    );
}

/// When the kernel gives up references, the tree stays a tree, and nothing is lost that is dirty,
/// open, or still referred to.
pub proof fn law_forget_keeps_wf(t: TableModel, ino: u64, n: u64)
    requires
        tree::wf(t),
    ensures
        tree::wf(virtual_fs::forgotten(t, ino, n)),
        forall|x: u64| #[trigger]
            t.inodes.contains_key(x) && (x != ino || t.inodes[x].busy()
                || t.inodes[x].eviction.nlookup > n || t.inodes[x].pending_deletes.len() > 0)
                ==> virtual_fs::forgotten(t, ino, n).inodes.contains_key(x),
{
    let drop = |v: EvictionState| EvictionState { nlookup: inode::lowered(v.nlookup, n), ..v };
    let dropped = virtual_fs::references_dropped(t, ino, n);
    tree::lemma_updated_in_place(
        t,
        ino,
        |e: EntryModel| EntryModel { eviction: drop(e.eviction), ..e },
    );
    if virtual_fs::forget_evicts(t, ino, n) {
        tree::law_eviction_keeps_wf(dropped, ino);
    } else {
        let pend = |v: EvictionState| EvictionState { evict_pending: true, ..v };
        tree::lemma_updated_in_place(
            dropped,
            ino,
            |e: EntryModel| EntryModel { eviction: pend(e.eviction), ..e },
        );
    }
}

/// When the last handle on an inode is closed, the tree stays a tree, as long as nothing new has
/// come to be at the path of a file without a name. Nothing else goes.
pub proof fn law_release_keeps_wf(t: TableModel, ino: u64)
    requires
        tree::wf(t),
        t.inodes.contains_key(ino) && t.inodes[ino].nlink == 0 ==> !tree::linked(t.inodes[ino])
            && !t.paths.contains_key(t.inodes[ino].full_path),
    ensures
        tree::wf(streaming::released(t, ino)),
        forall|x: u64| #[trigger]
            t.inodes.contains_key(x) && (x != ino || (t.inodes[x].busy() && t.inodes[x].nlink > 0))
                ==> streaming::released(t, ino).inodes.contains_key(x),
{
    if t.inodes.contains_key(ino) && t.inodes[ino].eviction.open_handles == 0 {
        if t.inodes[ino].nlink == 0 {
            tree::law_orphan_removal_keeps_wf(t, ino);
        } else {
            let clear = |v: EvictionState| EvictionState { evict_pending: false, ..v };
            tree::lemma_updated_in_place(
                t,
                ino,
                |e: EntryModel| EntryModel { eviction: clear(e.eviction), ..e },
            );
            if streaming::release_removes(t, ino) {
                tree::law_eviction_keeps_wf(t.with_eviction(ino, clear), ino);
            }
        }
    }
}

/// A sweep never takes an inode that is dirty, open, referred to by the kernel, without a link, or
/// that has remote paths to delete.
pub proof fn law_sweep_loses_nothing(t: TableModel, inos: Seq<u64>, x: u64)
    requires
        t.inodes.contains_key(x),
        t.inodes[x].busy() || t.inodes[x].eviction.nlookup > 0 || t.inodes[x].nlink == 0
            || t.inodes[x].pending_deletes.len() > 0 || t.inodes[x].kind != InodeKind::File,
    ensures
        t.batch_evicted(t.batch(inos)).inodes.contains_key(x),
        t.batch_evicted(t.batch(inos)).inodes[x].dirty_generation == t.inodes[x].dirty_generation,
{
}

/// A commit only makes an inode clean if nothing was written since its content was taken; otherwise
/// it stays dirty and keeps its own content.
pub proof fn law_newer_write_survives_commit(
    e: EntryModel,
    hash: Seq<char>,
    size: u64,
    generation: u64,
    now: Timestamp,
    checked: Instant,
)
    requires
        generation > 0,
    ensures
        e.committed(hash, size, generation, now, checked).dirty() <==> e.dirty()
            && e.dirty_generation != generation,
        e.dirty_generation != generation ==> {
            let c = e.committed(hash, size, generation, now, checked);
            &&& c.dirty_generation == e.dirty_generation
            &&& c.xet_hash == e.xet_hash
            &&& c.size == e.size
            &&& c.pending_deletes == e.pending_deletes
        },
        e.dirty_generation == generation ==> e.committed(
            hash,
            size,
            generation,
            now,
            checked,
        ).xet_hash == Some(hash),
{
}

/// Each write moves on to another generation, until they run out.
pub proof fn law_writes_advance_the_generation(generation: u64)
    requires
        generation < u64::MAX,
    ensures
        inode::next_generation(generation) > generation,
{
}

/// What a round of polling deletes: files that have a name, each once.
pub open spec fn proper_deletions(t: TableModel, dels: Seq<u64>) -> bool {
    &&& dels.no_duplicates()
    &&& forall|i: int|
        0 <= i < dels.len() && t.inodes.contains_key(#[trigger] dels[i]) ==> t.inodes[dels[i]].kind
            == InodeKind::File && t.inodes[dels[i]].nlink > 0
}

/// Files and symlinks that are not among `gone` are in `r` as they are in `t`.
pub open spec fn others_untouched(t: TableModel, r: TableModel, gone: Seq<u64>) -> bool {
    forall|x: u64| #[trigger]
        t.inodes.contains_key(x) && t.inodes[x].kind != InodeKind::Directory && !gone.contains(x)
            ==> r.inodes.contains_key(x) && r.inodes[x] == t.inodes[x]
}

pub proof fn lemma_updates_in_place(t: TableModel, us: Seq<UpdateModel>)
    requires
        tree::wf(t),
    ensures
        tree::wf(poll::updates_applied(t, us)),
        forall|x: u64| #[trigger]
            poll::updates_applied(t, us).inodes.contains_key(x) <==> t.inodes.contains_key(x),
        forall|x: u64| #[trigger]
            t.inodes.contains_key(x) ==> tree::same_place(
                t.inodes[x],
                poll::updates_applied(t, us).inodes[x],
            ) && poll::updates_applied(t, us).inodes[x].nlink == t.inodes[x].nlink && (
            t.inodes[x].dirty() ==> poll::updates_applied(t, us).inodes[x] == t.inodes[x]),
    decreases us.len(),
{
    if us.len() > 0 {
        let low = poll::updates_applied(t, us.drop_last());
        let u = us.last();
        lemma_updates_in_place(t, us.drop_last());
        tree::lemma_updated_in_place(
            low,
            u.ino,
            |e: EntryModel|
                EntryModel {
                    xet_hash: u.hash,
                    etag: u.etag,
                    size: u.size,
                    mtime: u.mtime,
                    staging_is_current: false,
                    ..e
                },
        );
        let r = poll::updates_applied(t, us);
        assert forall|x: u64| #[trigger] t.inodes.contains_key(x) implies tree::same_place(
            t.inodes[x],
            r.inodes[x],
        ) && r.inodes[x].nlink == t.inodes[x].nlink && (t.inodes[x].dirty() ==> r.inodes[x]
            == t.inodes[x]) by {
            assert(low.inodes.contains_key(x));
        }
    }
}

pub proof fn lemma_deletion(t: TableModel, ino: u64, now: Timestamp)
    requires
        tree::wf(t),
        t.inodes.contains_key(ino) ==> t.inodes[ino].kind == InodeKind::File && t.inodes[ino].nlink
            > 0,
    ensures
        tree::wf(poll::deletion_applied(t, ino, now)),
        others_untouched(t, poll::deletion_applied(t, ino, now), seq![ino]),
        t.inodes.contains_key(ino) && t.inodes[ino].dirty() ==> poll::deletion_applied(t, ino, now)
            == t,
{
    let r = poll::deletion_applied(t, ino, now);
    assert(seq![ino].contains(ino)) by {
        assert(seq![ino][0] == ino);
    }
    if poll::deletable(t, ino) {
        assert(tree::entry_ok(t, ino));
        assert(ino != ROOT_INODE);
        assert(tree::place_ok(t, ino));
        let p = t.inodes[ino].parent;
        let name = t.inodes[ino].name;
        assert(p != ino);
        if t.inodes[ino].eviction.open_handles > 0 {
            let s = t.inodes[p].children;
            tree::lemma_first_named(s, name);
            let i = choose|i: int| 0 <= i < s.len() && #[trigger] s[i].ino == ino;
            assert(tree::edge_ok(t, p, t.inodes[p].children[i]));
            assert(s[i].name == name);
            let k = model::first_named(s, name)->Some_0;
            assert(tree::edge_ok(t, p, t.inodes[p].children[k]));
            assert(tree::place_ok(t, s[k].ino));
            assert(s[k].ino == ino);
            tree::law_unlink_keeps_wf(t, p, name, now);
        } else {
            tree::law_removal_keeps_wf(t, ino);
            let starts = model::child_inos(t.inodes[ino].children);
            let rest = t.without(ino).detached(p, ino, t.inodes[ino].kind, false);
            assert forall|z: u64| !(#[trigger] t.descendants(ino).contains(z)) by {
                if t.descendants(ino).contains(z) {
                    let walk = choose|walk: Seq<u64>| #[trigger]
                        model::is_walk(rest.inodes, walk) && starts.contains(walk[0])
                            && walk.last() == z;
                    assert(starts.contains(walk[0]));
                }
            }
        }
        assert forall|x: u64| #[trigger]
            t.inodes.contains_key(x) && t.inodes[x].kind != InodeKind::Directory && !seq![
                ino,
            ].contains(x) implies r.inodes.contains_key(x) && r.inodes[x] == t.inodes[x] by {
            assert(x != p);
            assert(x != ino);
        }
    }
}

pub proof fn lemma_deletions(t: TableModel, dels: Seq<u64>, now: Timestamp)
    requires
        tree::wf(t),
        proper_deletions(t, dels),
    ensures
        tree::wf(poll::deletions_applied(t, dels, now)),
        others_untouched(t, poll::deletions_applied(t, dels, now), dels),
        forall|x: u64| #[trigger]
            t.inodes.contains_key(x) && t.inodes[x].dirty() && t.inodes[x].kind
                != InodeKind::Directory ==> poll::deletions_applied(
                t,
                dels,
                now,
            ).inodes.contains_key(x) && poll::deletions_applied(t, dels, now).inodes[x]
                == t.inodes[x],
        forall|x: u64| #[trigger]
            poll::deletions_applied(t, dels, now).inodes.contains_key(x) ==> t.inodes.contains_key(
                x,
            ),
    decreases dels.len(),
{
    if dels.len() > 0 {
        let front = dels.drop_last();
        let ino = dels.last();
        let low = poll::deletions_applied(t, front, now);
        let r = poll::deletions_applied(t, dels, now);
        assert(proper_deletions(t, front)) by {
            assert forall|i: int|
                0 <= i < front.len() && t.inodes.contains_key(
                    #[trigger] front[i],
                ) implies t.inodes[front[i]].kind == InodeKind::File && t.inodes[front[i]].nlink
                > 0 by {
                assert(front[i] == dels[i]);
            }
        }
        lemma_deletions(t, front, now);
        assert(!front.contains(ino)) by {
            if front.contains(ino) {
                let i = choose|i: int| 0 <= i < front.len() && front[i] == ino;
                assert(dels[i] == dels[dels.len() - 1]);
            }
        }
        if low.inodes.contains_key(ino) {
            assert(t.inodes.contains_key(ino));
            assert(t.inodes.contains_key(dels[dels.len() - 1]));
            assert(low.inodes[ino] == t.inodes[ino]);
        }
        lemma_deletion(low, ino, now);
        assert forall|x: u64| #[trigger]
            t.inodes.contains_key(x) && t.inodes[x].kind != InodeKind::Directory && !dels.contains(
                x,
            ) implies r.inodes.contains_key(x) && r.inodes[x] == t.inodes[x] by {
            assert(!front.contains(x)) by {
                if front.contains(x) {
                    let i = choose|i: int| 0 <= i < front.len() && front[i] == x;
                    assert(dels[i] == x);
                }
            }
            assert(dels[dels.len() - 1] == ino);
            assert(x != ino);
            assert(low.inodes.contains_key(x));
            assert(!seq![ino].contains(x));
        }
        assert forall|x: u64| #[trigger]
            t.inodes.contains_key(x) && t.inodes[x].dirty() && t.inodes[x].kind
                != InodeKind::Directory implies r.inodes.contains_key(x) && r.inodes[x]
            == t.inodes[x] by {
            assert(low.inodes.contains_key(x));
            if x != ino {
                assert(!seq![ino].contains(x));
            }
        }
        assert forall|x: u64| #[trigger]
            r.inodes.contains_key(x) implies t.inodes.contains_key(x) by {
            assert(low.inodes.contains_key(x));
        }
    }
}

pub proof fn lemma_refreshed_in_place(t: TableModel, dirs: Seq<u64>)
    requires
        tree::wf(t),
    ensures
        tree::wf(poll::refreshed(t, dirs)),
        forall|x: u64| #[trigger]
            poll::refreshed(t, dirs).inodes.contains_key(x) <==> t.inodes.contains_key(x),
        forall|x: u64| #[trigger]
            t.inodes.contains_key(x) ==> (EntryModel {
                children_loaded: t.inodes[x].children_loaded,
                ..poll::refreshed(t, dirs).inodes[x]
            }) == t.inodes[x],
    decreases dirs.len(),
{
    if dirs.len() > 0 {
        let low = poll::refreshed(t, dirs.drop_last());
        lemma_refreshed_in_place(t, dirs.drop_last());
        tree::lemma_updated_in_place(
            low,
            dirs.last(),
            |e: EntryModel| EntryModel { children_loaded: false, ..e },
        );
        let r = poll::refreshed(t, dirs);
        assert forall|x: u64| #[trigger] t.inodes.contains_key(x) implies (EntryModel {
            children_loaded: t.inodes[x].children_loaded,
            ..r.inodes[x]
        }) == t.inodes[x] by {
            assert(low.inodes.contains_key(x));
        }
    }
}

/// A round of polling keeps the tree, and whatever has local changes stays as it is.
pub proof fn law_poll_keeps_local_changes(
    t: TableModel,
    us: Seq<UpdateModel>,
    dels: Seq<u64>,
    es: Seq<TreeModel>,
    now: Timestamp,
)
    requires
        tree::wf(t),
        proper_deletions(t, dels),
    ensures
        tree::wf(poll::polled_table(t, us, dels, es, now)),
        forall|x: u64| #[trigger]
            t.inodes.contains_key(x) && t.inodes[x].dirty() && t.inodes[x].kind
                != InodeKind::Directory ==> poll::polled_table(
                t,
                us,
                dels,
                es,
                now,
            ).inodes.contains_key(x) && (EntryModel {
                children_loaded: t.inodes[x].children_loaded,
                ..poll::polled_table(t, us, dels, es, now).inodes[x]
            }) == t.inodes[x],
{
    let updated = poll::updates_applied(t, us);
    lemma_updates_in_place(t, us);
    assert(proper_deletions(updated, dels)) by {
        assert forall|i: int|
            0 <= i < dels.len() && updated.inodes.contains_key(
                #[trigger] dels[i],
            ) implies updated.inodes[dels[i]].kind == InodeKind::File
            && updated.inodes[dels[i]].nlink > 0 by {
            assert(t.inodes.contains_key(dels[i]));
        }
    }
    lemma_deletions(updated, dels, now);
    let changed = poll::deletions_applied(updated, dels, now);
    lemma_refreshed_in_place(changed, poll::dir_inos(poll::dirs_to_refresh(changed, es)));
    assert forall|x: u64| #[trigger]
        t.inodes.contains_key(x) && t.inodes[x].dirty() && t.inodes[x].kind
            != InodeKind::Directory implies poll::polled_table(
        t,
        us,
        dels,
        es,
        now,
    ).inodes.contains_key(x) && (EntryModel {
        children_loaded: t.inodes[x].children_loaded,
        ..poll::polled_table(t, us, dels, es, now).inodes[x]
    }) == t.inodes[x] by {
        assert(updated.inodes.contains_key(x));
        assert(changed.inodes.contains_key(x));
    }
}

/// An entry of a listing is below the directory that is listed: directly, or through a
/// subdirectory.
pub open spec fn entry_fits(c: ContextModel, e: TreeModel) -> bool {
    let rel = listing::relative(c.prefix, e.path);
    match text::split_first(rel, '/') {
        Some((dir, _)) => dir.len() > 0,
        None => rel.len() > 0 && e.path == inode::spec_child_path(c.prefix, rel),
    }
}

/// What `t` holds of files is in `r` too, apart from when and as what the remote showed them.
pub open spec fn content_kept(t: TableModel, r: TableModel) -> bool {
    forall|x: u64| #[trigger]
        t.inodes.contains_key(x) ==> r.inodes.contains_key(x) && same_content(
            t.inodes[x],
            r.inodes[x],
        )
}

/// Two entries stand for the same content, in the same state.
pub open spec fn same_content(a: EntryModel, b: EntryModel) -> bool {
    &&& a.dirty_generation == b.dirty_generation
    &&& a.xet_hash == b.xet_hash
    &&& a.size == b.size
    &&& a.kind == b.kind
    &&& a.full_path == b.full_path
    &&& a.eviction == b.eviction
    &&& a.pending_deletes == b.pending_deletes
    &&& a.kind != InodeKind::Directory ==> a.nlink == b.nlink
}

/// A listing can be taken in: the directory is in the tree at the path that is listed, and there are
/// inode numbers left.
pub open spec fn can_list(t: TableModel, parent: u64, c: ContextModel, entries: nat) -> bool {
    &&& tree::wf(t)
    &&& t.inodes.contains_key(parent)
    &&& t.inodes[parent].kind == InodeKind::Directory
    &&& t.inodes[parent].full_path == c.prefix
    &&& t.next_inode + entries < u64::MAX
}

proof fn lemma_put_keeps_content(t: TableModel, new: NewInode, now: Timestamp, checked: Instant)
    requires
        tree::wf(t),
        t.inodes.contains_key(new.parent),
        t.inodes[new.parent].kind == InodeKind::Directory,
    ensures
        content_kept(t, t.put(new, now, checked)),
        t.put(new, now, checked).next_inode <= t.next_inode.wrapping_add(1)
            || t.put(new, now, checked).next_inode == t.next_inode,
{
    let r = t.put(new, now, checked);
    assert forall|x: u64| #[trigger] t.inodes.contains_key(x) implies r.inodes.contains_key(x)
        && same_content(t.inodes[x], r.inodes[x]) by {
        assert(tree::entry_ok(t, x));
    }
}

pub proof fn lemma_taken_in(s: Intake, parent: u64, e: TreeModel, c: ContextModel, left: nat)
    requires
        can_list(s.table, parent, c, left + 1),
        entry_fits(c, e),
    ensures
        can_list(listing::taken_in(s, parent, e, c).table, parent, c, left),
        content_kept(s.table, listing::taken_in(s, parent, e, c).table),
{
    let rel = listing::relative(c.prefix, e.path);
    text::lemma_split_first(rel, '/');
    match text::split_first(rel, '/') {
        Some((dir, _)) => {
            let new = listing::subdir_inode(parent, dir, c);
            tree::law_put_keeps_wf(s.table, new, c.now, c.checked);
            lemma_put_keeps_content(s.table, new, c.now, c.checked);
        },
        None => {
            let new = listing::entry_inode(parent, rel, e, c);
            let put = s.table.put(new, c.now, c.checked);
            tree::law_put_keeps_wf(s.table, new, c.now, c.checked);
            lemma_put_keeps_content(s.table, new, c.now, c.checked);
            if let Some(oid) = e.oid {
                tree::lemma_updated_in_place(
                    put,
                    s.table.insert_ino(e.path),
                    |x: EntryModel| EntryModel { etag: Some(oid), ..x },
                );
            }
        },
    }
    let r = listing::taken_in(s, parent, e, c).table;
    assert(r.inodes.contains_key(parent));
}

pub proof fn lemma_all_taken_in(
    t: TableModel,
    parent: u64,
    es: Seq<TreeModel>,
    c: ContextModel,
    left: nat,
)
    requires
        can_list(t, parent, c, es.len() + left),
        forall|i: int| 0 <= i < es.len() ==> entry_fits(c, #[trigger] es[i]),
    ensures
        can_list(listing::all_taken_in(t, parent, es, c).table, parent, c, left),
        content_kept(t, listing::all_taken_in(t, parent, es, c).table),
    decreases es.len(),
{
    if es.len() > 0 {
        let front = es.drop_last();
        assert forall|i: int| 0 <= i < front.len() implies entry_fits(c, #[trigger] front[i]) by {
            assert(front[i] == es[i]);
        }
        lemma_all_taken_in(t, parent, front, c, left + 1);
        assert(entry_fits(c, es[es.len() - 1]));
        lemma_taken_in(
            listing::all_taken_in(t, parent, front, c),
            parent,
            es.last(),
            c,
            left,
        );
    }
}

/// What goes with `ino` is in its subtree.
pub proof fn lemma_descendants_in_subtree(t: TableModel, ino: u64, x: u64)
    requires
        t.inodes.contains_key(ino),
        t.descendants(ino).contains(x),
    ensures
        model::reachable(t.inodes, set![ino]).contains(x),
{
    let rest = t.without(ino).detached(t.inodes[ino].parent, ino, t.inodes[ino].kind, false);
    let starts = model::child_inos(t.inodes[ino].children);
    let walk = choose|walk: Seq<u64>| #[trigger]
        model::is_walk(rest.inodes, walk) && starts.contains(walk[0]) && walk.last() == x;
    let longer = seq![ino] + walk;
    assert forall|i: int| 0 <= i < longer.len() implies t.inodes.contains_key(
        #[trigger] longer[i],
    ) by {
        if i > 0 {
            assert(longer[i] == walk[i - 1]);
            assert(rest.inodes.contains_key(walk[i - 1]));
        }
    }
    assert forall|i: int| 0 <= i < longer.len() - 1 implies model::is_child(
        t.inodes,
        #[trigger] longer[i],
        longer[i + 1],
    ) by {
        if i == 0 {
            let k = choose|k: int|
                0 <= k < t.inodes[ino].children.len() && #[trigger] t.inodes[ino].children[k].ino
                    == walk[0];
            assert(t.inodes[ino].children[k].ino == longer[1]);
        } else {
            let a = walk[i - 1];
            assert(model::is_child(rest.inodes, walk[i - 1], walk[i - 1 + 1]));
            let k = choose|k: int|
                0 <= k < rest.inodes[a].children.len() && #[trigger] rest.inodes[a].children[k].ino
                    == walk[i];
            if a == t.inodes[ino].parent {
                let keep = |c: ChildModel| c.ino != ino;
                tree::lemma_filtered(t.inodes[a].children, keep);
                let f = t.inodes[a].children.filter(keep);
                assert(f[k] == rest.inodes[a].children[k]);
                let j = choose|j: int|
                    0 <= j < t.inodes[a].children.len() && t.inodes[a].children[j] == f[k];
                assert(t.inodes[a].children[j].ino == walk[i]);
            } else {
                assert(t.inodes[a].children[k].ino == walk[i]);
            }
        }
    }
    assert(model::is_walk(t.inodes, longer));
    assert(longer[0] == ino && longer.last() == x);
}

/// Removing an idle subtree takes nothing that is dirty or open.
pub proof fn lemma_removal_spares_busy(t: TableModel, ino: u64)
    requires
        tree::wf(t),
        t.inodes.contains_key(ino),
        ino != ROOT_INODE,
        tree::linked(t.inodes[ino]),
        !t.subtree_busy(ino),
    ensures
        forall|x: u64| #[trigger]
            t.inodes.contains_key(x) && t.inodes[x].busy() ==> t.removed(ino).inodes.contains_key(x),
        forall|x: u64| #[trigger]
            t.removed(ino).inodes.contains_key(x) ==> t.inodes.contains_key(x) && same_content(
                t.inodes[x],
                t.removed(ino).inodes[x],
            ) && tree::linked(t.removed(ino).inodes[x]) == tree::linked(t.inodes[x]),
{
    let r = t.removed(ino);
    assert(tree::place_ok(t, ino));
    model::lemma_reachable_start(t.inodes, set![ino], ino);
    assert forall|x: u64| #[trigger]
        t.inodes.contains_key(x) && t.inodes[x].busy() implies r.inodes.contains_key(x) by {
        if t.descendants(ino).contains(x) {
            lemma_descendants_in_subtree(t, ino, x);
        }
    }
}

pub proof fn lemma_idle_removed(t: TableModel, inos: Seq<u64>)
    requires
        tree::wf(t),
        forall|i: int|
            0 <= i < inos.len() && t.inodes.contains_key(#[trigger] inos[i]) ==> inos[i]
                != ROOT_INODE && tree::linked(t.inodes[inos[i]]),
    ensures
        ({
            let r = listing::idle_removed(t, inos);
            &&& tree::wf(r)
            &&& forall|x: u64| #[trigger]
                t.inodes.contains_key(x) && t.inodes[x].busy() ==> r.inodes.contains_key(x)
            &&& forall|x: u64| #[trigger]
                r.inodes.contains_key(x) ==> t.inodes.contains_key(x) && same_content(
                    t.inodes[x],
                    r.inodes[x],
                ) && tree::linked(r.inodes[x]) == tree::linked(t.inodes[x])
        }),
    decreases inos.len(),
{
    if inos.len() > 0 {
        let front = inos.drop_last();
        let low = listing::idle_removed(t, front);
        let r = listing::idle_removed(t, inos);
        assert forall|i: int|
            0 <= i < front.len() && t.inodes.contains_key(#[trigger] front[i]) implies front[i]
            != ROOT_INODE && tree::linked(t.inodes[front[i]]) by {
            assert(front[i] == inos[i]);
        }
        lemma_idle_removed(t, front);
        let x = inos.last();
        if low.inodes.contains_key(x) && !low.subtree_busy(x) {
            assert(t.inodes.contains_key(inos[inos.len() - 1]));
            tree::law_removal_keeps_wf(low, x);
            lemma_removal_spares_busy(low, x);
        }
        assert forall|y: u64| #[trigger]
            t.inodes.contains_key(y) && t.inodes[y].busy() implies r.inodes.contains_key(y) by {
            assert(low.inodes.contains_key(y));
        }
        assert forall|y: u64| #[trigger] r.inodes.contains_key(y) implies t.inodes.contains_key(y)
            && same_content(t.inodes[y], r.inodes[y]) && tree::linked(r.inodes[y]) == tree::linked(
            t.inodes[y],
        ) by {
            assert(low.inodes.contains_key(y));
        }
    }
}

/// Taking in the listing of a directory keeps the tree, and whatever is dirty or open stays, with its
/// content.
pub proof fn law_listing_keeps_local_changes(
    t: TableModel,
    parent: u64,
    es: Seq<TreeModel>,
    c: ContextModel,
)
    requires
        can_list(t, parent, c, es.len()),
        forall|i: int| 0 <= i < es.len() ==> entry_fits(c, #[trigger] es[i]),
    ensures
        tree::wf(listing::listed(t, parent, es, c)),
        forall|x: u64| #[trigger]
            t.inodes.contains_key(x) && t.inodes[x].busy() ==> listing::listed(
                t,
                parent,
                es,
                c,
            ).inodes.contains_key(x) && same_content(
                t.inodes[x],
                listing::listed(t, parent, es, c).inodes[x],
            ),
{
    lemma_all_taken_in(t, parent, es, c, 0);
    let s = listing::all_taken_in(t, parent, es, c);
    let stale = listing::stale_children(s, parent);
    let children = s.table.inodes[parent].children;
    let pick = |k: ChildModel| listing::is_stale(s, k);
    assert forall|i: int|
        0 <= i < stale.len() && s.table.inodes.contains_key(#[trigger] stale[i]) implies stale[i]
        != ROOT_INODE && tree::linked(s.table.inodes[stale[i]]) by {
        tree::lemma_filtered(children, pick);
        let f = children.filter(pick);
        assert(stale[i] == f[i].ino);
        let j = choose|j: int| 0 <= j < children.len() && children[j] == f[i];
        assert(tree::edge_ok(s.table, parent, s.table.inodes[parent].children[j]));
    }
    lemma_idle_removed(s.table, stale);
    let idle = listing::idle_removed(s.table, stale);
    tree::lemma_updated_in_place(
        idle,
        parent,
        |e: EntryModel| EntryModel { children_loaded: true, ..e },
    );
    assert forall|x: u64| #[trigger]
        t.inodes.contains_key(x) && t.inodes[x].busy() implies listing::listed(
        t,
        parent,
        es,
        c,
    ).inodes.contains_key(x) && same_content(
        t.inodes[x],
        listing::listed(t, parent, es, c).inodes[x],
    ) by {
        assert(s.table.inodes.contains_key(x));
        assert(idle.inodes.contains_key(x));
    }
}

/// Putting a file in the table that the remote was asked for keeps the tree, whatever is dirty or
/// open, and the name leads to the file.
pub proof fn law_found_file_keeps_wf(
    t: TableModel,
    new: NewInode,
    etag: Option<Seq<char>>,
    now: Timestamp,
    checked: Instant,
)
    requires
        tree::wf(t),
        tree::good_name(new.name),
        new.kind == InodeKind::File,
        lookup::head_plan(t, new.parent, new.name) is Insert,
        new.full_path == inode::spec_child_path(t.inodes[new.parent].full_path, new.name),
        t.next_inode < u64::MAX,
    ensures
        ({
            let stale = lookup::head_plan(t, new.parent, new.name)->Insert_0;
            let before = lookup::made_way(t, stale);
            let r = lookup::head_inserted(before, new, etag, now, checked);
            &&& tree::wf(r)
            &&& r.child_named(new.parent, new.name) == Some(t.next_inode)
            &&& forall|x: u64| #[trigger]
                t.inodes.contains_key(x) && t.inodes[x].busy() ==> r.inodes.contains_key(x)
                    && same_content(t.inodes[x], r.inodes[x])
        }),
{
    let stale = lookup::head_plan(t, new.parent, new.name)->Insert_0;
    let before = lookup::made_way(t, stale);
    let r = lookup::head_inserted(before, new, etag, now, checked);
    let p = new.parent;
    tree::law_names_and_paths_agree(t, p, new.name);
    if let Some(x) = t.child_named(p, new.name) {
        let s = t.inodes[p].children;
        tree::lemma_first_live(t.inodes, s, new.name);
        let i = choose|i: int|
            0 <= i < s.len() && (#[trigger] s[i]).ino == x && s[i].name == new.name;
        assert(tree::edge_ok(t, p, t.inodes[p].children[i]));
        assert(tree::entry_ok(t, x));
        assert(tree::place_ok(t, x));
        tree::law_removal_keeps_wf(t, x);
        lemma_removal_spares_busy(t, x);
        assert(x != p);
        assert(!t.descendants(x).contains(p)) by {
            if t.descendants(x).contains(p) {
                lemma_descendant_is_longer(t, x, p);
            }
        }
        assert(!before.paths.contains_key(new.full_path));
    }
    assert(before.inodes.contains_key(p));
    assert(before.inodes[p].kind == InodeKind::Directory);
    tree::law_names_and_paths_agree(before, p, new.name);
    assert(can_create(before, p, new.name));
    tree::law_put_keeps_wf(before, new, now, checked);
    lemma_put_keeps_content(before, new, now, checked);
    if let Some(tag) = etag {
        tree::lemma_updated_in_place(
            before.put(new, now, checked),
            before.insert_ino(new.full_path),
            |e: EntryModel| EntryModel { etag: Some(tag), ..e },
        );
    }
    lemma_put_is_found(before, new, now, checked, r);
    assert forall|x: u64| #[trigger]
        t.inodes.contains_key(x) && t.inodes[x].busy() implies r.inodes.contains_key(x)
        && same_content(t.inodes[x], r.inodes[x]) by {
        assert(before.inodes.contains_key(x));
    }
}

/// What goes with an inode has a longer path.
pub proof fn lemma_descendant_is_longer(t: TableModel, ino: u64, x: u64)
    requires
        tree::wf(t),
        t.inodes.contains_key(ino),
        ino != ROOT_INODE,
        tree::linked(t.inodes[ino]),
        t.descendants(ino).contains(x),
    ensures
        t.inodes[x].full_path.len() > t.inodes[ino].full_path.len(),
{
    let rest = t.without(ino).detached(t.inodes[ino].parent, ino, t.inodes[ino].kind, false);
    let starts = model::child_inos(t.inodes[ino].children);
    let walk = choose|walk: Seq<u64>| #[trigger]
        model::is_walk(rest.inodes, walk) && starts.contains(walk[0]) && walk.last() == x;
    let i = choose|i: int|
        0 <= i < t.inodes[ino].children.len() && #[trigger] t.inodes[ino].children[i].ino
            == walk[0];
    assert(tree::edge_ok(t, ino, t.inodes[ino].children[i]));
    assert(tree::place_ok(t, walk[0]));
    lemma_walk_grows(t, ino, walk, (walk.len() - 1) as nat);
}

proof fn lemma_walk_grows(t: TableModel, ino: u64, walk: Seq<u64>, n: nat)
    requires
        tree::wf(t),
        t.inodes.contains_key(ino),
        n < walk.len(),
        model::is_walk(
            t.without(ino).detached(
                t.inodes[ino].parent,
                ino,
                t.inodes[ino].kind,
                false,
            ).inodes,
            walk,
        ),
    ensures
        t.inodes[walk[n as int]].full_path.len() >= t.inodes[walk[0]].full_path.len(),
    decreases n,
{
    let rest = t.without(ino).detached(t.inodes[ino].parent, ino, t.inodes[ino].kind, false);
    if n > 0 {
        let m = (n - 1) as nat;
        lemma_walk_grows(t, ino, walk, m);
        let a = walk[m as int];
        assert(rest.inodes.contains_key(walk[m as int]));
        assert(model::is_child(rest.inodes, walk[m as int], walk[m as int + 1]));
        let k = choose|k: int|
            0 <= k < rest.inodes[a].children.len() && #[trigger] rest.inodes[a].children[k].ino
                == walk[n as int];
        let c = rest.inodes[a].children[k];
        let keep = |c: ChildModel| c.ino != ino;
        tree::lemma_filtered(t.inodes[a].children, keep);
        assert(t.inodes[a].children.contains(c)) by {
            if a != t.inodes[ino].parent {
                assert(t.inodes[a].children[k] == c);
            }
        }
        let j = choose|j: int| 0 <= j < t.inodes[a].children.len() && t.inodes[a].children[j] == c;
        assert(tree::edge_ok(t, a, t.inodes[a].children[j]));
        assert(tree::place_ok(t, c.ino));
    }
}

/// A directory shows a name exactly if the name can be looked up in it, and shows the same inode.
pub proof fn law_shown_names_are_found(
    t: TableModel,
    dir: u64,
    ino: u64,
    name: Seq<char>,
)
    requires
        tree::wf(t),
        t.inodes.contains_key(dir),
    ensures
        t.child_named(dir, name) == Some(ino) ==> listing::shown(t, dir).skip(2).contains(
            (ino, t.inodes[ino].kind, name),
        ),
        forall|kind: InodeKind| #[trigger]
            listing::shown(t, dir).skip(2).contains((ino, kind, name)) ==> t.child_named(dir, name)
                == Some(ino) && kind == t.inodes[ino].kind,
{
    let s = t.inodes[dir].children;
    assert forall|i: int| 0 <= i < s.len() implies t.inodes.contains_key((#[trigger] s[i]).ino)
        && t.inodes[s[i].ino].inode == s[i].ino by {
        assert(tree::edge_ok(t, dir, t.inodes[dir].children[i]));
        assert(tree::entry_ok(t, s[i].ino));
    }
    lemma_all_shown(t, s);
    let rows = rows(t, s);
    assert(listing::shown(t, dir).skip(2) =~= rows);
    tree::lemma_first_live(t.inodes, s, name);
    if t.child_named(dir, name) == Some(ino) {
        let i = choose|i: int| 0 <= i < s.len() && (#[trigger] s[i]).ino == ino && s[i].name == name;
        assert(rows[i] == (ino, t.inodes[ino].kind, name));
    }
    assert forall|kind: InodeKind| #[trigger] rows.contains((ino, kind, name)) implies t.child_named(
        dir,
        name,
    ) == Some(ino) && kind == t.inodes[ino].kind by {
        let i = choose|i: int| 0 <= i < rows.len() && rows[i] == (ino, kind, name);
        assert(s[i].ino == ino && s[i].name == name);
        assert(tree::edge_ok(t, dir, t.inodes[dir].children[i]));
        assert(tree::place_ok(t, ino));
        assert(t.child_named(dir, name) is Some);
        let x = t.child_named(dir, name)->Some_0;
        let j = choose|j: int| 0 <= j < s.len() && (#[trigger] s[j]).ino == x && s[j].name == name;
        assert(tree::edge_ok(t, dir, t.inodes[dir].children[j]));
        assert(tree::place_ok(t, x));
    }
}

/// The rows that children are shown in.
pub open spec fn rows(t: TableModel, s: Seq<ChildModel>) -> Seq<listing::DirEntryModel> {
    s.filter_map(|c: ChildModel| listing::shown_child(t, c))
}

pub proof fn lemma_all_shown(t: TableModel, s: Seq<ChildModel>)
    requires
        forall|i: int|
            0 <= i < s.len() ==> t.inodes.contains_key((#[trigger] s[i]).ino)
                && t.inodes[s[i].ino].inode == s[i].ino,
    ensures
        rows(t, s).len() == s.len(),
        forall|i: int|
            0 <= i < s.len() ==> #[trigger] rows(t, s)[i] == (
                s[i].ino,
                t.inodes[s[i].ino].kind,
                s[i].name,
            ),
    decreases s.len(),
{
    let pick = |c: ChildModel| listing::shown_child(t, c);
    if s.len() > 0 {
        let n = s.len() - 1;
        let low = s.take(n);
        assert forall|i: int| 0 <= i < low.len() implies t.inodes.contains_key(
            (#[trigger] low[i]).ino,
        ) && t.inodes[low[i].ino].inode == low[i].ino by {
            assert(low[i] == s[i]);
        }
        lemma_all_shown(t, low);
        s.lemma_filter_map_take_succ(pick, n);
        assert(s.take(n + 1) =~= s);
        assert(s[n].ino == s[n].ino);
        assert forall|i: int| 0 <= i < s.len() implies #[trigger] rows(t, s)[i] == (
            s[i].ino,
            t.inodes[s[i].ino].kind,
            s[i].name,
        ) by {
            if i < n {
                assert(rows(t, low)[i] == (
                    low[i].ino,
                    t.inodes[low[i].ino].kind,
                    low[i].name,
                ));
            }
        }
    } else {
        reveal(Seq::filter_map);
    }
}

} // verus!
