//! What creating, deleting, looking up and describing an entry of a directory comes to.
use crate::time::Timestamp;
use crate::virtual_fs;
use crate::virtual_fs::inode::{EntryModel, InodeKind, ROOT_INODE};
use crate::virtual_fs::laws;
use crate::virtual_fs::model;
use crate::virtual_fs::model::TableModel;
use crate::virtual_fs::namespace;
use crate::virtual_fs::rename;
use crate::virtual_fs::setattr;
use crate::virtual_fs::tree;
use crate::virtual_fs::{Errno, VirtualFsResult};
use std::time::Instant;
use vstd::prelude::*;

verus! {

/// The path of what is called `name` in the directory at `dir`.
pub open spec fn path_in(dir: Seq<char>, name: Seq<char>) -> Seq<char> {
    if dir.len() == 0 {
        name
    } else {
        dir + seq!['/'] + name
    }
}

/// What is neither `a` nor `b` is as it was.
pub open spec fn rest_kept(t: TableModel, r: TableModel, a: u64, b: u64) -> bool {
    &&& forall|x: u64| #[trigger]
        t.inodes.contains_key(x) && x != a && x != b ==> r.inodes.contains_key(x) && r.inodes[x]
            == t.inodes[x]
    &&& forall|x: u64| #[trigger]
        r.inodes.contains_key(x) && x != a && x != b ==> t.inodes.contains_key(x)
}

/// A name can be given to something new exactly if its directory is known and has nothing of that
/// name.
pub proof fn law_free_names_can_be_given(t: TableModel, parent: u64, name: Seq<char>)
    ensures
        ({
            let r = namespace::name_check(t, parent, name);
            let known = t.inodes.contains_key(parent);
            let dir = known && t.inodes[parent].kind == InodeKind::Directory;
            let taken = exists|i: int|
                0 <= i < t.inodes[parent].children.len() && (
                #[trigger] t.inodes[parent].children[i]).name == name && t.inodes.contains_key(
                    t.inodes[parent].children[i].ino,
                );
            &&& r is Ok <==> dir && !taken
            &&& r == Err::<(), Errno>(Errno::ENOENT) <==> !known
            &&& r == Err::<(), Errno>(Errno::ENOTDIR) <==> known && !dir
            &&& r == Err::<(), Errno>(Errno::EEXIST) <==> dir && taken
        }),
{
    if t.inodes.contains_key(parent) {
        let s = t.inodes[parent].children;
        tree::lemma_first_live(t.inodes, s, name);
        if let Some(x) = t.child_named(parent, name) {
            let i = choose|i: int|
                0 <= i < s.len() && (#[trigger] s[i]).ino == x && s[i].name == name;
            assert(t.inodes[parent].children[i].name == name);
        }
    }
}

/// What a new entry has been given, and what it starts with.
pub open spec fn made_as_asked(
    t: TableModel,
    r: TableModel,
    parent: u64,
    name: Seq<char>,
    kind: InodeKind,
    size: u64,
    mode: u16,
    uid: u32,
    gid: u32,
    now: Timestamp,
    checked: Instant,
) -> bool {
    let x = t.next_inode;
    let e = r.inodes[x];
    let path = path_in(t.inodes[parent].full_path, name);
    &&& r.inodes.contains_key(x)
    &&& e.inode == x
    &&& e.parent == parent
    &&& e.name == name
    &&& e.full_path == path
    &&& r.paths.contains_key(path)
    &&& r.paths[path] == x
    &&& e.kind == kind
    &&& e.size == size
    &&& e.mode == mode
    &&& e.uid == uid
    &&& e.gid == gid
    &&& e.mtime == now
    &&& e.atime == now
    &&& e.ctime == now
    &&& e.xet_hash is None
    &&& e.etag is None
    &&& e.children.len() == 0
    &&& e.children_loaded
    &&& e.pending_deletes.len() == 0
    &&& e.last_revalidated == Some(checked)
    &&& e.eviction.open_handles == 0
    &&& e.eviction.nlookup == 0
    &&& r.inodes[parent].mtime == now
    &&& r.inodes[parent].ctime == now
    &&& r.inodes[parent].full_path == t.inodes[parent].full_path
    &&& r.inodes[parent].children_loaded == t.inodes[parent].children_loaded
    &&& rest_kept(t, r, parent, x)
}

/// A new file, directory or symlink has the owner, the mode and the path it was asked for with, is
/// as old as now, and has no content yet. A file is dirty; a directory counts as listed and adds a
/// link to its parent; a symlink has its target.
pub proof fn law_created_as_asked(
    t: TableModel,
    parent: u64,
    name: Seq<char>,
    target: Seq<char>,
    size: u64,
    mode: u16,
    uid: u32,
    gid: u32,
    now: Timestamp,
    checked: Instant,
)
    requires
        laws::can_create(t, parent, name),
        t.inodes[parent].nlink < u32::MAX,
    ensures
        ({
            let kind = InodeKind::File;
            let new = namespace::new_child(t, parent, name, kind, size, mode, uid, gid, now);
            let r = namespace::file_created(t, new, now, checked);
            let e = r.inodes[t.next_inode];
            &&& made_as_asked(t, r, parent, name, kind, size, mode, uid, gid, now, checked)
            &&& e.dirty_generation > 0
            &&& e.nlink == 1
            &&& e.symlink_target is None
            &&& r.inodes[parent].nlink == t.inodes[parent].nlink
        }),
        ({
            let kind = InodeKind::Directory;
            let new = namespace::new_child(t, parent, name, kind, size, mode, uid, gid, now);
            let r = namespace::dir_created(t, new, now, checked);
            let e = r.inodes[t.next_inode];
            &&& made_as_asked(t, r, parent, name, kind, size, mode, uid, gid, now, checked)
            &&& e.dirty_generation == 0
            &&& e.nlink == 2
            &&& e.symlink_target is None
            &&& r.inodes[parent].nlink == t.inodes[parent].nlink + 1
        }),
        ({
            let kind = InodeKind::Symlink;
            let new = namespace::new_child(t, parent, name, kind, size, mode, uid, gid, now);
            let r = namespace::symlink_created(t, new, target, now, checked);
            let e = r.inodes[t.next_inode];
            &&& made_as_asked(t, r, parent, name, kind, size, mode, uid, gid, now, checked)
            &&& e.dirty_generation == 0
            &&& e.nlink == 1
            &&& e.symlink_target == Some(target)
            &&& r.inodes[parent].nlink == t.inodes[parent].nlink
        }),
{
    tree::law_names_and_paths_agree(t, parent, name);
    assert(!t.inodes.contains_key(t.next_inode)) by {
        if t.inodes.contains_key(t.next_inode) {
            assert(tree::entry_ok(t, t.next_inode));
        }
    }
}

/// The child of that name in a directory of a tree.
pub proof fn lemma_child(t: TableModel, parent: u64, name: Seq<char>, x: u64)
    requires
        tree::wf(t),
        t.child_named(parent, name) == Some(x),
    ensures
        t.inodes.contains_key(parent),
        t.inodes.contains_key(x),
        t.inodes[x].inode == x,
        t.inodes[x].parent == parent,
        t.inodes[x].name == name,
        x != ROOT_INODE,
        x != parent,
        t.inodes[parent].kind == InodeKind::Directory,
        t.unlink_target(parent, name) == Some(x),
        t.paths.contains_key(t.inodes[x].full_path),
        t.paths[t.inodes[x].full_path] == x,
        tree::linked(t.inodes[x]),
{
    let s = t.inodes[parent].children;
    tree::lemma_first_live(t.inodes, s, name);
    tree::lemma_first_named(s, name);
    let i = choose|i: int| 0 <= i < s.len() && (#[trigger] s[i]).ino == x && s[i].name == name;
    assert(tree::edge_ok(t, parent, t.inodes[parent].children[i]));
    let k = model::first_named(s, name)->Some_0;
    assert(tree::edge_ok(t, parent, t.inodes[parent].children[k]));
    assert(tree::place_ok(t, s[k].ino));
    assert(tree::place_ok(t, x));
    assert(tree::entry_ok(t, x));
    assert(tree::entry_ok(t, parent));
    if x == parent {
        tree::law_names_and_paths_agree(t, parent, name);
        assert(t.inodes[x].full_path.len() > t.inodes[parent].full_path.len());
    }
}

/// What is called `name` in `parent` can be deleted exactly if it is no directory and, without
/// staging files, nobody has it open. The remote is told exactly if it has the file.
pub proof fn law_what_can_be_deleted(
    t: TableModel,
    advanced_writes: bool,
    parent: u64,
    name: Seq<char>,
)
    requires
        tree::wf(t),
    ensures
        ({
            let r = namespace::unlink_plan(t, advanced_writes, parent, name);
            match t.child_named(parent, name) {
                None => r == Err::<(u64, Seq<char>, bool), Errno>(Errno::ENOENT),
                Some(x) => {
                    let e = t.inodes[x];
                    let dir = e.kind == InodeKind::Directory;
                    let open = e.eviction.open_handles > 0;
                    &&& r is Ok <==> !dir && (advanced_writes || !open)
                    &&& r == Err::<(u64, Seq<char>, bool), Errno>(Errno::EISDIR) <==> dir
                    &&& r == Err::<(u64, Seq<char>, bool), Errno>(Errno::EPERM) <==> !dir
                        && !advanced_writes && open
                    &&& r is Ok ==> r->Ok_0.0 == x && r->Ok_0.1 == e.full_path
                    &&& r is Ok ==> (r->Ok_0.2 <==> e.xet_hash is Some)
                },
            }
        }),
{
    if let Some(x) = t.child_named(parent, name) {
        lemma_child(t, parent, name, x);
        assert(tree::entry_ok(t, x));
    }
}

/// After a file or symlink is deleted its name and its path lead nowhere. It is gone, unless it is
/// open: then it stays for its handles, as it was but for the link. Nothing else changes but the
/// times of the directory.
pub proof fn law_deleted_names_lead_nowhere(
    t: TableModel,
    parent: u64,
    name: Seq<char>,
    now: Timestamp,
    x: u64,
)
    requires
        tree::wf(t),
        tree::good_name(name),
        t.child_named(parent, name) == Some(x),
        t.inodes[x].kind != InodeKind::Directory,
    ensures
        ({
            let r = namespace::name_deleted(t, parent, name, x, now);
            &&& namespace::last_link(t, parent, name, now)
            &&& r.child_named(parent, name) is None
            &&& !r.paths.contains_key(t.inodes[x].full_path)
            &&& r.inodes.contains_key(x) <==> t.inodes[x].eviction.open_handles > 0
            &&& r.inodes.contains_key(x) ==> r.inodes[x] == (EntryModel {
                nlink: 0,
                ctime: now,
                ..t.inodes[x]
            })
            &&& r.inodes[parent].mtime == now
            &&& r.inodes[parent].ctime == now
            &&& r.inodes[parent].nlink == t.inodes[parent].nlink
            &&& rest_kept(t, r, parent, x)
        }),
{
    lemma_child(t, parent, name, x);
    assert(tree::entry_ok(t, x));
    laws::law_deletion_keeps_wf(t, parent, name, now);
    assert(tree::place_ok(t, x));
}

/// A directory can be deleted exactly if it is there and has nothing in it.
pub proof fn law_empty_directories_can_be_deleted(t: TableModel, parent: u64, name: Seq<char>)
    requires
        tree::wf(t),
    ensures
        ({
            let r = namespace::rmdir_plan(t, parent, name);
            match t.child_named(parent, name) {
                None => r == Err::<u64, Errno>(Errno::ENOENT),
                Some(x) => {
                    let e = t.inodes[x];
                    let dir = e.kind == InodeKind::Directory;
                    &&& r == Ok::<u64, Errno>(x) <==> dir && e.children.len() == 0
                    &&& r == Err::<u64, Errno>(Errno::ENOTDIR) <==> !dir
                    &&& r == Err::<u64, Errno>(Errno::ENOTEMPTY) <==> dir && e.children.len() > 0
                },
            }
        }),
{
    if let Some(x) = t.child_named(parent, name) {
        lemma_child(t, parent, name, x);
    }
}

/// After an empty directory is deleted its name and its path lead nowhere, and its parent has a
/// link less. A directory with something in it stays, with everything else.
pub proof fn law_deleted_directories_are_gone(
    t: TableModel,
    parent: u64,
    name: Seq<char>,
    now: Timestamp,
    x: u64,
)
    requires
        tree::wf(t),
        tree::good_name(name),
        t.child_named(parent, name) == Some(x),
        t.inodes[x].kind == InodeKind::Directory,
        t.inodes[parent].nlink > 0,
    ensures
        ({
            let r = namespace::dir_deleted(t, parent, x, now);
            let empty = t.inodes[x].children.len() == 0;
            &&& namespace::rmdir_outcome(t, x) == if empty {
                Ok::<(), Errno>(())
            } else {
                Err(Errno::ENOTEMPTY)
            }
            &&& !empty ==> r == t
            &&& empty ==> {
                &&& !r.inodes.contains_key(x)
                &&& !r.paths.contains_key(t.inodes[x].full_path)
                &&& r.child_named(parent, name) is None
                &&& r.inodes[parent].mtime == now
                &&& r.inodes[parent].ctime == now
                &&& r.inodes[parent].nlink == t.inodes[parent].nlink - 1
                &&& rest_kept(t, r, parent, x)
            }
        }),
{
    lemma_child(t, parent, name, x);
    assert(tree::entry_ok(t, x));
    assert(tree::place_ok(t, x));
    if t.inodes[x].children.len() == 0 {
        let starts = model::child_inos(t.inodes[x].children);
        let rest = t.without(x).detached(parent, x, t.inodes[x].kind, false);
        assert forall|z: u64| !(#[trigger] t.descendants(x).contains(z)) by {
            if t.descendants(x).contains(z) {
                let walk = choose|walk: Seq<u64>| #[trigger]
                    model::is_walk(rest.inodes, walk) && starts.contains(walk[0]) && walk.last()
                        == z;
                assert(starts.contains(walk[0]));
            }
        }
        laws::law_rmdir_keeps_wf(t, parent, x, now);
        let r = namespace::dir_deleted(t, parent, x, now);
        tree::law_names_and_paths_agree(r, parent, name);
        tree::law_names_and_paths_agree(t, parent, name);
    }
}

/// The attributes shown are those of the inode. The blocks are as many as the bytes need. On a
/// read-only mount nothing can be written to, and a symlink always has all permissions.
pub proof fn law_attributes_show_the_inode(read_only: bool, e: EntryModel)
    ensures
        ({
            let a = virtual_fs::attr_of(read_only, e);
            &&& a.ino == e.inode
            &&& a.size == e.size
            &&& a.blocks * 512 >= e.size
            &&& a.blocks * 512 < e.size + 512
            &&& a.mtime == e.mtime
            &&& a.atime == e.atime
            &&& a.ctime == e.ctime
            &&& a.kind == e.kind
            &&& a.nlink == e.nlink
            &&& a.uid == e.uid
            &&& a.gid == e.gid
            &&& e.kind == InodeKind::Symlink ==> a.perm == 0o777
            &&& e.kind != InodeKind::Symlink && !read_only ==> a.perm == e.mode
            &&& e.kind == InodeKind::Directory && read_only ==> a.perm == 0o555
            &&& e.kind == InodeKind::File && read_only ==> a.perm == 0o444
            &&& e.kind != InodeKind::Symlink && read_only ==> a.perm & 0o222 == 0
        }),
{
    assert(0o555u16 & 0o222 == 0) by (bit_vector);
    assert(0o444u16 & 0o222 == 0) by (bit_vector);
}

/// Attributes that are given are set, all others are kept. Any change is dated, and no change is
/// none.
pub proof fn law_given_attributes_are_set(
    t: TableModel,
    ino: u64,
    mode: Option<u16>,
    uid: Option<u32>,
    gid: Option<u32>,
    atime: Option<Timestamp>,
    mtime: Option<Timestamp>,
    now: Timestamp,
)
    ensures
        ({
            let r = setattr::attributes_set(t, ino, mode, uid, gid, atime, mtime, now);
            let a = t.inodes[ino];
            let b = r.inodes[ino];
            let any = mode is Some || uid is Some || gid is Some || atime is Some || mtime is Some;
            &&& rest_kept(t, r, ino, ino)
            &&& r.paths == t.paths
            &&& r.next_inode == t.next_inode
            &&& !any || !t.inodes.contains_key(ino) ==> r == t
            &&& any && t.inodes.contains_key(ino) ==> {
                &&& mode is Some ==> b.mode == mode->Some_0
                &&& mode is None ==> b.mode == a.mode
                &&& uid is Some ==> b.uid == uid->Some_0
                &&& uid is None ==> b.uid == a.uid
                &&& gid is Some ==> b.gid == gid->Some_0
                &&& gid is None ==> b.gid == a.gid
                &&& atime is Some ==> b.atime == atime->Some_0
                &&& atime is None ==> b.atime == a.atime
                &&& mtime is Some ==> b.mtime == mtime->Some_0
                &&& mtime is None ==> b.mtime == a.mtime
                &&& b.ctime == now
                &&& b == (EntryModel {
                    mode: b.mode,
                    uid: b.uid,
                    gid: b.gid,
                    atime: b.atime,
                    mtime: b.mtime,
                    ctime: b.ctime,
                    ..a
                })
            }
        }),
{
}

/// Nothing is set on a read-only mount. Only a file is brought to a size, and only in a staging
/// file.
pub proof fn law_what_can_be_resized(
    t: TableModel,
    ino: u64,
    size: u64,
    read_only: bool,
    advanced_writes: bool,
)
    ensures
        ({
            let r = setattr::size_to_set(t, ino, Some(size), read_only, advanced_writes);
            let known = t.inodes.contains_key(ino);
            let file = known && t.inodes[ino].kind == InodeKind::File;
            &&& r == Err::<Option<u64>, Errno>(Errno::EROFS) <==> read_only
            &&& r == Err::<Option<u64>, Errno>(Errno::ENOENT) <==> !read_only && !known
            &&& r == Err::<Option<u64>, Errno>(Errno::EISDIR) <==> !read_only && known && !file
            &&& r == Ok::<Option<u64>, Errno>(Some(size)) <==> !read_only && file
                && advanced_writes
            &&& r == Ok::<Option<u64>, Errno>(None) <==> !read_only && file && !advanced_writes
        }),
        setattr::size_to_set(t, ino, None, read_only, advanced_writes) == if read_only {
            Err::<Option<u64>, Errno>(Errno::EROFS)
        } else {
            Ok(None)
        },
{
}

/// When the kernel gives up references to an inode, that many are gone, and no more. Once none is
/// left, what is clean, has a name, and has nothing to delete remotely goes, unless it is open: then
/// it goes with the last handle. Its directory has to be listed again.
pub proof fn law_forgotten_files_go(t: TableModel, x: u64, n: u64)
    requires
        tree::wf(t),
        t.inodes.contains_key(x),
    ensures
        ({
            let r = virtual_fs::forgotten(t, x, n);
            let e = t.inodes[x];
            let last = e.eviction.nlookup <= n;
            let idle = e.kind == InodeKind::File && e.dirty_generation == 0 && e.nlink > 0
                && e.pending_deletes.len() == 0 && e.eviction.open_handles == 0;
            &&& !r.inodes.contains_key(x) <==> last && idle
            &&& virtual_fs::forget_evicts(t, x, n) <==> last && idle
            &&& last && idle ==> !r.inodes[e.parent].children_loaded && !r.paths.contains_key(
                e.full_path,
            )
            &&& !(last && idle) ==> {
                let v = r.inodes[x].eviction;
                &&& v.nlookup == if last {
                    0
                } else {
                    (e.eviction.nlookup - n) as u64
                }
                &&& v.evict_pending <==> e.eviction.evict_pending || (last
                    && e.eviction.open_handles > 0)
                &&& v.open_handles == e.eviction.open_handles
                &&& r.inodes[x] == (EntryModel { eviction: v, ..e })
                &&& rest_kept(t, r, x, x)
            }
        }),
{
    if t.inodes[x].kind == InodeKind::File && t.inodes[x].nlink > 0 {
        assert(x != ROOT_INODE);
        assert(tree::place_ok(t, x));
        assert(t.inodes[x].parent != x);
    }
}

/// Nothing is created or renamed on a read-only mount, and no leftovers where they are filtered.
/// A rename to the same place is none.
pub proof fn law_what_may_be_created(
    read_only: bool,
    filter_os_files: bool,
    parent: u64,
    name: Seq<char>,
    newparent: u64,
    newname: Seq<char>,
)
    ensures
        ({
            let r = namespace::creation_check(read_only, filter_os_files, name);
            &&& r == Err::<(), Errno>(Errno::EROFS) <==> read_only
            &&& r == Err::<(), Errno>(Errno::EACCES) <==> !read_only && filter_os_files
                && virtual_fs::junk(name)
            &&& r is Ok <==> !read_only && (!filter_os_files || !virtual_fs::junk(name))
        }),
        !rename::moves(parent, name, parent, name),
        parent != newparent || name != newname ==> rename::moves(parent, name, newparent, newname),
{
}

} // verus!
