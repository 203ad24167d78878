//! Creating and deleting files, directories and symlinks.
use crate::time::Timestamp;
use crate::virtual_fs;
use crate::virtual_fs::handles;
use crate::virtual_fs::handles::OpenFile;
use crate::virtual_fs::inode;
use crate::virtual_fs::inode::{child_path, EntryModel, InodeKind};
use crate::virtual_fs::model::{NewInode, TableModel};
use crate::virtual_fs::negative_cache;
use crate::virtual_fs::streaming::{CommitState, InodeSnapshot, StreamingChannel};
use crate::virtual_fs::{is_os_junk, Errno, VirtualFs, VirtualFsAttr, VirtualFsResult};
use std::time::Instant;
use vstd::prelude::*;
use vstd::string::*;

verus! {

broadcast use {
    vstd::std_specs::hash::group_hash_axioms,
    vstd::string::group_string_axioms,
};

/// Whether `name` can be given to something new in `parent`, as far as the table decides it.
pub open spec fn name_check(t: TableModel, parent: u64, name: Seq<char>) -> VirtualFsResult<()> {
    if !t.inodes.contains_key(parent) {
        Err(Errno::ENOENT)
    } else if t.inodes[parent].kind != InodeKind::Directory {
        Err(Errno::ENOTDIR)
    } else if t.child_named(parent, name) is Some {
        Err(Errno::EEXIST)
    } else {
        Ok(())
    }
}

/// Whether something may be created under this name, whatever the directory.
pub open spec fn creation_check(
    read_only: bool,
    filter_os_files: bool,
    name: Seq<char>,
) -> VirtualFsResult<()> {
    if read_only {
        Err(Errno::EROFS)
    } else if filter_os_files && virtual_fs::junk(name) {
        Err(Errno::EACCES)
    } else {
        Ok(())
    }
}

/// What something new in a directory is made of.
pub open spec fn new_child(
    t: TableModel,
    parent: u64,
    name: Seq<char>,
    kind: InodeKind,
    size: u64,
    mode: u16,
    uid: u32,
    gid: u32,
    now: Timestamp,
) -> NewInode {
    NewInode {
        parent,
        name,
        full_path: inode::spec_child_path(t.inodes[parent].full_path, name),
        kind,
        size,
        mtime: now,
        xet_hash: None,
        mode,
        uid,
        gid,
    }
}

/// The table with the times of a modified directory set.
pub open spec fn dir_touched(t: TableModel, dir: u64, now: Timestamp) -> TableModel {
    t.updated(dir, |e: EntryModel| EntryModel { mtime: now, ctime: now, ..e })
}

/// The table after a file is created, empty and dirty.
pub open spec fn file_created(
    t: TableModel,
    new: NewInode,
    now: Timestamp,
    checked: Instant,
) -> TableModel {
    dir_touched(
        t.put(new, now, checked).updated(
            t.insert_ino(new.full_path),
            |e: EntryModel|
                EntryModel { dirty_generation: inode::next_generation(e.dirty_generation), ..e },
        ),
        new.parent,
        now,
    )
}

/// The table after a directory is created. It is empty, so there is nothing to list.
pub open spec fn dir_created(
    t: TableModel,
    new: NewInode,
    now: Timestamp,
    checked: Instant,
) -> TableModel {
    dir_touched(
        t.put(new, now, checked).updated(
            t.insert_ino(new.full_path),
            |e: EntryModel| EntryModel { children_loaded: true, ..e },
        ),
        new.parent,
        now,
    )
}

/// The table after a symlink is created.
pub open spec fn symlink_created(
    t: TableModel,
    new: NewInode,
    target: Seq<char>,
    now: Timestamp,
    checked: Instant,
) -> TableModel {
    dir_touched(
        t.put(new, now, checked).updated(
            t.insert_ino(new.full_path),
            |e: EntryModel| EntryModel { symlink_target: Some(target), ..e },
        ),
        new.parent,
        now,
    )
}

/// A file that was created.
#[derive(Debug)]
pub struct Created {
    pub ino: u64,
    pub full_path: String,
    /// The generation that its first content belongs to.
    pub dirty_generation: u64,
}

/// What is to be deleted.
#[derive(Debug)]
pub struct UnlinkInfo {
    pub ino: u64,
    pub full_path: String,
    /// Whether the remote has the file.
    pub needs_remote_delete: bool,
}

/// The last link of what is called `name` in `parent` goes when it is unlinked.
pub open spec fn last_link(t: TableModel, parent: u64, name: Seq<char>, now: Timestamp) -> bool {
    t.unlink_reaches(parent, name) && t.unlinked(parent, name, now).inodes[t.unlink_target(
        parent,
        name,
    )->Some_0].nlink == 0
}

/// The table after `name` is unlinked from `parent`, where it was found to be `ino`. Without links
/// and handles the inode goes too.
pub open spec fn name_deleted(
    t: TableModel,
    parent: u64,
    name: Seq<char>,
    ino: u64,
    now: Timestamp,
) -> TableModel {
    let after = dir_touched(t.unlinked(parent, name, now), parent, now);
    if last_link(t, parent, name, now) && after.inodes.contains_key(ino)
        && after.inodes[ino].eviction.open_handles == 0 && after.inodes[ino].nlink == 0 {
        after.without(ino)
    } else {
        after
    }
}

/// What deleting `name` from `parent` is about, if it can be deleted: the inode, its path, and
/// whether the remote has the file.
pub open spec fn unlink_plan(
    t: TableModel,
    advanced_writes: bool,
    parent: u64,
    name: Seq<char>,
) -> VirtualFsResult<(u64, Seq<char>, bool)> {
    match t.child_named(parent, name) {
        None => Err(Errno::ENOENT),
        Some(x) => {
            let e = t.inodes[x];
            if e.kind == InodeKind::Directory {
                Err(Errno::EISDIR)
            } else if !advanced_writes && t.inodes.contains_key(e.inode)
                && t.inodes[e.inode].eviction.open_handles > 0 {
                Err(Errno::EPERM)
            } else {
                Ok((e.inode, e.full_path, e.xet_hash is Some && e.nlink <= 1))
            }
        },
    }
}

/// The directory called `name` in `parent`, if it can be deleted as far as known.
pub open spec fn rmdir_plan(t: TableModel, parent: u64, name: Seq<char>) -> VirtualFsResult<u64> {
    match t.child_named(parent, name) {
        None => Err(Errno::ENOENT),
        Some(x) => {
            let e = t.inodes[x];
            if e.kind != InodeKind::Directory {
                Err(Errno::ENOTDIR)
            } else if e.children.len() > 0 {
                Err(Errno::ENOTEMPTY)
            } else {
                Ok(e.inode)
            }
        },
    }
}

/// How deleting the directory `ino` comes out.
pub open spec fn rmdir_outcome(t: TableModel, ino: u64) -> VirtualFsResult<()> {
    if !t.inodes.contains_key(ino) {
        Err(Errno::ENOENT)
    } else if t.inodes[ino].children.len() > 0 {
        Err(Errno::ENOTEMPTY)
    } else {
        Ok(())
    }
}

/// The table after the directory `ino` is deleted from `parent`, unless it cannot be.
pub open spec fn dir_deleted(t: TableModel, parent: u64, ino: u64, now: Timestamp) -> TableModel {
    if rmdir_outcome(t, ino) is Ok {
        dir_touched(t.removed(ino), parent, now)
    } else {
        t
    }
}

impl VirtualFs {
    /// Whether something may be created under this name: not on a read-only mount, and not under
    /// the name of a file that an operating system leaves behind, if those are filtered.
    pub fn may_create(&self, name: &str) -> (r: VirtualFsResult<()>)
        ensures
            r == creation_check(self.config.read_only, self.config.filter_os_files, name@),
    {
        if self.config.read_only {
            return Err(Errno::EROFS);
        }
        if self.config.filter_os_files && is_os_junk(name) {
            return Err(Errno::EACCES);
        }
        Ok(())
    }

    /// Whether changes are allowed at all.
    pub fn may_change(&self) -> (r: VirtualFsResult<()>)
        ensures
            r == if self.config.read_only {
                Err::<(), Errno>(Errno::EROFS)
            } else {
                Ok(())
            },
    {
        if self.config.read_only {
            Err(Errno::EROFS)
        } else {
            Ok(())
        }
    }

    /// The path for something new, if the name is free.
    fn free_path(&self, parent: u64, name: &str) -> (r: VirtualFsResult<String>)
        ensures
            r is Ok <==> name_check(self.inodes@, parent, name@) is Ok,
            r matches Ok(p) ==> p@ == inode::spec_child_path(
                self.inodes@.inodes[parent].full_path,
                name@,
            ),
            r matches Err(e) ==> name_check(self.inodes@, parent, name@) == Err::<(), Errno>(e),
    {
        let path = match self.inodes.get(parent) {
            Some(e) => if e.kind == InodeKind::Directory {
                child_path(e.full_path.as_str(), name)
            } else {
                return Err(Errno::ENOTDIR);
            },
            None => return Err(Errno::ENOENT),
        };
        if self.inodes.lookup_child(parent, name).is_some() {
            return Err(Errno::EEXIST);
        }
        Ok(path)
    }

    /// `after` differs in the inode table, and in that the negative cache no longer has `path`.
    pub open spec fn path_appeared(self, after: VirtualFs, path: Seq<char>) -> bool {
        &&& after.config == self.config
        &&& after.files == self.files
        &&& after.channels == self.channels
        &&& after.next_file_handle == self.next_file_handle
        &&& after.default_mtime == self.default_mtime
        &&& after.negative@ == negative_cache::without_key(self.negative@, path)
        &&& self.negative.wf() ==> after.negative.wf()
    }

    /// Create a file in a directory whose children are known.
    pub fn create(
        &mut self,
        parent: u64,
        name: &str,
        mode: u16,
        caller_uid: u32,
        caller_gid: u32,
        now: Timestamp,
        checked: Instant,
    ) -> (r: VirtualFsResult<Created>)
        ensures
            r is Ok <==> name_check(old(self).inodes@, parent, name@) is Ok,
            r matches Err(e) ==> name_check(old(self).inodes@, parent, name@) == Err::<(), Errno>(e)
                && *final(self) == *old(self),
            r matches Ok(c) ==> {
                let t = old(self).inodes@;
                let new = new_child(
                    t,
                    parent,
                    name@,
                    InodeKind::File,
                    0,
                    mode,
                    caller_uid,
                    caller_gid,
                    now,
                );
                &&& c.full_path@ == new.full_path
                &&& c.ino == t.insert_ino(new.full_path)
                &&& final(self).inodes@ == file_created(t, new, now, checked)
                &&& c.dirty_generation == if final(self).inodes@.inodes.contains_key(c.ino) {
                    final(self).inodes@.inodes[c.ino].dirty_generation
                } else {
                    0
                }
                &&& old(self).path_appeared(*final(self), new.full_path)
            },
    {
        let full_path = match self.free_path(parent, name) {
            Ok(p) => p,
            Err(e) => return Err(e),
        };
        let ino: u64 = self.inodes.insert_or_keep(
            parent,
            name.to_owned(),
            full_path.clone(),
            InodeKind::File,
            0,
            now,
            None,
            mode,
            caller_uid,
            caller_gid,
            now,
            checked,
        );
        let mut dirty_generation: u64 = 0;
        if let Some(entry) = self.inodes.get_mut(ino) {
            entry.set_dirty();
            dirty_generation = entry.dirty_generation;
        }
        self.inodes.touch_parent(parent, now);
        self.negative.remove(full_path.as_str());
        Ok(Created { ino, full_path, dirty_generation })
    }

    /// Open the staging file of a file that was just created.
    pub fn created_local(&mut self, ino: u64) -> (r: VirtualFsResult<(VirtualFsAttr, u64)>)
        ensures
            old(self).handle_added(
                *final(self),
                old(self).next_file_handle,
                OpenFile::Local { ino, writable: true },
            ),
            final(self).inodes@ == handles::handle_opened(old(self).inodes@, ino),
            r == match final(self).attr_result(ino) {
                Ok(attr) => Ok::<(VirtualFsAttr, u64), Errno>((attr, old(self).next_file_handle)),
                Err(e) => Err(e),
            },
    {
        let handle: u64 = self.alloc_file_handle();
        self.inodes.bump_open_handles(ino);
        let _ = self.files.insert(handle, OpenFile::Local { ino, writable: true });
        match self.attr(ino) {
            Ok(attr) => Ok((attr, handle)),
            Err(e) => Err(e),
        }
    }

    /// Open a writer on a file that was just created, which goes again if the commit fails.
    pub fn created_streaming(
        &mut self,
        ino: u64,
        pid: Option<u32>,
        dirty_generation: u64,
        now: Timestamp,
    ) -> (r: VirtualFsResult<(VirtualFsAttr, u64)>)
        ensures
            ({
                let fh = old(self).next_file_handle;
                &&& final(self).next_file_handle == fh.wrapping_add(1)
                &&& final(self).files@ == old(self).files@.insert(fh, OpenFile::Streaming { ino })
                &&& final(self).inodes@ == handles::handle_opened(old(self).inodes@, ino)
                &&& final(self).config == old(self).config
                &&& final(self).negative == old(self).negative
                &&& final(self).default_mtime == old(self).default_mtime
                &&& final(self).channels@.remove(fh) == old(self).channels@.remove(fh)
                &&& final(self).channels@.contains_key(fh)
                &&& ({
                    let c = final(self).channels@[fh];
                    &&& c.bytes_written == 0
                    &&& !c.failed
                    &&& c.state == CommitState::Writing
                    &&& c.pending_info is None
                    &&& c.open_pid == pid
                    &&& c.dirty_generation_at_open == dirty_generation
                    &&& !c.hook_installed
                    &&& c.snapshot.xet_hash is None
                    &&& c.snapshot.size == 0
                    &&& c.snapshot.mtime == now
                    &&& c.snapshot.pending_deletes@.len() == 0
                    &&& !c.snapshot.existed_before
                })
                &&& r == match final(self).attr_result(ino) {
                    Ok(attr) => Ok::<(VirtualFsAttr, u64), Errno>((attr, fh)),
                    Err(e) => Err(e),
                }
            }),
    {
        let snapshot = InodeSnapshot {
            xet_hash: None,
            size: 0,
            mtime: now,
            pending_deletes: Vec::new(),
            existed_before: false,
        };
        let channel = StreamingChannel::new(pid, snapshot, dirty_generation);
        let handle: u64 = self.open_streaming(ino, channel);
        assert(self.channels@.remove(handle) =~= old(self).channels@.remove(handle));
        match self.attr(ino) {
            Ok(attr) => Ok((attr, handle)),
            Err(e) => Err(e),
        }
    }

    /// Undo the creation of a file that could not be opened.
    pub fn create_aborted(&mut self, ino: u64)
        ensures
            final(self).inodes@ == if old(self).inodes@.inodes.contains_key(ino) {
                old(self).inodes@.removed(ino)
            } else {
                old(self).inodes@
            },
            old(self).only_inodes(*final(self)),
    {
        let _ = self.inodes.remove(ino);
    }

    /// Create a directory in a directory whose children are known.
    pub fn mkdir(
        &mut self,
        parent: u64,
        name: &str,
        mode: u16,
        caller_uid: u32,
        caller_gid: u32,
        now: Timestamp,
        checked: Instant,
    ) -> (r: VirtualFsResult<VirtualFsAttr>)
        ensures
            match name_check(old(self).inodes@, parent, name@) {
                Err(e) => r == Err::<VirtualFsAttr, Errno>(e) && *final(self) == *old(self),
                Ok(_) => {
                    let t = old(self).inodes@;
                    let new = new_child(
                        t,
                        parent,
                        name@,
                        InodeKind::Directory,
                        0,
                        mode,
                        caller_uid,
                        caller_gid,
                        now,
                    );
                    &&& final(self).inodes@ == dir_created(t, new, now, checked)
                    &&& r == final(self).attr_result(t.insert_ino(new.full_path))
                    &&& old(self).path_appeared(*final(self), new.full_path)
                },
            },
    {
        let full_path = match self.free_path(parent, name) {
            Ok(p) => p,
            Err(e) => return Err(e),
        };
        let ino: u64 = self.inodes.insert_or_keep(
            parent,
            name.to_owned(),
            full_path.clone(),
            InodeKind::Directory,
            0,
            now,
            None,
            mode,
            caller_uid,
            caller_gid,
            now,
            checked,
        );
        if let Some(entry) = self.inodes.get_mut(ino) {
            entry.children_loaded = true;
        }
        self.inodes.touch_parent(parent, now);
        self.negative.remove(full_path.as_str());
        self.attr(ino)
    }

    /// Create a symlink in a directory whose children are known. Its size is that of its target.
    pub fn symlink(
        &mut self,
        parent: u64,
        name: &str,
        target: &str,
        mode: u16,
        caller_uid: u32,
        caller_gid: u32,
        now: Timestamp,
        checked: Instant,
    ) -> (r: VirtualFsResult<VirtualFsAttr>)
        ensures
            match name_check(old(self).inodes@, parent, name@) {
                Err(e) => r == Err::<VirtualFsAttr, Errno>(e) && *final(self) == *old(self),
                Ok(_) => {
                    let t = old(self).inodes@;
                    let new = new_child(
                        t,
                        parent,
                        name@,
                        InodeKind::Symlink,
                        target.spec_bytes().len() as usize as u64,
                        mode,
                        caller_uid,
                        caller_gid,
                        now,
                    );
                    &&& final(self).inodes@ == symlink_created(t, new, target@, now, checked)
                    &&& r == final(self).attr_result(t.insert_ino(new.full_path))
                    &&& old(self).path_appeared(*final(self), new.full_path)
                },
            },
    {
        let full_path = match self.free_path(parent, name) {
            Ok(p) => p,
            Err(e) => return Err(e),
        };
        let ino: u64 = self.inodes.insert_or_keep(
            parent,
            name.to_owned(),
            full_path.clone(),
            InodeKind::Symlink,
            target.len() as u64,
            now,
            None,
            mode,
            caller_uid,
            caller_gid,
            now,
            checked,
        );
        if let Some(entry) = self.inodes.get_mut(ino) {
            entry.symlink_target = Some(target.to_owned());
        }
        self.inodes.touch_parent(parent, now);
        self.negative.remove(full_path.as_str());
        self.attr(ino)
    }

    /// Check that `name` can be deleted from a directory whose children are known. Without staging
    /// files a file with open handles cannot: an editor could not write it again.
    pub fn unlink_check(&self, parent: u64, name: &str) -> (r: VirtualFsResult<UnlinkInfo>)
        ensures
            match unlink_plan(self.inodes@, self.config.advanced_writes, parent, name@) {
                Err(e) => r matches Err(err) && err == e,
                Ok((ino, path, stored)) => r matches Ok(info) && info.ino == ino
                    && info.full_path@ == path && info.needs_remote_delete == stored,
            },
    {
        let info = match self.inodes.lookup_child(parent, name) {
            Some(e) => if e.kind != InodeKind::Directory {
                UnlinkInfo {
                    ino: e.inode,
                    full_path: e.full_path.clone(),
                    needs_remote_delete: e.xet_hash.is_some() && e.nlink <= 1,
                }
            } else {
                return Err(Errno::EISDIR);
            },
            None => return Err(Errno::ENOENT),
        };
        if !self.config.advanced_writes && self.inodes.has_open_handles(info.ino) {
            return Err(Errno::EPERM);
        }
        Ok(info)
    }

    /// Delete `name`, found to be `ino`, from `parent`. Returns whether it was the last link, so
    /// that the staging file can go too.
    pub fn unlink(&mut self, parent: u64, name: &str, ino: u64, now: Timestamp) -> (r: bool)
        ensures
            r == last_link(old(self).inodes@, parent, name@, now),
            final(self).inodes@ == name_deleted(old(self).inodes@, parent, name@, ino, now),
            old(self).only_inodes(*final(self)),
    {
        let last = match self.inodes.unlink_one_at(parent, name, now) {
            Some((gone, _)) => gone,
            None => false,
        };
        self.inodes.touch_parent(parent, now);
        if last && !self.inodes.has_open_handles(ino) {
            let _ = self.inodes.remove_orphan(ino);
        }
        last
    }

    /// Find the directory to be deleted, in a directory whose children are known. It must have no
    /// children, as far as known.
    pub fn rmdir_check(&self, parent: u64, name: &str) -> (r: VirtualFsResult<u64>)
        ensures
            r == rmdir_plan(self.inodes@, parent, name@),
    {
        match self.inodes.lookup_child(parent, name) {
            Some(e) => if e.kind == InodeKind::Directory {
                if e.children.len() > 0 {
                    Err(Errno::ENOTEMPTY)
                } else {
                    Ok(e.inode)
                }
            } else {
                Err(Errno::ENOTDIR)
            },
            None => Err(Errno::ENOENT),
        }
    }

    /// Delete the directory `ino` from `parent`, once its children are known.
    pub fn rmdir(&mut self, parent: u64, ino: u64, now: Timestamp) -> (r: VirtualFsResult<()>)
        ensures
            r == rmdir_outcome(old(self).inodes@, ino),
            final(self).inodes@ == dir_deleted(old(self).inodes@, parent, ino, now),
            old(self).only_inodes(*final(self)),
    {
        match self.inodes.get(ino) {
            Some(e) => if e.children.len() > 0 {
                return Err(Errno::ENOTEMPTY);
            },
            None => return Err(Errno::ENOENT),
        }
        let _ = self.inodes.remove(ino);
        self.inodes.touch_parent(parent, now);
        Ok(())
    }
}

} // verus!
