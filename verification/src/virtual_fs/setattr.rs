//! Changing the attributes of an inode, its size included.
use crate::time::Timestamp;
use crate::virtual_fs::handles;
use crate::virtual_fs::inode;
use crate::virtual_fs::inode::{EntryModel, InodeKind};
use crate::virtual_fs::model::TableModel;
use crate::virtual_fs::{Errno, VirtualFs, VirtualFsAttr, VirtualFsResult};
use vstd::prelude::*;

verus! {

/// What a truncation is to find in the staging file.
#[derive(Debug)]
pub enum TruncateFill {
    /// The staging file can be cut or extended as it is.
    Keep,
    /// Download `size` bytes of content `xet_hash` first.
    Download { xet_hash: String, size: u64 },
    /// Create it empty first.
    Create,
}

/// What a `TruncateFill` holds.
pub enum FillModel {
    Keep,
    Download(Seq<char>, u64),
    Create,
}

/// What the staging file has to be filled with before `ino` is brought to `new_size` bytes.
pub open spec fn fill_for(
    t: TableModel,
    ino: u64,
    new_size: u64,
    staged: bool,
) -> VirtualFsResult<FillModel> {
    if new_size == 0 || staged {
        Ok(FillModel::Keep)
    } else if !t.inodes.contains_key(ino) {
        Err(Errno::ENOENT)
    } else {
        let e = t.inodes[ino];
        if handles::needs_download(handles::hash_or_empty(e), e.size, false) {
            Ok(FillModel::Download(handles::hash_or_empty(e), e.size))
        } else {
            Ok(FillModel::Create)
        }
    }
}

/// The table after the staging file of `ino` was brought to `size` bytes.
pub open spec fn truncated(t: TableModel, ino: u64, size: u64, now: Timestamp) -> TableModel {
    t.updated(
        ino,
        |e: EntryModel|
            EntryModel {
                size,
                mtime: now,
                ctime: now,
                dirty_generation: inode::next_generation(e.dirty_generation),
                xet_hash: if size == 0 {
                    None
                } else {
                    e.xet_hash
                },
                ..e
            },
    )
}

/// The size to which the staging file of `ino` has to be brought, if any.
pub open spec fn size_to_set(
    t: TableModel,
    ino: u64,
    size: Option<u64>,
    read_only: bool,
    advanced_writes: bool,
) -> VirtualFsResult<Option<u64>> {
    if read_only {
        Err(Errno::EROFS)
    } else if size is None {
        Ok(None)
    } else if !t.inodes.contains_key(ino) {
        Err(Errno::ENOENT)
    } else if t.inodes[ino].kind != InodeKind::File {
        Err(Errno::EISDIR)
    } else if advanced_writes {
        Ok(size)
    } else {
        Ok(None)
    }
}

/// The new value of an attribute, if it is given one.
pub open spec fn given<T>(new: Option<T>, current: T) -> T {
    match new {
        Some(v) => v,
        None => current,
    }
}

/// The table after attributes of `ino` were changed.
pub open spec fn attributes_set(
    t: TableModel,
    ino: u64,
    mode: Option<u16>,
    uid: Option<u32>,
    gid: Option<u32>,
    atime: Option<Timestamp>,
    mtime: Option<Timestamp>,
    now: Timestamp,
) -> TableModel {
    if mode is None && uid is None && gid is None && atime is None && mtime is None {
        t
    } else {
        t.updated(
            ino,
            |e: EntryModel|
                EntryModel {
                    mode: given(mode, e.mode),
                    uid: given(uid, e.uid),
                    gid: given(gid, e.gid),
                    atime: given(atime, e.atime),
                    mtime: given(mtime, e.mtime),
                    ctime: now,
                    ..e
                },
        )
    }
}

impl VirtualFs {
    /// Check a change of attributes. Returns the size to which the staging file has to be brought,
    /// if any: without staging files a change of size is ignored, as truncation is then left to
    /// opening the file.
    pub fn setattr_check(&self, ino: u64, size: Option<u64>) -> (r: VirtualFsResult<Option<u64>>)
        ensures
            r == size_to_set(
                self.inodes@,
                ino,
                size,
                self.config.read_only,
                self.config.advanced_writes,
            ),
    {
        if self.config.read_only {
            return Err(Errno::EROFS);
        }
        if size.is_none() {
            return Ok(None);
        }
        match self.inodes.get(ino) {
            None => Err(Errno::ENOENT),
            Some(e) => if e.kind != InodeKind::File {
                Err(Errno::EISDIR)
            } else if self.config.advanced_writes {
                Ok(size)
            } else {
                Ok(None)
            },
        }
    }

    /// What the staging file has to be filled with before `ino` is brought to `new_size` bytes;
    /// `staged` tells whether it exists.
    pub fn truncate_fill(&self, ino: u64, new_size: u64, staged: bool) -> (r: VirtualFsResult<
        TruncateFill,
    >)
        ensures
            match fill_for(self.inodes@, ino, new_size, staged) {
                Err(e) => r matches Err(err) && err == e,
                Ok(FillModel::Keep) => r matches Ok(TruncateFill::Keep),
                Ok(FillModel::Create) => r matches Ok(TruncateFill::Create),
                Ok(FillModel::Download(hash, n)) => r matches Ok(
                    TruncateFill::Download { xet_hash, size },
                ) && xet_hash@ == hash && size == n,
            },
    {
        if new_size == 0 || staged {
            return Ok(TruncateFill::Keep);
        }
        match self.inodes.get(ino) {
            None => Err(Errno::ENOENT),
            Some(e) => {
                if let Some(hash) = &e.xet_hash {
                    if !hash.as_str().is_empty() && e.size > 0 {
                        return Ok(TruncateFill::Download { xet_hash: hash.clone(), size: e.size });
                    }
                }
                Ok(TruncateFill::Create)
            },
        }
    }

    /// The staging file of `ino` was brought to `new_size` bytes. The change is to be flushed.
    pub fn truncated(&mut self, ino: u64, new_size: u64, now: Timestamp)
        ensures
            final(self).inodes@ == truncated(old(self).inodes@, ino, new_size, now),
            old(self).only_inodes(*final(self)),
    {
        if let Some(entry) = self.inodes.get_mut(ino) {
            entry.size = new_size;
            entry.mtime = now;
            entry.ctime = now;
            entry.set_dirty();
            if new_size == 0 {
                entry.xet_hash = None;
            }
        }
    }

    /// Change the attributes that are given, and show all of them.
    pub fn setattr(
        &mut self,
        ino: u64,
        mode: Option<u16>,
        uid: Option<u32>,
        gid: Option<u32>,
        atime: Option<Timestamp>,
        mtime: Option<Timestamp>,
        now: Timestamp,
    ) -> (r: VirtualFsResult<VirtualFsAttr>)
        ensures
            final(self).inodes@ == attributes_set(
                old(self).inodes@,
                ino,
                mode,
                uid,
                gid,
                atime,
                mtime,
                now,
            ),
            r == final(self).attr_result(ino),
            old(self).only_inodes(*final(self)),
    {
        if mode.is_some() || uid.is_some() || gid.is_some() || atime.is_some() || mtime.is_some() {
            if let Some(entry) = self.inodes.get_mut(ino) {
                if let Some(m) = mode {
                    entry.mode = m;
                }
                if let Some(u) = uid {
                    entry.uid = u;
                }
                if let Some(g) = gid {
                    entry.gid = g;
                }
                if let Some(a) = atime {
                    entry.atime = a;
                }
                if let Some(m) = mtime {
                    entry.mtime = m;
                }
                entry.ctime = now;
            }
        }
        self.attr(ino)
    }
}

} // verus!
