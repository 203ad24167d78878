//! The in-memory filesystem.
//!
//! `VirtualFs` is the state of a mount. Operations that need the remote are made of steps: a step
//! decides from the state what has to be fetched or sent, and the next one takes the answer.
use crate::text::{starts_with, str_eq};
use crate::time::{Duration, Timestamp};
use crate::virtual_fs::handles::OpenFile;
use crate::virtual_fs::inode::{
    EntryModel, EvictionState, InodeEntry, InodeKind, InodeTable, ROOT_INODE,
};
use crate::virtual_fs::model::TableModel;
use crate::virtual_fs::negative_cache::NegativeCache;
use crate::virtual_fs::streaming::StreamingChannel;
use std::collections::HashMap;
use vstd::prelude::*;

pub mod bounds;
pub mod content;
pub mod entries;
pub mod freshness;
pub mod handles;
pub mod history;
pub mod inode;
pub mod laws;
pub mod listing;
pub mod listings;
pub mod lookup;
pub mod model;
pub mod moves;
pub mod namespace;
pub mod negative_cache;
pub mod poll;
pub mod relocation;
pub mod rename;
pub mod setattr;
pub mod streaming;
pub mod sweep;
pub mod tree;
pub mod upkeep;
pub mod walks;

verus! {

broadcast use vstd::std_specs::hash::group_hash_axioms;

/// What an operation is refused with.
#[derive(Debug, Clone, Copy, PartialEq, Eq, Structural)]
pub enum Errno {
    ENOENT,
    EIO,
    EBADF,
    EACCES,
    EPERM,
    EEXIST,
    ENOTDIR,
    EISDIR,
    EINVAL,
    EROFS,
    ENOTEMPTY,
    ENOTSUP,
}

pub type VirtualFsError = Errno;

pub type VirtualFsResult<T> = std::result::Result<T, VirtualFsError>;

/// Block size in which the space of a file is counted.
pub const BLOCK_SIZE: u64 = 512;

/// Configuration of a `VirtualFs`.
#[derive(Debug, Clone, Copy)]
pub struct VfsConfig {
    pub read_only: bool,
    pub advanced_writes: bool,
    pub uid: u32,
    pub gid: u32,
    pub poll_interval_secs: u64,
    pub metadata_ttl: Duration,
    pub serve_lookup_from_cache: bool,
    pub filter_os_files: bool,
    pub direct_io: bool,
    pub flush_debounce: Duration,
    pub flush_max_batch_window: Duration,
    /// 0 disables the eviction sweep.
    pub inode_soft_limit: usize,
    pub lru_sweep_interval: Duration,
}

/// The attributes of an inode.
#[derive(Debug, Clone, Copy, PartialEq, Eq, Structural)]
pub struct VirtualFsAttr {
    pub ino: u64,
    pub size: u64,
    pub blocks: u64,
    pub mtime: Timestamp,
    pub atime: Timestamp,
    pub ctime: Timestamp,
    pub kind: InodeKind,
    pub perm: u16,
    pub nlink: u32,
    pub uid: u32,
    pub gid: u32,
}

/// An entry of a directory listing.
#[derive(Debug)]
pub struct VirtualFsDirEntry {
    pub ino: u64,
    pub kind: InodeKind,
    pub name: String,
}

/// A file that an operating system leaves behind and that is not worth storing.
pub open spec fn junk(name: Seq<char>) -> bool {
    ||| name == ".DS_Store"@
    ||| name == ".Spotlight-V100"@
    ||| name == ".Trashes"@
    ||| name == ".fseventsd"@
    ||| name == "__MACOSX"@
    ||| name == "Thumbs.db"@
    ||| name == "desktop.ini"@
    ||| "._"@.is_prefix_of(name)
}

/// Returns true for files that an operating system leaves behind and that should not be synced to
/// remote storage.
pub fn is_os_junk(name: &str) -> (r: bool)
    ensures
        r == junk(name@),
{
    str_eq(name, ".DS_Store") || str_eq(name, ".Spotlight-V100") || str_eq(name, ".Trashes")
        || str_eq(name, ".fseventsd") || str_eq(name, "__MACOSX") || str_eq(name, "Thumbs.db")
        || str_eq(name, "desktop.ini") || starts_with(name, "._")
}

/// The attributes shown for an inode. A read-only mount shows no write permission, and a symlink
/// always has all permissions.
pub open spec fn attr_of(read_only: bool, e: EntryModel) -> VirtualFsAttr {
    VirtualFsAttr {
        ino: e.inode,
        size: e.size,
        blocks: ((e.size + BLOCK_SIZE - 1) / BLOCK_SIZE as int) as u64,
        mtime: e.mtime,
        atime: e.atime,
        ctime: e.ctime,
        kind: e.kind,
        perm: if e.kind == InodeKind::Symlink {
            0o777
        } else if !read_only {
            e.mode
        } else if e.kind == InodeKind::Directory {
            0o555
        } else {
            0o444
        },
        nlink: e.nlink,
        uid: e.uid,
        gid: e.gid,
    }
}

/// The state of a mount.
pub struct VirtualFs {
    pub config: VfsConfig,
    pub inodes: InodeTable,
    pub negative: NegativeCache,
    /// The open file handles.
    pub files: HashMap<u64, OpenFile>,
    /// The append-only writers, by file handle.
    pub channels: HashMap<u64, StreamingChannel>,
    pub next_file_handle: u64,
    /// The modification time of files and directories that have none of their own.
    pub default_mtime: Timestamp,
}

impl VirtualFs {
    /// Only the inode table differs.
    pub open spec fn only_inodes(self, after: VirtualFs) -> bool {
        &&& after.config == self.config
        &&& after.negative == self.negative
        &&& after.files == self.files
        &&& after.channels == self.channels
        &&& after.next_file_handle == self.next_file_handle
        &&& after.default_mtime == self.default_mtime
    }

    /// The state of a fresh mount: the root directory, owned by the configured user and as old as
    /// the source.
    pub fn new(config: VfsConfig, default_mtime: Timestamp) -> (r: Self)
        ensures
            r.config == config,
            r.default_mtime == default_mtime,
            r.next_file_handle == 1,
            r.files@ == Map::<u64, OpenFile>::empty(),
            r.channels@ == Map::<u64, StreamingChannel>::empty(),
            r.negative@.len() == 0,
            r.negative.wf(),
            r.inodes@ == TableModel::fresh(config.inode_soft_limit).updated(
                ROOT_INODE,
                |e: EntryModel|
                    EntryModel {
                        mtime: default_mtime,
                        atime: default_mtime,
                        uid: config.uid,
                        gid: config.gid,
                        ..e
                    },
            ),
    {
        let mut inodes = InodeTable::new(config.inode_soft_limit);
        if let Some(root) = inodes.get_mut(ROOT_INODE) {
            root.mtime = default_mtime;
            root.atime = default_mtime;
            root.uid = config.uid;
            root.gid = config.gid;
        }
        VirtualFs {
            config,
            inodes,
            negative: NegativeCache::new(),
            files: HashMap::new(),
            channels: HashMap::new(),
            next_file_handle: 1,
            default_mtime,
        }
    }

    /// Whether remote changes are looked for in the background.
    pub fn polls(&self) -> (r: bool)
        ensures
            r == (self.config.poll_interval_secs > 0),
    {
        self.config.poll_interval_secs > 0
    }

    /// Whether writes are flushed in the background.
    pub fn flushes_in_background(&self) -> (r: bool)
        ensures
            r == (!self.config.read_only && self.config.advanced_writes),
    {
        !self.config.read_only && self.config.advanced_writes
    }

    /// Whether inodes are evicted in the background.
    pub fn sweeps(&self) -> (r: bool)
        ensures
            r == (self.config.inode_soft_limit > 0),
    {
        self.config.inode_soft_limit > 0
    }

    /// The attributes shown for an inode.
    pub fn make_vfs_attr(&self, entry: &InodeEntry) -> (r: VirtualFsAttr)
        ensures
            r == attr_of(self.config.read_only, entry@),
    {
        let perm: u16 = match entry.kind {
            InodeKind::Symlink => 0o777,
            InodeKind::Directory => if self.config.read_only {
                0o555
            } else {
                entry.mode
            },
            InodeKind::File => if self.config.read_only {
                0o444
            } else {
                entry.mode
            },
        };
        let whole: u64 = entry.size / BLOCK_SIZE;
        let blocks: u64 = if entry.size % BLOCK_SIZE == 0 {
            whole
        } else {
            whole + 1
        };
        VirtualFsAttr {
            ino: entry.inode,
            size: entry.size,
            blocks,
            mtime: entry.mtime,
            atime: entry.atime,
            ctime: entry.ctime,
            kind: entry.kind,
            perm,
            nlink: entry.nlink,
            uid: entry.uid,
            gid: entry.gid,
        }
    }

    /// The attributes of `ino`, or `ENOENT`.
    pub open spec fn attr_result(self, ino: u64) -> VirtualFsResult<VirtualFsAttr> {
        if self.inodes@.inodes.contains_key(ino) {
            Ok(attr_of(self.config.read_only, self.inodes@.inodes[ino]))
        } else {
            Err(Errno::ENOENT)
        }
    }

    /// The attributes of `ino`, or `ENOENT`.
    pub fn attr(&self, ino: u64) -> (r: VirtualFsResult<VirtualFsAttr>)
        ensures
            r == self.attr_result(ino),
    {
        match self.inodes.get(ino) {
            Some(entry) => Ok(self.make_vfs_attr(entry)),
            None => Err(Errno::ENOENT),
        }
    }

    /// The attributes of `ino`, which counts as a use of it.
    pub fn getattr(&mut self, ino: u64) -> (r: VirtualFsResult<VirtualFsAttr>)
        ensures
            r == old(self).attr_result(ino),
            final(self).inodes@ == old(self).inodes@.touched(ino),
            old(self).only_inodes(*final(self)),
    {
        let r = self.attr(ino);
        self.inodes.touch(ino);
        r
    }

    /// Note that `ino` was handed to the kernel.
    pub fn bump_nlookup(&mut self, ino: u64)
        ensures
            final(self).inodes@ == old(self).inodes@.with_eviction(
                ino,
                |v: EvictionState| EvictionState { nlookup: v.nlookup.wrapping_add(1), ..v },
            ).touched(ino),
            old(self).only_inodes(*final(self)),
    {
        self.inodes.bump_nlookup(ino);
        self.inodes.touch(ino);
    }

    /// The kernel gives up `nlookup` references to `ino`. Once none is left the inode is evicted
    /// if nothing would be lost, or marked for the last handle to evict. Returns whether it was
    /// evicted, so that its staging file can go too.
    pub fn forget(&mut self, ino: u64, nlookup: u64) -> (r: bool)
        ensures
            r == forget_evicts(old(self).inodes@, ino, nlookup),
            final(self).inodes@ == forgotten(old(self).inodes@, ino, nlookup),
            old(self).only_inodes(*final(self)),
    {
        if !self.inodes.drop_nlookup(ino, nlookup) {
            return false;
        }
        if self.inodes.has_open_handles(ino) {
            self.inodes.mark_evict_pending(ino);
            return false;
        }
        self.inodes.evict_if_safe(ino)
    }

    /// A new file handle number.
    pub fn alloc_file_handle(&mut self) -> (r: u64)
        ensures
            r == old(self).next_file_handle,
            final(self).next_file_handle == r.wrapping_add(1),
            final(self).config == old(self).config,
            final(self).inodes == old(self).inodes,
            final(self).negative == old(self).negative,
            final(self).files == old(self).files,
            final(self).channels == old(self).channels,
            final(self).default_mtime == old(self).default_mtime,
    {
        let handle: u64 = self.next_file_handle;
        self.next_file_handle = handle.wrapping_add(1);
        handle
    }

    pub fn default_uid(&self) -> (r: u32)
        ensures
            r == self.config.uid,
    {
        self.config.uid
    }

    pub fn default_gid(&self) -> (r: u32)
        ensures
            r == self.config.gid,
    {
        self.config.gid
    }

    /// The target of a symlink.
    pub fn readlink(&self, ino: u64) -> (r: VirtualFsResult<String>)
        ensures
            r matches Ok(target) ==> self.inodes@.inodes.contains_key(ino)
                && self.inodes@.inodes[ino].kind == InodeKind::Symlink
                && self.inodes@.inodes[ino].symlink_target == Some(target@),
            r is Ok <==> self.inodes@.inodes.contains_key(ino) && self.inodes@.inodes[ino].kind
                == InodeKind::Symlink && self.inodes@.inodes[ino].symlink_target is Some,
            r is Err ==> r->Err_0 == if self.inodes@.inodes.contains_key(ino) {
                Errno::EINVAL
            } else {
                Errno::ENOENT
            },
    {
        match self.inodes.get(ino) {
            Some(entry) => match (&entry.symlink_target, entry.kind) {
                (Some(target), InodeKind::Symlink) => Ok(target.clone()),
                _ => Err(Errno::EINVAL),
            },
            None => Err(Errno::ENOENT),
        }
    }

    /// Hard links are not supported: they could not be stored remotely.
    pub fn link(&self, _ino: u64, _new_parent: u64, _new_name: &str) -> (r: VirtualFsResult<
        VirtualFsAttr,
    >)
        ensures
            r == Err::<VirtualFsAttr, Errno>(Errno::ENOTSUP),
    {
        Err(Errno::ENOTSUP)
    }
}

/// The table once `n` kernel references to `ino` are given up.
pub open spec fn references_dropped(t: TableModel, ino: u64, n: u64) -> TableModel {
    t.with_eviction(
        ino,
        |v: EvictionState| EvictionState { nlookup: inode::lowered(v.nlookup, n), ..v },
    )
}

/// Giving up `n` kernel references to `ino` evicts it.
pub open spec fn forget_evicts(t: TableModel, ino: u64, n: u64) -> bool {
    &&& t.inodes.contains_key(ino)
    &&& t.inodes[ino].eviction.nlookup <= n
    &&& t.inodes[ino].eviction.open_handles == 0
    &&& model::evictable(references_dropped(t, ino, n).inodes[ino])
}

/// The table after the kernel gives up `n` references to `ino`.
pub open spec fn forgotten(t: TableModel, ino: u64, n: u64) -> TableModel {
    let dropped = references_dropped(t, ino, n);
    if forget_evicts(t, ino, n) {
        dropped.evicted(ino)
    } else if t.inodes.contains_key(ino) && t.inodes[ino].eviction.nlookup <= n
        && t.inodes[ino].eviction.open_handles > 0 {
        dropped.with_eviction(
            ino,
            |v: EvictionState| EvictionState { evict_pending: true, ..v },
        )
    } else {
        dropped
    }
}

} // verus!
