//! What a FUSE server decides between the kernel and the filesystem.
use crate::virtual_fs::handles;
use crate::virtual_fs::inode::{EvictionState, InodeKind};
use crate::virtual_fs::{Errno, VirtualFs, VirtualFsResult};
use vstd::prelude::*;

verus! {

/// How the kernel caches the pages of an open file.
#[derive(Debug, Clone, Copy, PartialEq, Eq, Structural)]
pub enum PageCache {
    /// As it does by itself.
    Default,
    /// Not at all.
    Bypass,
    /// Beyond closing the file; it drops them when the attributes change.
    Keep,
}

/// How the kernel caches the pages of an open file.
pub open spec fn caching(
    direct_io: bool,
    advanced_writes: bool,
    read_and_write: bool,
) -> PageCache {
    if read_and_write && !advanced_writes {
        PageCache::Default
    } else if direct_io {
        PageCache::Bypass
    } else {
        PageCache::Keep
    }
}

/// Pages are never kept with direct I/O, and always without it, except for a stream that is open
/// for reading too: that is left to the kernel.
pub proof fn law_direct_io_keeps_no_pages(
    direct_io: bool,
    advanced_writes: bool,
    read_and_write: bool,
)
    ensures
        ({
            let r = caching(direct_io, advanced_writes, read_and_write);
            let stream = read_and_write && !advanced_writes;
            &&& r == PageCache::Default <==> stream
            &&& r == PageCache::Bypass <==> direct_io && !stream
            &&& r == PageCache::Keep <==> !direct_io && !stream
        }),
{
}

/// How the kernel caches the pages of an open file. A stream cannot be read from, so a handle that
/// is for both must not ask for every read to be passed on.
pub fn page_cache(direct_io: bool, advanced_writes: bool, read_and_write: bool) -> (r: PageCache)
    ensures
        r == caching(direct_io, advanced_writes, read_and_write),
{
    if read_and_write && !advanced_writes {
        PageCache::Default
    } else if direct_io {
        PageCache::Bypass
    } else {
        PageCache::Keep
    }
}

/// The permission bits of a mode.
pub fn permission_bits(mode: u32) -> (r: u16)
    ensures
        r == mode & 0o7777,
{
    assert(mode & 0o7777 <= 0o7777) by (bit_vector);
    (mode & 0o7777) as u16
}

/// The permission bits of a new file or directory.
pub open spec fn masked(mode: u32, umask: u32) -> u32 {
    mode & !umask & 0o7777
}

/// The permission bits of a new file or directory.
pub fn effective_mode(mode: u32, umask: u32) -> (r: u16)
    ensures
        r == masked(mode, umask),
{
    assert(mode & !umask & 0o7777 <= 0o7777) by (bit_vector);
    (mode & !umask & 0o7777) as u16
}

/// A bit that the umask holds is never set in a new file or directory.
pub proof fn law_umask_is_honoured(mode: u32, umask: u32)
    ensures
        (mode & !umask & 0o7777) & umask == 0,
        masked(mode, umask) & umask == 0,
{
    assert((mode & !umask & 0o7777) & umask == 0) by (bit_vector);
}

/// A new file or directory has the permission bits that were asked for, without those that the umask
/// holds, and no others.
pub proof fn law_modes_are_as_asked(mode: u32, umask: u32, bit: u32)
    requires
        bit < 12,
    ensures
        masked(mode, umask) & (1u32 << bit) != 0 <==> mode & (1u32 << bit) != 0 && umask & (1u32
            << bit) == 0,
        masked(mode, umask) < 0o10000,
{
    assert((mode & !umask & 0o7777) & (1u32 << bit) != 0 <==> mode & (1u32 << bit) != 0 && umask & (
    1u32 << bit) == 0) by (bit_vector)
        requires
            bit < 12,
    ;
    assert(mode & !umask & 0o7777 < 0o10000) by (bit_vector);
}

/// What the kernel must be able to do.
#[derive(Debug, Clone, Copy, PartialEq, Eq, Structural)]
pub enum MissingCapability {
    /// Drop pages when attributes change.
    AutoInvalidate,
    /// Truncate a file as it is opened.
    AtomicTruncate,
}

/// Whether the kernel can do what the mount needs.
pub open spec fn kernel_check(
    auto_invalidate: bool,
    atomic_truncate: bool,
    read_only: bool,
    advanced_writes: bool,
) -> std::result::Result<(), MissingCapability> {
    if !auto_invalidate {
        Err(MissingCapability::AutoInvalidate)
    } else if !read_only && !advanced_writes && !atomic_truncate {
        Err(MissingCapability::AtomicTruncate)
    } else {
        Ok(())
    }
}

/// Every mount needs a kernel that drops stale pages. Only a mount that writes streams needs one that
/// truncates files as it opens them.
pub proof fn law_what_a_kernel_must_do(
    auto_invalidate: bool,
    atomic_truncate: bool,
    read_only: bool,
    advanced_writes: bool,
)
    ensures
        ({
            let r = kernel_check(auto_invalidate, atomic_truncate, read_only, advanced_writes);
            let streams = !read_only && !advanced_writes;
            &&& r is Ok <==> auto_invalidate && (atomic_truncate || !streams)
            &&& !auto_invalidate ==> r == Err::<(), MissingCapability>(
                MissingCapability::AutoInvalidate,
            )
            &&& auto_invalidate && streams && !atomic_truncate ==> r == Err::<
                (),
                MissingCapability,
            >(MissingCapability::AtomicTruncate)
        }),
{
}

/// Whether the kernel can do what the mount needs. Without staging files, a file can only be
/// truncated as it is opened.
pub fn check_kernel(
    auto_invalidate: bool,
    atomic_truncate: bool,
    read_only: bool,
    advanced_writes: bool,
) -> (r: std::result::Result<(), MissingCapability>)
    ensures
        r == kernel_check(auto_invalidate, atomic_truncate, read_only, advanced_writes),
{
    if !auto_invalidate {
        Err(MissingCapability::AutoInvalidate)
    } else if !read_only && !advanced_writes && !atomic_truncate {
        Err(MissingCapability::AtomicTruncate)
    } else {
        Ok(())
    }
}

/// What came of asking the kernel to forget a name.
#[derive(Debug, Clone, Copy, PartialEq, Eq, Structural)]
pub enum Invalidation {
    Done,
    /// It did not know the name.
    Unknown,
    /// It cannot keep up with such requests.
    Saturated,
    Failed,
}

/// Whether to go on asking the kernel to forget names.
pub fn goes_on(outcome: Invalidation) -> (r: bool)
    ensures
        r == (outcome != Invalidation::Saturated),
{
    outcome != Invalidation::Saturated
}

/// How many threads read requests: one for each descriptor handed over, or as many as allowed.
pub fn reader_threads(descriptors: usize, max_threads: usize) -> (r: usize)
    ensures
        r == if descriptors == 0 {
            max_threads
        } else {
            descriptors
        },
{
    if descriptors == 0 {
        max_threads
    } else {
        descriptors
    }
}

/// The block size shown for the filesystem.
pub const STATFS_BLOCK_SIZE: u32 = 512;

/// The number of blocks shown for the filesystem, 42 pebibytes in all.
pub const STATFS_BLOCKS: u64 = 92_358_976_733_184;

impl VirtualFs {
    /// Open a directory. It is kept from being evicted until it is released.
    pub fn opendir(&mut self, ino: u64) -> (r: VirtualFsResult<u64>)
        ensures
            !old(self).inodes@.inodes.contains_key(ino) ==> r == Err::<u64, Errno>(Errno::ENOENT),
            old(self).inodes@.inodes.contains_key(ino) && old(self).inodes@.inodes[ino].kind
                != InodeKind::Directory ==> r == Err::<u64, Errno>(Errno::ENOTDIR),
            old(self).inodes@.inodes.contains_key(ino) && old(self).inodes@.inodes[ino].kind
                == InodeKind::Directory ==> r == Ok::<u64, Errno>(old(self).next_file_handle),
            final(self).inodes@ == if r is Ok {
                handles::handle_opened(old(self).inodes@.touched(ino), ino)
            } else {
                old(self).inodes@.touched(ino)
            },
            final(self).next_file_handle == if r is Ok {
                old(self).next_file_handle.wrapping_add(1)
            } else {
                old(self).next_file_handle
            },
            final(self).config == old(self).config,
            final(self).negative == old(self).negative,
            final(self).files == old(self).files,
            final(self).channels == old(self).channels,
            final(self).default_mtime == old(self).default_mtime,
    {
        let attr = match self.getattr(ino) {
            Ok(a) => a,
            Err(e) => return Err(e),
        };
        if attr.kind != InodeKind::Directory {
            return Err(Errno::ENOTDIR);
        }
        self.inodes.bump_open_handles(ino);
        Ok(self.alloc_file_handle())
    }

    /// Release a directory.
    pub fn releasedir(&mut self, ino: u64)
        ensures
            final(self).inodes@ == old(self).inodes@.with_eviction(
                ino,
                |v: EvictionState|
                    EvictionState { open_handles: v.open_handles.wrapping_sub(1), ..v },
            ),
            old(self).only_inodes(*final(self)),
    {
        self.inodes.drop_open_handles(ino);
    }
}

} // verus!
