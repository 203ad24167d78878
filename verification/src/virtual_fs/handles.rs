//! Opening, reading and closing files.
use crate::text;
use crate::text::{concat, hex_text, str_eq};
use crate::time::{Duration, Timestamp};
use crate::virtual_fs::inode;
use crate::virtual_fs::inode::{EntryModel, EvictionState, InodeKind};
use crate::virtual_fs::model::TableModel;
use crate::virtual_fs::streaming::StreamingChannel;
use crate::virtual_fs::{Errno, VirtualFs, VirtualFsResult};
use std::collections::hash_map::DefaultHasher;
use std::hash::Hasher;
use vstd::prelude::*;
use vstd::std_specs::hash::DefaultHasherAdditionalSpecFns;
use vstd::string::*;

verus! {

broadcast use {
    vstd::std_specs::hash::group_hash_axioms,
    vstd::string::group_string_axioms,
};

/// An open file handle.
pub enum OpenFile {
    /// A local file: the staging file of a write, or a download.
    Local { ino: u64, writable: bool },
    /// Remote content, fetched on demand.
    Lazy { ino: u64, xet_hash: String, size: u64 },
    /// An append-only writer.
    Streaming { ino: u64 },
}

impl OpenFile {
    /// The inode of a handle.
    pub open spec fn inode(self) -> u64 {
        match self {
            OpenFile::Local { ino, .. } => ino,
            OpenFile::Lazy { ino, .. } => ino,
            OpenFile::Streaming { ino } => ino,
        }
    }

    /// The inode of a handle.
    pub fn ino(&self) -> (r: u64)
        ensures
            r == self.inode(),
    {
        match self {
            OpenFile::Local { ino, .. } => *ino,
            OpenFile::Lazy { ino, .. } => *ino,
            OpenFile::Streaming { ino } => *ino,
        }
    }
}

/// What opening a file needs to know of it.
#[derive(Debug)]
pub struct FileEntry {
    /// Empty if the file has none.
    pub xet_hash: String,
    pub size: u64,
    pub is_dirty: bool,
    pub full_path: String,
}

impl FileEntry {
    /// This describes the inode.
    pub open spec fn describes(self, e: EntryModel) -> bool {
        &&& self.xet_hash@ == hash_or_empty(e)
        &&& self.size == e.size
        &&& self.is_dirty == e.dirty()
        &&& self.full_path@ == e.full_path
    }
}

/// The xet hash of an inode, empty if it has none.
pub open spec fn hash_or_empty(e: EntryModel) -> Seq<char> {
    match e.xet_hash {
        Some(h) => h,
        None => Seq::empty(),
    }
}

/// There is a file at this inode.
pub open spec fn is_file(t: TableModel, ino: u64) -> bool {
    t.inodes.contains_key(ino) && t.inodes[ino].kind == InodeKind::File
}

/// How a file is to be opened.
#[derive(Debug)]
pub enum OpenPlan {
    /// Through a staging file, for random writes.
    AdvancedWrite(FileEntry),
    /// As an append-only stream that replaces the content.
    StreamingWrite,
    /// For reading.
    ReadOnly(FileEntry),
}

/// Where the content of a file is read from.
#[derive(Debug, Clone, Copy, PartialEq, Eq, Structural)]
pub enum ReadPlan {
    /// The staging file, which holds local changes.
    Staging,
    /// Nowhere: there are local changes, and no staging file.
    Lost,
    /// The remote, once the write in progress is committed.
    AwaitCommit,
    /// Storage, by hash.
    Remote,
    /// A download of the whole file.
    Download,
    /// The file is empty.
    Empty,
}

/// Where the content of a file is read from, given whether there is a staging directory and a
/// staging file in it.
pub open spec fn read_plan(fe: FileEntry, staging: bool, exists: bool) -> ReadPlan {
    if fe.is_dirty && staging {
        if exists {
            ReadPlan::Staging
        } else {
            ReadPlan::Lost
        }
    } else if fe.is_dirty && fe.xet_hash@.len() == 0 && fe.size > 0 {
        ReadPlan::AwaitCommit
    } else if fe.xet_hash@.len() > 0 {
        ReadPlan::Remote
    } else if fe.size > 0 {
        ReadPlan::Download
    } else {
        ReadPlan::Empty
    }
}

/// How a staging file gets the content that a write starts from.
#[derive(Debug, Clone, Copy, PartialEq, Eq, Structural)]
pub enum StagingFill {
    /// Download it.
    Download,
    /// Start with an empty file.
    Create,
}

/// The content of a file has to be downloaded before it is written to.
pub open spec fn needs_download(hash: Seq<char>, size: u64, truncate: bool) -> bool {
    !truncate && hash.len() > 0 && size > 0
}

/// Why a file is not opened, if it is not.
pub open spec fn open_refusal(
    t: TableModel,
    ino: u64,
    writable: bool,
    truncate: bool,
    read_only: bool,
    advanced_writes: bool,
) -> Option<Errno> {
    if writable && read_only {
        Some(Errno::EROFS)
    } else if !is_file(t, ino) {
        Some(Errno::ENOENT)
    } else if writable && !advanced_writes && !truncate {
        Some(Errno::EPERM)
    } else {
        None
    }
}

/// An fsync puts the inode that `fh` refers to on the list of those to flush in the background.
pub open spec fn sync_flushes(
    files: Map<u64, OpenFile>,
    fh: u64,
    read_only: bool,
    advanced_writes: bool,
) -> bool {
    !(files.contains_key(fh) && match files[fh] {
        OpenFile::Local { writable, .. } => !writable,
        OpenFile::Lazy { .. } | OpenFile::Streaming { .. } => true,
    }) && !read_only && advanced_writes
}

/// Whether a staging file that `exists` is the content to start a write from.
pub open spec fn staging_reuse(
    t: TableModel,
    ino: u64,
    truncate: bool,
    exists: bool,
) -> VirtualFsResult<bool> {
    if t.inodes.contains_key(ino) {
        Ok(!truncate && (t.inodes[ino].dirty() || t.inodes[ino].staging_is_current) && exists)
    } else {
        Err(Errno::ENOENT)
    }
}

/// The table once the staging file of `ino` no longer counts as a copy of the remote.
pub open spec fn staging_dropped(t: TableModel, ino: u64) -> TableModel {
    t.updated(ino, |e: EntryModel| EntryModel { staging_is_current: false, ..e })
}

/// The table once the staging file of `ino` was filled for content `hash` of `size` bytes.
pub open spec fn staging_copied(
    t: TableModel,
    ino: u64,
    hash: Seq<char>,
    size: u64,
    truncate: bool,
) -> TableModel {
    if needs_download(hash, size, truncate) || (hash.len() == 0 && size == 0) {
        t.updated(
            ino,
            |e: EntryModel|
                EntryModel {
                    staging_is_current: if hash_or_empty(e) == hash {
                        true
                    } else {
                        e.staging_is_current
                    },
                    ..e
                },
        )
    } else {
        t
    }
}

/// The table with one more handle on `ino`.
pub open spec fn handle_opened(t: TableModel, ino: u64) -> TableModel {
    t.with_eviction(
        ino,
        |v: EvictionState| EvictionState { open_handles: v.open_handles.wrapping_add(1), ..v },
    )
}

/// The table after `ino` is opened for writing through a staging file.
pub open spec fn write_opened(t: TableModel, ino: u64, truncate: bool, now: Timestamp) -> TableModel {
    handle_opened(
        t.updated(
            ino,
            |e: EntryModel|
                {
                    let d = EntryModel {
                        dirty_generation: inode::next_generation(e.dirty_generation),
                        ..e
                    };
                    if truncate {
                        EntryModel { size: 0, mtime: now, ctime: now, ..d }
                    } else {
                        d
                    }
                },
        ),
        ino,
    )
}

/// The name under which a download is kept: made of a hash of the source and the path.
pub fn http_cache_name(source: &str, full_path: &str) -> (r: String)
    ensures
        r@ == "http_"@ + text::hex(
            DefaultHasher::spec_finish(
                seq![source.spec_bytes(), seq![0xffu8], full_path.spec_bytes(), seq![0xffu8]],
            ) as nat,
        ),
{
    let end: [u8; 1] = [0xff];
    let mut h = DefaultHasher::new();
    h.write(source.as_bytes());
    h.write(&end);
    h.write(full_path.as_bytes());
    h.write(&end);
    proof {
        assert(end@ =~= seq![0xffu8]);
        assert(h@ =~= seq![source.spec_bytes(), seq![0xffu8], full_path.spec_bytes(), seq![0xffu8]]);
    }
    concat("http_", hex_text(h.finish()).as_str())
}

impl FileEntry {
    /// Where the content of the file is read from, given whether there is a staging directory and
    /// a staging file in it.
    pub fn read_from(&self, staging: bool, exists: bool) -> (r: ReadPlan)
        ensures
            r == read_plan(*self, staging, exists),
    {
        if self.is_dirty && staging {
            if exists {
                ReadPlan::Staging
            } else {
                ReadPlan::Lost
            }
        } else if self.is_dirty && self.xet_hash.as_str().is_empty() && self.size > 0 {
            ReadPlan::AwaitCommit
        } else if !self.xet_hash.as_str().is_empty() {
            ReadPlan::Remote
        } else if self.size > 0 {
            ReadPlan::Download
        } else {
            ReadPlan::Empty
        }
    }
}

impl VirtualFs {
    /// `after` has one more handle, `file` under the number `fh`, and otherwise differs in the
    /// inode table only.
    pub open spec fn handle_added(self, after: VirtualFs, fh: u64, file: OpenFile) -> bool {
        &&& fh == self.next_file_handle
        &&& after.next_file_handle == fh.wrapping_add(1)
        &&& after.files@ == self.files@.insert(fh, file)
        &&& after.config == self.config
        &&& after.negative == self.negative
        &&& after.channels@ == self.channels@
        &&& after.default_mtime == self.default_mtime
    }

    /// What opening a file needs to know of it, or `ENOENT` if it is not a file.
    pub fn get_file_entry(&self, ino: u64) -> (r: VirtualFsResult<FileEntry>)
        ensures
            r is Ok <==> is_file(self.inodes@, ino),
            r matches Ok(fe) ==> fe.describes(self.inodes@.inodes[ino]),
            r matches Err(e) ==> e == Errno::ENOENT,
    {
        match self.inodes.get(ino) {
            Some(e) => if e.kind == InodeKind::File {
                let xet_hash = match &e.xet_hash {
                    Some(h) => h.clone(),
                    None => String::new(),
                };
                Ok(
                    FileEntry {
                        xet_hash,
                        size: e.size,
                        is_dirty: e.is_dirty(),
                        full_path: e.full_path.clone(),
                    },
                )
            } else {
                Err(Errno::ENOENT)
            },
            None => Err(Errno::ENOENT),
        }
    }

    /// Decide how to open a file. Without staging files content can only be replaced as a whole.
    pub fn open(&self, ino: u64, writable: bool, truncate: bool) -> (r: VirtualFsResult<OpenPlan>)
        ensures
            r is Err <==> open_refusal(
                self.inodes@,
                ino,
                writable,
                truncate,
                self.config.read_only,
                self.config.advanced_writes,
            ) is Some,
            r matches Err(e) ==> open_refusal(
                self.inodes@,
                ino,
                writable,
                truncate,
                self.config.read_only,
                self.config.advanced_writes,
            ) == Some(e),
            r matches Ok(plan) ==> match plan {
                OpenPlan::AdvancedWrite(fe) => writable && self.config.advanced_writes
                    && fe.describes(self.inodes@.inodes[ino]),
                OpenPlan::StreamingWrite => writable && !self.config.advanced_writes && truncate,
                OpenPlan::ReadOnly(fe) => !writable && fe.describes(self.inodes@.inodes[ino]),
            },
    {
        if writable && self.config.read_only {
            return Err(Errno::EROFS);
        }
        let file_entry = match self.get_file_entry(ino) {
            Ok(fe) => fe,
            Err(e) => return Err(e),
        };
        if writable && self.config.advanced_writes {
            Ok(OpenPlan::AdvancedWrite(file_entry))
        } else if writable && truncate {
            Ok(OpenPlan::StreamingWrite)
        } else if writable {
            Err(Errno::EPERM)
        } else {
            Ok(OpenPlan::ReadOnly(file_entry))
        }
    }

    /// Whether a staging file that `exists` is the content to start a write from: it holds local
    /// changes, or is known to match the remote.
    pub fn staging_reusable(&self, ino: u64, truncate: bool, exists: bool) -> (r: VirtualFsResult<
        bool,
    >)
        ensures
            r == staging_reuse(self.inodes@, ino, truncate, exists),
    {
        match self.inodes.get(ino) {
            Some(e) => Ok(!truncate && (e.is_dirty() || e.staging_is_current) && exists),
            None => Err(Errno::ENOENT),
        }
    }

    /// Before a staging file is filled anew: it no longer counts as a copy of the remote, so that
    /// a failure on the way leaves nothing to be reused. Returns how to fill it.
    pub fn prepare_staging(&mut self, ino: u64, xet_hash: &str, size: u64, truncate: bool) -> (r:
        StagingFill)
        ensures
            r == if needs_download(xet_hash@, size, truncate) {
                StagingFill::Download
            } else {
                StagingFill::Create
            },
            final(self).inodes@ == staging_dropped(old(self).inodes@, ino),
            old(self).only_inodes(*final(self)),
    {
        if let Some(entry) = self.inodes.get_mut(ino) {
            entry.staging_is_current = false;
        }
        if !truncate && !xet_hash.is_empty() && size > 0 {
            StagingFill::Download
        } else {
            StagingFill::Create
        }
    }

    /// After a staging file is filled for content `xet_hash` of `size` bytes: it is a copy of the
    /// remote if it was downloaded or the remote is empty, and the remote has not moved on since.
    pub fn staging_filled(&mut self, ino: u64, xet_hash: &str, size: u64, truncate: bool)
        ensures
            final(self).inodes@ == staging_copied(
                old(self).inodes@,
                ino,
                xet_hash@,
                size,
                truncate,
            ),
            old(self).only_inodes(*final(self)),
    {
        let downloaded = !truncate && !xet_hash.is_empty() && size > 0;
        if downloaded || (xet_hash.is_empty() && size == 0) {
            if let Some(entry) = self.inodes.get_mut(ino) {
                let same = match &entry.xet_hash {
                    Some(h) => str_eq(h.as_str(), xet_hash),
                    None => {
                        assert(xet_hash@.len() == 0 ==> xet_hash@ =~= Seq::empty());
                        xet_hash.is_empty()
                    },
                };
                if same {
                    entry.staging_is_current = true;
                }
            }
        }
    }

    /// A new handle on `ino`.
    fn add_handle(&mut self, ino: u64, file: OpenFile) -> (r: u64)
        ensures
            old(self).handle_added(*final(self), r, file),
            final(self).inodes@ == handle_opened(old(self).inodes@, ino),
    {
        let handle: u64 = self.alloc_file_handle();
        self.inodes.bump_open_handles(ino);
        let _ = self.files.insert(handle, file);
        handle
    }

    /// Open `ino` for writing through its staging file, which marks it as dirty.
    pub fn open_advanced_write(&mut self, ino: u64, truncate: bool, now: Timestamp) -> (r:
        VirtualFsResult<u64>)
        ensures
            r is Ok <==> old(self).inodes@.inodes.contains_key(ino),
            r matches Err(e) ==> e == Errno::ENOENT && *final(self) == *old(self),
            r matches Ok(fh) ==> old(self).handle_added(
                *final(self),
                fh,
                OpenFile::Local { ino, writable: true },
            ) && final(self).inodes@ == write_opened(old(self).inodes@, ino, truncate, now),
    {
        if self.inodes.get(ino).is_none() {
            return Err(Errno::ENOENT);
        }
        if let Some(entry) = self.inodes.get_mut(ino) {
            entry.set_dirty();
            if truncate {
                entry.size = 0;
                entry.mtime = now;
                entry.ctime = now;
            }
        }
        Ok(self.add_handle(ino, OpenFile::Local { ino, writable: true }))
    }

    /// A handle for reading a local file.
    pub fn open_local_readonly(&mut self, ino: u64) -> (r: u64)
        ensures
            old(self).handle_added(*final(self), r, OpenFile::Local { ino, writable: false }),
            final(self).inodes@ == handle_opened(old(self).inodes@, ino),
    {
        self.add_handle(ino, OpenFile::Local { ino, writable: false })
    }

    /// A handle for reading remote content on demand.
    pub fn open_lazy(&mut self, ino: u64, xet_hash: String, size: u64) -> (r: u64)
        ensures
            old(self).handle_added(*final(self), r, OpenFile::Lazy { ino, xet_hash, size }),
            final(self).inodes@ == handle_opened(old(self).inodes@, ino),
    {
        self.add_handle(ino, OpenFile::Lazy { ino, xet_hash, size })
    }

    /// A handle for appending to `ino` through `channel`.
    pub fn open_streaming(&mut self, ino: u64, channel: StreamingChannel) -> (r: u64)
        ensures
            r == old(self).next_file_handle,
            final(self).next_file_handle == r.wrapping_add(1),
            final(self).files@ == old(self).files@.insert(r, OpenFile::Streaming { ino }),
            final(self).channels@ == old(self).channels@.insert(r, channel),
            final(self).config == old(self).config,
            final(self).negative == old(self).negative,
            final(self).default_mtime == old(self).default_mtime,
            final(self).inodes@ == handle_opened(old(self).inodes@, ino),
    {
        let handle: u64 = self.add_handle(ino, OpenFile::Streaming { ino });
        let _ = self.channels.insert(handle, channel);
        handle
    }

    /// Where a read through a handle gets its bytes. A handle that is unknown or only for writing is
    /// refused.
    pub fn read(&self, fh: u64, offset: u64, size: u32) -> (r: VirtualFsResult<ReadTarget>)
        ensures
            !self.files@.contains_key(fh) ==> (r matches Err(e) && e == Errno::EBADF),
            self.files@.contains_key(fh) ==> match self.files@[fh] {
                OpenFile::Streaming { .. } => r matches Err(e) && e == Errno::EBADF,
                OpenFile::Local { .. } => r matches Ok(t) && t is Local,
                OpenFile::Lazy { size: file_size, .. } => if offset >= file_size {
                    r matches Ok(t) && t is End
                } else {
                    r matches Ok(ReadTarget::Remote(a)) && a.wf() && a.start() == offset
                        && a.total() == file_size && a.got().len() == 0 && a.wanted()
                        == read_len(offset, size, file_size)
                },
            },
    {
        match self.files.get(&fh) {
            Some(OpenFile::Local { .. }) => Ok(ReadTarget::Local),
            Some(OpenFile::Lazy { size: file_size, .. }) => match ReadAssembly::new(
                offset,
                size,
                *file_size,
            ) {
                Some(a) => Ok(ReadTarget::Remote(a)),
                None => Ok(ReadTarget::End),
            },
            _ => Err(Errno::EBADF),
        }
    }

    /// Whether a dirty inode is put on the list of those to flush in the background.
    pub fn schedule_flush(&self) -> (r: bool)
        ensures
            r == (!self.config.read_only && self.config.advanced_writes),
    {
        self.flushes_in_background()
    }

    /// Whether an fsync puts the inode that `fh` refers to on the list of those to flush in the
    /// background. A stream is committed on close instead, and what is only read has nothing to
    /// flush.
    pub fn fsync(&self, fh: u64) -> (r: bool)
        ensures
            r == sync_flushes(
                self.files@,
                fh,
                self.config.read_only,
                self.config.advanced_writes,
            ),
    {
        match self.files.get(&fh) {
            Some(OpenFile::Streaming { .. }) | Some(OpenFile::Lazy { .. }) => false,
            Some(OpenFile::Local { writable, .. }) => *writable && self.schedule_flush(),
            None => self.schedule_flush(),
        }
    }
}

/// Where a read gets its bytes.
pub enum ReadTarget {
    /// From a local file.
    Local,
    /// There are none: the read is past the end of the file.
    End,
    /// From the remote.
    Remote(ReadAssembly),
}

/// How many bytes a read of `size` bytes at `offset` is for.
pub open spec fn read_len(offset: u64, size: u32, file_size: u64) -> int {
    if size <= file_size - offset {
        size as int
    } else {
        file_size - offset
    }
}

/// Whether a read of a local file that gave `n` of `size` bytes reached its end.
pub fn local_read_ended(n: u32, size: u32) -> (r: bool)
    ensures
        r == (n < size),
{
    n < size
}

/// A read of remote content that is put together from what comes in.
pub struct ReadAssembly {
    offset: u64,
    to_read: usize,
    file_size: u64,
    data: Vec<u8>,
}

impl ReadAssembly {
    /// Where the read begins.
    pub closed spec fn start(&self) -> u64 {
        self.offset
    }

    /// How many bytes the read is for.
    pub closed spec fn wanted(&self) -> nat {
        self.to_read as nat
    }

    /// The size of the file.
    pub closed spec fn total(&self) -> u64 {
        self.file_size
    }

    /// What has come in.
    pub closed spec fn got(&self) -> Seq<u8> {
        self.data@
    }

    /// The read stays within the file, and no more has come in than it is for.
    pub open spec fn wf(&self) -> bool {
        self.got().len() <= self.wanted() && self.start() + self.wanted() <= self.total()
            && self.wanted() <= u32::MAX
    }

    /// A read of up to `size` bytes at `offset`. `None` past the end of the file.
    pub fn new(offset: u64, size: u32, file_size: u64) -> (r: Option<ReadAssembly>)
        ensures
            r is None <==> offset >= file_size,
            r matches Some(a) ==> {
                &&& a.wf()
                &&& a.start() == offset
                &&& a.total() == file_size
                &&& a.got().len() == 0
                &&& a.wanted() == read_len(offset, size, file_size)
            },
    {
        if offset >= file_size {
            return None;
        }
        let left: u64 = file_size - offset;
        let to_read: usize = if size as u64 <= left {
            size as usize
        } else {
            left as usize
        };
        Some(ReadAssembly { offset, to_read, file_size, data: Vec::new() })
    }

    /// Whether everything has come in.
    pub fn is_complete(&self) -> (r: bool)
        requires
            self.wf(),
        ensures
            r == (self.got().len() == self.wanted()),
    {
        self.data.len() == self.to_read
    }

    /// Where the next byte is needed from.
    pub fn cursor(&self) -> (r: u64)
        requires
            self.wf(),
        ensures
            r == self.start() + self.got().len(),
    {
        self.offset + self.data.len() as u64
    }

    /// How many bytes are still missing.
    pub fn remaining(&self) -> (r: u32)
        requires
            self.wf(),
        ensures
            r == self.wanted() - self.got().len(),
    {
        (self.to_read - self.data.len()) as u32
    }

    /// Add what came in at the cursor.
    pub fn push(&mut self, bytes: &[u8])
        requires
            old(self).wf(),
            bytes@.len() <= old(self).wanted() - old(self).got().len(),
        ensures
            final(self).wf(),
            final(self).start() == old(self).start(),
            final(self).wanted() == old(self).wanted(),
            final(self).total() == old(self).total(),
            final(self).got() == old(self).got() + bytes@,
    {
        let ghost before = self.data@;
        let mut i: usize = 0;
        assert(before + bytes@.take(0) =~= before);
        while i < bytes.len()
            invariant
                i <= bytes.len(),
                self.data@ == before + bytes@.take(i as int),
                self.offset == old(self).offset,
                self.to_read == old(self).to_read,
                self.file_size == old(self).file_size,
            decreases bytes.len() - i,
        {
            self.data.push(bytes[i]);
            assert(before + bytes@.take(i + 1) =~= (before + bytes@.take(i as int)).push(
                bytes@[i as int],
            ));
            i += 1;
        }
        assert(bytes@.take(i as int) =~= bytes@);
    }

    /// The bytes read, and whether they reach the end of the file. A read that is not complete
    /// cannot be finished: a short read in the middle of a file would look like its end.
    pub fn finish(self) -> (r: (Vec<u8>, bool))
        requires
            self.wf(),
            self.got().len() == self.wanted(),
        ensures
            r.0@ == self.got(),
            r.1 == (self.start() + self.wanted() == self.total()),
    {
        let eof = self.offset + self.data.len() as u64 == self.file_size;
        (self.data, eof)
    }
}

/// How often content is asked for before a read fails.
pub const MAX_FETCH_ATTEMPTS: u32 = 3;

/// What is next in fetching content.
#[derive(Debug, Clone, Copy, PartialEq, Eq, Structural)]
pub enum FetchStep {
    /// Open a stream at the cursor, up to `end` if there is one.
    Open { end: Option<u64> },
    /// Take the next chunk from the stream.
    Next,
    /// Wait, and open a new stream. `keep` tells whether the stream stays for later reads.
    Pause { keep: bool, pause: Duration },
    /// Use what came in. `keep` tells whether the stream stays for later reads.
    Done { keep: bool },
    /// Fail the read. `keep` tells whether the stream stays for later reads.
    GiveUp { keep: bool },
}

/// Content that is being fetched from `cursor` on: at least `fetch_size` bytes, or what there is.
/// A sequential fetch uses a stream without end, which can stay open for later reads; another one
/// asks for the bytes it needs.
#[derive(Debug, Clone, Copy, PartialEq, Eq, Structural)]
pub struct Fetch {
    pub cursor: u64,
    pub fetch_size: u64,
    pub sequential: bool,
    /// Attempts that are over.
    pub attempts: u32,
    /// Bytes that came in with the current attempt.
    pub total: u64,
}

impl Fetch {
    /// An attempt is left, and the end of the content can be told.
    pub open spec fn wf(self) -> bool {
        self.attempts < MAX_FETCH_ATTEMPTS && self.cursor + self.fetch_size <= u64::MAX
    }

    /// Where a stream for this fetch ends.
    pub open spec fn stream_end(self) -> Option<u64> {
        if self.sequential {
            None
        } else {
            Some((self.cursor + self.fetch_size) as u64)
        }
    }

    /// The fetch with so many bytes come in.
    pub open spec fn with_total(self, total: u64) -> Fetch {
        Fetch { total, ..self }
    }

    /// A fetch of `fetch_size` bytes from `cursor` on.
    pub fn new(cursor: u64, fetch_size: u64, sequential: bool) -> (r: Fetch)
        requires
            cursor + fetch_size <= u64::MAX,
        ensures
            r.wf(),
            r == (Fetch { cursor, fetch_size, sequential, attempts: 0, total: 0 }),
    {
        Fetch { cursor, fetch_size, sequential, attempts: 0, total: 0 }
    }

    /// The fetch when the current attempt is over, and what is next: what came in is used; without
    /// anything there is another attempt, as long as there is one left.
    pub open spec fn attempt_over(self, ended: bool, failed: bool) -> (Fetch, FetchStep) {
        let keep = self.sequential && !failed && !(ended && self.total > 0);
        let over = Fetch { attempts: (self.attempts + 1) as u32, ..self };
        if self.total > 0 {
            (over, FetchStep::Done { keep })
        } else if over.attempts < MAX_FETCH_ATTEMPTS {
            (
                over,
                FetchStep::Pause { keep, pause: Duration::from_millis((100 * over.attempts) as u64) },
            )
        } else {
            (over, FetchStep::GiveUp { keep })
        }
    }

    /// The fetch when so many bytes have come in, and what is next.
    pub open spec fn progress(self) -> (Fetch, FetchStep) {
        if self.total < self.fetch_size {
            (self, FetchStep::Next)
        } else {
            self.attempt_over(false, false)
        }
    }

    /// Start, or start again after a pause. A sequential fetch that has not tried yet goes on with
    /// the stream that an earlier one left, if `has_stream`.
    pub fn start(&mut self, has_stream: bool) -> (r: FetchStep)
        requires
            old(self).wf(),
            old(self).total == 0,
        ensures
            (*final(self), r) == if has_stream && old(self).sequential && old(self).attempts == 0 {
                old(self).progress()
            } else {
                (*old(self), FetchStep::Open { end: old(self).stream_end() })
            },
    {
        if has_stream && self.sequential && self.attempts == 0 {
            self.proceed()
        } else if self.sequential {
            FetchStep::Open { end: None }
        } else {
            FetchStep::Open { end: Some(self.cursor + self.fetch_size) }
        }
    }

    fn proceed(&mut self) -> (r: FetchStep)
        requires
            old(self).wf(),
        ensures
            (*final(self), r) == old(self).progress(),
    {
        if self.total < self.fetch_size {
            FetchStep::Next
        } else {
            self.finish_attempt(false, false)
        }
    }

    fn finish_attempt(&mut self, ended: bool, failed: bool) -> (r: FetchStep)
        requires
            old(self).wf(),
        ensures
            (*final(self), r) == old(self).attempt_over(ended, failed),
    {
        let keep = self.sequential && !failed && !(ended && self.total > 0);
        self.attempts = self.attempts + 1;
        if self.total > 0 {
            FetchStep::Done { keep }
        } else if self.attempts < MAX_FETCH_ATTEMPTS {
            FetchStep::Pause { keep, pause: Duration::from_millis(100 * self.attempts as u64) }
        } else {
            FetchStep::GiveUp { keep }
        }
    }

    /// A stream was opened, or could not be.
    pub fn opened(&mut self, ok: bool) -> (r: FetchStep)
        requires
            old(self).wf(),
        ensures
            (*final(self), r) == if ok {
                old(self).progress()
            } else {
                old(self).attempt_over(false, true)
            },
    {
        if ok {
            self.proceed()
        } else {
            self.finish_attempt(false, true)
        }
    }

    /// A chunk of `len` bytes came in.
    pub fn chunk(&mut self, len: u64) -> (r: FetchStep)
        requires
            old(self).wf(),
            old(self).total + len <= u64::MAX,
        ensures
            (*final(self), r) == old(self).with_total((old(self).total + len) as u64).progress(),
    {
        self.total = self.total + len;
        self.proceed()
    }

    /// The stream ended.
    pub fn ended(&mut self) -> (r: FetchStep)
        requires
            old(self).wf(),
        ensures
            (*final(self), r) == old(self).attempt_over(true, false),
    {
        self.finish_attempt(true, false)
    }

    /// The stream failed.
    pub fn failed(&mut self) -> (r: FetchStep)
        requires
            old(self).wf(),
        ensures
            (*final(self), r) == old(self).attempt_over(false, true),
    {
        self.finish_attempt(false, true)
    }
}

/// A fetch that came up with nothing is tried again until no attempt is left, and can be started
/// again after each pause.
pub proof fn law_fetch_is_retried(f: Fetch, ended: bool, failed: bool)
    requires
        f.wf(),
        f.total == 0,
    ensures
        f.attempt_over(ended, failed).1 is GiveUp <==> f.attempts + 1 == MAX_FETCH_ATTEMPTS,
        f.attempt_over(ended, failed).1 is Pause ==> f.attempt_over(ended, failed).0.wf()
            && f.attempt_over(ended, failed).0.total == 0,
{
}

} // verus!
