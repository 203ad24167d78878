//! Append-only writes, committed when the file is closed, and closing files.
use crate::error;
use crate::error::{Error, ErrorModel};
use crate::hub_api;
use crate::hub_api::{BatchOp, OpModel};
use crate::text;
use crate::text::{clone_opt, clone_texts, parse_u64, split, strip_prefix, trim};
use crate::time::Timestamp;
use crate::virtual_fs::handles;
use crate::virtual_fs::handles::OpenFile;
use crate::virtual_fs::inode;
use crate::virtual_fs::inode::{EntryModel, EvictionState};
use crate::virtual_fs::model;
use crate::virtual_fs::model::TableModel;
use crate::virtual_fs::{Errno, VirtualFs, VirtualFsResult};
use std::collections::hash_map::Entry;
use std::collections::HashMap;
use std::time::Instant;
use vstd::prelude::*;
use vstd::string::*;

verus! {

broadcast use {
    vstd::std_specs::hash::group_hash_axioms,
    vstd::string::group_string_axioms,
};

/// Where the commit of an append-only writer stands.
#[derive(Debug, Clone, Copy, PartialEq, Eq, Structural)]
pub enum CommitState {
    /// Writes are in progress.
    Writing,
    /// A flush left the commit to the close of the file.
    Deferred,
    /// The commit succeeded.
    Committed,
    /// The commit failed, and the inode has been reverted.
    Failed,
}

/// What comes of waiting for a commit of a file that is under way: nothing if there is none
/// `pending`, else the result that was `published`, or an error if nobody is left to publish one.
pub fn commit_awaited(pending: bool, published: Option<VirtualFsResult<()>>) -> (r: VirtualFsResult<
    (),
>)
    ensures
        r == if !pending {
            Ok::<(), Errno>(())
        } else {
            match published {
                Some(result) => result,
                None => Err::<(), Errno>(Errno::EIO),
            }
        },
{
    if !pending {
        return Ok(());
    }
    match published {
        Some(result) => result,
        None => Err(Errno::EIO),
    }
}

/// Content that storage has accepted.
#[derive(Debug)]
pub struct UploadInfo {
    pub hash: String,
    pub size: Option<u64>,
}

/// The state of an inode before it was written to, to go back to if the commit fails.
#[derive(Debug)]
pub struct InodeSnapshot {
    pub xet_hash: Option<String>,
    pub size: u64,
    pub mtime: Timestamp,
    pub pending_deletes: Vec<String>,
    /// False for a file created by this writer, true for one it replaces.
    pub existed_before: bool,
}

/// What an `InodeSnapshot` holds.
#[verifier::ext_equal]
pub struct SnapshotState {
    pub xet_hash: Option<Seq<char>>,
    pub size: u64,
    pub mtime: Timestamp,
    pub pending_deletes: Seq<Seq<char>>,
    pub existed_before: bool,
}

impl View for InodeSnapshot {
    type V = SnapshotState;

    open spec fn view(&self) -> SnapshotState {
        SnapshotState {
            xet_hash: text::opt_text(self.xet_hash),
            size: self.size,
            mtime: self.mtime,
            pending_deletes: text::texts(self.pending_deletes@),
            existed_before: self.existed_before,
        }
    }
}

/// The state of an append-only writer.
pub struct StreamingChannel {
    pub bytes_written: u64,
    /// The upload failed, and nothing more can be written.
    pub failed: bool,
    pub state: CommitState,
    /// Content that storage has accepted and the Hub has not.
    pub pending_info: Option<UploadInfo>,
    /// The process that opened the file.
    pub open_pid: Option<u32>,
    pub snapshot: InodeSnapshot,
    /// The generation of the inode when the file was opened.
    pub dirty_generation_at_open: u64,
    /// Whether others who want to open the file wait for the commit.
    pub hook_installed: bool,
}

impl StreamingChannel {
    /// A writer that has written nothing yet.
    pub fn new(open_pid: Option<u32>, snapshot: InodeSnapshot, dirty_generation_at_open: u64) -> (r:
        Self)
        ensures
            r.bytes_written == 0,
            !r.failed,
            r.state == CommitState::Writing,
            r.pending_info is None,
            r.open_pid == open_pid,
            r.snapshot == snapshot,
            r.dirty_generation_at_open == dirty_generation_at_open,
            !r.hook_installed,
    {
        StreamingChannel {
            bytes_written: 0,
            failed: false,
            state: CommitState::Writing,
            pending_info: None,
            open_pid,
            snapshot,
            dirty_generation_at_open,
            hook_installed: false,
        }
    }
}

/// The writer at `fh`, to be changed.
fn channel_mut<'a>(channels: &'a mut HashMap<u64, StreamingChannel>, fh: u64) -> (r: Option<
    &'a mut StreamingChannel,
>)
    ensures
        r is Some <==> old(channels)@.contains_key(fh),
        r is None ==> final(channels)@ == old(channels)@,
        r matches Some(c) ==> *c == old(channels)@[fh] && final(channels)@ == old(channels)@.insert(
            fh,
            *final(c),
        ),
{
    proof {
        assert(!channels@.contains_key(fh) ==> channels@.remove(fh) =~= channels@);
    }
    match channels.entry(fh) {
        Entry::Occupied(slot) => Some(slot.into_mut()),
        Entry::Vacant(_) => None,
    }
}

/// How finishing an upload came out.
#[derive(Debug)]
pub enum UploadEnd {
    /// There is no upload any more.
    Closed,
    /// It failed.
    Failed,
    /// Storage has accepted the content.
    Stored(UploadInfo),
}

/// What is next in committing a stream.
#[derive(Debug)]
pub enum CommitStep {
    /// Finish the upload.
    FinishUpload,
    /// Send the operations to the Hub, for content that storage has accepted.
    Send { info: UploadInfo, ops: Vec<BatchOp> },
    /// The commit is over.
    Ended(VirtualFsResult<()>),
}

/// What is next in closing a stream.
#[derive(Debug, Clone, Copy, PartialEq, Eq)]
pub enum CloseStep {
    /// Wait for a moment and commit again.
    Again,
    /// The stream is closed.
    Closed(VirtualFsResult<()>),
}

/// How long to wait before a commit is repeated.
pub const CLOSE_PAUSE_SECS: u64 = 1;

/// Where a write goes.
#[derive(Debug, Clone, Copy, PartialEq, Eq, Structural)]
pub enum WriteTarget {
    /// To a local file.
    Local { ino: u64 },
    /// To an append-only writer.
    Streaming { ino: u64 },
}

/// Where a write at `offset` goes, or why it is refused.
pub open spec fn write_outcome(
    read_only: bool,
    files: Map<u64, OpenFile>,
    channels: Map<u64, StreamingChannel>,
    fh: u64,
    offset: u64,
) -> VirtualFsResult<WriteTarget> {
    if read_only {
        Err(Errno::EROFS)
    } else if !files.contains_key(fh) {
        Err(Errno::EBADF)
    } else {
        match files[fh] {
            OpenFile::Local { ino, writable } => if writable {
                Ok(WriteTarget::Local { ino })
            } else {
                Err(Errno::EBADF)
            },
            OpenFile::Streaming { ino } => if !channels.contains_key(fh) {
                Err(Errno::EBADF)
            } else if channels[fh].failed {
                Err(Errno::EIO)
            } else if channels[fh].bytes_written != offset {
                Err(Errno::EINVAL)
            } else {
                Ok(WriteTarget::Streaming { ino })
            },
            OpenFile::Lazy { .. } => Err(Errno::EBADF),
        }
    }
}

/// The writers after `len` bytes were appended through `fh`.
pub open spec fn channels_appended(
    channels: Map<u64, StreamingChannel>,
    fh: u64,
    len: u64,
) -> Map<u64, StreamingChannel> {
    if channels.contains_key(fh) {
        channels.insert(
            fh,
            (StreamingChannel {
                bytes_written: channels[fh].bytes_written.wrapping_add(len),
                ..channels[fh]
            }),
        )
    } else {
        channels
    }
}

/// A stream is written from its beginning to its end without gaps: after a write, the next one is
/// accepted exactly where that one ended.
pub proof fn law_appends_are_gapless(
    files: Map<u64, OpenFile>,
    channels: Map<u64, StreamingChannel>,
    fh: u64,
    offset: u64,
    len: u64,
    next: u64,
)
    requires
        write_outcome(false, files, channels, fh, offset) is Ok,
        files[fh] is Streaming,
        offset + len <= u64::MAX,
    ensures
        write_outcome(false, files, channels_appended(channels, fh, len), fh, next) is Ok <==> next
            == offset + len,
        next != offset + len ==> write_outcome(
            false,
            files,
            channels_appended(channels, fh, len),
            fh,
            next,
        ) == Err::<WriteTarget, Errno>(Errno::EINVAL),
{
}

/// What a flush calls for.
#[derive(Debug, Clone, Copy, PartialEq, Eq, Structural)]
pub enum FlushStep {
    /// Nothing.
    Done,
    /// Commit what was written.
    Commit,
    /// Report a failed background flush, if there was one.
    CheckBackground,
}

/// What a flush comes to. A stream is committed, unless the flush comes from a process that did
/// not open it, which has a copy of its handle, or nothing was written: then the close commits.
pub open spec fn flush_outcome(c: StreamingChannel, foreign: bool) -> VirtualFsResult<FlushStep> {
    if c.failed || c.state == CommitState::Failed {
        Err(Errno::EIO)
    } else if c.state == CommitState::Committed || foreign || c.bytes_written == 0 {
        Ok(FlushStep::Done)
    } else {
        Ok(FlushStep::Commit)
    }
}

/// A writer after a flush.
pub open spec fn flushed(c: StreamingChannel, foreign: bool) -> StreamingChannel {
    if c.failed || c.state == CommitState::Failed || c.state == CommitState::Committed {
        c
    } else if foreign || c.bytes_written == 0 {
        StreamingChannel { hook_installed: true, state: CommitState::Deferred, ..c }
    } else {
        StreamingChannel { hook_installed: true, ..c }
    }
}

/// What closing a handle calls for.
#[derive(Debug, Clone, Copy, PartialEq, Eq, Structural)]
pub enum ReleaseStep {
    /// Nothing: the handle was not open.
    Nothing,
    /// Flush the file in the background, then finish.
    Enqueue { ino: u64 },
    /// Commit what was written, then finish.
    Commit { ino: u64 },
    /// Finish.
    Finish { ino: u64 },
}

/// The table with one handle less on `ino`.
pub open spec fn handle_closed(t: TableModel, ino: u64) -> TableModel {
    t.with_eviction(
        ino,
        |v: EvictionState| EvictionState { open_handles: v.open_handles.wrapping_sub(1), ..v },
    )
}

/// A known inode has no link left.
pub open spec fn is_unlinked(t: TableModel, ino: u64) -> bool {
    t.inodes.contains_key(ino) && t.inodes[ino].nlink == 0
}

/// A writer whose content is not committed yet.
pub open spec fn uncommitted(c: StreamingChannel) -> bool {
    c.state == CommitState::Writing || c.state == CommitState::Deferred
}

/// The table after `ino` is opened to be replaced by a stream.
pub open spec fn stream_opened(t: TableModel, ino: u64) -> TableModel {
    t.updated(
        ino,
        |e: EntryModel|
            EntryModel {
                dirty_generation: inode::next_generation(e.dirty_generation),
                size: 0,
                xet_hash: None,
                ..e
            },
    )
}

/// The table after `written` bytes were written to the local file of `ino` at `offset`.
pub open spec fn local_written(t: TableModel, ino: u64, offset: u64, written: u32) -> TableModel {
    t.updated(
        ino,
        |e: EntryModel|
            EntryModel {
                size: if offset + written > e.size {
                    (offset + written) as u64
                } else {
                    e.size
                },
                dirty_generation: inode::next_generation(e.dirty_generation),
                ..e
            },
    )
}

/// The table after `len` bytes were appended to `ino` at `offset`.
pub open spec fn stream_grown(t: TableModel, ino: u64, offset: u64, len: u64) -> TableModel {
    t.updated(ino, |e: EntryModel| EntryModel { size: (offset + len) as u64, ..e })
}

/// What closing the handle `fh` calls for.
pub open spec fn release_step(
    files: Map<u64, OpenFile>,
    channels: Map<u64, StreamingChannel>,
    t: TableModel,
    fh: u64,
) -> ReleaseStep {
    if !files.contains_key(fh) {
        ReleaseStep::Nothing
    } else {
        let ino = files[fh].inode();
        if files[fh] is Local && files[fh]->writable && !is_unlinked(t, ino) {
            ReleaseStep::Enqueue { ino }
        } else if files[fh] is Streaming && channels.contains_key(fh) && uncommitted(channels[fh]) {
            ReleaseStep::Commit { ino }
        } else {
            ReleaseStep::Finish { ino }
        }
    }
}

/// The table after a failed commit: a file created by the writer is gone, one it was to replace is
/// as it was.
pub open spec fn reverted(t: TableModel, ino: u64, s: SnapshotState) -> TableModel {
    if !s.existed_before {
        if t.inodes.contains_key(ino) {
            t.removed(ino)
        } else {
            t
        }
    } else {
        t.updated(
            ino,
            |e: EntryModel|
                EntryModel {
                    xet_hash: s.xet_hash,
                    size: s.size,
                    mtime: s.mtime,
                    pending_deletes: s.pending_deletes,
                    dirty_generation: 0,
                    ..e
                },
        )
    }
}

/// What a snapshot of an existing file holds.
pub open spec fn snapshot_of(e: EntryModel) -> SnapshotState {
    SnapshotState {
        xet_hash: e.xet_hash,
        size: e.size,
        mtime: e.mtime,
        pending_deletes: e.pending_deletes,
        existed_before: true,
    }
}

/// A write that replaces a file and fails leaves the file as it was before: content, size,
/// modification time and pending deletes are those of the snapshot, and it is clean.
pub proof fn law_failed_replacement_is_undone(t: TableModel, ino: u64)
    requires
        t.inodes.contains_key(ino),
    ensures
        reverted(stream_opened(t, ino), ino, snapshot_of(t.inodes[ino])) == t.updated(
            ino,
            |e: EntryModel| EntryModel { dirty_generation: 0, ..e },
        ),
{
    let after = reverted(stream_opened(t, ino), ino, snapshot_of(t.inodes[ino]));
    let clean = t.updated(ino, |e: EntryModel| EntryModel { dirty_generation: 0, ..e });
    assert(after.inodes =~= clean.inodes);
}

/// The operations that commit a file: it is added, and the paths it was renamed from are deleted.
pub open spec fn commit_models(
    path: Seq<char>,
    hash: Seq<char>,
    mtime_ms: u64,
    deletes: Seq<Seq<char>>,
) -> Seq<OpModel> {
    seq![OpModel::AddFile { path, xet_hash: hash, mtime: mtime_ms, content_type: None }]
        + deletes.map_values(|p: Seq<char>| OpModel::DeleteFile { path: p })
}

/// Content of the writer at `fh` that storage has accepted and the Hub has not.
pub open spec fn stored_before(channels: Map<u64, StreamingChannel>, fh: u64) -> Option<UploadInfo> {
    if channels.contains_key(fh) {
        channels[fh].pending_info
    } else {
        None
    }
}

/// The writers with this as what storage has accepted of the one at `fh`, and the Hub has not.
pub open spec fn stored(
    channels: Map<u64, StreamingChannel>,
    fh: u64,
    info: Option<UploadInfo>,
) -> Map<u64, StreamingChannel> {
    if channels.contains_key(fh) {
        channels.insert(fh, (StreamingChannel { pending_info: info, ..channels[fh] }))
    } else {
        channels
    }
}

/// The content goes to the Hub as the file `ino`, if there still is one.
pub open spec fn is_sent(
    t: TableModel,
    ino: u64,
    content: UploadInfo,
    mtime_ms: u64,
    r: CommitStep,
) -> bool {
    if t.inodes.contains_key(ino) {
        r matches CommitStep::Send { info, ops } && info == content && hub_api::op_models(ops@)
            == commit_models(
            t.inodes[ino].full_path,
            content.hash@,
            mtime_ms,
            t.inodes[ino].pending_deletes,
        )
    } else {
        r matches CommitStep::Ended(end) && end == Err::<(), Errno>(Errno::ENOENT)
    }
}

/// The table after the Hub accepted a commit: the inode has the content, and is clean unless it was
/// written to since the writer was opened.
pub open spec fn content_committed(
    t: TableModel,
    channels: Map<u64, StreamingChannel>,
    fh: u64,
    ino: u64,
    info: UploadInfo,
    now: Timestamp,
    checked: Instant,
) -> TableModel {
    t.updated(
        ino,
        |e: EntryModel|
            e.committed(
                info.hash@,
                match info.size {
                    Some(size) => size,
                    None => e.size,
                },
                if channels.contains_key(fh) {
                    channels[fh].dirty_generation_at_open
                } else {
                    0
                },
                now,
                checked,
            ),
    )
}

/// A commit on close is worth repeating: it failed, was not repeated yet, and storage has accepted
/// the content.
pub open spec fn commits_again(
    channels: Map<u64, StreamingChannel>,
    fh: u64,
    result: VirtualFsResult<()>,
    repeated: bool,
) -> bool {
    result is Err && !repeated && stored_before(channels, fh) is Some
}

/// The table after a stream was closed with a commit that came out as `result`.
pub open spec fn after_close(
    t: TableModel,
    ino: u64,
    c: StreamingChannel,
    result: VirtualFsResult<()>,
) -> TableModel {
    if result is Ok {
        t
    } else {
        reverted(t, ino, c.snapshot@)
    }
}

/// A writer that was closed with a commit that came out as `result`.
pub open spec fn closed_channel(
    c: StreamingChannel,
    result: VirtualFsResult<()>,
) -> StreamingChannel {
    StreamingChannel {
        state: if result is Ok {
            CommitState::Committed
        } else {
            CommitState::Failed
        },
        hook_installed: false,
        ..c
    }
}

/// Content that storage has accepted and the Hub refused is not uploaded again: it is what the next
/// commit sends, and what makes a commit on close worth repeating.
pub proof fn law_refused_content_is_kept(
    channels: Map<u64, StreamingChannel>,
    fh: u64,
    info: UploadInfo,
)
    requires
        channels.contains_key(fh),
    ensures
        stored_before(stored(channels, fh, Some(info)), fh) == Some(info),
        commits_again(
            stored(channels, fh, Some(info)),
            fh,
            Err::<(), Errno>(Errno::EIO),
            false,
        ),
{
}

/// A flush is known to come from another process than the one that opened the stream.
pub open spec fn is_foreign(
    open_pid: Option<u32>,
    pid: Option<u32>,
    open_group: Option<u32>,
    group: Option<u32>,
) -> bool {
    match (open_pid, pid) {
        (Some(a), Some(b)) => a != b && !(open_group is Some && open_group == group),
        _ => false,
    }
}

/// Whether two processes are the same, given the thread groups they belong to, where known.
pub fn same_process(pid_a: u32, pid_b: u32, group_a: Option<u32>, group_b: Option<u32>) -> (r: bool)
    ensures
        r == (pid_a == pid_b || (group_a is Some && group_a == group_b)),
{
    if pid_a == pid_b {
        return true;
    }
    match (group_a, group_b) {
        (Some(a), Some(b)) => a == b,
        _ => false,
    }
}

/// What the first line that gives a thread group says.
pub open spec fn group_line(lines: Seq<Seq<char>>) -> Option<Seq<char>>
    decreases lines.len(),
{
    if lines.len() == 0 {
        None
    } else {
        match text::stripped(lines[0], "Tgid:\t"@) {
            Some(v) => Some(v),
            None => group_line(lines.skip(1)),
        }
    }
}

/// The thread group in the status of a process.
pub open spec fn thread_group(status: Seq<char>) -> Option<u32> {
    match group_line(text::parts(status, '\n')) {
        Some(v) => match text::number(text::trimmed_space(v)) {
            Some(n) => if n <= u32::MAX {
                Some(n as u32)
            } else {
                None
            },
            None => None,
        },
        None => None,
    }
}

/// The thread group in the status of a process, as the kernel writes it.
pub fn parse_tgid(status: &str) -> (r: Option<u32>)
    ensures
        r == thread_group(status@),
{
    let lines = split(status, '\n');
    let ghost all = text::parts(status@, '\n');
    let mut i: usize = 0;
    assert(all.skip(0) =~= all);
    while i < lines.len()
        invariant
            i <= lines.len(),
            all == text::parts(status@, '\n'),
            text::slices(lines@) == all,
            group_line(all) == group_line(all.skip(i as int)),
        decreases lines.len() - i,
    {
        assert(all.skip(i as int).skip(1) =~= all.skip(i + 1));
        assert(all[i as int] == lines@[i as int]@);
        if let Some(v) = strip_prefix(lines[i], "Tgid:\t") {
            return match parse_u64(trim(v)) {
                Some(n) => if n <= u32::MAX as u64 {
                    Some(n as u32)
                } else {
                    None
                },
                None => None,
            };
        }
        i += 1;
    }
    None
}

impl VirtualFs {
    /// Only the writers differ.
    pub open spec fn only_channels(self, after: VirtualFs) -> bool {
        &&& after.config == self.config
        &&& after.inodes == self.inodes
        &&& after.negative == self.negative
        &&& after.files == self.files
        &&& after.next_file_handle == self.next_file_handle
        &&& after.default_mtime == self.default_mtime
    }

    /// The state of a file before it is replaced.
    pub fn writer_snapshot(&self, ino: u64) -> (r: VirtualFsResult<InodeSnapshot>)
        ensures
            r is Ok <==> self.inodes@.inodes.contains_key(ino),
            r matches Ok(s) ==> s@ == snapshot_of(self.inodes@.inodes[ino]),
            r matches Err(e) ==> e == Errno::ENOENT,
    {
        match self.inodes.get(ino) {
            Some(e) => Ok(
                InodeSnapshot {
                    xet_hash: clone_opt(&e.xet_hash),
                    size: e.size,
                    mtime: e.mtime,
                    pending_deletes: clone_texts(&e.pending_deletes),
                    existed_before: true,
                },
            ),
            None => Err(Errno::ENOENT),
        }
    }

    /// Open a file to be replaced by what is appended. It is dirty and empty from now on.
    pub fn open_streaming_write(&mut self, ino: u64, pid: Option<u32>, snapshot: InodeSnapshot) -> (r:
        u64)
        ensures
            r == old(self).next_file_handle,
            final(self).next_file_handle == r.wrapping_add(1),
            final(self).inodes@ == handles::handle_opened(
                stream_opened(old(self).inodes@, ino),
                ino,
            ),
            final(self).files@ == old(self).files@.insert(r, OpenFile::Streaming { ino }),
            final(self).channels@ == old(self).channels@.insert(
                r,
                (StreamingChannel {
                    bytes_written: 0,
                    failed: false,
                    state: CommitState::Writing,
                    pending_info: None,
                    open_pid: pid,
                    snapshot,
                    dirty_generation_at_open: if old(self).inodes@.inodes.contains_key(ino) {
                        inode::next_generation(old(self).inodes@.inodes[ino].dirty_generation)
                    } else {
                        0
                    },
                    hook_installed: false,
                }),
            ),
            final(self).config == old(self).config,
            final(self).negative == old(self).negative,
            final(self).default_mtime == old(self).default_mtime,
    {
        let mut generation: u64 = 0;
        if let Some(entry) = self.inodes.get_mut(ino) {
            entry.set_dirty();
            entry.size = 0;
            entry.xet_hash = None;
            generation = entry.dirty_generation;
        }
        let channel = StreamingChannel::new(pid, snapshot, generation);
        self.open_streaming(ino, channel)
    }

    /// Where a write through a handle goes. A handle that is unknown or only for reading is
    /// refused.
    fn write_target(&self, fh: u64) -> (r: VirtualFsResult<WriteTarget>)
        ensures
            r == if self.config.read_only {
                Err::<WriteTarget, Errno>(Errno::EROFS)
            } else if !self.files@.contains_key(fh) {
                Err(Errno::EBADF)
            } else {
                match self.files@[fh] {
                    OpenFile::Local { ino, writable } => if writable {
                        Ok(WriteTarget::Local { ino })
                    } else {
                        Err(Errno::EBADF)
                    },
                    OpenFile::Streaming { ino } => Ok(WriteTarget::Streaming { ino }),
                    OpenFile::Lazy { .. } => Err(Errno::EBADF),
                }
            },
    {
        if self.config.read_only {
            return Err(Errno::EROFS);
        }
        match self.files.get(&fh) {
            Some(OpenFile::Local { ino, writable: true }) => Ok(WriteTarget::Local { ino: *ino }),
            Some(OpenFile::Streaming { ino }) => Ok(WriteTarget::Streaming { ino: *ino }),
            _ => Err(Errno::EBADF),
        }
    }

    /// Where a write at `offset` goes, or why it is refused: the mount or the handle is not for
    /// writing, a stream has failed, or it would be written to elsewhere than at its end.
    pub fn write(&self, fh: u64, offset: u64) -> (r: VirtualFsResult<WriteTarget>)
        ensures
            r == write_outcome(self.config.read_only, self.files@, self.channels@, fh, offset),
    {
        let target = match self.write_target(fh) {
            Ok(t) => t,
            Err(e) => return Err(e),
        };
        if let WriteTarget::Streaming { .. } = target {
            if let Err(e) = self.may_append(fh, offset) {
                return Err(e);
            }
        }
        Ok(target)
    }

    /// Note that `written` bytes were written to the local file of `ino` at `offset`: it grows if
    /// they reach beyond its end, and is dirty.
    pub fn wrote_local(&mut self, ino: u64, offset: u64, written: u32)
        requires
            offset + written <= u64::MAX,
        ensures
            final(self).inodes@ == local_written(old(self).inodes@, ino, offset, written),
            old(self).only_inodes(*final(self)),
    {
        let new_end: u64 = offset + written as u64;
        if let Some(entry) = self.inodes.get_mut(ino) {
            if new_end > entry.size {
                entry.size = new_end;
            }
            entry.set_dirty();
        }
    }

    /// Whether a write at `offset` may be appended: the writer has not failed, and the write begins
    /// where the last one ended.
    fn may_append(&self, fh: u64, offset: u64) -> (r: VirtualFsResult<()>)
        ensures
            r == if !self.channels@.contains_key(fh) {
                Err::<(), Errno>(Errno::EBADF)
            } else if self.channels@[fh].failed {
                Err(Errno::EIO)
            } else if self.channels@[fh].bytes_written != offset {
                Err(Errno::EINVAL)
            } else {
                Ok(())
            },
    {
        match self.channels.get(&fh) {
            Some(c) => if c.failed {
                Err(Errno::EIO)
            } else if offset != c.bytes_written {
                Err(Errno::EINVAL)
            } else {
                Ok(())
            },
            None => Err(Errno::EBADF),
        }
    }

    /// Note that `len` bytes were appended at `offset`: the file ends behind them.
    pub fn appended(&mut self, fh: u64, ino: u64, offset: u64, len: u64)
        requires
            offset + len <= u64::MAX,
        ensures
            final(self).inodes@ == stream_grown(old(self).inodes@, ino, offset, len),
            final(self).channels@ == channels_appended(old(self).channels@, fh, len),
            final(self).config == old(self).config,
            final(self).negative == old(self).negative,
            final(self).files == old(self).files,
            final(self).next_file_handle == old(self).next_file_handle,
            final(self).default_mtime == old(self).default_mtime,
    {
        if let Some(c) = channel_mut(&mut self.channels, fh) {
            c.bytes_written = c.bytes_written.wrapping_add(len);
        }
        if let Some(entry) = self.inodes.get_mut(ino) {
            entry.size = offset + len;
        }
    }

    /// Note that the upload of a writer failed.
    pub fn writer_failed(&mut self, fh: u64)
        ensures
            old(self).only_channels(*final(self)),
            final(self).channels@ == if old(self).channels@.contains_key(fh) {
                old(self).channels@.insert(
                    fh,
                    (StreamingChannel { failed: true, ..old(self).channels@[fh] }),
                )
            } else {
                old(self).channels@
            },
    {
        if let Some(c) = channel_mut(&mut self.channels, fh) {
            c.failed = true;
        }
    }

    /// The process that opened a stream, where known.
    pub fn opener(&self, fh: u64) -> (r: Option<u32>)
        ensures
            r == if self.channels@.contains_key(fh) {
                self.channels@[fh].open_pid
            } else {
                None
            },
    {
        match self.channels.get(&fh) {
            Some(c) => c.open_pid,
            None => None,
        }
    }

    /// A stream is open at `fh`.
    pub open spec fn is_stream(self, fh: u64) -> bool {
        self.files@.contains_key(fh) && self.files@[fh] is Streaming && self.channels@.contains_key(
            fh,
        )
    }

    /// Flush a handle on behalf of the process `pid`, given the thread groups of the process that
    /// opened it and of this one, where known.
    pub fn flush(
        &mut self,
        fh: u64,
        pid: Option<u32>,
        open_group: Option<u32>,
        group: Option<u32>,
    ) -> (r: VirtualFsResult<FlushStep>)
        ensures
            old(self).only_channels(*final(self)),
            old(self).is_stream(fh) ==> {
                let c = old(self).channels@[fh];
                let foreign = is_foreign(c.open_pid, pid, open_group, group);
                &&& r == flush_outcome(c, foreign)
                &&& final(self).channels@ == old(self).channels@.insert(fh, flushed(c, foreign))
            },
            !old(self).is_stream(fh) ==> r == Ok::<FlushStep, Errno>(FlushStep::CheckBackground)
                && final(self).channels@ == old(self).channels@,
    {
        let streaming = match self.files.get(&fh) {
            Some(OpenFile::Streaming { .. }) => true,
            _ => false,
        };
        if !streaming {
            return Ok(FlushStep::CheckBackground);
        }
        if let Some(c) = channel_mut(&mut self.channels, fh) {
            if c.failed {
                return Err(Errno::EIO);
            }
            match c.state {
                CommitState::Committed => return Ok(FlushStep::Done),
                CommitState::Failed => return Err(Errno::EIO),
                _ => {},
            }
            c.hook_installed = true;
            let foreign = match (c.open_pid, pid) {
                (Some(a), Some(b)) => !same_process(a, b, open_group, group),
                _ => false,
            };
            if foreign || c.bytes_written == 0 {
                c.state = CommitState::Deferred;
                Ok(FlushStep::Done)
            } else {
                Ok(FlushStep::Commit)
            }
        } else {
            Ok(FlushStep::CheckBackground)
        }
    }

    /// Note that the commit of a writer succeeded: nobody has to wait for it any more.
    pub fn flush_committed(&mut self, fh: u64)
        ensures
            old(self).only_channels(*final(self)),
            final(self).channels@ == if old(self).channels@.contains_key(fh) {
                old(self).channels@.insert(
                    fh,
                    (StreamingChannel {
                        state: CommitState::Committed,
                        hook_installed: false,
                        ..old(self).channels@[fh]
                    }),
                )
            } else {
                old(self).channels@
            },
    {
        if let Some(c) = channel_mut(&mut self.channels, fh) {
            c.state = CommitState::Committed;
            c.hook_installed = false;
        }
    }

    /// Whether a commit may be skipped: the file was deleted, and a commit would bring it back.
    fn commit_skipped(&self, ino: u64) -> (r: bool)
        ensures
            r == is_unlinked(self.inodes@, ino),
    {
        match self.inodes.get(ino) {
            Some(e) => e.nlink == 0,
            None => false,
        }
    }

    /// Content of a writer that storage has accepted before, if there is any. It is taken out.
    fn take_pending_info(&mut self, fh: u64) -> (r: Option<UploadInfo>)
        ensures
            old(self).only_channels(*final(self)),
            r == stored_before(old(self).channels@, fh),
            final(self).channels@ == stored(old(self).channels@, fh, None),
    {
        if let Some(c) = channel_mut(&mut self.channels, fh) {
            c.pending_info.take()
        } else {
            None
        }
    }

    /// How a commit comes out if the upload can no longer be finished: well only if it had been
    /// committed before.
    fn closed_result(&self, fh: u64) -> (r: VirtualFsResult<()>)
        ensures
            r == if self.channels@.contains_key(fh) && self.channels@[fh].state
                == CommitState::Committed {
                Ok::<(), Errno>(())
            } else {
                Err(Errno::EIO)
            },
    {
        match self.channels.get(&fh) {
            Some(c) => if c.state == CommitState::Committed {
                Ok(())
            } else {
                Err(Errno::EIO)
            },
            None => Err(Errno::EIO),
        }
    }

    /// The operations that commit the content with this hash as the file `ino`.
    pub fn commit_ops(&self, ino: u64, hash: &str, mtime_ms: u64) -> (r: VirtualFsResult<
        Vec<BatchOp>,
    >)
        ensures
            r is Ok <==> self.inodes@.inodes.contains_key(ino),
            r matches Err(e) ==> e == Errno::ENOENT,
            r matches Ok(ops) ==> hub_api::op_models(ops@) == commit_models(
                self.inodes@.inodes[ino].full_path,
                hash@,
                mtime_ms,
                self.inodes@.inodes[ino].pending_deletes,
            ),
    {
        let entry = match self.inodes.get(ino) {
            Some(e) => e,
            None => return Err(Errno::ENOENT),
        };
        let mut ops: Vec<BatchOp> = Vec::new();
        ops.push(
            BatchOp::AddFile {
                path: entry.full_path.clone(),
                xet_hash: hash.to_owned(),
                mtime: mtime_ms,
                content_type: None,
            },
        );
        let ghost head = OpModel::AddFile {
            path: entry@.full_path,
            xet_hash: hash@,
            mtime: mtime_ms,
            content_type: None,
        };
        let ghost dels = entry@.pending_deletes;
        let ghost del = |p: Seq<char>| OpModel::DeleteFile { path: p };
        let mut i: usize = 0;
        assert(hub_api::op_models(ops@) =~= seq![head] + dels.take(0).map_values(del));
        while i < entry.pending_deletes.len()
            invariant
                i <= entry.pending_deletes.len(),
                dels == text::texts(entry.pending_deletes@),
                del == (|p: Seq<char>| OpModel::DeleteFile { path: p }),
                hub_api::op_models(ops@) == seq![head] + dels.take(i as int).map_values(del),
            decreases entry.pending_deletes.len() - i,
        {
            let ghost before = ops@;
            ops.push(BatchOp::DeleteFile { path: entry.pending_deletes[i].clone() });
            assert(hub_api::op_models(ops@) =~= hub_api::op_models(before).push(
                del(dels[i as int]),
            ));
            assert(seq![head] + dels.take(i + 1).map_values(del) =~= (seq![head] + dels.take(
                i as int,
            ).map_values(del)).push(del(dels[i as int])));
            i += 1;
        }
        assert(dels.take(i as int) =~= dels);
        Ok(ops)
    }

    /// What sends the content to the Hub as the file `ino`.
    fn send_step(&self, ino: u64, info: UploadInfo, mtime_ms: u64) -> (r: CommitStep)
        ensures
            is_sent(self.inodes@, ino, info, mtime_ms, r),
    {
        match self.commit_ops(ino, info.hash.as_str(), mtime_ms) {
            Ok(ops) => CommitStep::Send { info, ops },
            Err(e) => CommitStep::Ended(Err(e)),
        }
    }

    /// Commit what was written through `fh` as the file `ino`, at the time `mtime_ms`. There is
    /// nothing to commit for a file that was deleted, which it would bring back. Content that storage
    /// has accepted before is not uploaded again.
    pub fn commit(&mut self, fh: u64, ino: u64, mtime_ms: u64) -> (r: CommitStep)
        ensures
            old(self).only_channels(*final(self)),
            is_unlinked(old(self).inodes@, ino) ==> {
                &&& r matches CommitStep::Ended(end) && end == Ok::<(), Errno>(())
                &&& final(self).channels@ == old(self).channels@
            },
            !is_unlinked(old(self).inodes@, ino) ==> {
                &&& final(self).channels@ == stored(old(self).channels@, fh, None)
                &&& match stored_before(old(self).channels@, fh) {
                    Some(info) => is_sent(old(self).inodes@, ino, info, mtime_ms, r),
                    None => r is FinishUpload,
                }
            },
    {
        if self.commit_skipped(ino) {
            return CommitStep::Ended(Ok(()));
        }
        match self.take_pending_info(fh) {
            Some(info) => self.send_step(ino, info, mtime_ms),
            None => CommitStep::FinishUpload,
        }
    }

    /// Go on with a commit once the upload is finished, or cannot be.
    pub fn upload_ended(&self, fh: u64, ino: u64, end: UploadEnd, mtime_ms: u64) -> (r: CommitStep)
        ensures
            match end {
                UploadEnd::Closed => {
                    &&& r matches CommitStep::Ended(x)
                    &&& x == if self.channels@.contains_key(fh) && self.channels@[fh].state
                        == CommitState::Committed {
                        Ok::<(), Errno>(())
                    } else {
                        Err(Errno::EIO)
                    }
                },
                UploadEnd::Failed => r matches CommitStep::Ended(x) && x == Err::<(), Errno>(
                    Errno::EIO,
                ),
                UploadEnd::Stored(info) => is_sent(self.inodes@, ino, info, mtime_ms, r),
            },
    {
        match end {
            UploadEnd::Closed => CommitStep::Ended(self.closed_result(fh)),
            UploadEnd::Failed => CommitStep::Ended(Err(Errno::EIO)),
            UploadEnd::Stored(info) => self.send_step(ino, info, mtime_ms),
        }
    }

    /// End a commit with the answer of the Hub. If it refused, the content is kept for another
    /// commit; if it accepted, the inode has it, and is clean unless it was written to since the
    /// writer was opened.
    pub fn hub_answered(
        &mut self,
        fh: u64,
        ino: u64,
        info: UploadInfo,
        accepted: bool,
        now: Timestamp,
        checked: Instant,
    ) -> (r: VirtualFsResult<()>)
        ensures
            r == if accepted {
                Ok::<(), Errno>(())
            } else {
                Err(Errno::EIO)
            },
            final(self).config == old(self).config,
            final(self).negative == old(self).negative,
            final(self).files == old(self).files,
            final(self).next_file_handle == old(self).next_file_handle,
            final(self).default_mtime == old(self).default_mtime,
            final(self).inodes@ == if accepted {
                content_committed(
                    old(self).inodes@,
                    old(self).channels@,
                    fh,
                    ino,
                    info,
                    now,
                    checked,
                )
            } else {
                old(self).inodes@
            },
            final(self).channels@ == if accepted {
                old(self).channels@
            } else {
                stored(old(self).channels@, fh, Some(info))
            },
    {
        if !accepted {
            if let Some(c) = channel_mut(&mut self.channels, fh) {
                c.pending_info = Some(info);
            }
            return Err(Errno::EIO);
        }
        let generation: u64 = match self.channels.get(&fh) {
            Some(c) => c.dirty_generation_at_open,
            None => 0,
        };
        if let Some(entry) = self.inodes.get_mut(ino) {
            let size: u64 = match info.size {
                Some(size) => size,
                None => entry.size,
            };
            entry.apply_commit_at(info.hash.as_str(), size, generation, now, checked);
        }
        Ok(())
    }

    /// Close a handle. A local file with changes is flushed in the background, unless it was
    /// deleted; a writer is committed, unless it has been.
    pub fn release(&mut self, fh: u64) -> (r: ReleaseStep)
        ensures
            final(self).config == old(self).config,
            final(self).negative == old(self).negative,
            final(self).next_file_handle == old(self).next_file_handle,
            final(self).default_mtime == old(self).default_mtime,
            final(self).files@ == old(self).files@.remove(fh),
            r == release_step(old(self).files@, old(self).channels@, old(self).inodes@, fh),
            !old(self).files@.contains_key(fh) ==> final(self).inodes == old(self).inodes && final(self).channels@ == old(self).channels@,
            old(self).files@.contains_key(fh) ==> {
                let ino = old(self).files@[fh].inode();
                let c = old(self).channels@[fh];
                let commits = old(self).files@[fh] is Streaming && old(
                    self,
                ).channels@.contains_key(fh) && uncommitted(c);
                &&& final(self).inodes@ == handle_closed(old(self).inodes@, ino)
                &&& final(self).channels@ == if commits {
                    old(self).channels@.insert(
                        fh,
                        (StreamingChannel { hook_installed: true, ..c }),
                    )
                } else {
                    old(self).channels@
                }
            },
    {
        let file = match self.files.remove(&fh) {
            Some(f) => f,
            None => return ReleaseStep::Nothing,
        };
        let ino: u64 = file.ino();
        self.inodes.drop_open_handles(ino);
        match file {
            OpenFile::Local { writable: true, .. } => {
                let unlinked = match self.inodes.get(ino) {
                    Some(e) => e.nlink == 0,
                    None => false,
                };
                if !unlinked {
                    return ReleaseStep::Enqueue { ino };
                }
            },
            OpenFile::Streaming { .. } => {
                if let Some(c) = channel_mut(&mut self.channels, fh) {
                    if c.state == CommitState::Writing || c.state == CommitState::Deferred {
                        c.hook_installed = true;
                        return ReleaseStep::Commit { ino };
                    }
                }
                assert(self.channels@ =~= old(self).channels@);
            },
            _ => {},
        }
        ReleaseStep::Finish { ino }
    }

    /// Go back to the state before a write.
    fn revert_inode(&mut self, ino: u64, snapshot: &InodeSnapshot)
        ensures
            old(self).only_inodes(*final(self)),
            final(self).inodes@ == reverted(old(self).inodes@, ino, snapshot@),
    {
        if !snapshot.existed_before {
            let _ = self.inodes.remove(ino);
        } else if let Some(entry) = self.inodes.get_mut(ino) {
            entry.xet_hash = clone_opt(&snapshot.xet_hash);
            entry.size = snapshot.size;
            entry.mtime = snapshot.mtime;
            entry.pending_deletes = clone_texts(&snapshot.pending_deletes);
            entry.dirty_generation = 0;
        }
    }

    /// Go on closing a stream after a commit that came out as `result`. If storage has accepted the
    /// content and only the Hub has not, the commit is repeated once. If it failed for good, the
    /// inode goes back to the state before the write.
    pub fn close_stream(
        &mut self,
        fh: u64,
        ino: u64,
        result: VirtualFsResult<()>,
        repeated: bool,
    ) -> (r: CloseStep)
        ensures
            final(self).config == old(self).config,
            final(self).negative == old(self).negative,
            final(self).files == old(self).files,
            final(self).next_file_handle == old(self).next_file_handle,
            final(self).default_mtime == old(self).default_mtime,
            r == if commits_again(old(self).channels@, fh, result, repeated) {
                CloseStep::Again
            } else {
                CloseStep::Closed(result)
            },
            r == CloseStep::Again || !old(self).channels@.contains_key(fh) ==> final(self).inodes
                == old(self).inodes && final(self).channels@ == old(self).channels@,
            r != CloseStep::Again && old(self).channels@.contains_key(fh) ==> {
                let c = old(self).channels@[fh];
                &&& final(self).inodes@ == after_close(old(self).inodes@, ino, c, result)
                &&& final(self).channels@ == old(self).channels@.insert(
                    fh,
                    closed_channel(c, result),
                )
            },
    {
        let success = result.is_ok();
        if !success && !repeated {
            let kept = match self.channels.get(&fh) {
                Some(c) => c.pending_info.is_some(),
                None => false,
            };
            if kept {
                return CloseStep::Again;
            }
        }
        if let Some(mut c) = self.channels.remove(&fh) {
            if success {
                c.state = CommitState::Committed;
            } else {
                self.revert_inode(ino, &c.snapshot);
                c.state = CommitState::Failed;
            }
            c.hook_installed = false;
            let _ = self.channels.insert(fh, c);
            assert(self.channels@ =~= old(self).channels@.insert(fh, c));
        } else {
            assert(self.channels@ =~= old(self).channels@);
        }
        CloseStep::Closed(result)
    }

    /// Finish closing a handle on `ino`: if it was the last one, an inode without links goes, and
    /// so does one that the kernel gave up meanwhile, if that is safe. Returns whether one went, so
    /// that its staging file can go too.
    pub fn release_finish(&mut self, fh: u64, ino: u64) -> (r: bool)
        ensures
            final(self).config == old(self).config,
            final(self).negative == old(self).negative,
            final(self).files == old(self).files,
            final(self).next_file_handle == old(self).next_file_handle,
            final(self).default_mtime == old(self).default_mtime,
            final(self).channels@ == old(self).channels@.remove(fh),
            r == release_removes(old(self).inodes@, ino),
            final(self).inodes@ == released(old(self).inodes@, ino),
    {
        let _ = self.channels.remove(&fh);
        if self.inodes.has_open_handles(ino) {
            return false;
        }
        let orphan = self.inodes.remove_orphan(ino);
        let pending = self.inodes.take_evict_pending(ino);
        let evicted = pending && self.inodes.evict_if_safe(ino);
        orphan || evicted
    }
}

/// Closing the last handle makes an inode go: it has no link, or the kernel gave it up and it may
/// be evicted.
pub open spec fn release_removes(t: TableModel, ino: u64) -> bool {
    &&& t.inodes.contains_key(ino)
    &&& t.inodes[ino].eviction.open_handles == 0
    &&& t.inodes[ino].nlink == 0 || (t.inodes[ino].eviction.evict_pending && model::evictable(
        t.inodes[ino],
    ))
}

/// The table once a handle on `ino` is closed for good.
pub open spec fn released(t: TableModel, ino: u64) -> TableModel {
    if !t.inodes.contains_key(ino) || t.inodes[ino].eviction.open_handles > 0 {
        t
    } else if t.inodes[ino].nlink == 0 {
        t.without(ino)
    } else {
        let taken = t.with_eviction(
            ino,
            |v: EvictionState| EvictionState { evict_pending: false, ..v },
        );
        if release_removes(t, ino) {
            taken.evicted(ino)
        } else {
            taken
        }
    }
}

/// The worker that takes the data of a stream to storage.
#[derive(Debug, Clone, Copy, PartialEq, Eq, Structural)]
pub struct StreamWorker {
    pub failed: bool,
}

impl StreamWorker {
    pub fn new() -> (r: Self)
        ensures
            !r.failed,
    {
        StreamWorker { failed: false }
    }

    /// Whether data is still written. After a failure it is only taken from the queue.
    pub fn writes(&self) -> (r: bool)
        ensures
            r == !self.failed,
    {
        !self.failed
    }

    /// Data was written, or could not be.
    pub fn wrote(&mut self, ok: bool)
        ensures
            final(self).failed == (old(self).failed || !ok),
    {
        if !ok {
            self.failed = true;
        }
    }

    /// Whether the stream can be finished. One that has lost data cannot.
    pub fn may_finish(&self) -> (r: error::Result<()>)
        ensures
            r is Ok <==> !self.failed,
            r matches Err(e) ==> e@ == (ErrorModel::Hub {
                message: "streaming write failed"@,
                status: None,
            }),
    {
        if self.failed {
            Err(Error::hub("streaming write failed"))
        } else {
            Ok(())
        }
    }
}

} // verus!
