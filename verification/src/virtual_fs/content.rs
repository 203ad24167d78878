//! What becomes of the content of a file: where it is read from, what writing does to it, and when
//! it is stored.
use crate::protocol;
use crate::text;
use crate::time::Timestamp;
use crate::virtual_fs::handles;
use crate::virtual_fs::handles::{FileEntry, OpenFile, ReadPlan};
use crate::virtual_fs::inode::{EntryModel, InodeKind};
use crate::virtual_fs::model::TableModel;
use crate::virtual_fs::setattr;
use crate::virtual_fs::streaming;
use crate::virtual_fs::streaming::{
    CommitState, FlushStep, ReleaseStep, SnapshotState, StreamingChannel, UploadInfo, WriteTarget,
};
use crate::virtual_fs::tree;
use crate::virtual_fs::Errno;
use std::time::Instant;
use vstd::prelude::*;

verus! {

/// The inode has content that storage knows by a hash.
pub open spec fn has_hash(e: EntryModel) -> bool {
    e.xet_hash is Some && e.xet_hash->Some_0.len() > 0
}

/// A file is read as empty only if it is empty: it has no bytes, no stored content, and no local
/// changes in a staging file. Any other file is read from where its content is: local changes from
/// the staging file if there is one, stored content by its hash, a write in progress once it is
/// committed, and bytes that are known by no hash by downloading them.
pub proof fn law_content_is_read_from_where_it_is(
    e: EntryModel,
    fe: FileEntry,
    staging: bool,
    exists: bool,
)
    requires
        fe.describes(e),
    ensures
        ({
            let plan = handles::read_plan(fe, staging, exists);
            let changed = e.dirty_generation > 0;
            &&& plan == ReadPlan::Empty <==> e.size == 0 && !has_hash(e) && !(changed && staging)
            &&& !changed && e.size > 0 && !has_hash(e) ==> plan == ReadPlan::Download
            &&& !changed && has_hash(e) ==> plan == ReadPlan::Remote
            &&& changed && staging && exists ==> plan == ReadPlan::Staging
            &&& changed && staging && !exists ==> plan == ReadPlan::Lost
            &&& changed && !staging && has_hash(e) ==> plan == ReadPlan::Remote
            &&& changed && !staging && !has_hash(e) && e.size > 0 ==> plan == ReadPlan::AwaitCommit
        }),
{
}

/// Only the content, its times and the handles of one inode differ.
pub open spec fn only_content(t: TableModel, r: TableModel, ino: u64) -> bool {
    &&& r.inodes.dom() == t.inodes.dom()
    &&& r.paths == t.paths
    &&& r.next_inode == t.next_inode
    &&& forall|x: u64| #[trigger]
        t.inodes.contains_key(x) && x != ino ==> r.inodes[x] == t.inodes[x]
    &&& t.inodes.contains_key(ino) ==> {
        let a = t.inodes[ino];
        let b = r.inodes[ino];
        &&& b.inode == a.inode
        &&& b.parent == a.parent
        &&& b.name == a.name
        &&& b.full_path == a.full_path
        &&& b.kind == a.kind
        &&& b.mode == a.mode
        &&& b.uid == a.uid
        &&& b.gid == a.gid
        &&& b.atime == a.atime
        &&& b.nlink == a.nlink
        &&& b.symlink_target == a.symlink_target
        &&& b.children == a.children
        &&& b.children_loaded == a.children_loaded
        &&& b.pending_deletes == a.pending_deletes
        &&& b.eviction.nlookup == a.eviction.nlookup
        &&& b.eviction.evict_pending == a.eviction.evict_pending
    }
}

/// Opening a file for writing through a staging file makes it dirty, with one more handle on it.
/// With truncation it is empty from then on, as of now; without, its size and times are as they
/// were.
pub proof fn law_opening_truncates_or_keeps(
    t: TableModel,
    ino: u64,
    truncate: bool,
    now: Timestamp,
)
    requires
        t.inodes.contains_key(ino),
        t.inodes[ino].eviction.open_handles < u32::MAX,
    ensures
        ({
            let r = handles::write_opened(t, ino, truncate, now);
            &&& only_content(t, r, ino)
            &&& r.inodes[ino].size == if truncate {
                0
            } else {
                t.inodes[ino].size
            }
            &&& r.inodes[ino].mtime == if truncate {
                now
            } else {
                t.inodes[ino].mtime
            }
            &&& r.inodes[ino].ctime == if truncate {
                now
            } else {
                t.inodes[ino].ctime
            }
            &&& r.inodes[ino].dirty_generation > 0
            &&& r.inodes[ino].dirty_generation >= t.inodes[ino].dirty_generation
            &&& r.inodes[ino].xet_hash == t.inodes[ino].xet_hash
            &&& r.inodes[ino].eviction.open_handles == t.inodes[ino].eviction.open_handles + 1
        }),
{
    let r = handles::write_opened(t, ino, truncate, now);
    assert(r.inodes.dom() =~= t.inodes.dom());
}

/// Opening a stream empties the file: it has no bytes and no stored content, and is dirty.
pub proof fn law_opening_a_stream_empties(t: TableModel, ino: u64)
    requires
        t.inodes.contains_key(ino),
        t.inodes[ino].eviction.open_handles < u32::MAX,
    ensures
        ({
            let r = handles::handle_opened(streaming::stream_opened(t, ino), ino);
            &&& only_content(t, r, ino)
            &&& r.inodes[ino].size == 0
            &&& r.inodes[ino].xet_hash is None
            &&& r.inodes[ino].dirty_generation > 0
            &&& r.inodes[ino].mtime == t.inodes[ino].mtime
            &&& r.inodes[ino].eviction.open_handles == t.inodes[ino].eviction.open_handles + 1
        }),
{
    let r = handles::handle_opened(streaming::stream_opened(t, ino), ino);
    assert(r.inodes.dom() =~= t.inodes.dom());
}

/// Writing to a local file never loses bytes: the file reaches to the end of what was written and
/// to where it reached before, and no further. It is dirty.
pub proof fn law_writes_grow_the_file(t: TableModel, ino: u64, offset: u64, written: u32)
    requires
        t.inodes.contains_key(ino),
        offset + written <= u64::MAX,
    ensures
        ({
            let r = streaming::local_written(t, ino, offset, written);
            let size = r.inodes[ino].size;
            &&& only_content(t, r, ino)
            &&& size >= offset + written
            &&& size >= t.inodes[ino].size
            &&& size == offset + written || size == t.inodes[ino].size
            &&& r.inodes[ino].dirty_generation > 0
            &&& t.inodes[ino].dirty_generation < u64::MAX ==> r.inodes[ino].dirty_generation
                > t.inodes[ino].dirty_generation
            &&& r.inodes[ino].xet_hash == t.inodes[ino].xet_hash
            &&& r.inodes[ino].eviction == t.inodes[ino].eviction
        }),
{
    let r = streaming::local_written(t, ino, offset, written);
    assert(r.inodes.dom() =~= t.inodes.dom());
}

/// A file that is appended to ends where the appended bytes end, whatever its size was, and stays the
/// same otherwise.
pub proof fn law_appends_end_the_file(t: TableModel, ino: u64, offset: u64, len: u64)
    requires
        t.inodes.contains_key(ino),
        offset + len <= u64::MAX,
    ensures
        ({
            let r = streaming::stream_grown(t, ino, offset, len);
            &&& only_content(t, r, ino)
            &&& r.inodes[ino].size == offset + len
            &&& r.inodes[ino] == (EntryModel { size: r.inodes[ino].size, ..t.inodes[ino] })
        }),
{
    let r = streaming::stream_grown(t, ino, offset, len);
    assert(r.inodes.dom() =~= t.inodes.dom());
}

/// A file that is opened with truncation and written from its start has as many bytes as were
/// written: through a staging file, and as a stream.
pub proof fn law_size_is_what_was_written(
    t: TableModel,
    ino: u64,
    now: Timestamp,
    first: u32,
    second: u32,
)
    requires
        t.inodes.contains_key(ino),
    ensures
        ({
            let local = handles::write_opened(t, ino, true, now);
            let once = streaming::local_written(local, ino, 0, first);
            let twice = streaming::local_written(once, ino, first as u64, second);
            &&& once.inodes[ino].size == first
            &&& twice.inodes[ino].size == first + second
        }),
        ({
            let stream = handles::handle_opened(streaming::stream_opened(t, ino), ino);
            let once = streaming::stream_grown(stream, ino, 0, first as u64);
            let twice = streaming::stream_grown(once, ino, first as u64, second as u64);
            &&& once.inodes[ino].size == first
            &&& twice.inodes[ino].size == first + second
            &&& only_content(stream, twice, ino)
            &&& twice.inodes[ino].dirty_generation == stream.inodes[ino].dirty_generation
        }),
{
    let stream = handles::handle_opened(streaming::stream_opened(t, ino), ino);
    let once = streaming::stream_grown(stream, ino, 0, first as u64);
    let twice = streaming::stream_grown(once, ino, first as u64, second as u64);
    assert(twice.inodes.dom() =~= stream.inodes.dom());
}

/// Opening, and writing within a file, keeps its size.
pub proof fn law_writes_inside_keep_the_size(
    t: TableModel,
    ino: u64,
    now: Timestamp,
    offset: u64,
    written: u32,
)
    requires
        t.inodes.contains_key(ino),
        offset + written <= t.inodes[ino].size,
    ensures
        streaming::local_written(
            handles::write_opened(t, ino, false, now),
            ino,
            offset,
            written,
        ).inodes[ino].size == t.inodes[ino].size,
{
}

/// Bringing a file to a size gives it that size, makes it dirty and dates it; one that is emptied
/// has no stored content any more.
pub proof fn law_truncation_sets_the_size(t: TableModel, ino: u64, size: u64, now: Timestamp)
    requires
        t.inodes.contains_key(ino),
    ensures
        ({
            let r = setattr::truncated(t, ino, size, now);
            &&& only_content(t, r, ino)
            &&& r.inodes[ino].size == size
            &&& r.inodes[ino].mtime == now
            &&& r.inodes[ino].ctime == now
            &&& r.inodes[ino].dirty_generation > 0
            &&& size == 0 ==> r.inodes[ino].xet_hash is None
            &&& size > 0 ==> r.inodes[ino].xet_hash == t.inodes[ino].xet_hash
            &&& r.inodes[ino].eviction == t.inodes[ino].eviction
        }),
{
    let r = setattr::truncated(t, ino, size, now);
    assert(r.inodes.dom() =~= t.inodes.dom());
}

/// Nothing is opened for writing on a read-only mount. Only files are opened. Without staging files
/// a file is only opened for writing to be replaced as a whole. Everything else is opened.
pub proof fn law_what_is_opened(
    t: TableModel,
    ino: u64,
    writable: bool,
    truncate: bool,
    read_only: bool,
    advanced_writes: bool,
)
    ensures
        ({
            let r = handles::open_refusal(t, ino, writable, truncate, read_only, advanced_writes);
            let file = t.inodes.contains_key(ino) && t.inodes[ino].kind == InodeKind::File;
            &&& r is None <==> file && (!writable || (!read_only && (advanced_writes || truncate)))
            &&& writable && read_only ==> r == Some(Errno::EROFS)
            &&& !(writable && read_only) && !file ==> r == Some(Errno::ENOENT)
            &&& r is Some && !read_only && file ==> r == Some(Errno::EPERM)
        }),
{
}

/// A write starts from a staging file only if that holds local changes or a copy of what the remote
/// has, and never if the content is to be replaced. A staging file that is being filled is not
/// reused until it is a copy: of what is on record, as it is then.
pub proof fn law_staging_files_are_reused_if_current(
    t: TableModel,
    ino: u64,
    hash: Seq<char>,
    size: u64,
    truncate: bool,
    exists: bool,
)
    requires
        t.inodes.contains_key(ino),
    ensures
        ({
            let reuse = handles::staging_reuse(t, ino, truncate, exists);
            let e = t.inodes[ino];
            &&& reuse is Ok
            &&& reuse->Ok_0 <==> exists && !truncate && (e.dirty_generation > 0
                || e.staging_is_current)
        }),
        ({
            let dropped = handles::staging_dropped(t, ino);
            &&& only_content(t, dropped, ino)
            &&& !dropped.inodes[ino].staging_is_current
            &&& dropped.inodes[ino].dirty_generation == t.inodes[ino].dirty_generation
            &&& dropped.inodes[ino].size == t.inodes[ino].size
            &&& dropped.inodes[ino].xet_hash == t.inodes[ino].xet_hash
        }),
        ({
            let e = t.inodes[ino];
            let r = handles::staging_copied(t, ino, hash, size, truncate);
            let downloaded = !truncate && hash.len() > 0 && size > 0;
            let same = if e.xet_hash is Some {
                hash == e.xet_hash->Some_0
            } else {
                hash.len() == 0
            };
            &&& only_content(t, r, ino)
            &&& r.inodes[ino].staging_is_current <==> e.staging_is_current || (same && (downloaded
                || (hash.len() == 0 && size == 0)))
            &&& r.inodes[ino].dirty_generation == e.dirty_generation
            &&& r.inodes[ino].size == e.size
            &&& r.inodes[ino].xet_hash == e.xet_hash
        }),
        handles::needs_download(hash, size, truncate) <==> !truncate && size > 0 && hash.len() > 0,
{
    let e = t.inodes[ino];
    let r = handles::staging_copied(t, ino, hash, size, truncate);
    assert(r.inodes.dom() =~= t.inodes.dom());
    assert(handles::staging_dropped(t, ino).inodes.dom() =~= t.inodes.dom());
    if e.xet_hash is None && hash.len() == 0 {
        assert(hash =~= Seq::empty());
    }
}

/// Content that was written is not lost when the file is closed: a stream that is not committed
/// yet is committed then, whether or not it was flushed before, and a local file that still has a
/// name is flushed in the background. What has been committed is not committed again.
pub proof fn law_close_stores_what_was_written(
    files: Map<u64, OpenFile>,
    channels: Map<u64, StreamingChannel>,
    t: TableModel,
    fh: u64,
    ino: u64,
    foreign: bool,
)
    requires
        files.contains_key(fh),
    ensures
        files[fh] == (OpenFile::Streaming { ino }) && channels.contains_key(fh) && (
        channels[fh].state == CommitState::Writing || channels[fh].state == CommitState::Deferred)
            ==> {
            let later = channels.insert(fh, streaming::flushed(channels[fh], foreign));
            &&& streaming::release_step(files, channels, t, fh) == (ReleaseStep::Commit { ino })
            &&& streaming::release_step(files, later, t, fh) == (ReleaseStep::Commit { ino })
        },
        files[fh] == (OpenFile::Streaming { ino }) && channels.contains_key(fh) && (
        channels[fh].state == CommitState::Committed || channels[fh].state == CommitState::Failed)
            ==> streaming::release_step(files, channels, t, fh) == (ReleaseStep::Finish { ino }),
        files[fh] == (OpenFile::Local { ino, writable: true }) && t.inodes.contains_key(ino)
            && t.inodes[ino].nlink > 0 ==> streaming::release_step(files, channels, t, fh) == (
        ReleaseStep::Enqueue { ino }),
        files[fh] == (OpenFile::Local { ino, writable: true }) && t.inodes.contains_key(ino)
            && t.inodes[ino].nlink == 0 ==> streaming::release_step(files, channels, t, fh) == (
        ReleaseStep::Finish { ino }),
        files[fh] == (OpenFile::Local { ino, writable: false }) ==> streaming::release_step(
            files,
            channels,
            t,
            fh,
        ) == (ReleaseStep::Finish { ino }),
        files[fh] is Lazy ==> streaming::release_step(files, channels, t, fh) == (
        ReleaseStep::Finish { ino: files[fh]->Lazy_ino }),
{
}

/// A flush by the process that opened a stream commits what was written. A flush by another, or of
/// nothing, leaves that to the close, and a failure is told by every flush. No flush changes what
/// was written.
pub proof fn law_flush_commits_or_defers(c: StreamingChannel, foreign: bool)
    ensures
        ({
            let r = streaming::flush_outcome(c, foreign);
            let after = streaming::flushed(c, foreign);
            let broken = c.failed || c.state == CommitState::Failed;
            let open = c.state == CommitState::Writing || c.state == CommitState::Deferred;
            &&& r == Err::<FlushStep, Errno>(Errno::EIO) <==> broken
            &&& r == Ok::<FlushStep, Errno>(FlushStep::Commit) <==> !broken && open && !foreign
                && c.bytes_written > 0
            &&& r == Ok::<FlushStep, Errno>(FlushStep::Done) <==> !broken && (c.state
                == CommitState::Committed || foreign || c.bytes_written == 0)
            &&& after.bytes_written == c.bytes_written
            &&& after.pending_info == c.pending_info
            &&& after.snapshot == c.snapshot
            &&& after.open_pid == c.open_pid
            &&& after.failed == c.failed
            &&& after.dirty_generation_at_open == c.dirty_generation_at_open
            &&& !broken && open && (foreign || c.bytes_written == 0) ==> after.state
                == CommitState::Deferred && after.hook_installed
            &&& !broken && open && !foreign && c.bytes_written > 0 ==> after.state == c.state
                && after.hook_installed
            &&& broken || !open ==> after == c
        }),
{
}

/// Two flushes come from the same process if they come from the same thread, or from threads of
/// one group. Without knowing who opened the file, or who flushes it, nobody is a stranger.
pub proof fn law_threads_of_one_process_are_no_strangers(
    a: u32,
    b: u32,
    group_a: Option<u32>,
    group_b: Option<u32>,
)
    ensures
        !streaming::is_foreign(Some(a), Some(a), group_a, group_b),
        group_a is Some && group_a == group_b ==> !streaming::is_foreign(
            Some(a),
            Some(b),
            group_a,
            group_b,
        ),
        a != b && (group_a is None || group_b is None || group_a != group_b)
            ==> streaming::is_foreign(Some(a), Some(b), group_a, group_b),
        !streaming::is_foreign(None, Some(b), group_a, group_b),
        !streaming::is_foreign(Some(a), None, group_a, group_b),
        streaming::is_foreign(Some(a), Some(b), group_a, group_b) <==> streaming::is_foreign(
            Some(b),
            Some(a),
            group_b,
            group_a,
        ),
{
}

/// A file that is written as a stream, committed and not written to meanwhile has the content that
/// was stored, as many bytes as were written unless storage counted otherwise, nothing left to
/// commit or to delete, and is read from storage.
pub proof fn law_committed_stream_is_stored(
    t: TableModel,
    channels: Map<u64, StreamingChannel>,
    fh: u64,
    ino: u64,
    len: u64,
    info: UploadInfo,
    now: Timestamp,
    checked: Instant,
    fe: FileEntry,
)
    requires
        t.inodes.contains_key(ino),
        channels.contains_key(fh),
        channels[fh].dirty_generation_at_open == streaming::stream_opened(
            t,
            ino,
        ).inodes[ino].dirty_generation,
        info.hash@.len() > 0,
        fe.describes(
            streaming::content_committed(
                streaming::stream_grown(
                    handles::handle_opened(streaming::stream_opened(t, ino), ino),
                    ino,
                    0,
                    len,
                ),
                channels,
                fh,
                ino,
                info,
                now,
                checked,
            ).inodes[ino],
        ),
    ensures
        ({
            let open = handles::handle_opened(streaming::stream_opened(t, ino), ino);
            let full = streaming::stream_grown(open, ino, 0, len);
            let r = streaming::content_committed(full, channels, fh, ino, info, now, checked);
            &&& r.inodes.dom() == t.inodes.dom()
            &&& r.inodes[ino].xet_hash == Some(info.hash@)
            &&& r.inodes[ino].size == if info.size is Some {
                info.size->Some_0
            } else {
                len
            }
            &&& r.inodes[ino].dirty_generation == 0
            &&& r.inodes[ino].pending_deletes.len() == 0
            &&& r.inodes[ino].mtime == now
            &&& r.inodes[ino].ctime == now
            &&& r.inodes[ino].last_revalidated == Some(checked)
            &&& r.inodes[ino].full_path == t.inodes[ino].full_path
            &&& r.inodes[ino].nlink == t.inodes[ino].nlink
            &&& forall|x: u64| #[trigger]
                t.inodes.contains_key(x) && x != ino ==> r.inodes[x] == t.inodes[x]
        }),
        handles::read_plan(fe, false, false) == ReadPlan::Remote,
{
    let open = handles::handle_opened(streaming::stream_opened(t, ino), ino);
    let full = streaming::stream_grown(open, ino, 0, len);
    let r = streaming::content_committed(full, channels, fh, ino, info, now, checked);
    assert(r.inodes.dom() =~= t.inodes.dom());
}

/// A commit of what is still the newest change is recorded in full; a commit of an older one leaves
/// the newer change as it is, to be committed in its turn.
pub proof fn law_commit_records_the_newest_change(
    e: EntryModel,
    hash: Seq<char>,
    size: u64,
    generation: u64,
    now: Timestamp,
    checked: Instant,
)
    ensures
        ({
            let r = e.committed(hash, size, generation, now, checked);
            let newest = e.dirty_generation == generation;
            &&& newest ==> r.xet_hash == Some(hash) && r.size == size && r.dirty_generation == 0
                && r.pending_deletes.len() == 0 && r.staging_is_current
            &&& !newest ==> r.xet_hash == e.xet_hash && r.size == e.size && r.dirty_generation
                == e.dirty_generation && r.pending_deletes == e.pending_deletes
                && r.staging_is_current == e.staging_is_current
            &&& r.mtime == now
            &&& r.ctime == now
            &&& r.last_revalidated == Some(checked)
            &&& r.full_path == e.full_path
            &&& r.inode == e.inode
            &&& r.parent == e.parent
            &&& r.name == e.name
            &&& r.kind == e.kind
            &&& r.nlink == e.nlink
            &&& r.etag == e.etag
            &&& r.eviction == e.eviction
            &&& r.mode == e.mode && r.uid == e.uid && r.gid == e.gid && r.atime == e.atime
        }),
{
}

/// A file that was created to be written to is gone again if the write fails, and so is its path.
pub proof fn law_failed_creation_is_undone(t: TableModel, ino: u64, s: SnapshotState)
    requires
        tree::wf(t),
        t.inodes.contains_key(ino),
        t.inodes[ino].kind == InodeKind::File,
        t.inodes[ino].nlink > 0,
        !s.existed_before,
    ensures
        !streaming::reverted(t, ino, s).inodes.contains_key(ino),
        !streaming::reverted(t, ino, s).paths.contains_key(t.inodes[ino].full_path),
{
}

/// Writes through a handle are refused on a read-only mount, through a handle that is not open or
/// not for writing, to a stream that failed, and elsewhere than at the end of a stream. All others
/// are accepted.
pub proof fn law_what_is_written(
    read_only: bool,
    files: Map<u64, OpenFile>,
    channels: Map<u64, StreamingChannel>,
    fh: u64,
    offset: u64,
    ino: u64,
)
    ensures
        ({
            let r = streaming::write_outcome(read_only, files, channels, fh, offset);
            let open = files.contains_key(fh);
            let local = open && files[fh] == (OpenFile::Local { ino, writable: true });
            let stream = open && files[fh] == (OpenFile::Streaming { ino })
                && channels.contains_key(fh);
            &&& read_only <==> r == Err::<WriteTarget, Errno>(Errno::EROFS)
            &&& !read_only && local ==> r == Ok::<WriteTarget, Errno>(WriteTarget::Local { ino })
            &&& !read_only && stream && channels[fh].failed ==> r == Err::<WriteTarget, Errno>(
                Errno::EIO,
            )
            &&& !read_only && stream && !channels[fh].failed && channels[fh].bytes_written
                == offset ==> r == Ok::<WriteTarget, Errno>(WriteTarget::Streaming { ino })
            &&& !read_only && stream && !channels[fh].failed && channels[fh].bytes_written
                != offset ==> r == Err::<WriteTarget, Errno>(Errno::EINVAL)
            &&& !read_only && (!open || files[fh] is Lazy || files[fh] == (OpenFile::Local {
                ino,
                writable: false,
            })) ==> r == Err::<WriteTarget, Errno>(Errno::EBADF)
        }),
{
}

/// A stream that cannot be stored leaves the file it was to replace as it was: its content, its
/// size, its time and what is noted on it, and without local changes. The failure is remembered.
pub proof fn law_failed_stream_leaves_the_file(
    t: TableModel,
    ino: u64,
    c: StreamingChannel,
    len: u64,
    e: Errno,
)
    requires
        t.inodes.contains_key(ino),
        c.snapshot@ == streaming::snapshot_of(t.inodes[ino]),
    ensures
        ({
            let open = handles::handle_opened(streaming::stream_opened(t, ino), ino);
            let full = streaming::stream_grown(open, ino, 0, len);
            let failed = streaming::after_close(full, ino, c, Err(e));
            let stored = streaming::after_close(full, ino, c, Ok(()));
            &&& failed.inodes[ino].xet_hash == t.inodes[ino].xet_hash
            &&& failed.inodes[ino].size == t.inodes[ino].size
            &&& failed.inodes[ino].mtime == t.inodes[ino].mtime
            &&& failed.inodes[ino].pending_deletes == t.inodes[ino].pending_deletes
            &&& failed.inodes[ino].dirty_generation == 0
            &&& failed.inodes[ino].full_path == t.inodes[ino].full_path
            &&& stored == full
        }),
        streaming::closed_channel(c, Err(e)).state == CommitState::Failed,
        streaming::closed_channel(c, Ok(())).state == CommitState::Committed,
        !streaming::closed_channel(c, Err(e)).hook_installed,
        !streaming::closed_channel(c, Ok(())).hook_installed,
{
}

/// A commit on close that failed is repeated once, and only if storage has the content.
pub proof fn law_commits_are_repeated_once(
    channels: Map<u64, StreamingChannel>,
    fh: u64,
    e: Errno,
)
    ensures
        !streaming::commits_again(channels, fh, Ok(()), false),
        !streaming::commits_again(channels, fh, Err(e), true),
        streaming::commits_again(channels, fh, Err(e), false) <==> channels.contains_key(fh)
            && channels[fh].pending_info is Some,
        streaming::stored_before(streaming::stored(channels, fh, None), fh) is None,
{
}

/// A read is for what was asked for, as far as the file reaches, and for nothing beyond its end.
pub proof fn law_reads_stay_in_the_file(offset: u64, size: u32, file_size: u64)
    requires
        offset < file_size,
    ensures
        ({
            let n = handles::read_len(offset, size, file_size);
            &&& 0 <= n <= size
            &&& offset + n <= file_size
            &&& n == size || offset + n == file_size
            &&& size > 0 ==> n > 0
        }),
{
}

/// Content is fetched until there is enough of it. What came in is used even if there is less, and a
/// fetch that failed keeps no stream. Only a stream without an end is kept for later reads.
pub proof fn law_fetches_use_what_came_in(f: handles::Fetch, ended: bool, failed: bool)
    requires
        f.wf(),
    ensures
        ({
            let (after, step) = f.attempt_over(ended, failed);
            &&& step is Done <==> f.total > 0
            &&& after.attempts == f.attempts + 1
            &&& after.cursor == f.cursor
            &&& after.total == f.total
            &&& after.fetch_size == f.fetch_size
            &&& step matches handles::FetchStep::Done { keep } ==> (keep <==> f.sequential
                && !failed && !ended)
            &&& step matches handles::FetchStep::GiveUp { keep } ==> (keep <==> f.sequential
                && !failed)
            &&& step matches handles::FetchStep::Pause { keep, pause } ==> (keep <==> f.sequential
                && !failed) && pause.nanos == (f.attempts + 1) * 100_000_000
        }),
        f.total < f.fetch_size ==> f.progress() == (f, handles::FetchStep::Next),
        f.total >= f.fetch_size && f.total > 0 ==> f.progress().1 is Done,
        f.sequential ==> f.stream_end() is None,
        !f.sequential ==> f.stream_end() is Some && f.stream_end()->Some_0 == f.cursor
            + f.fetch_size,
{
}

/// An fsync has a file flushed that may have changes in a staging file: not one that is only read,
/// nor a stream, which is stored on close.
pub proof fn law_syncs_flush_staging_files(
    files: Map<u64, OpenFile>,
    fh: u64,
    ino: u64,
    read_only: bool,
    advanced_writes: bool,
)
    ensures
        ({
            let r = handles::sync_flushes(files, fh, read_only, advanced_writes);
            let open = files.contains_key(fh);
            &&& r ==> !read_only && advanced_writes
            &&& open && files[fh] == (OpenFile::Local { ino, writable: true }) ==> (r
                <==> !read_only && advanced_writes)
            &&& open && files[fh] == (OpenFile::Local { ino, writable: false }) ==> !r
            &&& open && (files[fh] is Lazy || files[fh] is Streaming) ==> !r
            &&& !open ==> (r <==> !read_only && advanced_writes)
        }),
{
}

/// Before a file is brought to a size, its staging file has what the file has: nothing needs to be
/// done if it is there or nothing is to be left, and what storage has is downloaded otherwise.
pub proof fn law_truncation_starts_from_the_content(
    t: TableModel,
    ino: u64,
    size: u64,
    staged: bool,
)
    ensures
        ({
            let r = setattr::fill_for(t, ino, size, staged);
            let e = t.inodes[ino];
            let known = t.inodes.contains_key(ino);
            let bare = size > 0 && !staged;
            &&& !bare ==> r == Ok::<setattr::FillModel, Errno>(setattr::FillModel::Keep)
            &&& bare && !known ==> r == Err::<setattr::FillModel, Errno>(Errno::ENOENT)
            &&& bare && known && has_hash(e) && e.size > 0 ==> r == Ok::<setattr::FillModel, Errno>(
                setattr::FillModel::Download(e.xet_hash->Some_0, e.size),
            )
            &&& bare && known && !(has_hash(e) && e.size > 0) ==> r == Ok::<
                setattr::FillModel,
                Errno,
            >(setattr::FillModel::Create)
        }),
{
}

/// The thread group that the kernel writes in the status of a process is read from it.
pub proof fn law_thread_groups_are_read(other: Seq<char>, n: u32, rest: Seq<char>)
    requires
        !other.contains('\n'),
        !"Tgid:\t"@.is_prefix_of(other),
    ensures
        streaming::thread_group("Tgid:\t"@ + text::decimal(n as nat) + seq!['\n'] + rest) == Some(n),
        streaming::thread_group(other + seq!['\n'] + rest) == streaming::thread_group(rest),
{
    let longer = other + seq!['\n'] + rest;
    assert forall|j: int| 0 <= j < other.len() implies longer[j] != '\n' by {
        assert(longer[j] == other[j]);
        assert(other.contains(other[j]));
    }
    text::lemma_split_first_at(longer, '\n', other.len() as int);
    assert(longer.take(other.len() as int) =~= other);
    assert(longer.skip(other.len() as int + 1) =~= rest);
    let all = text::parts(longer, '\n');
    assert(all[0] == other);
    assert(all.skip(1) =~= text::parts(rest, '\n'));
    reveal_strlit("Tgid:\t");
    let digits = text::decimal(n as nat);
    let line = "Tgid:\t"@ + digits;
    let status = line + seq!['\n'] + rest;
    protocol::lemma_decimal(n as nat);
    assert forall|j: int| 0 <= j < line.len() implies status[j] != '\n' by {
        assert(status[j] == line[j]);
        if j < 6 {
            assert(line[j] == "Tgid:\t"@[j]);
        } else {
            assert(line[j] == digits[j - 6]);
            protocol::lemma_decimal_digits(n as nat, j - 6);
        }
    }
    text::lemma_split_first_at(status, '\n', line.len() as int);
    assert(status.take(line.len() as int) =~= line);
    let lines = text::parts(status, '\n');
    assert(lines[0] == line);
    assert("Tgid:\t"@.is_prefix_of(line)) by {
        assert(line.subrange(0, 6) =~= "Tgid:\t"@);
    }
    assert(line.skip(6) =~= digits);
    let set = |c: char| text::is_whitespace(c);
    protocol::lemma_decimal_digits(n as nat, 0);
    protocol::lemma_decimal_digits(n as nat, digits.len() - 1);
    text::lemma_first_outside(digits, set, 0);
    assert(digits.skip(0) =~= digits);
    text::lemma_last_outside(digits, set, digits.len() as int);
    assert(digits.take(digits.len() as int) =~= digits);
    protocol::law_numbers_are_read_as_written(n as u64);
}

} // verus!
