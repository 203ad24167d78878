use std::time::Instant;

use hf_mount::hub_api::{BatchOp, TreeEntry};
use hf_mount::time::{Duration, Timestamp};
use hf_mount::virtual_fs::handles::{
    http_cache_name, local_read_ended, Fetch, FetchStep, OpenPlan, ReadAssembly, ReadPlan,
    ReadTarget, StagingFill,
};
use hf_mount::virtual_fs::inode::ROOT_INODE;
use hf_mount::virtual_fs::streaming::{
    commit_awaited, parse_tgid, same_process, CloseStep, CommitStep, FlushStep, ReleaseStep,
    StreamWorker, UploadEnd, UploadInfo, WriteTarget,
};
use hf_mount::virtual_fs::{Errno, VfsConfig, VirtualFs};

fn at(secs: i64) -> Timestamp {
    Timestamp { secs, nanos: 0 }
}

fn mount(advanced_writes: bool) -> (VirtualFs, u64) {
    let config = VfsConfig {
        read_only: false,
        advanced_writes,
        uid: 1,
        gid: 2,
        poll_interval_secs: 0,
        metadata_ttl: Duration::from_secs(10),
        serve_lookup_from_cache: true,
        filter_os_files: true,
        direct_io: false,
        flush_debounce: Duration::from_millis(1),
        flush_max_batch_window: Duration::from_millis(2),
        inode_soft_limit: 0,
        lru_sweep_interval: Duration::from_millis(3),
    };
    let mut vfs = VirtualFs::new(config, at(1));
    let entry = TreeEntry {
        path: "f.bin".to_string(),
        entry_type: "file".to_string(),
        size: Some(10),
        xet_hash: Some("h0".to_string()),
        oid: None,
        mtime: None,
    };
    vfs.apply_listing(ROOT_INODE, String::new(), &vec![entry], at(2), Instant::now())
        .unwrap();
    let ino = vfs.inodes.lookup_child(ROOT_INODE, "f.bin").unwrap().inode;
    (vfs, ino)
}

#[test]
fn files_open_as_the_mount_can_write() {
    let (vfs, ino) = mount(true);
    assert!(matches!(vfs.open(ino, true, false), Ok(OpenPlan::AdvancedWrite(_))));
    assert!(matches!(vfs.open(ino, false, false), Ok(OpenPlan::ReadOnly(_))));
    assert!(vfs.open(999, false, false).is_err());
    let (vfs, ino) = mount(false);
    assert!(matches!(vfs.open(ino, true, true), Ok(OpenPlan::StreamingWrite)));
    assert_eq!(vfs.open(ino, true, false).err(), Some(Errno::EPERM));
}

#[test]
fn content_is_read_from_where_it_is() {
    let (mut vfs, ino) = mount(true);
    let clean = vfs.get_file_entry(ino).unwrap();
    assert_eq!(clean.read_from(true, false), ReadPlan::Remote);
    vfs.inodes.get_mut(ino).unwrap().set_dirty();
    let dirty = vfs.get_file_entry(ino).unwrap();
    assert_eq!(dirty.read_from(true, true), ReadPlan::Staging);
    assert_eq!(dirty.read_from(true, false), ReadPlan::Lost);
    assert_eq!(dirty.read_from(false, false), ReadPlan::Remote);
    vfs.inodes.get_mut(ino).unwrap().xet_hash = None;
    let new = vfs.get_file_entry(ino).unwrap();
    assert_eq!(new.read_from(false, false), ReadPlan::AwaitCommit);
    vfs.inodes.get_mut(ino).unwrap().size = 0;
    assert_eq!(vfs.get_file_entry(ino).unwrap().read_from(false, false), ReadPlan::Empty);
}

#[test]
fn a_staging_file_starts_from_the_remote_content() {
    let (mut vfs, ino) = mount(true);
    assert_eq!(vfs.prepare_staging(ino, "h0", 10, false), StagingFill::Download);
    assert_eq!(vfs.prepare_staging(ino, "h0", 10, true), StagingFill::Create);
    assert_eq!(vfs.prepare_staging(ino, "", 0, false), StagingFill::Create);
    vfs.staging_filled(ino, "h0", 10, false);
    assert!(vfs.inodes.get(ino).unwrap().staging_is_current);
    assert_eq!(vfs.staging_reusable(ino, false, true), Ok(true));
    assert_eq!(vfs.staging_reusable(ino, false, false), Ok(false));
    vfs.staging_filled(ino, "other", 10, false);
    let fh = vfs.open_advanced_write(ino, true, at(5)).unwrap();
    assert_eq!(vfs.write(fh, 1234).unwrap(), WriteTarget::Local { ino });
}

#[test]
fn local_writes_grow_the_file_and_mark_it() {
    let (mut vfs, ino) = mount(true);
    let fh = vfs.open_advanced_write(ino, false, at(5)).unwrap();
    vfs.wrote_local(ino, 4, 3);
    assert_eq!(vfs.inodes.get(ino).unwrap().size, 10);
    vfs.wrote_local(ino, 8, 5);
    let entry = vfs.inodes.get(ino).unwrap();
    assert_eq!(entry.size, 13);
    assert_eq!(entry.dirty_generation, 3);
    assert!(vfs.fsync(fh));
    let reader = vfs.open_local_readonly(ino);
    let lazy = vfs.open_lazy(ino, "h0".to_string(), 10);
    assert!(!vfs.fsync(reader));
    assert!(!vfs.fsync(lazy));
    assert!(matches!(vfs.release(fh), ReleaseStep::Enqueue { .. }));
}

fn stream(vfs: &mut VirtualFs, ino: u64) -> u64 {
    let snapshot = vfs.writer_snapshot(ino).unwrap();
    vfs.open_streaming_write(ino, Some(10), snapshot)
}

#[test]
fn streams_are_written_from_start_to_end() {
    let (mut vfs, ino) = mount(false);
    let fh = stream(&mut vfs, ino);
    assert_eq!(vfs.inodes.get(ino).unwrap().size, 0);
    assert_eq!(vfs.write(fh, 0).unwrap(), WriteTarget::Streaming { ino });
    vfs.appended(fh, ino, 0, 4);
    assert_eq!(vfs.write(fh, 0), Err(Errno::EINVAL));
    assert_eq!(vfs.write(fh, 5), Err(Errno::EINVAL));
    assert!(vfs.write(fh, 4).is_ok());
    assert_eq!(vfs.inodes.get(ino).unwrap().size, 4);
    assert_eq!(vfs.write(999, 0), Err(Errno::EBADF));
    assert!(!vfs.fsync(fh));
    vfs.writer_failed(fh);
    assert_eq!(vfs.write(fh, 4), Err(Errno::EIO));
    assert_eq!(vfs.flush(fh, None, None, None).err(), Some(Errno::EIO));
}

fn content(size: Option<u64>) -> UploadInfo {
    UploadInfo { hash: "h1".to_string(), size }
}

fn sent(step: CommitStep) -> (UploadInfo, Vec<BatchOp>) {
    match step {
        CommitStep::Send { info, ops } => (info, ops),
        other => panic!("{other:?}"),
    }
}

fn ended(step: CommitStep) -> Result<(), Errno> {
    match step {
        CommitStep::Ended(result) => result,
        other => panic!("{other:?}"),
    }
}

#[test]
fn a_commit_makes_the_file_clean() {
    let (mut vfs, ino) = mount(false);
    let fh = stream(&mut vfs, ino);
    vfs.appended(fh, ino, 0, 4);
    assert_eq!(vfs.flush(fh, None, None, None), Ok(FlushStep::Commit));
    assert!(matches!(vfs.commit(fh, ino, 99), CommitStep::FinishUpload));
    let (info, ops) = sent(vfs.upload_ended(fh, ino, UploadEnd::Stored(content(Some(4))), 99));
    assert_eq!(ops.len(), 1);
    match &ops[0] {
        BatchOp::AddFile { path, xet_hash, mtime, content_type } => {
            assert_eq!((path.as_str(), xet_hash.as_str(), *mtime), ("f.bin", "h1", 99));
            assert!(content_type.is_none());
        }
        other => panic!("{other:?}"),
    }
    assert_eq!(vfs.hub_answered(fh, ino, info, true, at(9), Instant::now()), Ok(()));
    vfs.flush_committed(fh);
    let entry = vfs.inodes.get(ino).unwrap();
    assert!(!entry.is_dirty());
    assert_eq!(entry.xet_hash.as_deref(), Some("h1"));
    assert_eq!(entry.size, 4);
    assert_eq!(vfs.flush(fh, None, None, None), Ok(FlushStep::Done));
    assert_eq!(ended(vfs.upload_ended(fh, ino, UploadEnd::Closed, 99)), Ok(()));
    assert!(matches!(vfs.release(fh), ReleaseStep::Finish { .. }));
}

#[test]
fn closing_from_elsewhere_leaves_the_commit_for_later() {
    let (mut vfs, ino) = mount(false);
    let fh = stream(&mut vfs, ino);
    vfs.appended(fh, ino, 0, 4);
    assert_eq!(vfs.opener(fh), Some(10));
    assert_eq!(vfs.flush(fh, Some(11), Some(10), Some(11)), Ok(FlushStep::Done));
    assert_eq!(vfs.flush(fh, Some(11), Some(10), Some(10)), Ok(FlushStep::Commit));
    assert_eq!(vfs.flush(fh, Some(11), None, None), Ok(FlushStep::Done));
    assert!(matches!(vfs.release(fh), ReleaseStep::Commit { .. }));
}

#[test]
fn a_stream_without_data_is_committed_on_close() {
    let (mut vfs, ino) = mount(false);
    let fh = stream(&mut vfs, ino);
    assert_eq!(vfs.flush(fh, Some(10), None, None), Ok(FlushStep::Done));
    assert!(matches!(vfs.release(fh), ReleaseStep::Commit { .. }));
}

#[test]
fn a_refused_commit_is_repeated_without_another_upload() {
    let (mut vfs, ino) = mount(false);
    let fh = stream(&mut vfs, ino);
    vfs.appended(fh, ino, 0, 4);
    assert!(matches!(vfs.release(fh), ReleaseStep::Commit { .. }));
    vfs.commit(fh, ino, 1);
    let (info, _) = sent(vfs.upload_ended(fh, ino, UploadEnd::Stored(content(None)), 1));
    let refused = vfs.hub_answered(fh, ino, info, false, at(9), Instant::now());
    assert_eq!(refused, Err(Errno::EIO));
    assert_eq!(vfs.close_stream(fh, ino, refused, false), CloseStep::Again);
    let (info, ops) = sent(vfs.commit(fh, ino, 2));
    assert_eq!((info.hash.as_str(), ops.len()), ("h1", 1));
    let accepted = vfs.hub_answered(fh, ino, info, true, at(9), Instant::now());
    assert_eq!(vfs.close_stream(fh, ino, accepted, true), CloseStep::Closed(Ok(())));
    assert_eq!(vfs.inodes.get(ino).unwrap().xet_hash.as_deref(), Some("h1"));
    assert_eq!(vfs.inodes.get(ino).unwrap().size, 4);
}

#[test]
fn a_failed_commit_puts_the_old_content_back() {
    let (mut vfs, ino) = mount(false);
    let before = vfs.attr(ino).unwrap();
    let fh = stream(&mut vfs, ino);
    vfs.appended(fh, ino, 0, 4);
    assert!(matches!(vfs.release(fh), ReleaseStep::Commit { .. }));
    for lost in [UploadEnd::Closed, UploadEnd::Failed] {
        vfs.commit(fh, ino, 1);
        assert_eq!(ended(vfs.upload_ended(fh, ino, lost, 1)), Err(Errno::EIO));
    }
    assert_eq!(
        vfs.close_stream(fh, ino, Err(Errno::EIO), false),
        CloseStep::Closed(Err(Errno::EIO))
    );
    let after = vfs.attr(ino).unwrap();
    assert_eq!((after.size, after.mtime), (before.size, before.mtime));
    assert!(!vfs.inodes.get(ino).unwrap().is_dirty());
    assert_eq!(vfs.inodes.get(ino).unwrap().xet_hash.as_deref(), Some("h0"));
}

#[test]
fn a_file_that_was_created_goes_with_its_failed_commit() {
    let (mut vfs, _) = mount(false);
    let made = vfs
        .create(ROOT_INODE, "new", 0o644, 1, 2, at(5), Instant::now())
        .unwrap();
    let (_, fh) = vfs
        .created_streaming(made.ino, Some(10), made.dirty_generation, at(5))
        .unwrap();
    assert!(matches!(vfs.release(fh), ReleaseStep::Commit { .. }));
    vfs.close_stream(fh, made.ino, Err(Errno::EIO), true);
    assert_eq!(vfs.attr(made.ino), Err(Errno::ENOENT));
    assert_eq!(
        ended(vfs.upload_ended(fh, made.ino, UploadEnd::Stored(content(None)), 1)),
        Err(Errno::ENOENT)
    );
}

#[test]
fn a_deleted_file_is_not_committed() {
    let (mut vfs, ino) = mount(false);
    let fh = stream(&mut vfs, ino);
    vfs.appended(fh, ino, 0, 4);
    vfs.unlink(ROOT_INODE, "f.bin", ino, at(5));
    assert_eq!(ended(vfs.commit(fh, ino, 1)), Ok(()));
}

#[test]
fn a_newer_write_outlives_a_commit() {
    let (mut vfs, ino) = mount(false);
    let entry = vfs.inodes.get_mut(ino).unwrap();
    entry.set_dirty();
    let taken = entry.dirty_generation;
    entry.set_dirty();
    entry.apply_commit("h1", 4, taken);
    assert!(entry.is_dirty());
    assert_eq!(entry.xet_hash.as_deref(), Some("h0"));
    let latest = entry.dirty_generation;
    entry.apply_commit("h2", 4, latest);
    assert!(!entry.is_dirty());
    assert_eq!(entry.xet_hash.as_deref(), Some("h2"));
}

#[test]
fn processes_are_told_apart_by_thread_group() {
    assert!(same_process(5, 5, None, None));
    assert!(same_process(5, 6, Some(5), Some(5)));
    assert!(!same_process(5, 6, Some(5), Some(6)));
    assert!(!same_process(5, 6, None, Some(5)));
    assert_eq!(parse_tgid("Name:\tsh\nTgid:\t42\nPid:\t43\n"), Some(42));
    assert_eq!(parse_tgid("Name:\tsh\nPid:\t43\n"), None);
    assert_eq!(parse_tgid("Tgid:\tx\n"), None);
}

#[test]
fn a_worker_that_lost_data_cannot_finish() {
    let mut worker = StreamWorker::new();
    worker.wrote(true);
    assert!(worker.writes());
    assert!(worker.may_finish().is_ok());
    worker.wrote(false);
    worker.wrote(true);
    assert!(!worker.writes());
    assert_eq!(
        worker.may_finish().unwrap_err().to_string(),
        "Hub API error: streaming write failed"
    );
}

#[test]
fn reads_go_to_where_the_handle_leads() {
    let (mut vfs, ino) = mount(true);
    let local = vfs.open_local_readonly(ino);
    let lazy = vfs.open_lazy(ino, "h0".to_string(), 10);
    assert!(matches!(vfs.read(local, 0, 4), Ok(ReadTarget::Local)));
    assert!(matches!(vfs.read(lazy, 10, 4), Ok(ReadTarget::End)));
    match vfs.read(lazy, 8, 4) {
        Ok(ReadTarget::Remote(a)) => assert_eq!((a.cursor(), a.remaining()), (8, 2)),
        _ => panic!("there are bytes to read"),
    }
    assert_eq!(vfs.read(999, 0, 4).err(), Some(Errno::EBADF));
    assert_eq!(vfs.write(local, 0), Err(Errno::EBADF));
    assert_eq!(vfs.write(lazy, 0), Err(Errno::EBADF));
    assert!(local_read_ended(3, 4));
    assert!(!local_read_ended(4, 4));
}

#[test]
fn a_read_is_never_short_before_the_end() {
    assert!(ReadAssembly::new(10, 4, 10).is_none());
    let mut read = ReadAssembly::new(2, 4, 10).unwrap();
    assert!(!read.is_complete());
    read.push(&[1, 2, 3]);
    assert_eq!((read.cursor(), read.remaining()), (5, 1));
    read.push(&[4]);
    assert!(read.is_complete());
    assert_eq!(read.finish(), (vec![1, 2, 3, 4], false));
    let mut last = ReadAssembly::new(8, 4, 10).unwrap();
    last.push(&[5, 6]);
    assert_eq!(last.finish(), (vec![5, 6], true));
}

#[test]
fn content_is_fetched_until_there_is_enough() {
    let mut fetch = Fetch::new(100, 10, false);
    assert_eq!(fetch.start(true), FetchStep::Open { end: Some(110) });
    assert_eq!(fetch.opened(true), FetchStep::Next);
    assert_eq!(fetch.chunk(4), FetchStep::Next);
    assert_eq!(fetch.chunk(6), FetchStep::Done { keep: false });
    assert_eq!(fetch.total, 10);
}

#[test]
fn a_sequential_fetch_keeps_its_stream() {
    let mut fetch = Fetch::new(100, 10, true);
    assert_eq!(fetch.start(true), FetchStep::Next);
    assert_eq!(fetch.chunk(12), FetchStep::Done { keep: true });
    let mut again = Fetch::new(112, 10, true);
    assert_eq!(again.start(false), FetchStep::Open { end: None });
    assert_eq!(again.opened(true), FetchStep::Next);
    assert_eq!(again.chunk(3), FetchStep::Next);
    assert_eq!(again.ended(), FetchStep::Done { keep: false });
}

#[test]
fn a_fetch_is_tried_three_times() {
    let mut fetch = Fetch::new(0, 10, false);
    fetch.start(false);
    assert_eq!(
        fetch.opened(false),
        FetchStep::Pause { keep: false, pause: Duration::from_millis(100) }
    );
    fetch.start(false);
    fetch.opened(true);
    assert_eq!(
        fetch.failed(),
        FetchStep::Pause { keep: false, pause: Duration::from_millis(200) }
    );
    fetch.start(false);
    fetch.opened(true);
    assert_eq!(fetch.ended(), FetchStep::GiveUp { keep: false });
}

#[test]
fn downloads_are_cached_by_source_and_path() {
    let a = http_cache_name("model/u/m/main", "a.txt");
    assert_eq!(a, http_cache_name("model/u/m/main", "a.txt"));
    assert_ne!(a, http_cache_name("model/u/m/main", "b.txt"));
    assert_ne!(a, http_cache_name("model/u/m/dev", "a.txt"));
    assert!(a.starts_with("http_"));
}

#[test]
fn a_failed_commit_is_seen_by_those_who_wait() {
    assert_eq!(commit_awaited(false, None), Ok(()));
    assert_eq!(commit_awaited(true, Some(Ok(()))), Ok(()));
    assert_eq!(commit_awaited(true, Some(Err(Errno::EACCES))), Err(Errno::EACCES));
    assert_eq!(commit_awaited(true, None), Err(Errno::EIO));
}
