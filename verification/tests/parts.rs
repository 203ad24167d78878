use hf_mount::error::Error;
use hf_mount::fuse::{
    check_kernel, effective_mode, goes_on, page_cache, permission_bits, reader_threads,
    Invalidation, MissingCapability, PageCache, STATFS_BLOCKS, STATFS_BLOCK_SIZE,
};
use hf_mount::hub_api::{RepoType, SourceKind};
use hf_mount::setup::{plan, raised_fd_limit, Backend, MountOptions, Source};
use hf_mount::text::{
    contains, decimal_text, hex_text, hex_text_16, parent_path, parse_u64, split,
    split_at_first, split_at_last, starts_with, str_eq, strip_prefix, trim, trim_char,
    trim_end_char,
};
use hf_mount::time::{Duration, Timestamp};
use hf_mount::xet::{check_uploads, stream_plan, StagingDir};

fn options() -> MountOptions {
    MountOptions {
        uid: None,
        gid: Some(7),
        read_only: false,
        advanced_writes: false,
        poll_interval_secs: 30,
        no_disk_cache: false,
        direct_io: true,
        metadata_ttl_ms: 10_000,
        metadata_ttl_minimal: false,
        max_threads: 16,
        flush_debounce_ms: 2_000,
        flush_max_batch_window_ms: 30_000,
        no_filter_os_files: false,
        fuse_owner_only: false,
        inode_soft_limit: 1_000,
        lru_sweep_interval_ms: 5_000,
    }
}

#[test]
fn a_plan_takes_over_the_options() {
    let p = plan(&options(), false, Backend::Fuse, 100, 200);
    assert_eq!((p.config.uid, p.config.gid), (100, 7));
    assert!(!p.config.read_only && !p.config.advanced_writes);
    assert!(p.uploads && !p.staging && p.chunk_cache);
    assert!(p.config.direct_io && p.config.serve_lookup_from_cache && p.config.filter_os_files);
    assert_eq!(p.config.metadata_ttl, Duration::from_secs(10));
    assert_eq!(p.config.inode_soft_limit, 1_000);
}

#[test]
fn repositories_are_mounted_read_only() {
    for backend in [Backend::Fuse, Backend::Nfs] {
        let p = plan(&options(), true, backend, 100, 200);
        assert!(p.config.read_only && !p.uploads && p.staging);
    }
}

#[test]
fn nfs_stages_its_writes_and_keeps_its_inodes() {
    let p = plan(&options(), false, Backend::Nfs, 100, 200);
    assert!(p.config.advanced_writes && p.staging && !p.config.direct_io);
    assert_eq!(p.config.inode_soft_limit, 0);
    let read_only = MountOptions { read_only: true, ..options() };
    assert!(!plan(&read_only, false, Backend::Nfs, 100, 200).config.advanced_writes);
    assert_eq!((Backend::Nfs.name(), Backend::Fuse.name()), ("nfs", "fuse"));
}

#[test]
fn the_limit_of_open_files_is_raised_as_far_as_allowed() {
    assert_eq!(raised_fd_limit(1024, 1_000_000), Some(65_536));
    assert_eq!(raised_fd_limit(1024, 4096), Some(4096));
    assert_eq!(raised_fd_limit(65_536, 1_000_000), None);
}

#[test]
fn sources_are_resolved_with_their_subfolder() {
    let bucket = Source::Bucket {
        bucket_id: "u/b/some/dir".to_string(),
        mount_point: "/mnt".to_string(),
    };
    assert_eq!((bucket.mount_point(), bucket.label().as_str()), ("/mnt", "bucket/u/b/some/dir"));
    match bucket.resolve() {
        Ok((SourceKind::Bucket { bucket_id }, prefix)) => {
            assert_eq!((bucket_id.as_str(), prefix.as_str()), ("u/b", "some/dir"));
        }
        other => panic!("{other:?}"),
    }
    let repo = Source::Repo {
        repo_id: "datasets/u/ds/train".to_string(),
        mount_point: "/mnt".to_string(),
        revision: "main".to_string(),
    };
    assert_eq!(repo.label(), "dataset/u/ds/train/main");
    match repo.resolve() {
        Ok((SourceKind::Repo { repo_id, repo_type, revision }, prefix)) => {
            assert_eq!(repo_id, "u/ds");
            assert_eq!(repo_type, RepoType::Dataset);
            assert_eq!((revision.as_str(), prefix.as_str()), ("main", "train"));
        }
        other => panic!("{other:?}"),
    }
    let bad = Source::Bucket { bucket_id: "u/b/../x".to_string(), mount_point: String::new() };
    assert_eq!(
        bad.resolve().unwrap_err(),
        "invalid bucket path: path prefix must not contain '.' or '..' components"
    );
}

#[test]
fn downloads_are_bounded_by_what_is_known() {
    let bounded = stream_plan(5, Some(9), Some(100));
    assert_eq!((bounded.range.start, bounded.range.end, bounded.cache_chunks), (5, 9, false));
    let whole = stream_plan(5, None, Some(100));
    assert_eq!((whole.range.start, whole.range.end, whole.cache_chunks), (5, 100, true));
    assert_eq!(stream_plan(5, None, None).range.end, u64::MAX);
}

#[test]
fn uploads_need_a_configuration() {
    assert!(check_uploads(true).is_ok());
    assert_eq!(
        check_uploads(false).unwrap_err().to_string(),
        "Hub API error: no upload config (read-only mode)"
    );
}

#[test]
fn staging_files_have_names_of_their_own() {
    let dir = StagingDir::new("/cache", 0xabc);
    assert_eq!(dir.root(), "/cache/staging");
    assert_eq!(dir.file_name(255), "ino_ff_0000000000000abc");
    assert_eq!(dir.path(255), "/cache/staging/ino_ff_0000000000000abc");
    assert_ne!(dir.path(1), dir.path(2));
    assert_ne!(dir.path(1), StagingDir::new("/cache", 0xabd).path(1));
    assert_eq!(StagingDir::new("/", 1).root(), "/staging");
    assert_eq!(dir.clone().path(255), dir.path(255));
    assert_eq!(parent_path(&dir.path(255)), dir.root());
}

#[test]
fn the_kernel_caches_what_can_be_read() {
    assert_eq!(page_cache(true, false, true), PageCache::Default);
    assert_eq!(page_cache(true, true, true), PageCache::Bypass);
    assert_eq!(page_cache(true, false, false), PageCache::Bypass);
    assert_eq!(page_cache(false, false, false), PageCache::Keep);
}

#[test]
fn modes_honour_the_umask() {
    assert_eq!(permission_bits(0o100_644), 0o644);
    assert_eq!(effective_mode(0o100_666, 0o022), 0o644);
    assert_eq!(effective_mode(0o4777, 0o077) as u32 & 0o077, 0);
}

#[test]
fn the_kernel_must_be_able_to_do_what_is_needed() {
    assert_eq!(check_kernel(false, true, true, false), Err(MissingCapability::AutoInvalidate));
    assert_eq!(check_kernel(true, false, false, false), Err(MissingCapability::AtomicTruncate));
    assert_eq!(check_kernel(true, false, true, false), Ok(()));
    assert_eq!(check_kernel(true, false, false, true), Ok(()));
}

#[test]
fn invalidation_stops_when_the_kernel_cannot_keep_up() {
    assert!(goes_on(Invalidation::Done));
    assert!(goes_on(Invalidation::Unknown));
    assert!(goes_on(Invalidation::Failed));
    assert!(!goes_on(Invalidation::Saturated));
    assert_eq!((reader_threads(0, 16), reader_threads(3, 16)), (16, 3));
    assert_eq!(STATFS_BLOCKS * STATFS_BLOCK_SIZE as u64, 42 << 50);
}

#[test]
fn errors_read_as_sentences() {
    assert_eq!(Error::hub("gone").to_string(), "Hub API error: gone");
    let e = Error::hub_status(404, "gone");
    assert!(e.has_status(404) && !e.has_status(500));
}

#[test]
fn text_is_taken_apart() {
    assert!(str_eq("\u{e4}b", "\u{e4}b") && !str_eq("a", "ab"));
    assert_eq!(strip_prefix("\u{e4}bc", "\u{e4}"), Some("bc"));
    assert_eq!(strip_prefix("abc", "b"), None);
    assert!(starts_with("abc", "ab"));
    assert_eq!(split_at_first("a/b/c", '/'), Some(("a", "b/c")));
    assert_eq!(split_at_last("a/b/c", '/'), Some(("a/b", "c")));
    assert_eq!(split_at_last("abc", '/'), None);
    assert_eq!((parent_path("a/b"), parent_path("a")), ("a", ""));
    assert_eq!(trim_end_char("a//", '/'), "a");
    assert_eq!(trim_char("\"a\"", '"'), "a");
    assert_eq!(trim(" \t\u{a0}\u{3000}a b\n"), "a b");
    assert_eq!(split("a,,b", ','), vec!["a", "", "b"]);
    assert!(contains("abcde", "cd") && !contains("abc", "ca") && contains("a", ""));
}

#[test]
fn numbers_are_read_and_written() {
    assert_eq!(parse_u64("+42"), Some(42));
    assert_eq!(parse_u64("18446744073709551615"), Some(u64::MAX));
    for bad in ["18446744073709551616", "", "+", "-1", "4 2"] {
        assert_eq!(parse_u64(bad), None, "{bad}");
    }
    assert_eq!((decimal_text(0).as_str(), decimal_text(1203).as_str()), ("0", "1203"));
    assert_eq!((hex_text(0).as_str(), hex_text(0xbeef).as_str()), ("0", "beef"));
    assert_eq!(hex_text_16(0xbeef), "000000000000beef");
    assert_eq!(Timestamp::unix_epoch(), Timestamp { secs: 0, nanos: 0 });
    assert_eq!(Duration::from_secs(2), Duration::from_millis(2_000));
}

#[test]
fn points_in_time_lie_on_both_sides_of_the_epoch() {
    let at = Timestamp::at_distance;
    assert_eq!(at(true, 3, 5), Timestamp { secs: 3, nanos: 5 });
    assert_eq!(at(false, 3, 0), Timestamp { secs: -3, nanos: 0 });
    assert_eq!(at(false, 3, 5), Timestamp { secs: -4, nanos: 999_999_995 });
    assert_eq!(at(true, u64::MAX, 0), Timestamp { secs: i64::MAX, nanos: 999_999_999 });
    assert_eq!(at(false, u64::MAX, 0), Timestamp { secs: i64::MIN, nanos: 0 });
}
