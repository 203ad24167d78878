use std::time::Instant;

use hf_mount::hub_api::TreeEntry;
use hf_mount::time::{Duration, Timestamp};
use hf_mount::virtual_fs::inode::{InodeKind, ROOT_INODE};
use hf_mount::virtual_fs::negative_cache::{entries_to_drop, fresh, NegativeCache};
use hf_mount::virtual_fs::poll::{apply_poll_diff, is_changed, poll_diff, read_listings};
use hf_mount::virtual_fs::sweep::{Sweep, SweepStep, SWEEP_LIMIT};
use hf_mount::virtual_fs::{Errno, VfsConfig, VirtualFs};

fn at(secs: i64) -> Timestamp {
    Timestamp { secs, nanos: 0 }
}

fn file(path: &str, size: u64, hash: &str) -> TreeEntry {
    TreeEntry {
        path: path.to_string(),
        entry_type: "file".to_string(),
        size: Some(size),
        xet_hash: Some(hash.to_string()),
        oid: None,
        mtime: Some("1970-01-01T00:01:00Z".to_string()),
    }
}

fn dir(path: &str) -> TreeEntry {
    TreeEntry {
        path: path.to_string(),
        entry_type: "directory".to_string(),
        size: None,
        xet_hash: None,
        oid: None,
        mtime: None,
    }
}

/// `a`, `b` and `d/`, in which there is `d/c`.
fn sample() -> VirtualFs {
    let config = VfsConfig {
        read_only: false,
        advanced_writes: true,
        uid: 1,
        gid: 2,
        poll_interval_secs: 30,
        metadata_ttl: Duration::from_secs(10),
        serve_lookup_from_cache: true,
        filter_os_files: true,
        direct_io: false,
        flush_debounce: Duration::from_millis(1),
        flush_max_batch_window: Duration::from_millis(2),
        inode_soft_limit: 3,
        lru_sweep_interval: Duration::from_millis(3),
    };
    let mut vfs = VirtualFs::new(config, at(1));
    let root = vec![file("a", 1, "ha"), file("b", 2, "hb"), dir("d")];
    vfs.apply_listing(ROOT_INODE, String::new(), &root, at(2), Instant::now())
        .unwrap();
    let d = ino(&vfs, "d");
    vfs.apply_listing(d, "d".to_string(), &vec![file("d/c", 3, "hc")], at(2), Instant::now())
        .unwrap();
    vfs
}

fn ino(vfs: &VirtualFs, path: &str) -> u64 {
    vfs.inodes.get_by_path(path).unwrap().inode
}

fn poll(vfs: &mut VirtualFs, listings: Vec<(String, Option<Vec<TreeEntry>>)>) -> Vec<u64> {
    let (entries, polled) = read_listings(&listings);
    let diff = poll_diff(&vfs.inodes.file_snapshot(), &entries, &polled, at(500));
    apply_poll_diff(&mut vfs.inodes, &mut vfs.negative, &diff, &entries, at(500))
}

#[test]
fn background_work_follows_the_configuration() {
    let mut vfs = sample();
    assert!(vfs.polls() && vfs.sweeps() && vfs.flushes_in_background());
    vfs.config.poll_interval_secs = 0;
    vfs.config.inode_soft_limit = 0;
    vfs.config.read_only = true;
    assert!(!vfs.polls() && !vfs.sweeps() && !vfs.flushes_in_background());
}

#[test]
fn nothing_happens_when_nothing_changed() {
    let mut vfs = sample();
    let stale = poll(
        &mut vfs,
        vec![
            (String::new(), Some(vec![file("a", 1, "ha"), file("b", 2, "hb"), dir("d")])),
            ("d".to_string(), Some(vec![file("d/c", 3, "hc")])),
        ],
    );
    assert!(stale.is_empty());
    assert!(vfs.inodes.is_children_loaded(ROOT_INODE));
}

#[test]
fn remote_changes_are_taken_over() {
    let mut vfs = sample();
    let (a, b) = (ino(&vfs, "a"), ino(&vfs, "b"));
    let stale = poll(
        &mut vfs,
        vec![(String::new(), Some(vec![file("a", 9, "new"), dir("d")]))],
    );
    assert_eq!(stale, vec![a, ROOT_INODE, b]);
    let entry = vfs.inodes.get(a).unwrap();
    assert_eq!((entry.size, entry.mtime), (9, at(60)));
    assert_eq!(entry.xet_hash.as_deref(), Some("new"));
    assert_eq!(vfs.attr(b), Err(Errno::ENOENT));
    assert!(vfs.inodes.get_by_path("d/c").is_some());
}

#[test]
fn local_changes_outlive_a_poll() {
    let mut vfs = sample();
    let a = ino(&vfs, "a");
    vfs.inodes.get_mut(a).unwrap().set_dirty();
    poll(&mut vfs, vec![(String::new(), Some(vec![file("b", 2, "hb"), dir("d")]))]);
    assert_eq!(ino(&vfs, "a"), a);
    poll(&mut vfs, vec![(String::new(), Some(vec![file("a", 9, "new"), file("b", 2, "hb"), dir("d")]))]);
    assert_eq!(vfs.inodes.get(a).unwrap().xet_hash.as_deref(), Some("ha"));
}

#[test]
fn a_deleted_file_that_is_open_loses_its_name_only() {
    let mut vfs = sample();
    let a = ino(&vfs, "a");
    vfs.open_local_readonly(a);
    poll(&mut vfs, vec![(String::new(), Some(vec![file("b", 2, "hb"), dir("d")]))]);
    assert!(vfs.inodes.lookup_child(ROOT_INODE, "a").is_none());
    assert_eq!(vfs.attr(a).unwrap().nlink, 0);
}

#[test]
fn new_entries_have_their_directory_listed_again() {
    let mut vfs = sample();
    let d = ino(&vfs, "d");
    vfs.negative.insert("d/new".to_string());
    vfs.negative.insert("other".to_string());
    let stale = poll(
        &mut vfs,
        vec![("d".to_string(), Some(vec![file("d/c", 3, "hc"), file("d/new", 1, "n")]))],
    );
    assert_eq!(stale, vec![d]);
    assert!(!vfs.inodes.is_children_loaded(d));
    assert!(vfs.inodes.is_children_loaded(ROOT_INODE));
    assert!(!vfs.negative.check("d/new"));
    assert!(vfs.negative.check("other"));
}

#[test]
fn a_failed_listing_tells_nothing_of_its_files() {
    let mut vfs = sample();
    let root = vec![file("a", 1, "ha"), file("b", 2, "hb"), dir("d")];
    poll(&mut vfs, vec![(String::new(), Some(root)), ("d".to_string(), None)]);
    assert!(vfs.inodes.get_by_path("d/c").is_some());
    let gone = vec![file("a", 1, "ha"), file("b", 2, "hb")];
    poll(&mut vfs, vec![("d".to_string(), None), (String::new(), Some(gone))]);
    assert!(vfs.inodes.get_by_path("d/c").is_none());
}

#[test]
fn nested_deletions_are_seen_through_failed_listings() {
    let (_, polled) = read_listings(&vec![
        ("x/y/z".to_string(), None),
        ("x/y".to_string(), None),
        ("x".to_string(), Some(vec![])),
        ("w/v".to_string(), None),
    ]);
    let mut sorted = polled.clone();
    sorted.sort();
    assert_eq!(sorted, vec!["x", "x/y", "x/y/z"]);
}

#[test]
fn content_is_told_apart_by_hash_before_etag() {
    let h = |s: &str| Some(s.to_string());
    assert!(!is_changed(&h("x"), &h("e"), &h("x"), &h("f")));
    assert!(is_changed(&h("x"), &h("e"), &None, &h("e")));
    assert!(is_changed(&None, &h("e"), &None, &h("f")));
    assert!(!is_changed(&None, &h("e"), &None, &h("e")));
}

#[test]
fn a_sweep_takes_what_was_not_used_for_the_longest_time() {
    let mut vfs = sample();
    let (a, b) = (ino(&vfs, "a"), ino(&vfs, "b"));
    let c = ino(&vfs, "d/c");
    assert!(vfs.sweep_candidates(5).is_empty());
    vfs.inodes.touch(a);
    vfs.inodes.touch(c);
    let oldest = vfs.sweep_candidates(4);
    assert_eq!(oldest, vec![(b, ROOT_INODE, "b".to_string())]);
    let evicted = vfs.sweep_evict(&[b, b, 999]);
    assert_eq!(evicted, vec![b]);
    assert_eq!(vfs.attr(b), Err(Errno::ENOENT));
    assert!(!vfs.inodes.is_children_loaded(ROOT_INODE));
}

#[test]
fn a_sweep_is_bounded() {
    let mut vfs = sample();
    for i in 0..1100u64 {
        vfs.inodes.insert(
            ROOT_INODE,
            format!("n{i}"),
            format!("n{i}"),
            InodeKind::File,
            1,
            Timestamp::unix_epoch(),
            None,
            0o644,
            0,
            0,
        );
    }
    assert_eq!(vfs.sweep_candidates(5).len(), SWEEP_LIMIT);
    assert_eq!(vfs.sweep_candidates(1100).len(), 5);
    let mut sweep = Sweep::new(vfs.sweep_candidates(5));
    let mut calls = 0;
    loop {
        let batch = sweep.batch();
        calls += batch;
        if sweep.batch_done(batch) == SweepStep::Evict {
            break;
        }
    }
    assert_eq!(calls, 1024);
}

#[test]
fn a_sweep_spares_what_would_be_lost() {
    let mut vfs = sample();
    let (a, b) = (ino(&vfs, "a"), ino(&vfs, "b"));
    vfs.inodes.get_mut(a).unwrap().set_dirty();
    vfs.open_local_readonly(b);
    assert!(vfs.sweep_evict(&[a, b, ROOT_INODE]).is_empty());
    assert!(vfs.attr(a).is_ok() && vfs.attr(b).is_ok());
}

#[test]
fn eviction_in_chunks_comes_to_the_same() {
    let mut one = sample();
    let mut two = sample();
    let (a, b) = (ino(&one, "a"), ino(&one, "b"));
    one.sweep_evict(&[a, b]);
    two.sweep_evict(&[a]);
    two.sweep_evict(&[b]);
    assert_eq!(one.inodes.len(), two.inodes.len());
    assert_eq!(
        one.inodes.get(ROOT_INODE).unwrap().children.len(),
        two.inodes.get(ROOT_INODE).unwrap().children.len()
    );
}

#[test]
fn names_are_invalidated_batch_by_batch() {
    let rows: Vec<(u64, u64, String)> = (0..70).map(|i| (i + 10, 1, format!("f{i}"))).collect();
    let mut sweep = Sweep::new(rows);
    assert_eq!(sweep.batch(), 64);
    assert_eq!(sweep.batch_done(64), SweepStep::Pause);
    assert_eq!(sweep.batch(), 6);
    assert_eq!(sweep.batch_done(3), SweepStep::Evict);
    let chunk = sweep.take_chunk();
    assert_eq!(chunk, (10..77).collect::<Vec<u64>>());
    assert!(sweep.take_chunk().is_empty());
}

#[test]
fn a_large_sweep_evicts_in_chunks() {
    let mut sweep = Sweep::new(Vec::new());
    sweep.to_evict = (0..5000).collect();
    assert_eq!(sweep.take_chunk().len(), 4096);
    assert_eq!(sweep.take_chunk(), (4096..5000).collect::<Vec<u64>>());
    assert!(sweep.take_chunk().is_empty());
}

#[test]
fn absent_names_hold_for_half_a_minute() {
    assert!(fresh(Duration::from_millis(29_999)));
    assert!(!fresh(Duration::from_secs(30)));
}

#[test]
fn room_is_made_among_the_expired_or_the_oldest() {
    let secs = |s: &[u64]| -> Vec<Duration> { s.iter().map(|x| Duration::from_secs(*x)).collect() };
    assert_eq!(entries_to_drop(&secs(&[1, 40, 2, 30])), vec![1, 3]);
    assert_eq!(entries_to_drop(&secs(&[1, 7, 2, 7])), vec![1]);
    let many: Vec<u64> = (0..200).map(|i| if i == 150 { 20 } else { 5 }).collect();
    assert_eq!(entries_to_drop(&secs(&many)), vec![0]);
    let expired = vec![60; 200];
    assert_eq!(entries_to_drop(&secs(&expired)).len(), 128);
}

#[test]
fn a_full_cache_makes_room_for_the_last_note() {
    let mut cache = NegativeCache::new();
    for i in 0..1000 {
        cache.insert(format!("p{i}"));
    }
    assert!(cache.check("p0"));
    cache.insert("last".to_string());
    assert!(cache.check("last"));
    assert!(!cache.check("p0"));
    assert!(cache.check("p1"));
    assert!(cache.check_at_age("p1", Duration::from_millis(29_999)));
    assert!(!cache.check_at_age("p1", Duration::from_secs(30)));
    cache.remove("p1");
    assert!(!cache.check("p1"));
    assert!(!cache.check_at_age("p1", Duration::from_secs(0)));
}

#[test]
fn a_noted_name_is_renewed_in_place() {
    let mut cache = NegativeCache::new();
    let then = Instant::now();
    cache.insert_aged("p".to_string(), then, &vec![]);
    assert_eq!(cache.found_at("p"), Some(then));
    let now = Instant::now();
    cache.insert_aged("p".to_string(), now, &vec![Duration::from_secs(1)]);
    assert_eq!(cache.found_at("p"), Some(now));
}

#[test]
fn pruning_covers_a_directory_and_what_is_below() {
    let mut cache = NegativeCache::new();
    for p in ["d", "d/x", "dx", "e"] {
        cache.insert(p.to_string());
    }
    cache.prune(&vec!["d".to_string()]);
    assert!(!cache.check("d") && !cache.check("d/x"));
    assert!(cache.check("dx") && cache.check("e"));
    cache.prune(&vec![String::new()]);
    assert!(!cache.check("dx") && !cache.check("e"));
}
