use std::time::Instant;

use hf_mount::hub_api::{BatchOp, HeadFileInfo, TreeEntry};
use hf_mount::time::{Duration, Timestamp};
use hf_mount::virtual_fs::inode::{InodeKind, ROOT_INODE};
use hf_mount::virtual_fs::lookup::LookupStep;
use hf_mount::virtual_fs::rename::rename_ops;
use hf_mount::virtual_fs::setattr::TruncateFill;
use hf_mount::virtual_fs::{is_os_junk, Errno, VfsConfig, VirtualFs};

fn config() -> VfsConfig {
    VfsConfig {
        read_only: false,
        advanced_writes: true,
        uid: 1000,
        gid: 100,
        poll_interval_secs: 30,
        metadata_ttl: Duration::from_secs(10),
        serve_lookup_from_cache: true,
        filter_os_files: true,
        direct_io: false,
        flush_debounce: Duration::from_millis(2_000),
        flush_max_batch_window: Duration::from_millis(30_000),
        inode_soft_limit: 0,
        lru_sweep_interval: Duration::from_millis(5_000),
    }
}

fn at(secs: i64) -> Timestamp {
    Timestamp { secs, nanos: 0 }
}

fn fresh(config: VfsConfig) -> VirtualFs {
    VirtualFs::new(config, at(100))
}

fn file(path: &str, size: u64, hash: &str) -> TreeEntry {
    TreeEntry {
        path: path.to_string(),
        entry_type: "file".to_string(),
        size: Some(size),
        xet_hash: Some(hash.to_string()),
        oid: Some(format!("oid-{hash}")),
        mtime: Some("1970-01-01T00:01:00Z".to_string()),
    }
}

fn dir(path: &str) -> TreeEntry {
    TreeEntry {
        path: path.to_string(),
        entry_type: "directory".to_string(),
        size: None,
        xet_hash: None,
        oid: None,
        mtime: None,
    }
}

fn list(vfs: &mut VirtualFs, ino: u64, entries: Vec<TreeEntry>) {
    let prefix = vfs.listing_needed(ino).unwrap().expect("not listed yet");
    vfs.apply_listing(ino, prefix, &entries, at(200), Instant::now()).unwrap();
}

fn child(vfs: &VirtualFs, parent: u64, name: &str) -> Option<u64> {
    vfs.inodes.lookup_child(parent, name).map(|e| e.inode)
}

/// `a.txt`, `docs/` with `docs/b.txt` and `docs/deep/` with `docs/deep/c.txt`.
fn sample(config: VfsConfig) -> VirtualFs {
    let mut vfs = fresh(config);
    list(&mut vfs, ROOT_INODE, vec![file("a.txt", 10, "ha"), dir("docs")]);
    let docs = child(&vfs, ROOT_INODE, "docs").unwrap();
    list(&mut vfs, docs, vec![file("docs/b.txt", 20, "hb"), dir("docs/deep")]);
    let deep = child(&vfs, docs, "deep").unwrap();
    list(&mut vfs, deep, vec![file("docs/deep/c.txt", 30, "hc")]);
    vfs
}

fn names(vfs: &VirtualFs, ino: u64) -> Vec<String> {
    let mut all: Vec<String> = vfs.readdir(ino).unwrap().into_iter().map(|e| e.name).collect();
    all.sort();
    all
}

#[test]
fn a_fresh_mount_has_a_root_of_its_own() {
    let vfs = fresh(config());
    let root = vfs.attr(ROOT_INODE).unwrap();
    assert_eq!(root.kind, InodeKind::Directory);
    assert_eq!((root.uid, root.gid), (1000, 100));
    assert_eq!((vfs.default_uid(), vfs.default_gid()), (1000, 100));
    assert_eq!(root.mtime, at(100));
    assert_eq!(root.nlink, 2);
    assert_eq!(vfs.attr(7), Err(Errno::ENOENT));
}

#[test]
fn listings_become_inodes() {
    let vfs = sample(config());
    assert_eq!(names(&vfs, ROOT_INODE), vec![".", "..", "a.txt", "docs"]);
    let a = child(&vfs, ROOT_INODE, "a.txt").unwrap();
    let attr = vfs.attr(a).unwrap();
    assert_eq!(attr.size, 10);
    assert_eq!(attr.blocks, 1);
    assert_eq!(attr.perm, 0o644);
    assert_eq!(attr.mtime, at(60));
    let docs = vfs.attr(child(&vfs, ROOT_INODE, "docs").unwrap()).unwrap();
    assert_eq!(docs.perm, 0o755);
    assert_eq!(docs.mtime, at(100));
    assert_eq!(docs.nlink, 3);
}

#[test]
fn nested_paths_stand_for_their_directory() {
    let mut vfs = fresh(config());
    list(&mut vfs, ROOT_INODE, vec![file("x/y/z.txt", 1, "h"), file("x/w.txt", 1, "h")]);
    assert_eq!(names(&vfs, ROOT_INODE), vec![".", "..", "x"]);
}

#[test]
fn a_listed_directory_is_not_listed_again() {
    let vfs = sample(config());
    assert_eq!(vfs.listing_needed(ROOT_INODE), Ok(None));
    let a = child(&vfs, ROOT_INODE, "a.txt").unwrap();
    assert_eq!(vfs.listing_needed(a), Err(Errno::ENOTDIR));
    assert_eq!(vfs.listing_needed(999), Err(Errno::ENOENT));
}

#[test]
fn a_new_listing_drops_what_is_gone_and_clean() {
    let mut vfs = sample(config());
    vfs.inodes.invalidate_children(ROOT_INODE);
    list(&mut vfs, ROOT_INODE, vec![dir("docs")]);
    assert_eq!(names(&vfs, ROOT_INODE), vec![".", "..", "docs"]);
}

#[test]
fn a_new_listing_keeps_what_is_dirty() {
    let mut vfs = sample(config());
    let a = child(&vfs, ROOT_INODE, "a.txt").unwrap();
    vfs.inodes.get_mut(a).unwrap().set_dirty();
    vfs.inodes.invalidate_children(ROOT_INODE);
    list(&mut vfs, ROOT_INODE, vec![]);
    assert_eq!(child(&vfs, ROOT_INODE, "a.txt"), Some(a));
}

#[test]
fn a_new_listing_keeps_directories_with_open_files() {
    let mut vfs = sample(config());
    let docs = child(&vfs, ROOT_INODE, "docs").unwrap();
    let deep = child(&vfs, docs, "deep").unwrap();
    let c = child(&vfs, deep, "c.txt").unwrap();
    vfs.open_local_readonly(c);
    vfs.inodes.invalidate_children(ROOT_INODE);
    list(&mut vfs, ROOT_INODE, vec![]);
    assert_eq!(child(&vfs, ROOT_INODE, "docs"), Some(docs));
    assert_eq!(child(&vfs, ROOT_INODE, "a.txt"), None);
}

#[test]
fn lookups_of_known_files_are_checked() {
    let mut vfs = sample(config());
    let a = child(&vfs, ROOT_INODE, "a.txt").unwrap();
    match vfs.lookup(ROOT_INODE, "a.txt").unwrap() {
        LookupStep::Revalidate { ino, full_path, hash, etag } => {
            assert_eq!(ino, a);
            assert_eq!(full_path, "a.txt");
            assert_eq!(hash.as_deref(), Some("ha"));
            assert_eq!(etag.as_deref(), Some("oid-ha"));
        }
        other => panic!("{other:?}"),
    }
    assert!(matches!(vfs.lookup(ROOT_INODE, "docs"), Ok(LookupStep::Found(_))));
    assert!(matches!(vfs.lookup(a, "x"), Err(Errno::ENOTDIR)));
    assert!(matches!(vfs.lookup(999, "x"), Err(Errno::ENOENT)));
}

#[test]
fn names_that_do_not_exist_are_remembered() {
    let mut vfs = sample(config());
    assert!(matches!(vfs.lookup(ROOT_INODE, "nope"), Err(Errno::ENOENT)));
    assert!(vfs.negative.found_at("nope").is_some());
    assert!(vfs.negative.check("nope"));
    assert!(!vfs.negative.check("other"));
}

#[test]
fn absent_names_are_not_asked_about_again_until_they_lapse() {
    let mut vfs = fresh(config());
    assert!(matches!(vfs.lookup(ROOT_INODE, "gone"), Ok(LookupStep::Ask(_))));
    vfs.negative.insert("gone".to_string());
    assert!(matches!(vfs.lookup(ROOT_INODE, "gone"), Err(Errno::ENOENT)));
    let held = vfs.lookup_at_age(ROOT_INODE, "gone", Duration::from_millis(29_999));
    assert!(matches!(held, Err(Errno::ENOENT)));
    match vfs.lookup_at_age(ROOT_INODE, "gone", Duration::from_secs(30)) {
        Ok(LookupStep::Ask(path)) => assert_eq!(path, "gone"),
        other => panic!("{other:?}"),
    }
    let other = vfs.lookup_at_age(ROOT_INODE, "other", Duration::from_secs(0));
    assert!(matches!(other, Ok(LookupStep::Ask(_))));
}

#[test]
fn unlisted_directories_are_asked_about() {
    let mut vfs = fresh(config());
    match vfs.lookup(ROOT_INODE, "new.bin") {
        Ok(LookupStep::Ask(path)) => assert_eq!(path, "new.bin"),
        other => panic!("{other:?}"),
    }
    let head = HeadFileInfo {
        xet_hash: Some("h".to_string()),
        etag: Some("e".to_string()),
        size: Some(7),
        last_modified: Some("Thu, 01 Jan 1970 00:00:05 GMT".to_string()),
    };
    let attr = vfs
        .lookup_asked(ROOT_INODE, "new.bin", "new.bin".to_string(), Some(head), at(300), Instant::now())
        .expect("the size is known")
        .unwrap();
    assert_eq!(attr.size, 7);
    assert_eq!(attr.mtime, at(5));
    assert!(!vfs.inodes.is_children_loaded(ROOT_INODE));
    let sizeless = HeadFileInfo { xet_hash: None, etag: None, size: None, last_modified: None };
    let r = vfs.lookup_asked(ROOT_INODE, "x", "x".to_string(), Some(sizeless), at(300), Instant::now());
    assert!(r.is_none());
}

#[test]
fn a_changed_file_is_taken_over() {
    let mut vfs = sample(config());
    let a = child(&vfs, ROOT_INODE, "a.txt").unwrap();
    let head = HeadFileInfo {
        xet_hash: Some("new".to_string()),
        etag: Some("etag".to_string()),
        size: Some(99),
        last_modified: None,
    };
    let stale = vfs.revalidate_file(
        a,
        &Some("ha".to_string()),
        &Some("oid-ha".to_string()),
        Some(head),
        at(300),
        Instant::now(),
    );
    assert_eq!(stale, vec![a]);
    assert_eq!(vfs.attr(a).unwrap().size, 99);
    assert_eq!(vfs.inodes.get(a).unwrap().xet_hash.as_deref(), Some("new"));
    let gone = vfs.revalidate_file(a, &None, &None, None, at(300), Instant::now());
    assert_eq!(gone, vec![ROOT_INODE, a]);
    assert_eq!(vfs.attr(a), Err(Errno::ENOENT));
}

#[test]
fn checks_are_due_by_age() {
    let mut vfs = sample(config());
    let a = child(&vfs, ROOT_INODE, "a.txt").unwrap();
    assert!(!vfs.due_at_age(a, Duration::from_secs(9)));
    assert!(vfs.due_at_age(a, Duration::from_secs(10)));
    assert!(vfs.due_at_age(999, Duration::from_secs(0)));
    assert!(!vfs.revalidation_due(a));
    vfs.config.serve_lookup_from_cache = false;
    assert!(vfs.due_at_age(a, Duration::from_secs(0)));
    assert!(vfs.revalidation_due(a));
}

#[test]
fn created_files_are_dirty_and_found() {
    let mut vfs = sample(config());
    let made = vfs.create(ROOT_INODE, "n.txt", 0o640, 5, 6, at(300), Instant::now()).unwrap();
    assert_eq!(made.full_path, "n.txt");
    assert_eq!(child(&vfs, ROOT_INODE, "n.txt"), Some(made.ino));
    let entry = vfs.inodes.get(made.ino).unwrap();
    assert!(entry.is_dirty());
    assert_eq!(entry.mode, 0o640);
    let (attr, fh) = vfs.created_local(made.ino).unwrap();
    assert_eq!((attr.ino, fh), (made.ino, 1));
    assert_eq!(vfs.attr(ROOT_INODE).unwrap().mtime, at(300));
    assert_eq!(
        vfs.create(ROOT_INODE, "n.txt", 0o640, 5, 6, at(300), Instant::now()).err(),
        Some(Errno::EEXIST)
    );
    let a = child(&vfs, ROOT_INODE, "a.txt").unwrap();
    assert_eq!(
        vfs.create(a, "x", 0o640, 5, 6, at(300), Instant::now()).err(),
        Some(Errno::ENOTDIR)
    );
}

#[test]
fn directories_and_symlinks_can_be_made() {
    let mut vfs = sample(config());
    let d = vfs.mkdir(ROOT_INODE, "d", 0o700, 5, 6, at(300), Instant::now()).unwrap();
    assert_eq!(d.kind, InodeKind::Directory);
    assert_eq!(vfs.listing_needed(d.ino), Ok(None));
    assert_eq!(vfs.attr(ROOT_INODE).unwrap().nlink, 4);
    let l = vfs
        .symlink(d.ino, "l", "../a.txt", 0o777, 5, 6, at(300), Instant::now())
        .unwrap();
    assert_eq!(l.kind, InodeKind::Symlink);
    assert_eq!(l.perm, 0o777);
    assert_eq!(vfs.readlink(l.ino).unwrap(), "../a.txt");
    assert_eq!(vfs.readlink(d.ino), Err(Errno::EINVAL));
    assert_eq!(vfs.readlink(999), Err(Errno::ENOENT));
    assert_eq!(vfs.link(l.ino, ROOT_INODE, "hard"), Err(Errno::ENOTSUP));
}

#[test]
fn read_only_mounts_change_nothing() {
    let mut vfs = sample(VfsConfig { read_only: true, ..config() });
    assert_eq!(vfs.may_change(), Err(Errno::EROFS));
    assert_eq!(vfs.may_create("x"), Err(Errno::EROFS));
    assert_eq!(vfs.rename(ROOT_INODE, "a.txt", ROOT_INODE, "b.txt"), Err(Errno::EROFS));
    let a = child(&vfs, ROOT_INODE, "a.txt").unwrap();
    assert_eq!(vfs.setattr_check(a, None), Err(Errno::EROFS));
    assert_eq!(vfs.attr(a).unwrap().perm, 0o444);
    assert_eq!(vfs.attr(ROOT_INODE).unwrap().perm, 0o555);
    assert_eq!(vfs.getattr(a).unwrap().ino, a);
}

#[test]
fn junk_is_kept_out() {
    for name in [".DS_Store", "._x", "Thumbs.db", "desktop.ini", "__MACOSX", ".Trashes"] {
        assert!(is_os_junk(name), "{name}");
    }
    assert!(!is_os_junk("DS_Store"));
    let mut vfs = fresh(config());
    assert_eq!(vfs.may_create(".DS_Store"), Err(Errno::EACCES));
    assert_eq!(vfs.rename(ROOT_INODE, "a", ROOT_INODE, "._a"), Err(Errno::EACCES));
    vfs.config.filter_os_files = false;
    assert_eq!(vfs.may_create(".DS_Store"), Ok(()));
}

#[test]
fn unlinked_files_stay_for_those_who_have_them_open() {
    let mut vfs = sample(config());
    let a = child(&vfs, ROOT_INODE, "a.txt").unwrap();
    let fh = vfs.open_local_readonly(a);
    let info = vfs.unlink_check(ROOT_INODE, "a.txt").unwrap();
    assert_eq!((info.ino, info.full_path.as_str()), (a, "a.txt"));
    assert!(info.needs_remote_delete);
    assert!(vfs.unlink(ROOT_INODE, "a.txt", a, at(300)));
    assert_eq!(child(&vfs, ROOT_INODE, "a.txt"), None);
    assert_eq!(vfs.attr(a).unwrap().nlink, 0);
    vfs.release(fh);
    assert!(vfs.release_finish(fh, a));
    assert_eq!(vfs.attr(a), Err(Errno::ENOENT));
}

#[test]
fn unlinking_refuses_directories_and_strangers() {
    let vfs = sample(config());
    assert_eq!(vfs.unlink_check(ROOT_INODE, "docs").err(), Some(Errno::EISDIR));
    assert_eq!(vfs.unlink_check(ROOT_INODE, "nope").err(), Some(Errno::ENOENT));
    assert_eq!(vfs.rmdir_check(ROOT_INODE, "a.txt"), Err(Errno::ENOTDIR));
    assert_eq!(vfs.rmdir_check(ROOT_INODE, "nope"), Err(Errno::ENOENT));
}

#[test]
fn only_empty_directories_are_removed() {
    let mut vfs = sample(config());
    let docs = child(&vfs, ROOT_INODE, "docs").unwrap();
    assert_eq!(vfs.rmdir_check(ROOT_INODE, "docs"), Err(Errno::ENOTEMPTY));
    assert_eq!(vfs.rmdir(ROOT_INODE, docs, at(300)), Err(Errno::ENOTEMPTY));
    let d = vfs.mkdir(ROOT_INODE, "d", 0o700, 5, 6, at(300), Instant::now()).unwrap();
    assert_eq!(vfs.rmdir_check(ROOT_INODE, "d"), Ok(d.ino));
    assert_eq!(vfs.rmdir(ROOT_INODE, d.ino, at(400)), Ok(()));
    assert_eq!(child(&vfs, ROOT_INODE, "d"), None);
    assert_eq!(vfs.attr(ROOT_INODE).unwrap().mtime, at(400));
    assert_eq!(vfs.rmdir(ROOT_INODE, d.ino, at(400)), Err(Errno::ENOENT));
}

fn paths(ops: &[BatchOp]) -> Vec<String> {
    ops.iter()
        .map(|op| match op {
            BatchOp::AddFile { path, xet_hash, .. } => format!("+{path}={xet_hash}"),
            BatchOp::DeleteFile { path } => format!("-{path}"),
        })
        .collect()
}

#[test]
fn renaming_a_file_adds_it_and_deletes_it() {
    let mut vfs = sample(config());
    let a = child(&vfs, ROOT_INODE, "a.txt").unwrap();
    let docs = child(&vfs, ROOT_INODE, "docs").unwrap();
    assert_eq!(vfs.rename(ROOT_INODE, "a.txt", docs, "a2.txt"), Ok(true));
    let info = vfs.rename_validate(ROOT_INODE, "a.txt", docs, "a2.txt", false).unwrap();
    assert_eq!(info.new_full_path, "docs/a2.txt");
    let ops = rename_ops(&info, 77).unwrap();
    assert_eq!(paths(&ops), vec!["+docs/a2.txt=ha", "-a.txt"]);
    let gone = vfs
        .rename_apply_local(&info, ROOT_INODE, "a.txt", docs, "a2.txt", false, at(300))
        .unwrap();
    assert_eq!(gone, None);
    assert_eq!(child(&vfs, docs, "a2.txt"), Some(a));
    assert_eq!(child(&vfs, ROOT_INODE, "a.txt"), None);
    assert_eq!(vfs.inodes.get_by_path("docs/a2.txt").unwrap().inode, a);
    assert!(vfs.inodes.get_by_path("a.txt").is_none());
    assert_eq!(vfs.attr(a).unwrap().ctime, at(300));
}

#[test]
fn renaming_a_directory_takes_everything_along() {
    let mut vfs = sample(config());
    let docs = child(&vfs, ROOT_INODE, "docs").unwrap();
    let info = vfs.rename_validate(ROOT_INODE, "docs", ROOT_INODE, "papers", false).unwrap();
    let ops = rename_ops(&info, 77).unwrap();
    assert_eq!(
        paths(&ops),
        vec![
            "+papers/b.txt=hb",
            "+papers/deep/c.txt=hc",
            "-docs/b.txt",
            "-docs/deep/c.txt",
        ]
    );
    vfs.rename_apply_local(&info, ROOT_INODE, "docs", ROOT_INODE, "papers", false, at(300))
        .unwrap();
    assert_eq!(child(&vfs, ROOT_INODE, "papers"), Some(docs));
    assert!(vfs.inodes.get_by_path("papers/deep/c.txt").is_some());
    assert!(vfs.inodes.get_by_path("docs/deep/c.txt").is_none());
    assert!(vfs.inodes.get_by_path("docs").is_none());
}

#[test]
fn dirty_files_keep_a_note_of_the_path_they_leave() {
    let mut vfs = sample(config());
    let docs = child(&vfs, ROOT_INODE, "docs").unwrap();
    let b = child(&vfs, docs, "b.txt").unwrap();
    vfs.inodes.get_mut(b).unwrap().set_dirty();
    let info = vfs.rename_validate(ROOT_INODE, "docs", ROOT_INODE, "papers", false).unwrap();
    assert_eq!(paths(&rename_ops(&info, 1).unwrap()), vec!["+papers/deep/c.txt=hc", "-docs/deep/c.txt"]);
    vfs.rename_apply_local(&info, ROOT_INODE, "docs", ROOT_INODE, "papers", false, at(300))
        .unwrap();
    assert_eq!(vfs.inodes.get(b).unwrap().pending_deletes, vec!["docs/b.txt".to_string()]);
    let single = vfs.rename_validate(docs, "b.txt", ROOT_INODE, "b.txt", false).unwrap();
    assert!(rename_ops(&single, 1).is_none());
    vfs.rename_apply_local(&single, docs, "b.txt", ROOT_INODE, "b.txt", false, at(301)).unwrap();
    assert_eq!(
        vfs.inodes.get(b).unwrap().pending_deletes,
        vec!["docs/b.txt".to_string(), "papers/b.txt".to_string()]
    );
}

#[test]
fn renames_are_refused_where_they_make_no_sense() {
    let mut vfs = sample(config());
    let docs = child(&vfs, ROOT_INODE, "docs").unwrap();
    let deep = child(&vfs, docs, "deep").unwrap();
    let d = vfs.mkdir(ROOT_INODE, "d", 0o700, 5, 6, at(300), Instant::now()).unwrap();
    let err = |r: Result<_, Errno>| -> Errno {
        match r {
            Ok(_) => panic!("the rename is accepted"),
            Err(e) => e,
        }
    };
    assert_eq!(err(vfs.rename_validate(ROOT_INODE, "no", docs, "x", false)), Errno::ENOENT);
    assert_eq!(err(vfs.rename_validate(ROOT_INODE, "a.txt", 999, "x", false)), Errno::ENOENT);
    assert_eq!(err(vfs.rename_validate(ROOT_INODE, "docs", deep, "x", false)), Errno::EINVAL);
    assert_eq!(err(vfs.rename_validate(ROOT_INODE, "docs", docs, "x", false)), Errno::EINVAL);
    assert_eq!(err(vfs.rename_validate(ROOT_INODE, "a.txt", ROOT_INODE, "docs", false)), Errno::EISDIR);
    assert_eq!(err(vfs.rename_validate(ROOT_INODE, "d", ROOT_INODE, "a.txt", false)), Errno::ENOTDIR);
    assert_eq!(err(vfs.rename_validate(ROOT_INODE, "d", ROOT_INODE, "docs", false)), Errno::ENOTEMPTY);
    assert_eq!(err(vfs.rename_validate(ROOT_INODE, "a.txt", docs, "b.txt", true)), Errno::EEXIST);
    assert!(vfs.rename_validate(ROOT_INODE, "docs", ROOT_INODE, "d", false).is_ok());
    assert_eq!(vfs.rename(ROOT_INODE, "d", ROOT_INODE, "d"), Ok(false));
    assert_eq!(vfs.named_dir(ROOT_INODE, "d"), Some(d.ino));
    assert_eq!(vfs.named_dir(ROOT_INODE, "a.txt"), None);
}

#[test]
fn a_rename_ends_where_there_is_no_cycle() {
    let mut vfs = sample(config());
    let docs = child(&vfs, ROOT_INODE, "docs").unwrap();
    let deep = child(&vfs, docs, "deep").unwrap();
    assert!(vfs.rename_can_start(ROOT_INODE, "docs"));
    assert!(vfs.rename_can_start(ROOT_INODE, "no"));
    let info = vfs.rename_validate(ROOT_INODE, "docs", ROOT_INODE, "papers", false).unwrap();
    assert!(vfs.rename_can_finish(&info, ROOT_INODE));
    assert!(!vfs.rename_can_finish(&info, deep));
    assert!(!vfs.rename_can_finish(&info, docs));
    vfs.inodes.move_child(docs, ROOT_INODE, "none", deep, "loop");
    assert!(!vfs.rename_can_start(ROOT_INODE, "docs"));
    assert!(!vfs.inodes.is_clear(docs, None));
    assert!(!vfs.rename_can_finish(&info, ROOT_INODE));
}

#[test]
fn a_rename_replaces_what_is_in_its_way() {
    let mut vfs = sample(config());
    let docs = child(&vfs, ROOT_INODE, "docs").unwrap();
    let a = child(&vfs, ROOT_INODE, "a.txt").unwrap();
    let b = child(&vfs, docs, "b.txt").unwrap();
    let info = vfs.rename_validate(ROOT_INODE, "a.txt", docs, "b.txt", false).unwrap();
    assert!(!vfs.rename_is_same(&info, docs, "b.txt"));
    let gone = vfs
        .rename_apply_local(&info, ROOT_INODE, "a.txt", docs, "b.txt", false, at(300))
        .unwrap();
    assert_eq!(gone, Some(b));
    assert_eq!(child(&vfs, docs, "b.txt"), Some(a));
    assert_eq!(vfs.attr(b), Err(Errno::ENOENT));
}

#[test]
fn a_replaced_file_that_is_open_lives_on_without_a_name() {
    let mut vfs = sample(config());
    let docs = child(&vfs, ROOT_INODE, "docs").unwrap();
    let b = child(&vfs, docs, "b.txt").unwrap();
    vfs.open_local_readonly(b);
    let info = vfs.rename_validate(ROOT_INODE, "a.txt", docs, "b.txt", false).unwrap();
    let gone = vfs
        .rename_apply_local(&info, ROOT_INODE, "a.txt", docs, "b.txt", false, at(300))
        .unwrap();
    assert_eq!(gone, None);
    assert_eq!(vfs.attr(b).unwrap().nlink, 0);
}

#[test]
fn a_source_that_is_gone_counts_as_renamed_once_the_remote_is() {
    let mut vfs = sample(config());
    let docs = child(&vfs, ROOT_INODE, "docs").unwrap();
    let a = child(&vfs, ROOT_INODE, "a.txt").unwrap();
    let info = vfs.rename_validate(ROOT_INODE, "a.txt", docs, "x.txt", false).unwrap();
    vfs.unlink(ROOT_INODE, "a.txt", a, at(300));
    let e = vfs
        .rename_apply_local(&info, ROOT_INODE, "a.txt", docs, "x.txt", false, at(300))
        .unwrap_err();
    assert_eq!(e, Errno::ENOENT);
    assert_eq!(vfs.rename_failed(e, false, ROOT_INODE, docs), Err(Errno::ENOENT));
    assert!(vfs.inodes.is_children_loaded(docs));
    assert_eq!(vfs.rename_failed(e, true, ROOT_INODE, docs), Ok(()));
    assert!(!vfs.inodes.is_children_loaded(docs));
    assert!(!vfs.inodes.is_children_loaded(ROOT_INODE));
    assert_eq!(vfs.rename_failed(Errno::EEXIST, true, ROOT_INODE, docs), Err(Errno::EEXIST));
}

#[test]
fn truncation_goes_through_the_staging_file() {
    let mut vfs = sample(config());
    let a = child(&vfs, ROOT_INODE, "a.txt").unwrap();
    let docs = child(&vfs, ROOT_INODE, "docs").unwrap();
    assert_eq!(vfs.setattr_check(a, Some(4)), Ok(Some(4)));
    assert_eq!(vfs.setattr_check(a, None), Ok(None));
    assert_eq!(vfs.setattr_check(docs, Some(4)), Err(Errno::EISDIR));
    assert_eq!(vfs.setattr_check(999, Some(4)), Err(Errno::ENOENT));
    match vfs.truncate_fill(a, 4, false).unwrap() {
        TruncateFill::Download { xet_hash, size } => assert_eq!((xet_hash.as_str(), size), ("ha", 10)),
        other => panic!("{other:?}"),
    }
    assert!(matches!(vfs.truncate_fill(a, 4, true), Ok(TruncateFill::Keep)));
    assert!(matches!(vfs.truncate_fill(a, 0, false), Ok(TruncateFill::Keep)));
    assert!(matches!(vfs.truncate_fill(999, 4, false), Err(Errno::ENOENT)));
    vfs.truncated(a, 4, at(300));
    let entry = vfs.inodes.get(a).unwrap();
    assert_eq!((entry.size, entry.mtime), (4, at(300)));
    assert!(entry.is_dirty());
    assert_eq!(entry.xet_hash.as_deref(), Some("ha"));
    vfs.truncated(a, 0, at(301));
    assert_eq!(vfs.inodes.get(a).unwrap().xet_hash, None);
    assert!(matches!(vfs.truncate_fill(a, 4, false), Ok(TruncateFill::Create)));
    vfs.config.advanced_writes = false;
    assert_eq!(vfs.setattr_check(a, Some(4)), Ok(None));
}

#[test]
fn attributes_change_one_by_one() {
    let mut vfs = sample(config());
    let a = child(&vfs, ROOT_INODE, "a.txt").unwrap();
    let before = vfs.attr(a).unwrap();
    let same = vfs.setattr(a, None, None, None, None, None, at(300)).unwrap();
    assert_eq!(same, before);
    let after = vfs
        .setattr(a, Some(0o600), Some(1), None, Some(at(7)), Some(at(8)), at(300))
        .unwrap();
    assert_eq!((after.perm, after.uid, after.gid), (0o600, 1, before.gid));
    assert_eq!((after.atime, after.mtime, after.ctime), (at(7), at(8), at(300)));
    assert_eq!(
        vfs.setattr(999, Some(0o600), None, None, None, None, at(300)),
        Err(Errno::ENOENT)
    );
}

#[test]
fn directories_are_pinned_while_open() {
    let mut vfs = sample(config());
    let docs = child(&vfs, ROOT_INODE, "docs").unwrap();
    let a = child(&vfs, ROOT_INODE, "a.txt").unwrap();
    let fh = vfs.opendir(docs).unwrap();
    assert_eq!(fh, 1);
    assert!(vfs.inodes.has_open_handles(docs));
    vfs.releasedir(docs);
    assert!(!vfs.inodes.has_open_handles(docs));
    assert_eq!(vfs.opendir(a), Err(Errno::ENOTDIR));
    assert_eq!(vfs.opendir(999), Err(Errno::ENOENT));
}

#[test]
fn forgotten_files_are_evicted_and_listed_again() {
    let mut vfs = sample(config());
    let a = child(&vfs, ROOT_INODE, "a.txt").unwrap();
    vfs.bump_nlookup(a);
    vfs.bump_nlookup(a);
    assert!(!vfs.forget(a, 1));
    assert!(vfs.forget(a, 1));
    assert_eq!(vfs.attr(a), Err(Errno::ENOENT));
    assert!(!vfs.inodes.is_children_loaded(ROOT_INODE));
}

#[test]
fn an_open_file_is_evicted_when_it_is_closed() {
    let mut vfs = sample(config());
    let a = child(&vfs, ROOT_INODE, "a.txt").unwrap();
    vfs.bump_nlookup(a);
    let fh = vfs.open_local_readonly(a);
    assert!(!vfs.forget(a, 1));
    assert!(vfs.attr(a).is_ok());
    vfs.release(fh);
    assert!(vfs.release_finish(fh, a));
    assert_eq!(vfs.attr(a), Err(Errno::ENOENT));
}

#[test]
fn a_dirty_file_is_never_evicted() {
    let mut vfs = sample(config());
    let a = child(&vfs, ROOT_INODE, "a.txt").unwrap();
    vfs.inodes.get_mut(a).unwrap().set_dirty();
    vfs.bump_nlookup(a);
    assert!(!vfs.forget(a, 1));
    assert!(vfs.attr(a).is_ok());
}
