//! The inode table.
use hf_mount::time::Timestamp;
use hf_mount::virtual_fs::inode::{InodeKind, InodeTable, ROOT_INODE};


#[test]
fn test_insert_and_lookup() {
    let mut table = InodeTable::new(0);

    let ino = table.insert(
        ROOT_INODE,
        "hello.txt".to_string(),
        "hello.txt".to_string(),
        InodeKind::File,
        42,
        Timestamp::unix_epoch(),
        Some("abc123".to_string()),
        0o644,
        0,
        0,
    );

    // Lookup by child name from root
    let found = table.lookup_child(ROOT_INODE, "hello.txt");
    assert!(found.is_some(), "should find child by name");
    let found = found.unwrap();
    assert_eq!(found.inode, ino);
    assert_eq!(found.name.as_str(), "hello.txt");
    assert_eq!(found.full_path.as_str(), "hello.txt");
    assert_eq!(found.kind, InodeKind::File);
    assert_eq!(found.size, 42);
    assert_eq!(found.xet_hash, Some("abc123".to_string()));

    // Also verify get and get_by_path
    assert!(table.get(ino).is_some());
    assert!(table.get_by_path("hello.txt").is_some());
    assert_eq!(table.get_by_path("hello.txt").unwrap().inode, ino);

    // Non-existent lookup returns None
    assert!(table.lookup_child(ROOT_INODE, "missing.txt").is_none());
}

#[test]
fn test_dirty_flag() {
    let mut table = InodeTable::new(0);

    let ino = table.insert(
        ROOT_INODE,
        "data.bin".to_string(),
        "data.bin".to_string(),
        InodeKind::File,
        0,
        Timestamp::unix_epoch(),
        None,
        0o644,
        0,
        0,
    );

    // Newly inserted inodes are not dirty
    assert!(!table.get(ino).unwrap().is_dirty());

    // Set dirty (advances generation)
    table.get_mut(ino).unwrap().set_dirty();
    assert!(table.get(ino).unwrap().is_dirty());
    let dirty_gen = table.get(ino).unwrap().dirty_generation;
    assert_eq!(dirty_gen, 1);

    // Clear dirty with matching generation
    assert!(table.get_mut(ino).unwrap().clear_dirty_if(dirty_gen));
    assert!(!table.get(ino).unwrap().is_dirty());

    // Set dirty twice, clear with stale generation fails
    table.get_mut(ino).unwrap().set_dirty(); // gen=1
    table.get_mut(ino).unwrap().set_dirty(); // gen=2
    assert_eq!(table.get(ino).unwrap().dirty_generation, 2);
    assert!(!table.get_mut(ino).unwrap().clear_dirty_if(1)); // stale snapshot
    assert!(table.get(ino).unwrap().is_dirty()); // still dirty
}

#[test]
fn apply_commit_clears_dirty_and_updates_metadata() {
    let mut table = InodeTable::new(0);
    let ino = table.insert(
        ROOT_INODE,
        "test".to_string(),
        "test".to_string(),
        InodeKind::File,
        100,
        Timestamp::unix_epoch(),
        Some("old_hash".to_string()),
        0o644,
        0,
        0,
    );
    let entry = table.get_mut(ino).unwrap();
    entry.set_dirty();
    entry.pending_deletes.push("old_path".to_string());
    let snap = entry.dirty_generation;

    entry.apply_commit("new_hash", 200, snap);

    assert!(!entry.is_dirty());
    assert_eq!(entry.xet_hash.as_deref(), Some("new_hash"));
    assert_eq!(entry.size, 200);
    assert!(entry.pending_deletes.is_empty());
    assert!(entry.mtime > Timestamp::unix_epoch());
}

#[test]
fn apply_commit_preserves_state_on_generation_mismatch() {
    let mut table = InodeTable::new(0);
    let ino = table.insert(
        ROOT_INODE,
        "test".to_string(),
        "test".to_string(),
        InodeKind::File,
        100,
        Timestamp::unix_epoch(),
        Some("old_hash".to_string()),
        0o644,
        0,
        0,
    );
    let entry = table.get_mut(ino).unwrap();
    entry.set_dirty(); // gen=1
    entry.pending_deletes.push("old_path".to_string());
    entry.set_dirty(); // gen=2 (simulates concurrent writer)

    entry.apply_commit("new_hash", 200, 1); // stale snapshot

    // Generation mismatch: dirty stays, and size/hash must NOT be overwritten
    // (a concurrent writer may have newer content in staging).
    assert!(entry.is_dirty());
    assert_eq!(
        entry.xet_hash.as_deref(),
        Some("old_hash"),
        "hash should not be clobbered by stale flush"
    );
    assert_eq!(entry.size, 100, "size should not be clobbered by stale flush");
    assert_eq!(entry.pending_deletes.len(), 1, "pending_deletes should be preserved");
}

#[test]
fn set_dirty_saturates() {
    let mut table = InodeTable::new(0);
    let ino = table.insert(
        ROOT_INODE,
        "test".to_string(),
        "test".to_string(),
        InodeKind::File,
        0,
        Timestamp::unix_epoch(),
        None,
        0o644,
        0,
        0,
    );
    let entry = table.get_mut(ino).unwrap();
    entry.dirty_generation = u64::MAX;
    entry.set_dirty();
    assert_eq!(entry.dirty_generation, u64::MAX); // saturated, not wrapped to 0
    assert!(entry.is_dirty());
}

#[test]
fn test_remove() {
    let mut table = InodeTable::new(0);

    let ino = table.insert(
        ROOT_INODE,
        "remove_me.txt".to_string(),
        "remove_me.txt".to_string(),
        InodeKind::File,
        100,
        Timestamp::unix_epoch(),
        None,
        0o644,
        0,
        0,
    );

    // Verify it exists in parent's children
    let root = table.get(ROOT_INODE).unwrap();
    assert!(root.children.iter().any(|c| c.ino == ino));

    // Verify path mapping exists
    assert!(table.get_by_path("remove_me.txt").is_some());

    // Remove it
    let removed = table.remove(ino);
    assert!(removed.is_some());
    let removed = removed.unwrap();
    assert_eq!(removed.inode, ino);
    assert_eq!(removed.name.as_str(), "remove_me.txt");

    // Parent's children no longer contains the inode
    let root = table.get(ROOT_INODE).unwrap();
    assert!(!root.children.iter().any(|c| c.ino == ino));

    // Path mapping is gone
    assert!(table.get_by_path("remove_me.txt").is_none());

    // Direct lookup is gone
    assert!(table.get(ino).is_none());

    // Removing a non-existent inode returns None
    assert!(table.remove(9999).is_none());
}

#[test]
fn test_remove_path_insert_path() {
    let mut table = InodeTable::new(0);

    let ino = table.insert(
        ROOT_INODE,
        "old_name.txt".to_string(),
        "old_name.txt".to_string(),
        InodeKind::File,
        50,
        Timestamp::unix_epoch(),
        None,
        0o644,
        0,
        0,
    );

    // Verify original path works
    assert_eq!(table.get_by_path("old_name.txt").unwrap().inode, ino);

    // Simulate a rename: remove old path, insert new path
    table.remove_path("old_name.txt");
    assert!(table.get_by_path("old_name.txt").is_none());

    table.insert_path("new_name.txt".to_string(), ino);
    assert_eq!(table.get_by_path("new_name.txt").unwrap().inode, ino);

    // The inode itself still exists
    assert!(table.get(ino).is_some());
}

#[test]
fn test_insert_duplicate_path() {
    let mut table = InodeTable::new(0);

    let ino1 = table.insert(
        ROOT_INODE,
        "dup.txt".to_string(),
        "dup.txt".to_string(),
        InodeKind::File,
        10,
        Timestamp::unix_epoch(),
        None,
        0o644,
        0,
        0,
    );

    // Inserting the same full_path again should return the existing inode
    let ino2 = table.insert(
        ROOT_INODE,
        "dup.txt".to_string(),
        "dup.txt".to_string(),
        InodeKind::File,
        20,
        Timestamp::unix_epoch(),
        None,
        0o644,
        0,
        0,
    );

    assert_eq!(ino1, ino2, "duplicate path insert should return existing inode");

    // The original entry should be unchanged (size still 10, not 20)
    assert_eq!(table.get(ino1).unwrap().size, 10);

    // Root should only have one child (not two)
    let root = table.get(ROOT_INODE).unwrap();
    assert_eq!(
        root.children.iter().filter(|c| c.ino == ino1).count(),
        1,
        "parent should have exactly one child reference"
    );
}

#[test]
fn test_update_subtree_paths() {
    let mut table = InodeTable::new(0);

    // Build: root / old_dir / child.txt
    //                       / subdir / deep.txt
    let dir_ino = table.insert(
        ROOT_INODE,
        "old_dir".to_string(),
        "old_dir".to_string(),
        InodeKind::Directory,
        0,
        Timestamp::unix_epoch(),
        None,
        0o755,
        0,
        0,
    );

    let child_ino = table.insert(
        dir_ino,
        "child.txt".to_string(),
        "old_dir/child.txt".to_string(),
        InodeKind::File,
        10,
        Timestamp::unix_epoch(),
        None,
        0o644,
        0,
        0,
    );

    let subdir_ino = table.insert(
        dir_ino,
        "subdir".to_string(),
        "old_dir/subdir".to_string(),
        InodeKind::Directory,
        0,
        Timestamp::unix_epoch(),
        None,
        0o755,
        0,
        0,
    );

    let deep_ino = table.insert(
        subdir_ino,
        "deep.txt".to_string(),
        "old_dir/subdir/deep.txt".to_string(),
        InodeKind::File,
        5,
        Timestamp::unix_epoch(),
        None,
        0o644,
        0,
        0,
    );

    // Rename old_dir → new_dir
    table.update_subtree_paths(dir_ino, "new_dir".to_string());

    // Verify all paths updated
    assert_eq!(table.get(dir_ino).unwrap().full_path.as_str(), "new_dir");
    assert_eq!(table.get(child_ino).unwrap().full_path.as_str(), "new_dir/child.txt");
    assert_eq!(table.get(subdir_ino).unwrap().full_path.as_str(), "new_dir/subdir");
    assert_eq!(
        table.get(deep_ino).unwrap().full_path.as_str(),
        "new_dir/subdir/deep.txt"
    );

    // Verify path_to_inode updated (old paths gone, new paths work)
    assert!(table.get_by_path("old_dir").is_none());
    assert!(table.get_by_path("old_dir/child.txt").is_none());
    assert!(table.get_by_path("old_dir/subdir/deep.txt").is_none());

    assert_eq!(table.get_by_path("new_dir").unwrap().inode, dir_ino);
    assert_eq!(table.get_by_path("new_dir/child.txt").unwrap().inode, child_ino);
    assert_eq!(table.get_by_path("new_dir/subdir/deep.txt").unwrap().inode, deep_ino);
}

#[test]
fn test_get_dir_ino() {
    let mut table = InodeTable::new(0);

    // Root is a directory
    assert_eq!(table.get_dir_ino(""), Some(ROOT_INODE));

    // Insert a file — should NOT be returned by get_dir_ino
    let file_ino = table.insert(
        ROOT_INODE,
        "file.txt".to_string(),
        "file.txt".to_string(),
        InodeKind::File,
        10,
        Timestamp::unix_epoch(),
        None,
        0o644,
        0,
        0,
    );
    assert!(table.get_dir_ino("file.txt").is_none());

    // Insert a directory — should be returned
    let dir_ino = table.insert(
        ROOT_INODE,
        "mydir".to_string(),
        "mydir".to_string(),
        InodeKind::Directory,
        0,
        Timestamp::unix_epoch(),
        None,
        0o755,
        0,
        0,
    );
    assert_eq!(table.get_dir_ino("mydir"), Some(dir_ino));

    // Non-existent path
    assert!(table.get_dir_ino("nope").is_none());

    let _ = file_ino;
}

#[test]
fn test_file_snapshot() {
    let mut table = InodeTable::new(0);

    let ino1 = table.insert(
        ROOT_INODE,
        "a.txt".to_string(),
        "a.txt".to_string(),
        InodeKind::File,
        100,
        Timestamp::unix_epoch(),
        Some("hash_a".to_string()),
        0o644,
        0,
        0,
    );
    table.get_mut(ino1).unwrap().set_dirty();

    let ino2 = table.insert(
        ROOT_INODE,
        "b.txt".to_string(),
        "b.txt".to_string(),
        InodeKind::File,
        200,
        Timestamp::unix_epoch(),
        Some("hash_b".to_string()),
        0o644,
        0,
        0,
    );

    // Insert a directory — should NOT appear in file_snapshot
    table.insert(
        ROOT_INODE,
        "dir".to_string(),
        "dir".to_string(),
        InodeKind::Directory,
        0,
        Timestamp::unix_epoch(),
        None,
        0o755,
        0,
        0,
    );

    let snapshot = table.file_snapshot();
    assert_eq!(snapshot.len(), 2, "only files, not directories");

    let a = snapshot.iter().find(|(ino, ..)| *ino == ino1).unwrap();
    assert_eq!(a.1, "a.txt");
    assert_eq!(a.2, Some("hash_a".to_string()));
    assert_eq!(a.3, None); // etag
    assert_eq!(a.4, 100);
    assert!(a.5, "a.txt should be dirty");

    let b = snapshot.iter().find(|(ino, ..)| *ino == ino2).unwrap();
    assert_eq!(b.1, "b.txt");
    assert!(!b.5, "b.txt should not be dirty");
}

#[test]
fn test_update_remote_file() {
    let mut table = InodeTable::new(0);

    let ino = table.insert(
        ROOT_INODE,
        "remote.txt".to_string(),
        "remote.txt".to_string(),
        InodeKind::File,
        100,
        Timestamp::unix_epoch(),
        Some("old_hash".to_string()),
        0o644,
        0,
        0,
    );

    let new_mtime = Timestamp { secs: 1000, nanos: 0 };

    // Update succeeds on non-dirty file
    assert!(table.update_remote_file(ino, Some("new_hash".to_string()), None, 200, new_mtime));
    let entry = table.get(ino).unwrap();
    assert_eq!(entry.xet_hash, Some("new_hash".to_string()));
    assert_eq!(entry.size, 200);
    assert_eq!(entry.mtime, new_mtime);

    // Mark dirty — update should fail
    table.get_mut(ino).unwrap().set_dirty();
    assert!(!table.update_remote_file(ino, Some("ignored".to_string()), None, 999, Timestamp::unix_epoch()));
    assert_eq!(table.get(ino).unwrap().size, 200, "dirty file should not be updated");

    // Non-existent inode
    assert!(!table.update_remote_file(9999, None, None, 0, Timestamp::unix_epoch()));
}

#[test]
fn test_invalidate_children() {
    let mut table = InodeTable::new(0);

    let dir_ino = table.insert(
        ROOT_INODE,
        "dir".to_string(),
        "dir".to_string(),
        InodeKind::Directory,
        0,
        Timestamp::unix_epoch(),
        None,
        0o755,
        0,
        0,
    );

    // Mark as loaded
    table.get_mut(dir_ino).unwrap().children_loaded = true;
    assert!(table.get(dir_ino).unwrap().children_loaded);

    // Invalidate
    table.invalidate_children(dir_ino);
    assert!(!table.get(dir_ino).unwrap().children_loaded);

    // Invalidating non-existent inode is a no-op
    table.invalidate_children(9999);
}

#[test]
fn test_pending_deletes() {
    let mut table = InodeTable::new(0);

    let ino = table.insert(
        ROOT_INODE,
        "file.txt".to_string(),
        "file.txt".to_string(),
        InodeKind::File,
        10,
        Timestamp::unix_epoch(),
        Some("hash".to_string()),
        0o644,
        0,
        0,
    );

    // Initially empty
    assert!(table.get(ino).unwrap().pending_deletes.is_empty());

    // Simulate rename recording old path
    table
        .get_mut(ino)
        .unwrap()
        .pending_deletes
        .push("old_path.txt".to_string());

    assert_eq!(table.get(ino).unwrap().pending_deletes, vec!["old_path.txt"]);

    // Clear after flush
    table.get_mut(ino).unwrap().pending_deletes.clear();
    assert!(table.get(ino).unwrap().pending_deletes.is_empty());
}

#[test]
fn test_remove_non_empty_dir_cleans_descendants() {
    let mut table = InodeTable::new(0);

    // Build: root / dir / child.txt
    //                    / subdir / deep.txt
    let dir_ino = table.insert(
        ROOT_INODE,
        "dir".to_string(),
        "dir".to_string(),
        InodeKind::Directory,
        0,
        Timestamp::unix_epoch(),
        None,
        0o755,
        0,
        0,
    );
    let child_ino = table.insert(
        dir_ino,
        "child.txt".to_string(),
        "dir/child.txt".to_string(),
        InodeKind::File,
        10,
        Timestamp::unix_epoch(),
        None,
        0o644,
        0,
        0,
    );
    let subdir_ino = table.insert(
        dir_ino,
        "subdir".to_string(),
        "dir/subdir".to_string(),
        InodeKind::Directory,
        0,
        Timestamp::unix_epoch(),
        None,
        0o755,
        0,
        0,
    );
    let deep_ino = table.insert(
        subdir_ino,
        "deep.txt".to_string(),
        "dir/subdir/deep.txt".to_string(),
        InodeKind::File,
        5,
        Timestamp::unix_epoch(),
        None,
        0o644,
        0,
        0,
    );

    // Remove the top-level dir
    let removed = table.remove(dir_ino);
    assert!(removed.is_some());

    // All descendants must be gone from both maps
    assert!(table.get(dir_ino).is_none());
    assert!(table.get(child_ino).is_none());
    assert!(table.get(subdir_ino).is_none());
    assert!(table.get(deep_ino).is_none());
    assert!(table.get_by_path("dir").is_none());
    assert!(table.get_by_path("dir/child.txt").is_none());
    assert!(table.get_by_path("dir/subdir").is_none());
    assert!(table.get_by_path("dir/subdir/deep.txt").is_none());

    // Root no longer references the removed dir
    assert!(!table.get(ROOT_INODE).unwrap().children.iter().any(|c| c.ino == dir_ino));
}

#[test]
fn test_dirty_inos_excludes_directories() {
    let mut table = InodeTable::new(0);
    let file_ino = table.insert(
        ROOT_INODE,
        "dirty.txt".to_string(),
        "dirty.txt".to_string(),
        InodeKind::File,
        1,
        Timestamp::unix_epoch(),
        None,
        0o644,
        0,
        0,
    );
    let dir_ino = table.insert(
        ROOT_INODE,
        "dir".to_string(),
        "dir".to_string(),
        InodeKind::Directory,
        0,
        Timestamp::unix_epoch(),
        None,
        0o755,
        0,
        0,
    );
    table.get_mut(file_ino).unwrap().set_dirty();
    table.get_mut(dir_ino).unwrap().set_dirty();

    let dirty = table.dirty_inos();
    assert_eq!(dirty, vec![file_ino]);
}

#[test]
fn update_subtree_paths_leaves_links_from_elsewhere() {
    let mut table = InodeTable::new(0);
    let epoch = Timestamp::unix_epoch();
    let dir = table.insert(
        ROOT_INODE,
        "a".to_string(),
        "a".to_string(),
        InodeKind::Directory,
        0,
        epoch,
        None,
        0o755,
        0,
        0,
    );
    let own = table.insert(
        dir,
        "own.txt".to_string(),
        "a/own.txt".to_string(),
        InodeKind::File,
        1,
        epoch,
        None,
        0o644,
        0,
        0,
    );
    let alias = table.insert(
        dir,
        "alias.txt".to_string(),
        "elsewhere/file.txt".to_string(),
        InodeKind::File,
        1,
        epoch,
        None,
        0o644,
        0,
        0,
    );
    table.update_subtree_paths(dir, "b".to_string());
    assert_eq!(table.get(own).unwrap().full_path, "b/own.txt");
    assert_eq!(table.get(alias).unwrap().full_path, "elsewhere/file.txt");
    assert_eq!(table.get_by_path("elsewhere/file.txt").unwrap().inode, alias);
    assert!(table.get_by_path("b/alias.txt").is_none());
}

#[test]
fn test_update_subtree_paths_missing_inode_is_noop() {
    let mut table = InodeTable::new(0);
    table.insert(
        ROOT_INODE,
        "file.txt".to_string(),
        "file.txt".to_string(),
        InodeKind::File,
        10,
        Timestamp::unix_epoch(),
        None,
        0o644,
        0,
        0,
    );

    let before = table.file_snapshot();
    table.update_subtree_paths(999_999, "does/not/matter".to_string());
    let after = table.file_snapshot();

    assert_eq!(before, after);
    assert!(table.get_by_path("file.txt").is_some());
}

#[test]
fn test_remove_directory_with_already_removed_child() {
    let mut table = InodeTable::new(0);
    let dir_ino = table.insert(
        ROOT_INODE,
        "dir".to_string(),
        "dir".to_string(),
        InodeKind::Directory,
        0,
        Timestamp::unix_epoch(),
        None,
        0o755,
        0,
        0,
    );
    let child_ino = table.insert(
        dir_ino,
        "child.txt".to_string(),
        "dir/child.txt".to_string(),
        InodeKind::File,
        1,
        Timestamp::unix_epoch(),
        None,
        0o644,
        0,
        0,
    );

    // Simulate a stale children list entry in parent by removing child first.
    table.remove(child_ino).unwrap();
    assert!(table.get(child_ino).is_none());

    // Removing parent should still succeed and clean mappings.
    table.remove(dir_ino).unwrap();
    assert!(table.get(dir_ino).is_none());
    assert!(table.get_by_path("dir").is_none());
}

#[test]
fn test_remove_directory_adjusts_parent_nlink() {
    let mut table = InodeTable::new(0);
    let nlink_before = table.get(ROOT_INODE).unwrap().nlink;

    let dir_ino = table.insert(
        ROOT_INODE,
        "sub".to_string(),
        "sub".to_string(),
        InodeKind::Directory,
        0,
        Timestamp::unix_epoch(),
        None,
        0o755,
        0,
        0,
    );

    // insert() increments parent nlink for new subdirectory
    assert_eq!(table.get(ROOT_INODE).unwrap().nlink, nlink_before + 1);

    // remove() should decrement it back
    table.remove(dir_ino);
    assert_eq!(table.get(ROOT_INODE).unwrap().nlink, nlink_before);
}

#[test]
fn test_move_child_same_parent() {
    let mut table = InodeTable::new(0);

    let file_ino = table.insert(
        ROOT_INODE,
        "old.txt".to_string(),
        "old.txt".to_string(),
        InodeKind::File,
        10,
        Timestamp::unix_epoch(),
        None,
        0o644,
        0,
        0,
    );

    let nlink_before = table.get(ROOT_INODE).unwrap().nlink;

    table.move_child(file_ino, ROOT_INODE, "old.txt", ROOT_INODE, "new.txt");

    // Child removed under old name, added under new name
    assert!(table.lookup_child(ROOT_INODE, "old.txt").is_none());
    assert_eq!(table.lookup_child(ROOT_INODE, "new.txt").unwrap().inode, file_ino);

    // name/parent updated on the inode
    let entry = table.get(file_ino).unwrap();
    assert_eq!(entry.name.as_str(), "new.txt");
    assert_eq!(entry.parent, ROOT_INODE);

    // nlink unchanged (same parent, file not directory)
    assert_eq!(table.get(ROOT_INODE).unwrap().nlink, nlink_before);
}

#[test]
fn test_move_child_cross_parent_file() {
    let mut table = InodeTable::new(0);

    let dir_a = table.insert(
        ROOT_INODE,
        "a".to_string(),
        "a".to_string(),
        InodeKind::Directory,
        0,
        Timestamp::unix_epoch(),
        None,
        0o755,
        0,
        0,
    );
    let dir_b = table.insert(
        ROOT_INODE,
        "b".to_string(),
        "b".to_string(),
        InodeKind::Directory,
        0,
        Timestamp::unix_epoch(),
        None,
        0o755,
        0,
        0,
    );
    let file_ino = table.insert(
        dir_a,
        "f.txt".to_string(),
        "a/f.txt".to_string(),
        InodeKind::File,
        10,
        Timestamp::unix_epoch(),
        None,
        0o644,
        0,
        0,
    );

    let nlink_a = table.get(dir_a).unwrap().nlink;
    let nlink_b = table.get(dir_b).unwrap().nlink;

    table.move_child(file_ino, dir_a, "f.txt", dir_b, "g.txt");

    // Detached from dir_a, attached to dir_b
    assert!(table.lookup_child(dir_a, "f.txt").is_none());
    assert_eq!(table.lookup_child(dir_b, "g.txt").unwrap().inode, file_ino);

    // name/parent updated
    let entry = table.get(file_ino).unwrap();
    assert_eq!(entry.name.as_str(), "g.txt");
    assert_eq!(entry.parent, dir_b);

    // nlink unchanged on both parents (file move, not directory)
    assert_eq!(table.get(dir_a).unwrap().nlink, nlink_a);
    assert_eq!(table.get(dir_b).unwrap().nlink, nlink_b);
}

#[test]
fn test_move_child_cross_parent_directory() {
    let mut table = InodeTable::new(0);

    let dir_a = table.insert(
        ROOT_INODE,
        "a".to_string(),
        "a".to_string(),
        InodeKind::Directory,
        0,
        Timestamp::unix_epoch(),
        None,
        0o755,
        0,
        0,
    );
    let dir_b = table.insert(
        ROOT_INODE,
        "b".to_string(),
        "b".to_string(),
        InodeKind::Directory,
        0,
        Timestamp::unix_epoch(),
        None,
        0o755,
        0,
        0,
    );
    let sub = table.insert(
        dir_a,
        "sub".to_string(),
        "a/sub".to_string(),
        InodeKind::Directory,
        0,
        Timestamp::unix_epoch(),
        None,
        0o755,
        0,
        0,
    );

    let nlink_a = table.get(dir_a).unwrap().nlink;
    let nlink_b = table.get(dir_b).unwrap().nlink;

    table.move_child(sub, dir_a, "sub", dir_b, "sub");

    // nlink: old parent --, new parent ++
    assert_eq!(table.get(dir_a).unwrap().nlink, nlink_a - 1);
    assert_eq!(table.get(dir_b).unwrap().nlink, nlink_b + 1);
}

#[test]
fn test_touch_parent() {
    let mut table = InodeTable::new(0);
    let before = table.get(ROOT_INODE).unwrap().mtime;

    let now = Timestamp { secs: 12345, nanos: 0 };
    table.touch_parent(ROOT_INODE, now);

    let root = table.get(ROOT_INODE).unwrap();
    assert_eq!(root.mtime, now);
    assert_eq!(root.ctime, now);
    assert_ne!(root.mtime, before);
}

#[test]
fn test_unlink_one_basic() {
    let mut table = InodeTable::new(0);

    let file_ino = table.insert(
        ROOT_INODE,
        "f.txt".to_string(),
        "f.txt".to_string(),
        InodeKind::File,
        10,
        Timestamp::unix_epoch(),
        None,
        0o644,
        0,
        0,
    );

    let result = table.unlink_one(ROOT_INODE, "f.txt");
    assert!(result.is_some());
    let (last_link, snapshot) = result.unwrap();
    assert!(last_link, "should be last link");
    assert_eq!(snapshot.inode, file_ino);
    assert_eq!(snapshot.nlink, 0);

    // Child removed from parent
    assert!(table.lookup_child(ROOT_INODE, "f.txt").is_none());
    // Path mapping removed
    assert!(table.get_by_path("f.txt").is_none());
}

#[test]
fn test_unlink_one_last_link() {
    let mut table = InodeTable::new(0);

    let file_ino = table.insert(
        ROOT_INODE,
        "doomed.txt".to_string(),
        "doomed.txt".to_string(),
        InodeKind::File,
        10,
        Timestamp::unix_epoch(),
        None,
        0o644,
        0,
        0,
    );

    let (last_link, _) = table.unlink_one(ROOT_INODE, "doomed.txt").unwrap();
    assert!(last_link);

    // Inode still in table (for open file handles), but nlink == 0
    let entry = table.get(file_ino).unwrap();
    assert_eq!(entry.nlink, 0);

    // remove_orphan should clean up both inodes map and path_to_inode
    let path = entry.full_path.clone();
    table.remove_orphan(file_ino);
    assert!(table.get(file_ino).is_none());
    assert!(table.get_by_path(&path).is_none(), "path_to_inode should be cleaned up");
}

#[test]
fn test_nlookup_starts_at_zero() {
    let mut table = InodeTable::new(0);
    let ino = table.insert(
        ROOT_INODE,
        "f.txt".to_string(),
        "f.txt".to_string(),
        InodeKind::File,
        0,
        Timestamp::unix_epoch(),
        None,
        0o644,
        0,
        0,
    );
    assert_eq!(table.get(ino).unwrap().eviction.nlookup, 0);
}

#[test]
fn test_nlookup_bump_drop() {
    let mut table = InodeTable::new(0);
    let ino = table.insert(
        ROOT_INODE,
        "f.txt".to_string(),
        "f.txt".to_string(),
        InodeKind::File,
        0,
        Timestamp::unix_epoch(),
        None,
        0o644,
        0,
        0,
    );

    table.bump_nlookup(ino);
    table.bump_nlookup(ino);
    table.bump_nlookup(ino);
    assert_eq!(table.get(ino).unwrap().eviction.nlookup, 3);

    assert!(!table.drop_nlookup(ino, 1));
    assert_eq!(table.get(ino).unwrap().eviction.nlookup, 2);

    // Reaching zero returns true.
    assert!(table.drop_nlookup(ino, 2));
    assert_eq!(table.get(ino).unwrap().eviction.nlookup, 0);
}

#[test]
fn test_nlookup_saturates_on_underflow() {
    let mut table = InodeTable::new(0);
    let ino = table.insert(
        ROOT_INODE,
        "f.txt".to_string(),
        "f.txt".to_string(),
        InodeKind::File,
        0,
        Timestamp::unix_epoch(),
        None,
        0o644,
        0,
        0,
    );

    assert!(table.drop_nlookup(ino, 42));
    assert_eq!(table.get(ino).unwrap().eviction.nlookup, 0);

    table.bump_nlookup(ino);
    assert!(table.drop_nlookup(ino, 1000));
    assert_eq!(table.get(ino).unwrap().eviction.nlookup, 0);
}

#[test]
fn test_nlookup_unknown_inode_drop_returns_false() {
    let mut table = InodeTable::new(0);
    assert!(!table.drop_nlookup(9999, 1));
}

#[test]
fn test_evict_if_safe_removes_clean_file() {
    let mut table = InodeTable::new(0);
    let ino = table.insert(
        ROOT_INODE,
        "f.txt".to_string(),
        "f.txt".to_string(),
        InodeKind::File,
        10,
        Timestamp::unix_epoch(),
        None,
        0o644,
        0,
        0,
    );

    // Default nlookup is 0, not dirty, no pending deletes → safe to evict.
    assert!(table.evict_if_safe(ino));
    assert!(table.get(ino).is_none());
    assert!(table.get_by_path("f.txt").is_none());

    // Parent's children_loaded is reset so readdir will re-fetch.
    let root = table.get(ROOT_INODE).unwrap();
    assert!(!root.children_loaded);
    assert!(!root.children.iter().any(|c| c.ino == ino));
}

#[test]
fn test_evict_batch_if_safe_groups_by_parent() {
    let mut table = InodeTable::new(0);
    // Two parent dirs each with 5 files.
    let mut all = Vec::new();
    for parent_name in ["a", "b"] {
        let parent_ino = table.insert(
            ROOT_INODE,
            parent_name.to_string(),
            parent_name.to_string(),
            InodeKind::Directory,
            0,
            Timestamp::unix_epoch(),
            None,
            0o755,
            0,
            0,
        );
        for i in 0..5 {
            let ino = table.insert(
                parent_ino,
                format!("f{i}.txt"),
                format!("{parent_name}/f{i}.txt"),
                InodeKind::File,
                1,
                Timestamp::unix_epoch(),
                None,
                0o644,
                0,
                0,
            );
            all.push((parent_ino, ino));
        }
    }

    let inos: Vec<u64> = all.iter().map(|(_, ino)| *ino).collect();
    assert_eq!(
        table.evict_batch_if_safe(&inos).len(),
        10,
        "all 10 files should be evicted"
    );

    for (parent_ino, ino) in all {
        assert!(table.get(ino).is_none(), "evicted ino must be gone");
        let parent = table.get(parent_ino).unwrap();
        assert!(parent.children.is_empty(), "parent's children list cleared");
        assert!(!parent.children_loaded, "children_loaded reset");
    }
}

/// Mirrors the sweep race: candidate selection sees `open_handles == 0`,
/// then a concurrent `open()` bumps the counter before the batch runs
/// under the write lock. The batch must refuse to evict.
#[test]
fn test_evict_batch_if_safe_refuses_when_open_handles_bumped_after_scan() {
    let mut table = InodeTable::new(0);
    let ino = table.insert(
        ROOT_INODE,
        "racer.txt".to_string(),
        "racer.txt".to_string(),
        InodeKind::File,
        1,
        Timestamp::unix_epoch(),
        None,
        0o644,
        0,
        0,
    );
    table.get_mut(ino).unwrap().eviction.open_handles += 1;

    let evicted = table.evict_batch_if_safe(&[ino]);
    assert!(evicted.is_empty(), "batch must skip an inode with live handles");
    assert!(table.get(ino).is_some(), "inode must remain in the table");
}

#[test]
fn test_evict_batch_if_safe_filters_unsafe() {
    let mut table = InodeTable::new(0);
    let safe = table.insert(
        ROOT_INODE,
        "safe.txt".to_string(),
        "safe.txt".to_string(),
        InodeKind::File,
        1,
        Timestamp::unix_epoch(),
        None,
        0o644,
        0,
        0,
    );
    let dirty = table.insert(
        ROOT_INODE,
        "dirty.txt".to_string(),
        "dirty.txt".to_string(),
        InodeKind::File,
        1,
        Timestamp::unix_epoch(),
        None,
        0o644,
        0,
        0,
    );
    if let Some(e) = table.get_mut(dirty) {
        e.set_dirty();
    }
    let pinned = table.insert(
        ROOT_INODE,
        "pinned.txt".to_string(),
        "pinned.txt".to_string(),
        InodeKind::File,
        1,
        Timestamp::unix_epoch(),
        None,
        0o644,
        0,
        0,
    );
    table.bump_nlookup(pinned);

    assert_eq!(table.evict_batch_if_safe(&[safe, dirty, pinned]), vec![safe]);
    assert!(table.get(safe).is_none());
    assert!(table.get(dirty).is_some(), "dirty file must stay");
    assert!(table.get(pinned).is_some(), "pinned (nlookup>0) must stay");
}

#[test]
fn test_evict_if_safe_refuses_when_nlookup_held() {
    let mut table = InodeTable::new(0);
    let ino = table.insert(
        ROOT_INODE,
        "f.txt".to_string(),
        "f.txt".to_string(),
        InodeKind::File,
        10,
        Timestamp::unix_epoch(),
        None,
        0o644,
        0,
        0,
    );
    table.bump_nlookup(ino);

    assert!(!table.evict_if_safe(ino));
    assert!(
        table.get(ino).is_some(),
        "entry must survive when kernel still holds dentry"
    );
}

#[test]
fn test_evict_if_safe_refuses_when_dirty() {
    let mut table = InodeTable::new(0);
    let ino = table.insert(
        ROOT_INODE,
        "f.txt".to_string(),
        "f.txt".to_string(),
        InodeKind::File,
        10,
        Timestamp::unix_epoch(),
        None,
        0o644,
        0,
        0,
    );
    table.get_mut(ino).unwrap().set_dirty();

    assert!(!table.evict_if_safe(ino));
    assert!(
        table.get(ino).is_some(),
        "dirty entry must not be evicted — unflushed data"
    );
}

#[test]
fn test_evict_if_safe_refuses_when_pending_deletes() {
    let mut table = InodeTable::new(0);
    let ino = table.insert(
        ROOT_INODE,
        "f.txt".to_string(),
        "f.txt".to_string(),
        InodeKind::File,
        10,
        Timestamp::unix_epoch(),
        None,
        0o644,
        0,
        0,
    );
    table.get_mut(ino).unwrap().pending_deletes.push("old_path".to_string());

    assert!(!table.evict_if_safe(ino));
    assert!(table.get(ino).is_some());
}

#[test]
fn test_evict_if_safe_refuses_directory() {
    let mut table = InodeTable::new(0);
    let ino = table.insert(
        ROOT_INODE,
        "d".to_string(),
        "d".to_string(),
        InodeKind::Directory,
        0,
        Timestamp::unix_epoch(),
        None,
        0o755,
        0,
        0,
    );

    assert!(!table.evict_if_safe(ino), "directories must never be evicted");
    assert!(table.get(ino).is_some());
}

#[test]
fn test_evict_if_safe_refuses_unlinked_orphan() {
    // An unlinked-but-still-open file (nlink == 0) must stay in the table
    // until release() cleans it up via remove_orphan — evicting it would
    // drop the xet_hash / path a racing read still needs.
    let mut table = InodeTable::new(0);
    let ino = table.insert(
        ROOT_INODE,
        "doomed.txt".to_string(),
        "doomed.txt".to_string(),
        InodeKind::File,
        10,
        Timestamp::unix_epoch(),
        None,
        0o644,
        0,
        0,
    );
    table.unlink_one(ROOT_INODE, "doomed.txt");
    assert_eq!(table.get(ino).unwrap().nlink, 0);

    assert!(!table.evict_if_safe(ino));
    assert!(table.get(ino).is_some());
}

#[test]
fn test_evict_if_safe_unknown_inode() {
    let mut table = InodeTable::new(0);
    assert!(!table.evict_if_safe(9999));
}

// ── insert / touch ──────────────────────────────────────────────

fn mk_table_with_soft_limit(soft: usize) -> InodeTable {
    InodeTable::new(soft)
}

fn mk_file(table: &mut InodeTable, name: &str) -> u64 {
    table.insert(
        ROOT_INODE,
        name.to_string(),
        name.to_string(),
        InodeKind::File,
        1,
        Timestamp::unix_epoch(),
        None,
        0o644,
        0,
        0,
    )
}

#[test]
fn test_insert_never_evicts_even_over_cap() {
    // insert() no longer evicts synchronously (see `soft_limit` doc):
    // the async sweep is the sole backstop. So the table is free to
    // overshoot the soft limit; every inserted entry must survive.
    let mut table = mk_table_with_soft_limit(100);
    for i in 0..500 {
        mk_file(&mut table, &format!("f{i}.txt"));
    }
    assert_eq!(table.len(), 1 + 500, "insert must not evict");
}

#[test]
fn test_soft_limit_zero_gates_touch() {
    // touch() is a no-op when LRU is disabled (soft_limit==0), so the
    // hot path stays cheap in the common case.
    let mut table = InodeTable::new(0);
    let f = mk_file(&mut table, "f.txt");
    let before = table.get(f).unwrap().eviction.last_touched;
    table.touch(f);
    let after = table.get(f).unwrap().eviction.last_touched;
    assert_eq!(before, after, "touch on soft_limit=0 table must be a no-op");
}

#[test]
fn test_soft_limit_nonzero_enables_touch() {
    let mut table = InodeTable::new(100);
    let f = mk_file(&mut table, "f.txt");
    let before = table.get(f).unwrap().eviction.last_touched;
    table.touch(f);
    let after = table.get(f).unwrap().eviction.last_touched;
    assert_ne!(before, after, "touch on LRU-enabled table must bump last_touched");
}

// ── evict_pending (deferred eviction on close) ──────────────────

#[test]
fn test_evict_pending_flag_toggle() {
    let mut table = InodeTable::new(0);
    let f = mk_file(&mut table, "f.txt");
    assert!(!table.take_evict_pending(f), "flag starts false");
    table.mark_evict_pending(f);
    assert!(table.take_evict_pending(f), "flag now true");
    assert!(!table.take_evict_pending(f), "take() clears the flag");
}

#[test]
fn test_evict_pending_unknown_inode() {
    let mut table = InodeTable::new(0);
    table.mark_evict_pending(9999); // no-op, must not panic
    assert!(!table.take_evict_pending(9999));
}

// ── open handles refcount ──────────────────────────────────────

#[test]
fn test_open_handles_refcount_tracking() {
    let mut table = InodeTable::new(0);
    let busy = mk_file(&mut table, "busy.txt");

    assert!(!table.has_open_handles(busy));
    table.bump_open_handles(busy);
    assert!(table.has_open_handles(busy));
    table.drop_open_handles(busy);
    assert!(!table.has_open_handles(busy));
}

fn put_file(table: &mut InodeTable, name: &str) -> u64 {
    table.insert(
        ROOT_INODE,
        name.to_string(),
        name.to_string(),
        InodeKind::File,
        1,
        Timestamp::unix_epoch(),
        None,
        0o644,
        0,
        0,
    )
}

#[test]
fn inode_numbers_are_not_given_out_again() {
    let mut table = InodeTable::new(0);
    let a = put_file(&mut table, "a");
    table.remove(a);
    let b = put_file(&mut table, "b");
    assert!(table.evict_if_safe(b));
    let c = put_file(&mut table, "c");
    table.unlink_one(ROOT_INODE, "c");
    table.remove_orphan(c);
    let d = put_file(&mut table, "a");
    assert!(ROOT_INODE < a && a < b && b < c && c < d);
}

#[test]
fn paths_and_inodes_stay_paired() {
    let mut table = InodeTable::new(0);
    let a = put_file(&mut table, "a");
    let b = put_file(&mut table, "b");
    table.update_remote_file(b, None, None, 7, Timestamp::unix_epoch());
    assert!(table.evict_if_safe(a));
    assert!(table.get_by_path("a").is_none());
    assert_eq!(table.get_by_path("b").unwrap().inode, b);
    assert_eq!(table.get_by_path("").unwrap().inode, ROOT_INODE);
}

#[test]
fn removing_undoes_inserting() {
    let mut table = InodeTable::new(0);
    put_file(&mut table, "a");
    let (links, children) = {
        let root = table.get(ROOT_INODE).unwrap();
        (root.nlink, root.children.len())
    };
    let dir = table.insert(
        ROOT_INODE,
        "d".to_string(),
        "d".to_string(),
        InodeKind::Directory,
        0,
        Timestamp::unix_epoch(),
        None,
        0o755,
        0,
        0,
    );
    assert_eq!(table.get(ROOT_INODE).unwrap().nlink, links + 1);
    let removed = table.remove(dir).unwrap();
    assert_eq!((removed.inode, removed.full_path.as_str()), (dir, "d"));
    let root = table.get(ROOT_INODE).unwrap();
    assert_eq!((root.nlink, root.children.len()), (links, children));
    assert!(table.get_by_path("d").is_none());
}
