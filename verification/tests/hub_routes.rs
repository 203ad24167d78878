use hf_mount::error::Error;
use hf_mount::hub_api::{
    check_link_header, download_etag, if_none_match, info_url, initial_token, parse_link_next,
    token_is_stale, BatchOp, HeadFileInfo, HeadHeaders, Header, HubApiClient, RepoTreeEntry,
    RepoType, SourceInfo, SourceKind, TreeEntry, TOKEN_FILE_REFRESH_SECS,
};
use hf_mount::time::{Duration, Timestamp};

fn bucket(prefix: &str) -> HubApiClient {
    let mut client = HubApiClient::new("https://hub.example.com", Some("secret"), "user/data");
    client.path_prefix = prefix.to_string();
    client
}

fn dataset() -> SourceKind {
    SourceKind::Repo {
        repo_id: "user/ds".to_string(),
        repo_type: RepoType::Dataset,
        revision: "main".to_string(),
    }
}

fn repo(prefix: &str) -> HubApiClient {
    let mut client = bucket(prefix);
    client.source = dataset();
    client
}

#[test]
fn test_batch_op_add_file_serialization() {
    let op = BatchOp::AddFile {
        path: "data/file.bin".to_string(),
        xet_hash: "abc123def456".to_string(),
        mtime: 1700000000000,
        content_type: Some("application/octet-stream".to_string()),
    };

    let json = op.to_json();
    let parsed: serde_json::Value = serde_json::from_str(&json).unwrap();

    assert_eq!(parsed["type"], "addFile");
    assert_eq!(parsed["path"], "data/file.bin");
    assert_eq!(parsed["xetHash"], "abc123def456");
    assert_eq!(parsed["mtime"], 1700000000000u64);
    assert_eq!(parsed["contentType"], "application/octet-stream");
}

#[test]
fn paths_are_escaped() {
    let op = BatchOp::DeleteFile { path: "a\"b\\c\n\t\r\u{8}\u{c}\u{1f}\u{7f}\u{e4}".to_string() };
    assert_eq!(
        op.to_json(),
        "{\"type\":\"deleteFile\",\"path\":\"a\\\"b\\\\c\\n\\t\\r\\b\\f\\u001f\u{7f}\u{e4}\"}"
    );
}

#[test]
fn test_batch_op_delete_file_serialization() {
    let op = BatchOp::DeleteFile { path: "old/file.txt".to_string() };

    let json = op.to_json();
    let parsed: serde_json::Value = serde_json::from_str(&json).unwrap();

    assert_eq!(parsed["type"], "deleteFile");
    assert_eq!(parsed["path"], "old/file.txt");
    assert!(parsed.get("xetHash").is_none());
    assert!(parsed.get("mtime").is_none());
}

#[test]
fn test_batch_op_add_file_no_content_type() {
    let op = BatchOp::AddFile {
        path: "readme.txt".to_string(),
        xet_hash: "hash999".to_string(),
        mtime: 1234567890000,
        content_type: None,
    };

    let json = op.to_json();
    let parsed: serde_json::Value = serde_json::from_str(&json).unwrap();

    assert!(
        parsed.get("contentType").is_none(),
        "contentType should be omitted when None"
    );
    assert_eq!(parsed["type"], "addFile");
    assert_eq!(parsed["path"], "readme.txt");
    assert_eq!(parsed["xetHash"], "hash999");
    assert_eq!(parsed["mtime"], 1234567890000u64);
}

#[test]
fn paths_are_escaped_in_json() {
    let op = BatchOp::DeleteFile { path: "a\"b\\c\nd".to_string() };
    assert_eq!(
        op.to_json(),
        "{\"type\":\"deleteFile\",\"path\":\"a\\\"b\\\\c\\nd\"}"
    );
}

#[test]
fn batch_bodies_hold_one_operation_per_line() {
    let ops = vec![
        BatchOp::AddFile {
            path: "a.txt".to_string(),
            xet_hash: "h1".to_string(),
            mtime: 5,
            content_type: None,
        },
        BatchOp::DeleteFile { path: "b.txt".to_string() },
    ];
    assert_eq!(
        bucket("").batch_body(&ops),
        "{\"type\":\"addFile\",\"path\":\"a.txt\",\"xetHash\":\"h1\",\"mtime\":5}\n\
         {\"type\":\"deleteFile\",\"path\":\"b.txt\"}\n"
    );
    assert_eq!(
        bucket("sub").batch_body(&ops[1..].to_vec()),
        "{\"type\":\"deleteFile\",\"path\":\"sub/b.txt\"}\n"
    );
}

#[test]
fn batches_are_for_buckets_only() {
    assert_eq!(
        bucket("").batch_url().unwrap(),
        "https://hub.example.com/api/buckets/user/data/batch"
    );
    let err = repo("").batch_url().unwrap_err();
    assert_eq!(
        err.to_string(),
        "Hub API error: batch operations not supported for repos"
    );
}

#[test]
fn trees_are_listed_below_the_subfolder() {
    assert_eq!(
        bucket("").tree_url(""),
        "https://hub.example.com/api/buckets/user/data/tree?recursive=false&limit=10000"
    );
    assert_eq!(
        bucket("sub").tree_url("dir"),
        "https://hub.example.com/api/buckets/user/data/tree/sub/dir?recursive=false&limit=10000"
    );
    assert_eq!(
        repo("").tree_url("train"),
        "https://hub.example.com/api/datasets/user/ds/tree/main/train?expand=true&limit=1000"
    );
}

#[test]
fn files_are_resolved_by_source() {
    assert_eq!(
        bucket("sub").resolve_url("f.bin"),
        "https://hub.example.com/buckets/user/data/resolve/sub/f.bin"
    );
    assert_eq!(
        repo("").resolve_url("f.bin"),
        "https://hub.example.com/datasets/user/ds/resolve/main/f.bin"
    );
}

#[test]
fn storage_tokens_are_asked_for_by_source() {
    assert_eq!(
        bucket("").cas_token_url(),
        "https://hub.example.com/api/buckets/user/data/xet-read-token"
    );
    assert_eq!(
        repo("").cas_token_url(),
        "https://hub.example.com/api/datasets/user/ds/xet-read-token/main"
    );
    assert!(bucket("").cas_write_token_url().is_ok());
}

#[test]
fn information_is_asked_for_by_source() {
    let b = SourceKind::Bucket { bucket_id: "user/data".to_string() };
    assert_eq!(info_url("https://h", &b), "https://h/api/buckets/user/data");
    assert_eq!(dataset().to_string(), "dataset/user/ds/main");
    assert_eq!(b.to_string(), "bucket/user/data");
}

#[test]
fn listings_are_scoped_to_the_subfolder() {
    let entry = |path: &str| TreeEntry {
        path: path.to_string(),
        entry_type: "file".to_string(),
        size: Some(1),
        xet_hash: None,
        oid: None,
        mtime: None,
    };
    let scoped = bucket("sub").scope_entries(vec![
        entry("sub/a.txt"),
        entry("other/b.txt"),
        entry("sub/dir/c.txt"),
    ]);
    let paths: Vec<&str> = scoped.iter().map(|e| e.path.as_str()).collect();
    assert_eq!(paths, vec!["a.txt", "dir/c.txt"]);
}

#[test]
fn a_subfolder_has_to_exist() {
    assert!(bucket("").check_prefix(Ok(0)).is_ok());
    assert!(bucket("sub").check_prefix(Ok(1)).is_ok());
    assert_eq!(
        bucket("sub").check_prefix(Ok(0)).unwrap_err().to_string(),
        "Hub API error: subfolder 'sub' is empty or does not exist in bucket/user/data"
    );
    assert_eq!(
        bucket("sub").check_prefix(Err("boom".to_string())).unwrap_err().to_string(),
        "Hub API error: subfolder 'sub' not found in bucket/user/data: boom"
    );
}

#[test]
fn token_file_populates_cache_on_first_auth() {
    let mut client = bucket("");
    client.has_token_file = true;
    assert!(client.needs_token_refresh());
    client.store_token("file-token\n");
    assert_eq!(client.bearer(), Some("file-token"));
}

#[test]
fn token_file_cache_reused_within_ttl() {
    let mut client = bucket("");
    client.has_token_file = true;
    client.store_token("token-v1");
    assert!(!client.needs_token_refresh());
    assert_eq!(client.bearer(), Some("token-v1"));
}

#[test]
fn token_file_refreshes_after_ttl() {
    let mut client = bucket("");
    client.has_token_file = true;
    client.store_token("token-v1");
    if let Some((at, _)) = &mut client.token_file_cache {
        *at -= std::time::Duration::from_secs(TOKEN_FILE_REFRESH_SECS + 1);
    }
    assert!(client.needs_token_refresh());
    client.store_token("token-v2");
    assert_eq!(client.bearer(), Some("token-v2"));
}

#[test]
fn token_file_missing_falls_back_to_static() {
    let mut client = bucket("");
    client.has_token_file = true;
    assert!(client.token_file_cache.is_none());
    assert_eq!(client.bearer(), Some("secret"));
}

#[test]
fn an_empty_token_file_keeps_the_token() {
    let mut client = bucket("");
    client.has_token_file = true;
    client.store_token("token-v1");
    client.store_token("  \n");
    assert_eq!(client.bearer(), Some("token-v1"));
    assert!(token_is_stale(None));
    assert!(!token_is_stale(Some(Duration::from_secs(0))));
    assert!(!token_is_stale(Some(Duration::from_secs(29))));
    assert!(token_is_stale(Some(Duration::from_secs(30))));
}

#[test]
fn the_first_token_comes_from_the_file_if_it_holds_one() {
    assert_eq!(initial_token(Some("a"), Some("b")), Some("b".to_string()));
    assert_eq!(initial_token(Some("a"), Some("\n")), Some("a".to_string()));
    assert_eq!(initial_token(Some("a"), None), Some("a".to_string()));
    assert_eq!(initial_token(None, Some(" b\n")), Some("b".to_string()));
    assert_eq!(initial_token(None, Some("\n")), None);
    assert_eq!(initial_token(None, None), None);
}

#[test]
fn a_source_is_as_old_as_its_last_change() {
    let info = SourceInfo {
        id: Some("user/data".to_string()),
        last_modified: Some("2024-01-02T03:04:05Z".to_string()),
    };
    let source = SourceKind::Bucket { bucket_id: "user/data".to_string() };
    let client =
        HubApiClient::from_source("https://h", None, false, source, String::new(), info).unwrap();
    assert_eq!(client.default_mtime(), Timestamp { secs: 1_704_164_645, nanos: 0 });
    assert!(!client.is_repo());
    assert_eq!(client.bearer(), None);
}

#[test]
fn repo_entries_take_the_size_of_large_files() {
    let entry = RepoTreeEntry {
        path: "model.bin".to_string(),
        entry_type: "file".to_string(),
        size: Some(130),
        oid: Some("blob".to_string()),
        xet_hash: Some("xet".to_string()),
        lfs_size: Some(1_000_000),
        commit_date: Some("2024-01-02T03:04:05Z".to_string()),
    };
    let tree = entry.into_tree_entry();
    assert_eq!(tree.size, Some(1_000_000));
    assert_eq!(tree.oid.as_deref(), Some("blob"));
    assert_eq!(tree.xet_hash.as_deref(), Some("xet"));
    assert_eq!(tree.mtime.as_deref(), Some("2024-01-02T03:04:05Z"));
}

#[test]
fn linked_headers_come_before_plain_ones() {
    let text = |s: &str| Header::Text(s.to_string());
    let head = HeadFileInfo::from_headers(HeadHeaders {
        x_xet_hash: text("xet"),
        x_linked_size: text("42"),
        content_length: text("7"),
        x_linked_etag: text("\"linked\""),
        etag: text("\"plain\""),
        last_modified: text("Wed, 21 Oct 2015 07:28:00 GMT"),
    });
    assert_eq!(head.xet_hash.as_deref(), Some("xet"));
    assert_eq!(head.size, Some(42));
    assert_eq!(head.etag.as_deref(), Some("linked"));
    assert_eq!(head.last_modified.as_deref(), Some("Wed, 21 Oct 2015 07:28:00 GMT"));
}

#[test]
fn plain_headers_stand_in_for_linked_ones() {
    let head = HeadFileInfo::from_headers(HeadHeaders {
        x_xet_hash: Header::Missing,
        x_linked_size: Header::Missing,
        content_length: Header::Text("7".to_string()),
        x_linked_etag: Header::Missing,
        etag: Header::Text("\"plain\"".to_string()),
        last_modified: Header::Missing,
    });
    assert_eq!(head.xet_hash, None);
    assert_eq!(head.size, Some(7));
    assert_eq!(head.etag.as_deref(), Some("plain"));
    assert_eq!(head.last_modified, None);
}

#[test]
fn downloads_are_conditional_on_their_etag() {
    assert_eq!(if_none_match(" abc\n"), "\"abc\"");
    assert_eq!(download_etag(Header::Text("\"abc\"".to_string())).as_deref(), Some("abc"));
    assert_eq!(download_etag(Header::Missing), None);
}

#[test]
fn the_next_page_is_found_among_links() {
    let header = "<https://h/1>; rel=\"first\", <https://h/2>; rel=\"next\"";
    assert!(check_link_header(header));
    assert_eq!(parse_link_next(header).as_deref(), Some("https://h/2"));
}

#[test]
fn errors_name_their_kind() {
    assert_eq!(Error::Xet("x".to_string()).to_string(), "Xet error: x");
    assert_eq!(Error::Io("x".to_string()).to_string(), "IO error: x");
    assert_eq!(Error::Json("x".to_string()).to_string(), "JSON error: x");
    assert_eq!(Error::Http("x".to_string()).to_string(), "HTTP error: x");
}
