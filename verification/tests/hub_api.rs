//! Identifiers, routes, headers and retries of the Hub API.
use hf_mount::error::{is_retryable_status, Error};
use hf_mount::hub_api::{
    mtime_from_http_date, mtime_from_str, parse_link_next, parse_retry_delay, retry_delay, split_path_prefix,
    HubApiClient, RepoType, SourceInfo, SourceKind,
};
use hf_mount::time::{Duration, Timestamp};

fn make_test_client(prefix: &str) -> HubApiClient {
    HubApiClient::from_source(
        "https://huggingface.co",
        Some("static-token"),
        false,
        SourceKind::Bucket { bucket_id: "user/bucket".to_string() },
        prefix.to_string(),
        SourceInfo { id: None, last_modified: None },
    )
    .unwrap()
}

#[test]
fn test_parse_link_next_picks_next_relation() {
    let header = r#"<https://api.example.com/page=1>; rel="prev", <https://api.example.com/page=3>; rel="next""#;
    assert_eq!(
        parse_link_next(header),
        Some("https://api.example.com/page=3".to_string())
    );
}

#[test]
fn test_parse_link_next_returns_none_when_missing() {
    let header = r#"<https://api.example.com/page=1>; rel="prev", <https://api.example.com/page=2>; rel="last""#;
    assert_eq!(parse_link_next(header), None);
}

#[test]
fn test_mtime_parsers_fallback_to_unix_epoch_on_invalid_input() {
    assert_eq!(mtime_from_str("not-a-date"), Timestamp::unix_epoch());
    assert_eq!(mtime_from_http_date("still-not-a-date"), Timestamp::unix_epoch());
}

#[test]
fn test_mtime_parsers_support_valid_formats() {
    let rfc3339 = mtime_from_str("2026-02-28T14:52:39Z");
    let http_date = mtime_from_http_date("Sat, 28 Feb 2026 14:52:39 GMT");
    assert!(rfc3339 > Timestamp::unix_epoch());
    assert!(http_date > Timestamp::unix_epoch());
    assert_eq!(rfc3339, http_date);
}

#[test]
fn test_repo_type_from_str() {
    assert_eq!("model".parse::<RepoType>().unwrap(), RepoType::Model);
    assert_eq!("dataset".parse::<RepoType>().unwrap(), RepoType::Dataset);
    assert_eq!("space".parse::<RepoType>().unwrap(), RepoType::Space);
    assert!("unknown".parse::<RepoType>().is_err());
}

#[test]
fn test_repo_type_api_prefix() {
    assert_eq!(RepoType::Model.api_prefix(), "models");
    assert_eq!(RepoType::Dataset.api_prefix(), "datasets");
    assert_eq!(RepoType::Space.api_prefix(), "spaces");
}

#[test]
fn test_repo_type_resolve_prefix() {
    assert_eq!(RepoType::Model.resolve_prefix(), "");
    assert_eq!(RepoType::Dataset.resolve_prefix(), "datasets/");
    assert_eq!(RepoType::Space.resolve_prefix(), "spaces/");
}

#[test]
fn test_split_path_prefix_bucket_no_subfolder() {
    let (id, prefix) = split_path_prefix("user/bucket").unwrap();
    assert_eq!(id, "user/bucket");
    assert_eq!(prefix, "");
}

#[test]
fn test_split_path_prefix_bucket_with_subfolder() {
    let (id, prefix) = split_path_prefix("user/bucket/a/b").unwrap();
    assert_eq!(id, "user/bucket");
    assert_eq!(prefix, "a/b");
}

#[test]
fn test_split_path_prefix_bucket_single_subfolder() {
    let (id, prefix) = split_path_prefix("user/bucket/checkpoints").unwrap();
    assert_eq!(id, "user/bucket");
    assert_eq!(prefix, "checkpoints");
}

#[test]
fn test_split_path_prefix_single_segment() {
    let (id, prefix) = split_path_prefix("gpt2").unwrap();
    assert_eq!(id, "gpt2");
    assert_eq!(prefix, "");
}

#[test]
fn test_split_path_prefix_repo_with_subfolder() {
    let (id, prefix) = split_path_prefix("user/model/ckpt/v2").unwrap();
    assert_eq!(id, "user/model");
    assert_eq!(prefix, "ckpt/v2");
}

#[test]
fn test_split_path_prefix_trailing_slash() {
    let (id, prefix) = split_path_prefix("user/bucket/checkpoints/").unwrap();
    assert_eq!(id, "user/bucket");
    assert_eq!(prefix, "checkpoints");
}

#[test]
fn test_split_path_prefix_rejects_dotdot() {
    assert!(split_path_prefix("user/bucket/../other").is_err());
}

#[test]
fn test_split_path_prefix_rejects_dot() {
    assert!(split_path_prefix("user/bucket/./foo").is_err());
}

#[test]
fn test_prefixed_path_empty_prefix() {
    let c = make_test_client("");
    assert_eq!(c.prefixed_path("file.txt"), "file.txt");
    assert_eq!(c.prefixed_path("a/b"), "a/b");
    assert_eq!(c.prefixed_path(""), "");
}

#[test]
fn test_prefixed_path_with_prefix() {
    let c = make_test_client("sub/dir");
    assert_eq!(c.prefixed_path("file.txt"), "sub/dir/file.txt");
    assert_eq!(c.prefixed_path("a/b"), "sub/dir/a/b");
    assert_eq!(c.prefixed_path(""), "sub/dir");
}

#[test]
fn test_strip_path_prefix_empty_prefix() {
    let c = make_test_client("");
    assert_eq!(c.strip_path_prefix("file.txt"), Some("file.txt"));
    assert_eq!(c.strip_path_prefix("a/b/c"), Some("a/b/c"));
}

#[test]
fn test_strip_path_prefix_with_prefix() {
    let c = make_test_client("sub/dir");
    assert_eq!(c.strip_path_prefix("sub/dir/file.txt"), Some("file.txt"));
    assert_eq!(c.strip_path_prefix("sub/dir/a/b"), Some("a/b"));
    // The prefix directory itself gives the empty path.
    assert_eq!(c.strip_path_prefix("sub/dir"), Some(""));
    // An unrelated path gives nothing.
    assert_eq!(c.strip_path_prefix("other/file.txt"), None);
}

#[test]
fn retry_delay_exponential_backoff() {
    assert_eq!(retry_delay(1), Duration::from_millis(500));
    assert_eq!(retry_delay(2), Duration::from_millis(1000));
    assert_eq!(retry_delay(3), Duration::from_millis(2000));
}

#[test]
fn is_retryable_status_covers_expected_codes() {
    assert!(is_retryable_status(408));
    assert!(is_retryable_status(429));
    assert!(is_retryable_status(500));
    assert!(is_retryable_status(502));
    assert!(is_retryable_status(503));
    assert!(is_retryable_status(504));
    assert!(!is_retryable_status(200));
    assert!(!is_retryable_status(301));
    assert!(!is_retryable_status(400));
    assert!(!is_retryable_status(401));
    assert!(!is_retryable_status(403));
    assert!(!is_retryable_status(404));
}

#[test]
fn parse_retry_delay_extracts_t_value() {
    let duration = parse_retry_delay(Some(r#""hub_api";r=0;t=45"#)).unwrap();
    assert_eq!(duration, Duration::from_secs(30)); // capped
}

#[test]
fn parse_retry_delay_small_value() {
    let duration = parse_retry_delay(Some(r#""hub_api";r=0;t=5"#)).unwrap();
    assert_eq!(duration, Duration::from_secs(5));
}

#[test]
fn parse_retry_delay_missing_header() {
    assert!(parse_retry_delay(None).is_none());
}

#[test]
fn parse_retry_delay_no_t_param() {
    assert!(parse_retry_delay(Some(r#""hub_api";r=50"#)).is_none());
}

#[test]
fn error_hub_constructors() {
    let err = Error::hub("test error");
    assert!(matches!(err, Error::Hub { status: None, .. }));
    assert!(err.to_string().contains("test error"));

    let err = Error::hub_status(404, "not found");
    assert!(matches!(err, Error::Hub { status: Some(404), .. }));
    assert!(err.to_string().contains("404"));
    assert!(err.to_string().contains("not found"));
}
