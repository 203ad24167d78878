use hf_mount::error::{is_retryable_status, Error};
use hf_mount::hub_api::{
    parse_retry_delay, retry_delay, retry_step, status_error, Reply, RetryAction, MAX_RETRIES,
};
use hf_mount::time::Duration;

/// Replies one after the other, until one is accepted or the request fails.
fn run(statuses: &[u16], accept_redirects: bool) -> (RetryAction, usize) {
    let mut sent = 0;
    for (i, status) in statuses.iter().enumerate() {
        sent += 1;
        let reply = Reply::Answer { status: *status, ratelimit: None };
        let action = retry_step(i as u32 + 1, &reply, accept_redirects);
        match action {
            RetryAction::Retry(_) => continue,
            other => return (other, sent),
        }
    }
    panic!("the request goes on after {sent} replies");
}

#[test]
fn send_with_retry_success_on_first_try() {
    let (action, sent) = run(&[200], false);
    assert!(matches!(action, RetryAction::Accept));
    assert_eq!(sent, 1);
}

#[test]
fn send_with_retry_retries_on_503_then_succeeds() {
    let (action, sent) = run(&[503, 200], false);
    assert!(matches!(action, RetryAction::Accept));
    assert_eq!(sent, 2);
}

#[test]
fn send_with_retry_retries_on_429_then_succeeds() {
    let (action, sent) = run(&[429, 200], false);
    assert!(matches!(action, RetryAction::Accept));
    assert_eq!(sent, 2);
}

#[test]
fn send_with_retry_no_retry_on_404() {
    let (action, sent) = run(&[404], false);
    assert!(matches!(action, RetryAction::Fail));
    assert_eq!(sent, 1);
    assert!(status_error("test", 404, "gone").has_status(404));
}

#[test]
fn send_with_retry_304_returned_as_error() {
    let (action, _) = run(&[304], false);
    assert!(matches!(action, RetryAction::Fail));
    assert!(status_error("test", 304, "").has_status(304));
}

#[test]
fn send_with_retry_accepts_redirects_when_enabled() {
    let (action, _) = run(&[302], true);
    assert!(matches!(action, RetryAction::Accept));
}

#[test]
fn send_with_retry_rejects_redirects_when_disabled() {
    let (action, _) = run(&[302], false);
    assert!(matches!(action, RetryAction::Fail));
    assert!(status_error("test", 302, "").has_status(302));
}

#[test]
fn status_errors_do_not_match_other_statuses() {
    let e = status_error("test", 503, "busy");
    assert!(e.has_status(503));
    assert!(!e.has_status(404));
    assert!(!Error::hub("busy").has_status(503));
}

#[test]
fn send_with_retry_gives_up_after_max_retries() {
    let (action, sent) = run(&[503, 503, 503], false);
    assert!(matches!(action, RetryAction::Fail));
    assert_eq!(sent, 3);
    assert_eq!(MAX_RETRIES, 2);
    let err = status_error("test", 503, "status 503");
    assert!(matches!(err, Error::Hub { status: Some(503), .. }));
    assert_eq!(err.to_string(), "Hub API error (503): test: 503 status 503");
}

#[test]
fn pauses_double_unless_the_server_sets_them() {
    let busy = Reply::Answer { status: 503, ratelimit: None };
    assert_eq!(
        retry_step(1, &busy, false),
        RetryAction::Retry(Duration::from_millis(500))
    );
    assert_eq!(
        retry_step(2, &busy, false),
        RetryAction::Retry(Duration::from_millis(1000))
    );
    let limited = Reply::Answer {
        status: 429,
        ratelimit: Some("\"api\";r=0;t=12".to_string()),
    };
    assert_eq!(
        retry_step(1, &limited, false),
        RetryAction::Retry(Duration::from_secs(12))
    );
    assert_eq!(retry_delay(4), Duration::from_millis(4000));
}

#[test]
fn the_server_cannot_ask_for_a_pause_of_more_than_half_a_minute() {
    assert_eq!(
        parse_retry_delay(Some("\"api\";r=0;t=3600")),
        Some(Duration::from_secs(30))
    );
    assert_eq!(parse_retry_delay(Some("t=x;t=4")), Some(Duration::from_secs(4)));
}

#[test]
fn a_request_without_an_answer_is_repeated_if_that_may_help() {
    let timeout = Reply::NoAnswer { transient: true };
    let refused = Reply::NoAnswer { transient: false };
    assert!(matches!(retry_step(1, &timeout, false), RetryAction::Retry(_)));
    assert!(matches!(retry_step(3, &timeout, false), RetryAction::Fail));
    assert!(matches!(retry_step(1, &refused, false), RetryAction::Fail));
}

#[test]
fn client_errors_are_not_retried() {
    for status in [400u16, 401, 403, 404, 409] {
        assert!(!is_retryable_status(status));
    }
}

#[test]
fn every_server_error_is_retried() {
    for status in [500, 501, 505, 507, 599] {
        let reply = Reply::Answer { status, ratelimit: None };
        assert!(matches!(retry_step(1, &reply, false), RetryAction::Retry(_)));
        assert!(matches!(retry_step(2, &reply, false), RetryAction::Retry(_)));
        assert!(matches!(retry_step(3, &reply, false), RetryAction::Fail));
    }
    let beyond = Reply::Answer { status: 600, ratelimit: None };
    assert!(matches!(retry_step(1, &beyond, false), RetryAction::Fail));
    assert!(!is_retryable_status(501));
}
