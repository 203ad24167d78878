//! The Hub API: identifiers, routes, listings, headers, and when to repeat a request.
use crate::error;
use crate::error::{is_retryable_status, Error, ErrorModel};
use crate::text;
use crate::text::{
    clone_opt, concat, contains, decimal_text, parse_u64, split, split_at_first, str_eq,
    strip_prefix, trim, trim_char, trim_end_char,
};
use crate::time::{elapsed_since, instant_now, Duration, Timestamp};
use std::time::Instant;
use vstd::arithmetic::power2;
use vstd::prelude::*;
use vstd::string::*;

verus! {

broadcast use vstd::string::group_string_axioms;

#[derive(Debug, Clone, Copy, PartialEq, Eq, Structural)]
pub enum RepoType {
    Model,
    Dataset,
    Space,
}

impl RepoType {
    /// The segment of the type in `/api/{type}/{id}/` routes.
    pub open spec fn api_segment(self) -> Seq<char> {
        match self {
            RepoType::Model => "models"@,
            RepoType::Dataset => "datasets"@,
            RepoType::Space => "spaces"@,
        }
    }

    /// The segment of the type in `/{type}/{id}/resolve/` routes. Models have none.
    pub open spec fn resolve_segment(self) -> Seq<char> {
        match self {
            RepoType::Model => ""@,
            RepoType::Dataset => "datasets/"@,
            RepoType::Space => "spaces/"@,
        }
    }

    /// The name of the type.
    pub open spec fn label(self) -> Seq<char> {
        match self {
            RepoType::Model => "model"@,
            RepoType::Dataset => "dataset"@,
            RepoType::Space => "space"@,
        }
    }

    /// Path segment used in `/api/{type}/{id}/` routes.
    pub fn api_prefix(&self) -> (r: &'static str)
        ensures
            r@ == self.api_segment(),
    {
        match self {
            RepoType::Model => "models",
            RepoType::Dataset => "datasets",
            RepoType::Space => "spaces",
        }
    }

    /// Path segment used in `/{type}/{id}/resolve/` user-facing routes.
    pub fn resolve_prefix(&self) -> (r: &'static str)
        ensures
            r@ == self.resolve_segment(),
    {
        match self {
            RepoType::Model => "",
            RepoType::Dataset => "datasets/",
            RepoType::Space => "spaces/",
        }
    }

    /// The name of the type.
    pub fn name(&self) -> (r: &'static str)
        ensures
            r@ == self.label(),
    {
        match self {
            RepoType::Model => "model",
            RepoType::Dataset => "dataset",
            RepoType::Space => "space",
        }
    }

    /// The type of this name, or a message that names the known ones.
    pub fn from_name(s: &str) -> (r: std::result::Result<RepoType, String>)
        ensures
            r matches Ok(t) ==> s@ == t.label(),
            r is Err <==> s@ != "model"@ && s@ != "dataset"@ && s@ != "space"@,
            r matches Err(message) ==> message@ == "unknown repo type: "@ + s@
                + " (expected model, dataset, or space)"@,
    {
        proof {
            reveal_strlit("model");
            reveal_strlit("dataset");
            reveal_strlit("space");
        }
        if str_eq(s, "model") {
            Ok(RepoType::Model)
        } else if str_eq(s, "dataset") {
            Ok(RepoType::Dataset)
        } else if str_eq(s, "space") {
            Ok(RepoType::Space)
        } else {
            let mut message = "unknown repo type: ".to_owned();
            message.append(s);
            message.append(" (expected model, dataset, or space)");
            Err(message)
        }
    }
}

impl std::str::FromStr for RepoType {
    type Err = String;

    fn from_str(s: &str) -> (r: std::result::Result<Self, Self::Err>)
        ensures
            r matches Ok(t) ==> s@ == t.label(),
            r is Err <==> s@ != "model"@ && s@ != "dataset"@ && s@ != "space"@,
            r matches Err(message) ==> message@ == "unknown repo type: "@ + s@
                + " (expected model, dataset, or space)"@,
    {
        RepoType::from_name(s)
    }
}

/// Identifies whether we're talking to a bucket or a repo.
#[derive(Debug)]
pub enum SourceKind {
    Bucket { bucket_id: String },
    Repo { repo_id: String, repo_type: RepoType, revision: String },
}

/// What a `SourceKind` holds.
pub enum SourceModel {
    Bucket { bucket_id: Seq<char> },
    Repo { repo_id: Seq<char>, repo_type: RepoType, revision: Seq<char> },
}

impl View for SourceKind {
    type V = SourceModel;

    open spec fn view(&self) -> SourceModel {
        match self {
            SourceKind::Bucket { bucket_id } => SourceModel::Bucket { bucket_id: bucket_id@ },
            SourceKind::Repo { repo_id, repo_type, revision } => SourceModel::Repo {
                repo_id: repo_id@,
                repo_type: *repo_type,
                revision: revision@,
            },
        }
    }
}

impl Clone for SourceKind {
    fn clone(&self) -> (r: Self)
        ensures
            r@ == self@,
    {
        match self {
            SourceKind::Bucket { bucket_id } => SourceKind::Bucket { bucket_id: bucket_id.clone() },
            SourceKind::Repo { repo_id, repo_type, revision } => SourceKind::Repo {
                repo_id: repo_id.clone(),
                repo_type: *repo_type,
                revision: revision.clone(),
            },
        }
    }
}

impl SourceModel {
    /// `bucket/{id}`, or `{type}/{id}/{revision}`.
    pub open spec fn described(self) -> Seq<char> {
        match self {
            SourceModel::Bucket { bucket_id } => "bucket/"@ + bucket_id,
            SourceModel::Repo { repo_id, repo_type, revision } => repo_type.label() + "/"@
                + repo_id + "/"@ + revision,
        }
    }
}

impl SourceKind {
    /// `bucket/{id}`, or `{type}/{id}/{revision}`.
    pub fn to_string(&self) -> (r: String)
        ensures
            r@ == self@.described(),
    {
        match self {
            SourceKind::Bucket { bucket_id } => concat("bucket/", bucket_id.as_str()),
            SourceKind::Repo { repo_id, repo_type, revision } => {
                let mut out = repo_type.name().to_owned();
                out.append("/");
                out.append(repo_id.as_str());
                out.append("/");
                out.append(revision.as_str());
                out
            },
        }
    }
}

/// What a repo ID says: a type prefix, if there is one, and the rest.
pub open spec fn repo_id_parts(repo_id: Seq<char>) -> (RepoType, Seq<char>) {
    match text::stripped(repo_id, "datasets/"@) {
        Some(rest) => (RepoType::Dataset, rest),
        None => match text::stripped(repo_id, "spaces/"@) {
            Some(rest) => (RepoType::Space, rest),
            None => (RepoType::Model, repo_id),
        },
    }
}

/// Parse a repo ID, extracting the type from an optional prefix.
pub fn parse_repo_id(repo_id: &str) -> (r: (RepoType, String))
    ensures
        (r.0, r.1@) == repo_id_parts(repo_id@),
{
    if let Some(rest) = strip_prefix(repo_id, "datasets/") {
        (RepoType::Dataset, rest.to_owned())
    } else if let Some(rest) = strip_prefix(repo_id, "spaces/") {
        (RepoType::Space, rest.to_owned())
    } else {
        (RepoType::Model, repo_id.to_owned())
    }
}

/// A path has a component `.` or `..`.
pub open spec fn has_dot_component(path: Seq<char>) -> bool {
    text::parts(path, '/').contains("."@) || text::parts(path, '/').contains(".."@)
}

/// An identifier split behind its second segment, trailing slashes aside. `None` if the part
/// behind has a component `.` or `..`.
pub open spec fn prefix_split(raw: Seq<char>) -> Option<(Seq<char>, Seq<char>)> {
    let id = text::trimmed_end(raw, '/');
    match text::split_first(id, '/') {
        None => Some((id, ""@)),
        Some((owner, rest)) => match text::split_first(rest, '/') {
            None => Some((id, ""@)),
            Some((name, prefix)) => if has_dot_component(prefix) {
                None
            } else {
                Some((owner + seq!['/'] + name, prefix))
            },
        },
    }
}

/// Split a raw identifier into `(id, path_prefix)` after the first two segments. Trailing slashes
/// are trimmed, and `.` and `..` components in the prefix are rejected.
pub fn split_path_prefix(raw: &str) -> (r: std::result::Result<(&str, &str), &'static str>)
    ensures
        r is Err <==> prefix_split(raw@) is None,
        r matches Ok((id, prefix)) ==> Some((id@, prefix@)) == prefix_split(raw@),
        r matches Err(e) ==> e@ == "path prefix must not contain '.' or '..' components"@,
{
    let id = trim_end_char(raw, '/');
    proof {
        text::lemma_split_first(id@, '/');
    }
    match split_at_first(id, '/') {
        None => Ok((id, "")),
        Some((owner, rest)) => {
            proof {
                text::lemma_split_first(rest@, '/');
            }
            match split_at_first(rest, '/') {
                None => Ok((id, "")),
                Some((name, prefix)) => {
                    let components = split(prefix, '/');
                    let mut i: usize = 0;
                    while i < components.len()
                        invariant
                            i <= components.len(),
                            text::slices(components@) == text::parts(prefix@, '/'),
                            id@ == owner@ + seq!['/'] + (name@ + seq!['/'] + prefix@),
                            prefix_split(raw@) == if has_dot_component(prefix@) {
                                None::<(Seq<char>, Seq<char>)>
                            } else {
                                Some((owner@ + seq!['/'] + name@, prefix@))
                            },
                            forall|j: int|
                                0 <= j < i ==> components@[j]@ != "."@ && components@[j]@ != ".."@,
                        decreases components.len() - i,
                    {
                        if str_eq(components[i], ".") || str_eq(components[i], "..") {
                            assert(text::slices(components@)[i as int] == components@[i as int]@);
                            return Err("path prefix must not contain '.' or '..' components");
                        }
                        i += 1;
                    }
                    proof {
                        assert forall|p: Seq<char>| text::parts(prefix@, '/').contains(p) implies p
                            != "."@ && p != ".."@ by {
                            let ps = text::slices(components@);
                            let j = choose|j: int| 0 <= j < ps.len() && ps[j] == p;
                            assert(ps[j] == components@[j]@);
                        }
                    }
                    let n: usize = id.unicode_len() - 1 - prefix.unicode_len();
                    let head = id.substring_char(0, n);
                    assert(head@ =~= owner@ + seq!['/'] + name@);
                    Ok((head, prefix))
                },
            }
        },
    }
}

/// The pause before retry number `attempt`: half a second, doubled each time.
pub fn retry_delay(attempt: u32) -> (r: Duration)
    requires
        1 <= attempt <= 56,
    ensures
        r == Duration::from_millis((500 * power2::pow2((attempt - 1) as nat)) as u64),
{
    let mut millis: u64 = 500;
    let mut i: u32 = 1;
    proof {
        power2::lemma2_to64();
        power2::lemma2_to64_rest();
    }
    while i < attempt
        invariant
            1 <= i <= attempt <= 56,
            millis == 500 * power2::pow2((i - 1) as nat),
        decreases attempt - i,
    {
        proof {
            power2::lemma_pow2_unfold(i as nat);
            assert(power2::pow2(i as nat) <= power2::pow2(55)) by {
                if i < 55 {
                    power2::lemma_pow2_strictly_increases(i as nat, 55);
                }
            }
            power2::lemma2_to64_rest();
        }
        millis = millis * 2;
        i += 1;
    }
    Duration::from_millis(millis)
}

/// The seconds until the window resets that one part of a `RateLimit` header gives.
pub open spec fn reset_seconds(part: Seq<char>) -> Option<u64> {
    match text::stripped(text::trimmed_space(part), "t="@) {
        Some(secs) => text::number(secs),
        None => None,
    }
}

/// The seconds that the first of the parts gives that gives any.
pub open spec fn first_reset(parts: Seq<Seq<char>>) -> Option<u64>
    decreases parts.len(),
{
    if parts.len() == 0 {
        None
    } else {
        match reset_seconds(parts[0]) {
            Some(secs) => Some(secs),
            None => first_reset(parts.skip(1)),
        }
    }
}

/// The pause that a `RateLimit` header asks for, 30 seconds at most.
pub open spec fn rate_limit_delay(header: Seq<char>) -> Option<Duration> {
    match first_reset(text::parts(header, ';')) {
        Some(secs) => Some(
            Duration::from_secs(
                if secs <= 30 {
                    secs
                } else {
                    30
                },
            ),
        ),
        None => None,
    }
}

/// Read the `t=<seconds>` parameter of a `RateLimit` header (`"resource";r=<left>;t=<seconds>`),
/// capped at 30 seconds. A header that is missing or not text is `None`.
pub fn parse_retry_delay(ratelimit: Option<&str>) -> (r: Option<Duration>)
    ensures
        r == match ratelimit {
            Some(header) => rate_limit_delay(header@),
            None => None,
        },
{
    let header = match ratelimit {
        Some(header) => header,
        None => return None,
    };
    let fields = split(header, ';');
    let ghost all = text::parts(header@, ';');
    let mut i: usize = 0;
    assert(all.skip(0) =~= all);
    while i < fields.len()
        invariant
            i <= fields.len(),
            ratelimit == Some(header),
            all == text::parts(header@, ';'),
            text::slices(fields@) == all,
            first_reset(all) == first_reset(all.skip(i as int)),
        decreases fields.len() - i,
    {
        assert(all.skip(i as int).skip(1) =~= all.skip(i + 1));
        assert(all[i as int] == fields@[i as int]@);
        if let Some(digits) = strip_prefix(trim(fields[i]), "t=") {
            if let Some(secs) = parse_u64(digits) {
                return Some(
                    Duration::from_secs(
                        if secs <= 30 {
                            secs
                        } else {
                            30
                        },
                    ),
                );
            }
        }
        i += 1;
    }
    None
}

/// How often a request is repeated.
pub const MAX_RETRIES: u32 = 2;

/// What came of sending a request.
#[derive(Debug)]
pub enum Reply {
    /// The server answered with this status, and with this `RateLimit` header if it is text.
    Answer { status: u16, ratelimit: Option<String> },
    /// No answer. `transient` for a timeout or a failed connection.
    NoAnswer { transient: bool },
}

/// What to do about a reply.
#[derive(Debug, Clone, Copy, PartialEq, Eq, Structural)]
pub enum RetryAction {
    /// Hand the answer to the caller.
    Accept,
    /// Send the request again after this pause.
    Retry(Duration),
    /// Give up.
    Fail,
}

/// An answer counts as success: 2xx, and 3xx where redirects are accepted.
pub open spec fn acceptable(status: u16, accept_redirects: bool) -> bool {
    200 <= status < 300 || (accept_redirects && 300 <= status < 400)
}

/// An answer of this status is a transient error: the request may succeed if it is sent again.
pub open spec fn is_transient(status: u16) -> bool {
    error::retryable(status) || 500 <= status < 600
}

/// What is to be done about the reply to send number `attempt`.
pub open spec fn retry_rule(attempt: u32, reply: Reply, accept_redirects: bool) -> RetryAction {
    match reply {
        Reply::Answer { status, ratelimit } => if acceptable(status, accept_redirects) {
            RetryAction::Accept
        } else if is_transient(status) && attempt <= MAX_RETRIES {
            RetryAction::Retry(
                match (match text::opt_text(ratelimit) {
                    Some(header) => rate_limit_delay(header),
                    None => None,
                }) {
                    Some(delay) => delay,
                    None => backoff(attempt),
                },
            )
        } else {
            RetryAction::Fail
        },
        Reply::NoAnswer { transient } => if transient && attempt <= MAX_RETRIES {
            RetryAction::Retry(backoff(attempt))
        } else {
            RetryAction::Fail
        },
    }
}

/// The pause before retry number `attempt`.
pub open spec fn backoff(attempt: u32) -> Duration {
    Duration::from_millis((500 * power2::pow2((attempt - 1) as nat)) as u64)
}

/// Decide about the reply to send number `attempt`, counted from 1. The request is repeated on 408,
/// 429, every 5xx and timeouts. A `RateLimit` header sets the pause, else it doubles each time.
pub fn retry_step(attempt: u32, reply: &Reply, accept_redirects: bool) -> (r: RetryAction)
    requires
        attempt >= 1,
    ensures
        r == retry_rule(attempt, *reply, accept_redirects),
{
    match reply {
        Reply::Answer { status, ratelimit } => {
            let success = (200 <= *status && *status < 300) || (accept_redirects && 300 <= *status
                && *status < 400);
            let transient = is_retryable_status(*status) || (500 <= *status && *status < 600);
            if success {
                RetryAction::Accept
            } else if transient && attempt <= MAX_RETRIES {
                let asked = match ratelimit {
                    Some(header) => parse_retry_delay(Some(header.as_str())),
                    None => None,
                };
                match asked {
                    Some(delay) => RetryAction::Retry(delay),
                    None => RetryAction::Retry(retry_delay(attempt)),
                }
            } else {
                RetryAction::Fail
            }
        },
        Reply::NoAnswer { transient } => if *transient && attempt <= MAX_RETRIES {
            RetryAction::Retry(retry_delay(attempt))
        } else {
            RetryAction::Fail
        },
    }
}

/// A request is sent three times at most, and no pause between two sends is longer than 30
/// seconds, whatever the server asks for.
pub proof fn law_retries_are_bounded(attempt: u32, reply: Reply, accept_redirects: bool)
    requires
        attempt >= 1,
    ensures
        retry_rule(attempt, reply, accept_redirects) matches RetryAction::Retry(delay) ==> attempt
            <= 2 && delay.nanos <= Duration::from_secs(30).nanos,
{
    power2::lemma2_to64();
}

/// The error for an answer that is not accepted.
pub fn status_error(context: &str, status: u16, body: &str) -> (r: Error)
    ensures
        r@ == (ErrorModel::Hub {
            message: context@ + ": "@ + text::decimal(status as nat) + " "@ + body@,
            status: Some(status),
        }),
{
    let mut message = context.to_owned();
    message.append(": ");
    message.append(decimal_text(status as u64).as_str());
    message.append(" ");
    message.append(body);
    Error::hub_status(status, message.as_str())
}

/// What `chrono::DateTime::parse_from_rfc3339` makes of a text, as whole seconds since the epoch.
pub uninterp spec fn rfc3339_seconds(s: Seq<char>) -> Option<i64>;

/// Parses an RFC 3339 date through `chrono::DateTime::parse_from_rfc3339` and takes the whole
/// seconds since the epoch with `timestamp`. The result depends on the text alone.
#[verifier::external_body]
fn parse_rfc3339(s: &str) -> (r: Option<i64>)
    ensures
        r == rfc3339_seconds(s@),
{
    chrono::DateTime::parse_from_rfc3339(s).ok().map(|dt| dt.timestamp())
}

/// What `chrono::DateTime::parse_from_rfc2822` makes of a text, as whole seconds since the epoch.
pub uninterp spec fn rfc2822_seconds(s: Seq<char>) -> Option<i64>;

/// Parses an RFC 2822 date through `chrono::DateTime::parse_from_rfc2822` and takes the whole
/// seconds since the epoch with `timestamp`. The result depends on the text alone.
#[verifier::external_body]
fn parse_rfc2822(s: &str) -> (r: Option<i64>)
    ensures
        r == rfc2822_seconds(s@),
{
    chrono::DateTime::parse_from_rfc2822(s).ok().map(|dt| dt.timestamp())
}

/// The modification time for a parsed date: the epoch if there is none, or one before it.
pub open spec fn mtime_of(seconds: Option<i64>) -> Timestamp {
    match seconds {
        Some(secs) => if secs >= 0 {
            Timestamp { secs, nanos: 0 }
        } else {
            Timestamp::unix_epoch()
        },
        None => Timestamp::unix_epoch(),
    }
}

/// The modification time for a parsed date: the epoch if there is none, or one before it.
pub fn mtime_from_seconds(seconds: Option<i64>) -> (r: Timestamp)
    ensures
        r == mtime_of(seconds),
{
    match seconds {
        Some(secs) => if secs >= 0 {
            Timestamp { secs, nanos: 0 }
        } else {
            Timestamp::unix_epoch()
        },
        None => Timestamp::unix_epoch(),
    }
}

/// The modification time in an RFC 3339 text.
pub fn mtime_from_str(s: &str) -> (r: Timestamp)
    ensures
        r == mtime_of(rfc3339_seconds(s@)),
{
    mtime_from_seconds(parse_rfc3339(s))
}

/// The modification time in an HTTP date such as `Sat, 28 Feb 2026 14:52:39 GMT`.
pub fn mtime_from_http_date(s: &str) -> (r: Timestamp)
    ensures
        r == mtime_of(rfc2822_seconds(s@)),
{
    mtime_from_seconds(parse_rfc2822(s))
}

/// A part of a `Link` header that is marked as the next page and has both brackets.
pub open spec fn is_next_part(p: Seq<char>) -> bool {
    text::holds(p, "rel=\"next\""@) && p.contains('<') && p.contains('>')
}

/// The first part that is marked as the next page, without the whitespace around it.
pub open spec fn next_part(parts: Seq<Seq<char>>) -> Option<Seq<char>>
    decreases parts.len(),
{
    if parts.len() == 0 {
        None
    } else if is_next_part(text::trimmed_space(parts[0])) {
        Some(text::trimmed_space(parts[0]))
    } else {
        next_part(parts.skip(1))
    }
}

/// What a `Link` header gives as the next page: what is between the first `<` and the first `>` of
/// the part that is marked so.
pub open spec fn next_link(header: Seq<char>) -> Option<Seq<char>> {
    match next_part(text::parts(header, ',')) {
        Some(p) => {
            let before = text::split_first(p, '<')->Some_0.0;
            let upto = text::split_first(p, '>')->Some_0.0;
            Some(upto.skip(before.len() as int + 1))
        },
        None => None,
    }
}

/// The part of a `Link` header that is marked as the next page has its `<` before its `>`.
pub open spec fn link_header_ok(header: Seq<char>) -> bool {
    next_part(text::parts(header, ',')) matches Some(p) ==> text::split_first(p, '<')->Some_0.0.len()
        < text::split_first(p, '>')->Some_0.0.len()
}

/// The parts of the next-page part before its `<` and before its `>`.
fn next_brackets<'a>(header: &'a str) -> (r: Option<(&'a str, &'a str)>)
    ensures
        r is Some <==> next_part(text::parts(header@, ',')) is Some,
        r matches Some((before, upto)) ==> {
            let p = next_part(text::parts(header@, ','))->Some_0;
            &&& before@ == text::split_first(p, '<')->Some_0.0
            &&& upto@ == text::split_first(p, '>')->Some_0.0
        },
{
    let parts = split(header, ',');
    let ghost all = text::parts(header@, ',');
    let mut i: usize = 0;
    assert(all.skip(0) =~= all);
    while i < parts.len()
        invariant
            i <= parts.len(),
            all == text::parts(header@, ','),
            text::slices(parts@) == all,
            next_part(all) == next_part(all.skip(i as int)),
        decreases parts.len() - i,
    {
        assert(all.skip(i as int).skip(1) =~= all.skip(i + 1));
        assert(all[i as int] == parts@[i as int]@);
        let part = trim(parts[i]);
        proof {
            text::lemma_split_first(part@, '<');
            text::lemma_split_first(part@, '>');
        }
        if contains(part, "rel=\"next\"") {
            if let Some((before, _)) = split_at_first(part, '<') {
                if let Some((upto, _)) = split_at_first(part, '>') {
                    return Some((before, upto));
                }
            }
        }
        i += 1;
    }
    None
}

/// Whether the next-page part of a `Link` header, if there is one, has its `<` before its `>`.
pub fn check_link_header(header: &str) -> (r: bool)
    ensures
        r == link_header_ok(header@),
{
    match next_brackets(header) {
        Some((before, upto)) => before.unicode_len() < upto.unicode_len(),
        None => true,
    }
}

/// Read the link with `rel="next"` from a `Link` header such as
/// `<https://example.com/page2>; rel="next", <https://example.com/page0>; rel="prev"`.
pub fn parse_link_next(header: &str) -> (r: Option<String>)
    requires
        link_header_ok(header@),
    ensures
        text::opt_text(r) == next_link(header@),
{
    match next_brackets(header) {
        Some((before, upto)) => {
            let start: usize = before.unicode_len();
            let end: usize = upto.unicode_len();
            let link = upto.substring_char(start + 1, end);
            assert(link@ =~= upto@.skip(before@.len() as int + 1));
            Some(link.to_owned())
        },
        None => None,
    }
}

/// An operation of a batch on a bucket.
#[derive(Debug, Clone)]
pub enum BatchOp {
    AddFile { path: String, xet_hash: String, mtime: u64, content_type: Option<String> },
    DeleteFile { path: String },
}

/// What a `BatchOp` holds.
pub enum OpModel {
    AddFile {
        path: Seq<char>,
        xet_hash: Seq<char>,
        mtime: u64,
        content_type: Option<Seq<char>>,
    },
    DeleteFile { path: Seq<char> },
}

impl View for BatchOp {
    type V = OpModel;

    open spec fn view(&self) -> OpModel {
        match self {
            BatchOp::AddFile { path, xet_hash, mtime, content_type } => OpModel::AddFile {
                path: path@,
                xet_hash: xet_hash@,
                mtime: *mtime,
                content_type: text::opt_text(*content_type),
            },
            BatchOp::DeleteFile { path } => OpModel::DeleteFile { path: path@ },
        }
    }
}

/// What a list of operations holds.
pub open spec fn op_models(ops: Seq<BatchOp>) -> Seq<OpModel> {
    ops.map_values(|op: BatchOp| op@)
}

/// How a character is written in a JSON string.
pub open spec fn json_char(c: char) -> Seq<char> {
    if c == '"' || c == '\\' {
        seq!['\\', c]
    } else if c == '\u{8}' {
        seq!['\\', 'b']
    } else if c == '\t' {
        seq!['\\', 't']
    } else if c == '\n' {
        seq!['\\', 'n']
    } else if c == '\u{c}' {
        seq!['\\', 'f']
    } else if c == '\r' {
        seq!['\\', 'r']
    } else if (c as nat) < 0x20 {
        seq!['\\', 'u'] + text::hex_padded(c as nat, 4)
    } else {
        seq![c]
    }
}

/// The characters of a JSON string, without the quotation marks.
pub open spec fn json_chars(s: Seq<char>) -> Seq<char>
    decreases s.len(),
{
    if s.len() == 0 {
        Seq::empty()
    } else {
        json_chars(s.drop_last()) + json_char(s.last())
    }
}

/// The JSON text that stands for a string.
pub open spec fn json_string(s: Seq<char>) -> Seq<char> {
    seq!['"'] + json_chars(s) + seq!['"']
}

/// `serde_json::to_string` of a string: the string in quotation marks, with quotation marks,
/// backslashes and control characters escaped and everything else as it is. Writing it to memory
/// never fails.
#[verifier::external_body]
fn json_text(s: &str) -> (r: String)
    ensures
        r@ == json_string(s@),
{
    serde_json::to_string(s).unwrap_or_default()
}

/// An operation as a JSON text. A content type that is not known is left out.
pub open spec fn op_json(op: OpModel) -> Seq<char> {
    match op {
        OpModel::AddFile { path, xet_hash, mtime, content_type } => "{\"type\":\"addFile\",\"path\":"@
            + json_string(path) + ",\"xetHash\":"@ + json_string(xet_hash) + ",\"mtime\":"@
            + text::decimal(mtime as nat) + (match content_type {
            Some(t) => ",\"contentType\":"@ + json_string(t),
            None => Seq::empty(),
        }) + "}"@,
        OpModel::DeleteFile { path } => "{\"type\":\"deleteFile\",\"path\":"@ + json_string(path)
            + "}"@,
    }
}

impl BatchOp {
    /// The operation as a JSON text.
    pub fn to_json(&self) -> (r: String)
        ensures
            r@ == op_json(self@),
    {
        match self {
            BatchOp::AddFile { path, xet_hash, mtime, content_type } => {
                let mut out = "{\"type\":\"addFile\",\"path\":".to_owned();
                out.append(json_text(path.as_str()).as_str());
                out.append(",\"xetHash\":");
                out.append(json_text(xet_hash.as_str()).as_str());
                out.append(",\"mtime\":");
                out.append(decimal_text(*mtime).as_str());
                if let Some(t) = content_type {
                    out.append(",\"contentType\":");
                    out.append(json_text(t.as_str()).as_str());
                }
                out.append("}");
                assert(out@ =~= op_json(self@));
                out
            },
            BatchOp::DeleteFile { path } => {
                let mut out = "{\"type\":\"deleteFile\",\"path\":".to_owned();
                out.append(json_text(path.as_str()).as_str());
                out.append("}");
                out
            },
        }
    }
}

impl OpModel {
    /// The same operation under a subfolder.
    pub open spec fn under(self, prefix: Seq<char>) -> OpModel {
        match self {
            OpModel::AddFile { path, xet_hash, mtime, content_type } => OpModel::AddFile {
                path: joined(prefix, path),
                xet_hash,
                mtime,
                content_type,
            },
            OpModel::DeleteFile { path } => OpModel::DeleteFile { path: joined(prefix, path) },
        }
    }
}

/// An entry of a tree listing.
#[derive(Debug)]
pub struct TreeEntry {
    pub path: String,
    pub entry_type: String,
    pub size: Option<u64>,
    pub xet_hash: Option<String>,
    /// Git blob OID (the same value as the ETag on the resolve endpoint).
    pub oid: Option<String>,
    pub mtime: Option<String>,
}

/// What a `TreeEntry` holds.
#[verifier::ext_equal]
pub struct TreeModel {
    pub path: Seq<char>,
    pub entry_type: Seq<char>,
    pub size: Option<u64>,
    pub xet_hash: Option<Seq<char>>,
    pub oid: Option<Seq<char>>,
    pub mtime: Option<Seq<char>>,
}

impl View for TreeEntry {
    type V = TreeModel;

    open spec fn view(&self) -> TreeModel {
        TreeModel {
            path: self.path@,
            entry_type: self.entry_type@,
            size: self.size,
            xet_hash: text::opt_text(self.xet_hash),
            oid: text::opt_text(self.oid),
            mtime: text::opt_text(self.mtime),
        }
    }
}

impl Clone for TreeEntry {
    fn clone(&self) -> (r: Self)
        ensures
            r@ == self@,
    {
        TreeEntry {
            path: self.path.clone(),
            entry_type: self.entry_type.clone(),
            size: self.size,
            xet_hash: clone_opt(&self.xet_hash),
            oid: clone_opt(&self.oid),
            mtime: clone_opt(&self.mtime),
        }
    }
}

/// What a list of tree entries holds.
pub open spec fn tree_models(entries: Seq<TreeEntry>) -> Seq<TreeModel> {
    entries.map_values(|e: TreeEntry| e@)
}

/// An entry of the tree listing of a repo, as the Hub sends it.
#[derive(Debug)]
pub struct RepoTreeEntry {
    pub path: String,
    pub entry_type: String,
    pub size: Option<u64>,
    pub oid: Option<String>,
    pub xet_hash: Option<String>,
    /// The size of the file that an LFS pointer stands for.
    pub lfs_size: Option<u64>,
    /// The date of the last commit that touched the file.
    pub commit_date: Option<String>,
}

impl RepoTreeEntry {
    /// What the entry holds in the common form.
    pub open spec fn common(self) -> TreeModel {
        TreeModel {
            path: self.path@,
            entry_type: self.entry_type@,
            size: if self.lfs_size is Some {
                self.lfs_size
            } else {
                self.size
            },
            xet_hash: text::opt_text(self.xet_hash),
            oid: text::opt_text(self.oid),
            mtime: text::opt_text(self.commit_date),
        }
    }

    /// The entry in the common form. For LFS files `size` is that of the pointer, and the real
    /// size is in `lfs_size`.
    pub fn into_tree_entry(self) -> (r: TreeEntry)
        ensures
            r@ == self.common(),
    {
        TreeEntry {
            path: self.path,
            entry_type: self.entry_type,
            size: match self.lfs_size {
                Some(size) => Some(size),
                None => self.size,
            },
            xet_hash: self.xet_hash,
            oid: self.oid,
            mtime: self.commit_date,
        }
    }
}

/// Metadata of one remote file.
#[derive(Debug)]
pub struct HeadFileInfo {
    pub xet_hash: Option<String>,
    pub etag: Option<String>,
    pub size: Option<u64>,
    pub last_modified: Option<String>,
}

/// A token for the storage service.
#[derive(Debug)]
pub struct CasTokenInfo {
    pub cas_url: String,
    pub exp: u64,
    pub access_token: String,
}

/// A response header: absent, present but not text, or its text.
#[derive(Debug)]
pub enum Header {
    Missing,
    Opaque,
    Text(String),
}

impl Header {
    /// The text, if the header is present and is text.
    pub open spec fn content(self) -> Option<Seq<char>> {
        match self {
            Header::Text(s) => Some(s@),
            _ => None,
        }
    }
}

/// The headers of a resolve response that carry metadata.
#[derive(Debug)]
pub struct HeadHeaders {
    pub x_xet_hash: Header,
    pub x_linked_size: Header,
    pub content_length: Header,
    pub x_linked_etag: Header,
    pub etag: Header,
    pub last_modified: Header,
}

/// The text of the first header, or of the second if the first is absent.
pub open spec fn preferred(first: Header, second: Header) -> Option<Seq<char>> {
    if first is Missing {
        second.content()
    } else {
        first.content()
    }
}

fn header_text(header: Header) -> (r: Option<String>)
    ensures
        text::opt_text(r) == header.content(),
{
    match header {
        Header::Text(s) => Some(s),
        _ => None,
    }
}

fn preferred_text(first: Header, second: Header) -> (r: Option<String>)
    ensures
        text::opt_text(r) == preferred(first, second),
{
    match first {
        Header::Missing => header_text(second),
        Header::Opaque => None,
        Header::Text(s) => Some(s),
    }
}

impl HeadFileInfo {
    /// Read the metadata of a file from response headers. The linked size and ETag of an LFS file
    /// take precedence over those of the response itself, and quotes around an ETag are dropped.
    pub fn from_headers(headers: HeadHeaders) -> (r: HeadFileInfo)
        ensures
            text::opt_text(r.xet_hash) == headers.x_xet_hash.content(),
            r.size == match preferred(headers.x_linked_size, headers.content_length) {
                Some(s) => text::number(s),
                None => None,
            },
            text::opt_text(r.etag) == match preferred(headers.x_linked_etag, headers.etag) {
                Some(s) => Some(text::trimmed(s, |x: char| x == '"')),
                None => None,
            },
            text::opt_text(r.last_modified) == headers.last_modified.content(),
    {
        let xet_hash = header_text(headers.x_xet_hash);
        let size = match preferred_text(headers.x_linked_size, headers.content_length) {
            Some(s) => parse_u64(s.as_str()),
            None => None,
        };
        let etag = match preferred_text(headers.x_linked_etag, headers.etag) {
            Some(s) => Some(trim_char(s.as_str(), '"').to_owned()),
            None => None,
        };
        let last_modified = header_text(headers.last_modified);
        HeadFileInfo { xet_hash, etag, size, last_modified }
    }
}

/// How old a token read from a file may get before the file is read again.
pub const TOKEN_FILE_REFRESH_SECS: u64 = 30;

/// Whether a token read from a file this long ago, or never, has to be read again.
pub fn token_is_stale(age: Option<Duration>) -> (r: bool)
    ensures
        r == match age {
            Some(age) => age.nanos >= Duration::from_secs(TOKEN_FILE_REFRESH_SECS).nanos,
            None => true,
        },
{
    match age {
        Some(age) => age.nanos >= Duration::from_secs(TOKEN_FILE_REFRESH_SECS).nanos,
        None => true,
    }
}

/// The token that a file holds: its text without the whitespace around it, unless nothing is left.
pub open spec fn file_token(contents: Seq<char>) -> Option<Seq<char>> {
    let token = text::trimmed_space(contents);
    if token.len() == 0 {
        None
    } else {
        Some(token)
    }
}

/// The token for the requests made before a client exists.
pub open spec fn first_token(token: Option<Seq<char>>, contents: Option<Seq<char>>) -> Option<
    Seq<char>,
> {
    match contents {
        Some(c) if file_token(c) is Some => file_token(c),
        _ => token,
    }
}

/// The token for the requests made before a client exists: that of the file, else the given one.
pub fn initial_token(token: Option<&str>, contents: Option<&str>) -> (r: Option<String>)
    ensures
        text::opt_text(r) == first_token(
            match token {
                Some(t) => Some(t@),
                None => None,
            },
            match contents {
                Some(c) => Some(c@),
                None => None,
            },
        ),
{
    if let Some(c) = contents {
        let t = trim(c);
        if !t.is_empty() {
            return Some(t.to_owned());
        }
    }
    match token {
        Some(t) => Some(t.to_owned()),
        None => None,
    }
}

/// What the Hub says of a repo or bucket.
#[derive(Debug)]
pub struct SourceInfo {
    /// The full ID, of which the given one may be an alias.
    pub id: Option<String>,
    pub last_modified: Option<String>,
}

/// A prefix and a path joined by a slash, where neither is empty.
pub open spec fn joined(prefix: Seq<char>, path: Seq<char>) -> Seq<char> {
    if prefix.len() == 0 {
        path
    } else if path.len() == 0 {
        prefix
    } else {
        prefix + "/"@ + path
    }
}

/// What is left of `full` under `prefix`.
pub open spec fn unjoined(prefix: Seq<char>, full: Seq<char>) -> Option<Seq<char>> {
    if prefix.len() == 0 {
        Some(full)
    } else if full == prefix {
        Some(""@)
    } else {
        match text::stripped(full, prefix) {
            Some(rest) => text::stripped(rest, "/"@),
            None => None,
        }
    }
}

/// Stripping the prefix gives back the path that was put under it.
pub proof fn law_strip_undoes_prefix(prefix: Seq<char>, path: Seq<char>)
    ensures
        unjoined(prefix, joined(prefix, path)) == Some(path),
{
    reveal_strlit("/");
    reveal_strlit("");
    if prefix.len() == 0 {
    } else if path.len() == 0 {
        assert(path =~= ""@);
    } else {
        let full = prefix + "/"@ + path;
        assert(full.len() > prefix.len());
        assert(full.skip(prefix.len() as int) =~= "/"@ + path);
        assert(prefix.is_prefix_of(full));
        assert("/"@.is_prefix_of("/"@ + path));
        assert(("/"@ + path).skip(1) =~= path);
    }
}

/// What a `HubApiClient` needs to know of its remote.
pub struct HubApiClient {
    pub endpoint: String,
    pub token: Option<String>,
    /// Whether a token file is configured. Its token takes precedence over `token`.
    pub has_token_file: bool,
    /// The token last read from the file, and when.
    pub token_file_cache: Option<(Instant, String)>,
    pub source: SourceKind,
    /// Used where a file has no modification time of its own.
    pub last_modified: Timestamp,
    /// Optional subfolder: put before outgoing paths and stripped from incoming ones.
    pub path_prefix: String,
}

/// The route for facts about a repo or bucket.
pub open spec fn info_route(endpoint: Seq<char>, source: SourceModel) -> Seq<char> {
    match source {
        SourceModel::Repo { repo_id, repo_type, revision } => endpoint + "/api/"@
            + repo_type.api_segment() + "/"@ + repo_id,
        SourceModel::Bucket { bucket_id } => endpoint + "/api/buckets/"@ + bucket_id,
    }
}

/// The route for the facts about a repo or bucket. Slashes at the end of the endpoint are dropped.
pub fn info_url(endpoint: &str, source: &SourceKind) -> (r: String)
    ensures
        r@ == info_route(text::trimmed_end(endpoint@, '/'), source@),
{
    let mut url = trim_end_char(endpoint, '/').to_owned();
    match source {
        SourceKind::Repo { repo_id, repo_type, .. } => {
            url.append("/api/");
            url.append(repo_type.api_prefix());
            url.append("/");
            url.append(repo_id.as_str());
        },
        SourceKind::Bucket { bucket_id } => {
            url.append("/api/buckets/");
            url.append(bucket_id.as_str());
        },
    }
    url
}

/// The first page of the listing of one directory level.
pub open spec fn tree_route(
    endpoint: Seq<char>,
    source: SourceModel,
    prefix: Seq<char>,
) -> Seq<char> {
    match source {
        SourceModel::Bucket { bucket_id } => {
            let tree = endpoint + "/api/buckets/"@ + bucket_id + "/tree"@;
            if prefix.len() == 0 {
                tree + "?recursive=false&limit=10000"@
            } else {
                tree + "/"@ + prefix + "?recursive=false&limit=10000"@
            }
        },
        SourceModel::Repo { repo_id, repo_type, revision } => {
            let tree = endpoint + "/api/"@ + repo_type.api_segment() + "/"@ + repo_id + "/tree/"@
                + revision;
            if prefix.len() == 0 {
                tree + "?expand=true&limit=1000"@
            } else {
                tree + "/"@ + prefix + "?expand=true&limit=1000"@
            }
        },
    }
}

/// The route that serves a file.
pub open spec fn resolve_route(
    endpoint: Seq<char>,
    source: SourceModel,
    path: Seq<char>,
) -> Seq<char> {
    match source {
        SourceModel::Bucket { bucket_id } => endpoint + "/buckets/"@ + bucket_id + "/resolve/"@
            + path,
        SourceModel::Repo { repo_id, repo_type, revision } => endpoint + "/"@
            + repo_type.resolve_segment() + repo_id + "/resolve/"@ + revision + "/"@ + path,
    }
}

/// The route for a storage token to read with.
pub open spec fn read_token_route(endpoint: Seq<char>, source: SourceModel) -> Seq<char> {
    match source {
        SourceModel::Bucket { bucket_id } => endpoint + "/api/buckets/"@ + bucket_id
            + "/xet-read-token"@,
        SourceModel::Repo { repo_id, repo_type, revision } => endpoint + "/api/"@
            + repo_type.api_segment() + "/"@ + repo_id + "/xet-read-token/"@ + revision,
    }
}

/// The entry of a listing as seen from the subfolder, unless it is outside or the folder itself.
pub open spec fn scoped(prefix: Seq<char>, e: TreeModel) -> Option<TreeModel> {
    match unjoined(prefix, e.path) {
        Some(path) => if prefix.len() == 0 || path.len() > 0 {
            Some(TreeModel { path, ..e })
        } else {
            None
        },
        None => None,
    }
}

impl HubApiClient {
    /// A client for a repo or bucket of which the Hub said `info`. A repo ID that is an alias is
    /// replaced by the full one.
    pub fn from_source(
        endpoint: &str,
        token: Option<&str>,
        has_token_file: bool,
        source: SourceKind,
        path_prefix: String,
        info: SourceInfo,
    ) -> (r: error::Result<HubApiClient>)
        ensures
            r is Err <==> source@ is Repo && info.id is None,
            r matches Err(e) ==> e@ == (ErrorModel::Hub {
                message: "repo info missing 'id' field"@,
                status: None,
            }),
            r matches Ok(c) ==> {
                &&& c.endpoint@ == text::trimmed_end(endpoint@, '/')
                &&& text::opt_text(c.token) == match token {
                    Some(t) => Some(t@),
                    None => None,
                }
                &&& c.has_token_file == has_token_file
                &&& c.token_file_cache is None
                &&& c.source@ == match source@ {
                    SourceModel::Repo { repo_id, repo_type, revision } => SourceModel::Repo {
                        repo_id: info.id->Some_0@,
                        repo_type,
                        revision,
                    },
                    SourceModel::Bucket { bucket_id } => SourceModel::Bucket { bucket_id },
                }
                &&& c.last_modified == match text::opt_text(info.last_modified) {
                    Some(s) => mtime_of(rfc3339_seconds(s)),
                    None => Timestamp::unix_epoch(),
                }
                &&& c.path_prefix@ == path_prefix@
            },
    {
        let last_modified = match &info.last_modified {
            Some(s) => mtime_from_str(s.as_str()),
            None => Timestamp::unix_epoch(),
        };
        let source = match source {
            SourceKind::Repo { repo_type, revision, .. } => match info.id {
                Some(repo_id) => SourceKind::Repo { repo_id, repo_type, revision },
                None => return Err(Error::hub("repo info missing 'id' field")),
            },
            SourceKind::Bucket { bucket_id } => SourceKind::Bucket { bucket_id },
        };
        Ok(
            HubApiClient {
                endpoint: trim_end_char(endpoint, '/').to_owned(),
                token: match token {
                    Some(t) => Some(t.to_owned()),
                    None => None,
                },
                has_token_file,
                token_file_cache: None,
                source,
                last_modified,
                path_prefix,
            },
        )
    }

    /// A client for a bucket.
    pub fn new(endpoint: &str, token: Option<&str>, bucket_id: &str) -> (r: HubApiClient)
        ensures
            r.endpoint@ == text::trimmed_end(endpoint@, '/'),
            text::opt_text(r.token) == match token {
                Some(t) => Some(t@),
                None => None,
            },
            !r.has_token_file,
            r.token_file_cache is None,
            r.source@ == (SourceModel::Bucket { bucket_id: bucket_id@ }),
            r.last_modified == Timestamp::unix_epoch(),
            r.path_prefix@.len() == 0,
    {
        HubApiClient {
            endpoint: trim_end_char(endpoint, '/').to_owned(),
            token: match token {
                Some(t) => Some(t.to_owned()),
                None => None,
            },
            has_token_file: false,
            token_file_cache: None,
            source: SourceKind::Bucket { bucket_id: bucket_id.to_owned() },
            last_modified: Timestamp::unix_epoch(),
            path_prefix: String::new(),
        }
    }

    /// Whether the token file has to be read before the next request. A client without one never
    /// reads it, and one that has read no token yet always does; else the age of the token
    /// decides.
    pub fn needs_token_refresh(&self) -> (r: bool)
        ensures
            !self.has_token_file ==> !r,
            self.has_token_file && self.token_file_cache is None ==> r,
    {
        if !self.has_token_file {
            return false;
        }
        match &self.token_file_cache {
            Some((at, _)) => token_is_stale(Some(elapsed_since(at))),
            None => token_is_stale(None),
        }
    }

    /// Keep the token that was read from the token file, unless it is empty.
    pub fn store_token(&mut self, contents: &str)
        ensures
            final(self).token_file_cache is None <==> old(self).token_file_cache is None
                && file_token(contents@) is None,
            final(self).token_file_cache matches Some((_, t)) ==> match file_token(contents@) {
                Some(token) => t@ == token,
                None => final(self).token_file_cache == old(self).token_file_cache,
            },
            final(self).endpoint == old(self).endpoint,
            final(self).token == old(self).token,
            final(self).has_token_file == old(self).has_token_file,
            final(self).source == old(self).source,
            final(self).last_modified == old(self).last_modified,
            final(self).path_prefix == old(self).path_prefix,
    {
        let token = trim(contents);
        if !token.is_empty() {
            self.token_file_cache = Some((instant_now(), token.to_owned()));
        }
    }

    /// The token to authenticate with: the one read from the token file, else the configured one.
    pub fn bearer(&self) -> (r: Option<&str>)
        ensures
            r is Some <==> (self.has_token_file && self.token_file_cache is Some)
                || self.token is Some,
            r matches Some(t) ==> if self.has_token_file && self.token_file_cache is Some {
                t@ == self.token_file_cache->Some_0.1@
            } else {
                t@ == self.token->Some_0@
            },
    {
        if self.has_token_file {
            if let Some((_, token)) = &self.token_file_cache {
                return Some(token.as_str());
            }
        }
        match &self.token {
            Some(t) => Some(t.as_str()),
            None => None,
        }
    }

    pub fn source(&self) -> (r: &SourceKind)
        ensures
            *r == self.source,
    {
        &self.source
    }

    /// Default mtime when per-file mtime is unavailable.
    pub fn default_mtime(&self) -> (r: Timestamp)
        ensures
            r == self.last_modified,
    {
        self.last_modified
    }

    pub fn is_repo(&self) -> (r: bool)
        ensures
            r == (self.source is Repo),
    {
        match &self.source {
            SourceKind::Repo { .. } => true,
            SourceKind::Bucket { .. } => false,
        }
    }

    /// The subfolder this client is scoped to.
    pub fn path_prefix(&self) -> (r: &str)
        ensures
            r@ == self.path_prefix@,
    {
        self.path_prefix.as_str()
    }

    /// Join `path_prefix` and `path` into the full API path.
    pub fn prefixed_path(&self, path: &str) -> (r: String)
        ensures
            r@ == joined(self.path_prefix@, path@),
    {
        if self.path_prefix.as_str().is_empty() {
            path.to_owned()
        } else if path.is_empty() {
            self.path_prefix.clone()
        } else {
            let mut out = self.path_prefix.clone();
            out.append("/");
            out.append(path);
            out
        }
    }

    /// Strip `path_prefix` from the beginning of `full`. The prefix directory itself gives the
    /// empty path, and a path outside gives `None`.
    pub fn strip_path_prefix<'a>(&self, full: &'a str) -> (r: Option<&'a str>)
        ensures
            r is Some <==> unjoined(self.path_prefix@, full@) is Some,
            r matches Some(rest) ==> Some(rest@) == unjoined(self.path_prefix@, full@),
    {
        if self.path_prefix.as_str().is_empty() {
            return Some(full);
        }
        if str_eq(full, self.path_prefix.as_str()) {
            return Some("");
        }
        match strip_prefix(full, self.path_prefix.as_str()) {
            Some(rest) => strip_prefix(rest, "/"),
            None => None,
        }
    }

    /// The first page of the listing of the directory at `prefix`.
    pub fn tree_url(&self, prefix: &str) -> (r: String)
        ensures
            r@ == tree_route(self.endpoint@, self.source@, joined(self.path_prefix@, prefix@)),
    {
        let api_prefix = self.prefixed_path(prefix);
        let mut url = self.endpoint.clone();
        match &self.source {
            SourceKind::Bucket { bucket_id } => {
                url.append("/api/buckets/");
                url.append(bucket_id.as_str());
                url.append("/tree");
                if !api_prefix.as_str().is_empty() {
                    url.append("/");
                    url.append(api_prefix.as_str());
                }
                url.append("?recursive=false&limit=10000");
            },
            SourceKind::Repo { repo_id, repo_type, revision } => {
                url.append("/api/");
                url.append(repo_type.api_prefix());
                url.append("/");
                url.append(repo_id.as_str());
                url.append("/tree/");
                url.append(revision.as_str());
                if !api_prefix.as_str().is_empty() {
                    url.append("/");
                    url.append(api_prefix.as_str());
                }
                url.append("?expand=true&limit=1000");
            },
        }
        url
    }

    /// A listing as seen from the subfolder: its path stripped, entries outside and the folder
    /// itself left out.
    pub fn scope_entries(&self, entries: Vec<TreeEntry>) -> (r: Vec<TreeEntry>)
        ensures
            tree_models(r@) == tree_models(entries@).filter_map(
                |e: TreeModel| scoped(self.path_prefix@, e),
            ),
    {
        let ghost all = tree_models(entries@);
        let ghost pick = |e: TreeModel| scoped(self.path_prefix@, e);
        let mut out: Vec<TreeEntry> = Vec::new();
        let mut i: usize = 0;
        assert(all.take(0) =~= Seq::empty());
        proof {
            reveal(Seq::filter_map);
            assert(tree_models(out@) =~= all.take(0).filter_map(pick));
        }
        while i < entries.len()
            invariant
                i <= entries.len(),
                all == tree_models(entries@),
                pick == (|e: TreeModel| scoped(self.path_prefix@, e)),
                tree_models(out@) == all.take(i as int).filter_map(pick),
            decreases entries.len() - i,
        {
            let e = &entries[i];
            proof {
                all.lemma_filter_map_take_succ(pick, i as int);
                assert(all[i as int] == e@);
            }
            let ghost before = out@;
            match self.strip_path_prefix(e.path.as_str()) {
                Some(path) => {
                    if self.path_prefix.as_str().is_empty() || !path.is_empty() {
                        let kept = TreeEntry {
                            path: path.to_owned(),
                            entry_type: e.entry_type.clone(),
                            size: e.size,
                            xet_hash: clone_opt(&e.xet_hash),
                            oid: clone_opt(&e.oid),
                            mtime: clone_opt(&e.mtime),
                        };
                        assert(Some(kept@) == pick(e@));
                        out.push(kept);
                        assert(tree_models(out@) =~= tree_models(before).push(kept@));
                    }
                },
                None => {},
            }
            i += 1;
        }
        assert(all.take(i as int) =~= all);
        out
    }

    /// Check that the subfolder exists, given its listing or the text of the error that listing
    /// it gave.
    pub fn check_prefix(&self, listing: std::result::Result<usize, String>) -> (r: error::Result<
        (),
    >)
        ensures
            r is Ok <==> self.path_prefix@.len() == 0 || (listing is Ok && listing->Ok_0 > 0),
            r matches Err(e) ==> e@ == (ErrorModel::Hub {
                message: match listing {
                    Err(cause) => "subfolder '"@ + self.path_prefix@ + "' not found in "@
                        + self.source@.described() + ": "@ + cause@,
                    Ok(_) => "subfolder '"@ + self.path_prefix@
                        + "' is empty or does not exist in "@ + self.source@.described(),
                },
                status: None,
            }),
    {
        if self.path_prefix.as_str().is_empty() {
            return Ok(());
        }
        let mut message = "subfolder '".to_owned();
        message.append(self.path_prefix.as_str());
        match listing {
            Err(cause) => {
                message.append("' not found in ");
                message.append(self.source.to_string().as_str());
                message.append(": ");
                message.append(cause.as_str());
                Err(Error::hub(message.as_str()))
            },
            Ok(len) => {
                if len == 0 {
                    message.append("' is empty or does not exist in ");
                    message.append(self.source.to_string().as_str());
                    Err(Error::hub(message.as_str()))
                } else {
                    Ok(())
                }
            },
        }
    }

    /// The route that serves the file at `path`.
    pub fn resolve_url(&self, path: &str) -> (r: String)
        ensures
            r@ == resolve_route(self.endpoint@, self.source@, joined(self.path_prefix@, path@)),
    {
        let api_path = self.prefixed_path(path);
        let mut url = self.endpoint.clone();
        match &self.source {
            SourceKind::Bucket { bucket_id } => {
                url.append("/buckets/");
                url.append(bucket_id.as_str());
                url.append("/resolve/");
                url.append(api_path.as_str());
            },
            SourceKind::Repo { repo_id, repo_type, revision } => {
                url.append("/");
                url.append(repo_type.resolve_prefix());
                url.append(repo_id.as_str());
                url.append("/resolve/");
                url.append(revision.as_str());
                url.append("/");
                url.append(api_path.as_str());
            },
        }
        url
    }

    /// The route for a storage token to read with.
    pub fn cas_token_url(&self) -> (r: String)
        ensures
            r@ == read_token_route(self.endpoint@, self.source@),
    {
        let mut url = self.endpoint.clone();
        match &self.source {
            SourceKind::Bucket { bucket_id } => {
                url.append("/api/buckets/");
                url.append(bucket_id.as_str());
                url.append("/xet-read-token");
            },
            SourceKind::Repo { repo_id, repo_type, revision } => {
                url.append("/api/");
                url.append(repo_type.api_prefix());
                url.append("/");
                url.append(repo_id.as_str());
                url.append("/xet-read-token/");
                url.append(revision.as_str());
            },
        }
        url
    }

    /// The route for a storage token to write with. Only buckets have one.
    pub fn cas_write_token_url(&self) -> (r: error::Result<String>)
        ensures
            match self.source@ {
                SourceModel::Bucket { bucket_id } => r matches Ok(url) && url@ == self.endpoint@
                    + "/api/buckets/"@ + bucket_id + "/xet-write-token"@,
                SourceModel::Repo { .. } => r matches Err(e) && e@ == (ErrorModel::Hub {
                    message: "write tokens not supported for repos"@,
                    status: None,
                }),
            },
    {
        match &self.source {
            SourceKind::Bucket { bucket_id } => {
                let mut url = self.endpoint.clone();
                url.append("/api/buckets/");
                url.append(bucket_id.as_str());
                url.append("/xet-write-token");
                Ok(url)
            },
            SourceKind::Repo { .. } => Err(Error::hub("write tokens not supported for repos")),
        }
    }

    /// The route for batch operations. Only buckets have one.
    pub fn batch_url(&self) -> (r: error::Result<String>)
        ensures
            match self.source@ {
                SourceModel::Bucket { bucket_id } => r matches Ok(url) && url@ == self.endpoint@
                    + "/api/buckets/"@ + bucket_id + "/batch"@,
                SourceModel::Repo { .. } => r matches Err(e) && e@ == (ErrorModel::Hub {
                    message: "batch operations not supported for repos"@,
                    status: None,
                }),
            },
    {
        match &self.source {
            SourceKind::Bucket { bucket_id } => {
                let mut url = self.endpoint.clone();
                url.append("/api/buckets/");
                url.append(bucket_id.as_str());
                url.append("/batch");
                Ok(url)
            },
            SourceKind::Repo { .. } => Err(Error::hub("batch operations not supported for repos")),
        }
    }

    /// The operation as the Hub sees it, its path put under the subfolder.
    pub fn prefixed_op(&self, op: &BatchOp) -> (r: BatchOp)
        ensures
            r@ == op@.under(self.path_prefix@),
    {
        match op {
            BatchOp::AddFile { path, xet_hash, mtime, content_type } => BatchOp::AddFile {
                path: self.prefixed_path(path.as_str()),
                xet_hash: xet_hash.clone(),
                mtime: *mtime,
                content_type: clone_opt(content_type),
            },
            BatchOp::DeleteFile { path } => BatchOp::DeleteFile {
                path: self.prefixed_path(path.as_str()),
            },
        }
    }

    /// The body of a batch request: the operations as the Hub sees them, one JSON text per line.
    pub fn batch_body(&self, ops: &Vec<BatchOp>) -> (r: String)
        ensures
            r@ == lines_of(
                op_models(ops@).map_values(|op: OpModel| op_json(op.under(self.path_prefix@))),
            ),
    {
        let ghost line = |op: OpModel| op_json(op.under(self.path_prefix@));
        let ghost all = op_models(ops@).map_values(line);
        let mut body = String::new();
        let mut i: usize = 0;
        assert(all.take(0) =~= Seq::empty());
        while i < ops.len()
            invariant
                i <= ops.len(),
                line == (|op: OpModel| op_json(op.under(self.path_prefix@))),
                all == op_models(ops@).map_values(line),
                body@ == lines_of(all.take(i as int)),
            decreases ops.len() - i,
        {
            assert(all.take(i + 1).drop_last() =~= all.take(i as int));
            assert(all.take(i + 1).last() == line(ops@[i as int]@));
            body.append(self.prefixed_op(&ops[i]).to_json().as_str());
            body.append("\n");
            i += 1;
        }
        assert(all.take(i as int) =~= all);
        body
    }
}

/// Lines, each ended by a line feed.
pub open spec fn lines_of(lines: Seq<Seq<char>>) -> Seq<char>
    decreases lines.len(),
{
    if lines.len() == 0 {
        Seq::empty()
    } else {
        lines_of(lines.drop_last()) + lines.last() + "\n"@
    }
}

/// The `If-None-Match` header for a file downloaded before with this ETag.
pub fn if_none_match(etag: &str) -> (r: String)
    ensures
        r@ == "\""@ + text::trimmed_space(etag@) + "\""@,
{
    let mut out = "\"".to_owned();
    out.append(trim(etag));
    out.append("\"");
    out
}

/// The ETag of a download, without the quotes around it.
pub fn download_etag(etag: Header) -> (r: Option<String>)
    ensures
        text::opt_text(r) == match etag.content() {
            Some(s) => Some(text::trimmed(s, |x: char| x == '"')),
            None => None,
        },
{
    match header_text(etag) {
        Some(s) => Some(trim_char(s.as_str(), '"').to_owned()),
        None => None,
    }
}

} // verus!
