//! How what is said to the Hub, and what it says, hangs together.
use crate::hub_api;
use crate::hub_api::{
    Header, OpModel, RepoTreeEntry, RepoType, Reply, RetryAction, SourceModel, TreeModel,
};
use crate::text;
use crate::text::CharSet;
use crate::time::{Duration, Timestamp};
use vstd::arithmetic::power2;
use vstd::prelude::*;

verus! {

/// Texts with `c` between them.
pub open spec fn with_between(parts: Seq<Seq<char>>, c: char) -> Seq<char>
    decreases parts.len(),
{
    if parts.len() == 0 {
        Seq::empty()
    } else if parts.len() == 1 {
        parts[0]
    } else {
        parts[0] + seq![c] + with_between(parts.skip(1), c)
    }
}

/// The parts of a text make it up again, and none of them has the character between them.
pub proof fn law_parts_make_up_the_text(s: Seq<char>, c: char)
    ensures
        text::parts(s, c).len() > 0,
        with_between(text::parts(s, c), c) == s,
        forall|i: int|
            0 <= i < text::parts(s, c).len() ==> !(#[trigger] text::parts(s, c)[i]).contains(c),
    decreases s.len(),
{
    text::lemma_split_first(s, c);
    let all = text::parts(s, c);
    match text::split_first(s, c) {
        Some((a, b)) => {
            law_parts_make_up_the_text(b, c);
            let rest = text::parts(b, c);
            assert(all.skip(1) =~= rest);
            assert(all[0] == a);
            assert forall|i: int| 0 <= i < all.len() implies !(#[trigger] all[i]).contains(c) by {
                if i > 0 {
                    assert(all[i] == rest[i - 1]);
                }
            }
        },
        None => {
            assert(all.len() == 1 && all[0] == s);
        },
    }
}

/// Trimming takes characters of the set from both ends of a text, all of them and no others.
pub proof fn law_trimming_takes_the_ends(s: Seq<char>, set: CharSet)
    ensures
        ({
            let r = text::trimmed(s, set);
            &&& r.len() > 0 ==> !set(r[0]) && !set(r.last())
            &&& exists|a: Seq<char>, b: Seq<char>|
                #![trigger a + r + b]
                s == a + r + b && (forall|i: int| 0 <= i < a.len() ==> set(#[trigger] a[i])) && (
                forall|i: int| 0 <= i < b.len() ==> set(#[trigger] b[i]))
        }),
{
    let n = lemma_first(s, set);
    let head = s.skip(n);
    let m = lemma_last(head, set);
    let a = s.take(n);
    let b = head.skip(m);
    let r = head.take(m);
    assert(s =~= a + r + b);
    assert forall|i: int| 0 <= i < a.len() implies set(#[trigger] a[i]) by {
        assert(a[i] == s[i]);
    }
    assert forall|i: int| 0 <= i < b.len() implies set(#[trigger] b[i]) by {
        assert(b[i] == head[m + i]);
    }
    if r.len() > 0 {
        assert(head.len() > 0);
        assert(head[0] == s[n]);
        assert(r[0] == s[n]);
        assert(r.last() == head[m - 1]);
        assert(!set(r[0]) && !set(r.last()));
    }
    assert(r == text::trimmed(s, set));
    assert(s == a + r + b);
}

proof fn lemma_first(s: Seq<char>, set: CharSet) -> (n: int)
    ensures
        n == text::first_outside(s, set),
        0 <= n <= s.len(),
        forall|j: int| 0 <= j < n ==> set(#[trigger] s[j]),
        n == s.len() || !set(s[n]),
    decreases s.len(),
{
    if s.len() == 0 || !set(s[0]) {
        0
    } else {
        let t = s.skip(1);
        let m = lemma_first(t, set);
        assert forall|j: int| 0 <= j < m + 1 implies set(#[trigger] s[j]) by {
            if j > 0 {
                assert(s[j] == t[j - 1]);
            }
        }
        if m < t.len() {
            assert(s[m + 1] == t[m]);
        }
        m + 1
    }
}

proof fn lemma_last(s: Seq<char>, set: CharSet) -> (n: int)
    ensures
        n == text::last_outside(s, set),
        0 <= n <= s.len(),
        forall|j: int| n <= j < s.len() ==> set(#[trigger] s[j]),
        n == 0 || !set(s[n - 1]),
    decreases s.len(),
{
    if s.len() == 0 || !set(s.last()) {
        s.len() as int
    } else {
        let t = s.drop_last();
        let m = lemma_last(t, set);
        assert forall|j: int| m <= j < s.len() implies set(#[trigger] s[j]) by {
            if j < t.len() {
                assert(s[j] == t[j]);
            }
        }
        m
    }
}

/// A number is read as it is written.
pub proof fn law_numbers_are_read_as_written(n: u64)
    ensures
        text::number(text::decimal(n as nat)) == Some(n),
{
    lemma_decimal(n as nat);
    let s = text::decimal(n as nat);
    assert(s[0] != '+') by {
        lemma_decimal_digits(n as nat, 0);
    }
}

pub proof fn lemma_decimal(n: nat)
    ensures
        text::decimal(n).len() > 0,
        text::digits_value(text::decimal(n)) == Some(n),
    decreases n,
{
    let s = text::decimal(n);
    if n < 10 {
        assert(s.drop_last() =~= Seq::empty());
        assert(s.last() == text::digit_char(n));
        assert(text::digits_value(s.drop_last()) == Some(0nat));
    } else {
        lemma_decimal(n / 10);
        assert(s.drop_last() =~= text::decimal(n / 10));
        assert(s.last() == text::digit_char(n % 10));
    }
}

pub proof fn lemma_decimal_digits(n: nat, i: int)
    requires
        0 <= i < text::decimal(n).len(),
    ensures
        '0' <= text::decimal(n)[i] <= '9',
    decreases n,
{
    if n >= 10 && i < text::decimal(n).len() - 1 {
        lemma_decimal_digits(n / 10, i);
        assert(text::decimal(n)[i] == text::decimal(n / 10)[i]);
    }
}

/// The type of a repo and the rest of its ID stand for the ID: put together as in the address of a
/// file, they give it back.
pub proof fn law_repo_ids_name_their_type(id: Seq<char>)
    ensures
        ({
            let (kind, rest) = hub_api::repo_id_parts(id);
            &&& kind.resolve_segment() + rest == id
            &&& kind == RepoType::Dataset <==> "datasets/"@.is_prefix_of(id)
            &&& kind == RepoType::Space <==> "spaces/"@.is_prefix_of(id)
        }),
{
    reveal_strlit("datasets/");
    reveal_strlit("spaces/");
    reveal_strlit("");
    let (kind, rest) = hub_api::repo_id_parts(id);
    if "datasets/"@.is_prefix_of(id) {
        assert("datasets/"@[0] == 'd' && "spaces/"@[0] == 's');
        assert(id[0] == 'd') by {
            assert(id.subrange(0, "datasets/"@.len() as int)[0] == id[0]);
        }
        assert(!"spaces/"@.is_prefix_of(id)) by {
            if "spaces/"@.is_prefix_of(id) {
                assert(id.subrange(0, "spaces/"@.len() as int)[0] == id[0]);
            }
        }
        assert("datasets/"@ + rest =~= id);
    } else if "spaces/"@.is_prefix_of(id) {
        assert("spaces/"@ + rest =~= id);
    } else {
        assert(""@ + rest =~= id);
    }
}

/// Slashes at the end of an identifier do not count, the part before the second other slash is the
/// ID, and the part behind it the subfolder, in which no component is `.` or `..`.
pub proof fn law_identifiers_are_split(raw: Seq<char>)
    ensures
        ({
            let id = text::trimmed_end(raw, '/');
            &&& id.is_prefix_of(raw)
            &&& id.len() > 0 ==> id.last() != '/'
            &&& forall|i: int| id.len() <= i < raw.len() ==> #[trigger] raw[i] == '/'
            &&& match hub_api::prefix_split(raw) {
                Some((head, prefix)) => {
                    &&& prefix.len() > 0 ==> id == head + seq!['/'] + prefix
                    &&& prefix.len() == 0 ==> head == id
                    &&& !text::parts(prefix, '/').contains("."@)
                    &&& !text::parts(prefix, '/').contains(".."@)
                    &&& prefix.len() > 0 ==> exists|owner: Seq<char>, name: Seq<char>|
                        head == #[trigger] (owner + seq!['/'] + name) && !owner.contains('/')
                            && !name.contains('/')
                },
                None => exists|owner: Seq<char>, name: Seq<char>, prefix: Seq<char>|
                    id == #[trigger] (owner + seq!['/'] + (name + seq!['/'] + prefix)) && (
                    text::parts(prefix, '/').contains("."@) || text::parts(prefix, '/').contains(
                        ".."@,
                    )),
            }
        }),
{
    lemma_trimmed_end(raw, '/');
    reveal_strlit("");
    reveal_strlit(".");
    reveal_strlit("..");
    let id = text::trimmed_end(raw, '/');
    assert(text::parts(""@, '/') =~= seq![""@]) by {
        assert(""@ =~= Seq::<char>::empty());
    }
    assert(!seq![""@].contains("."@)) by {
        if seq![""@].contains("."@) {
            let i = choose|i: int| 0 <= i < seq![""@].len() && seq![""@][i] == "."@;
            assert(""@.len() == "."@.len());
        }
    }
    assert(!seq![""@].contains(".."@)) by {
        if seq![""@].contains(".."@) {
            let i = choose|i: int| 0 <= i < seq![""@].len() && seq![""@][i] == ".."@;
            assert(""@.len() == ".."@.len());
        }
    }
    text::lemma_split_first(id, '/');
    if let Some((owner, rest)) = text::split_first(id, '/') {
        text::lemma_split_first(rest, '/');
        if let Some((name, prefix)) = text::split_first(rest, '/') {
            assert(rest == name + seq!['/'] + prefix);
            assert(id == owner + seq!['/'] + (name + seq!['/'] + prefix));
            let head = owner + seq!['/'] + name;
            assert(id =~= head + seq!['/'] + prefix);
            if prefix.len() == 0 {
                assert(id.last() == '/');
            }
        }
    }
}

proof fn lemma_trimmed_end(s: Seq<char>, c: char)
    ensures
        ({
            let r = text::trimmed_end(s, c);
            &&& r.is_prefix_of(s)
            &&& r.len() <= s.len()
            &&& r.len() > 0 ==> r.last() != c
            &&& forall|i: int| r.len() <= i < s.len() ==> #[trigger] s[i] == c
        }),
    decreases s.len(),
{
    let r = text::trimmed_end(s, c);
    if s.len() > 0 && s.last() == c {
        let t = s.drop_last();
        lemma_trimmed_end(t, c);
        assert(r.is_prefix_of(s)) by {
            assert(s.subrange(0, r.len() as int) =~= t.subrange(0, r.len() as int));
        }
        assert forall|i: int| r.len() <= i < s.len() implies #[trigger] s[i] == c by {
            if i < t.len() {
                assert(t[i] == c);
            }
        }
    } else {
        assert(s.subrange(0, s.len() as int) =~= s);
    }
}

/// Each pause is twice as long as the one before it, the first is half a second.
pub proof fn law_pauses_double(attempt: u32)
    requires
        1 <= attempt < 56,
    ensures
        hub_api::backoff((attempt + 1) as u32).nanos == 2 * hub_api::backoff(attempt).nanos,
        hub_api::backoff(1).nanos == 500_000_000,
{
    power2::lemma2_to64();
    power2::lemma2_to64_rest();
    power2::lemma_pow2_unfold(attempt as nat);
    if attempt < 55 {
        power2::lemma_pow2_strictly_increases(attempt as nat, 55);
    }
}

/// A request is repeated after a timeout, an overload and any failure of the server, but only twice.
/// Any other refusal is final. An answer that is a success is never repeated.
pub proof fn law_what_is_repeated(
    attempt: u32,
    status: u16,
    ratelimit: Option<String>,
    transient: bool,
    accept_redirects: bool,
)
    requires
        attempt >= 1,
    ensures
        ({
            let r = hub_api::retry_rule(
                attempt,
                Reply::Answer { status, ratelimit },
                accept_redirects,
            );
            let success = 200 <= status <= 299 || (accept_redirects && 300 <= status <= 399);
            let passing = status == 408 || status == 429 || 500 <= status <= 599;
            &&& r is Accept <==> success
            &&& r is Retry <==> !success && passing && attempt <= 2
            &&& r is Fail <==> !success && !(passing && attempt <= 2)
        }),
        ({
            let r = hub_api::retry_rule(attempt, Reply::NoAnswer { transient }, accept_redirects);
            &&& r is Retry <==> transient && attempt <= 2
            &&& r is Fail <==> !(transient && attempt <= 2)
        }),
{
}

/// The pause that a server asks for is kept, up to half a minute: it is the first that its header
/// gives.
pub proof fn law_servers_set_the_pause(attempt: u32, status: u16, header: String, i: int, secs: u64)
    requires
        1 <= attempt <= 2,
        status == 408 || status == 429 || 500 <= status <= 599,
        0 <= i < text::parts(header@, ';').len(),
        text::trimmed_space(text::parts(header@, ';')[i]) == "t="@ + text::decimal(secs as nat),
        forall|j: int|
            0 <= j < i ==> !"t="@.is_prefix_of(
                text::trimmed_space(#[trigger] text::parts(header@, ';')[j]),
            ),
    ensures
        hub_api::retry_rule(
            attempt,
            Reply::Answer { status, ratelimit: Some(header) },
            false,
        ) == RetryAction::Retry(
            Duration::from_secs(
                if secs <= 30 {
                    secs
                } else {
                    30
                },
            ),
        ),
{
    let parts = text::parts(header@, ';');
    let part = text::trimmed_space(parts[i]);
    reveal_strlit("t=");
    assert("t="@.is_prefix_of(part)) by {
        assert(part.subrange(0, "t="@.len() as int) =~= "t="@);
    }
    assert(part.skip("t="@.len() as int) =~= text::decimal(secs as nat));
    law_numbers_are_read_as_written(secs);
    lemma_first_reset(parts, i, secs);
}

proof fn lemma_first_reset(parts: Seq<Seq<char>>, i: int, secs: u64)
    requires
        0 <= i < parts.len(),
        hub_api::reset_seconds(parts[i]) == Some(secs),
        forall|j: int|
            0 <= j < i ==> !"t="@.is_prefix_of(text::trimmed_space(#[trigger] parts[j])),
    ensures
        hub_api::first_reset(parts) == Some(secs),
    decreases i,
{
    if i > 0 {
        let rest = parts.skip(1);
        assert(rest[i - 1] == parts[i]);
        assert forall|j: int| 0 <= j < i - 1 implies !"t="@.is_prefix_of(
            text::trimmed_space(#[trigger] rest[j]),
        ) by {
            assert(rest[j] == parts[j + 1]);
        }
        lemma_first_reset(rest, i - 1, secs);
        assert(!"t="@.is_prefix_of(text::trimmed_space(parts[0])));
    }
}

/// A date that cannot be read, or is before the epoch, counts as the epoch; any other as what it
/// says.
pub proof fn law_dates_count_from_the_epoch(seconds: Option<i64>)
    ensures
        hub_api::mtime_of(seconds).secs >= 0,
        hub_api::mtime_of(seconds).nanos == 0,
        seconds matches Some(s) ==> s >= 0 ==> hub_api::mtime_of(seconds).secs == s,
        seconds is None ==> hub_api::mtime_of(seconds).secs == 0,
        seconds matches Some(s) ==> s < 0 ==> hub_api::mtime_of(seconds).secs == 0,
{
}

/// What is between the brackets of the part that is marked as the next page is the next page.
pub proof fn law_next_page_is_read(link: Seq<char>)
    requires
        !link.contains('<'),
        !link.contains('>'),
        !link.contains(','),
    ensures
        hub_api::next_link(seq!['<'] + link + seq!['>'] + "; rel=\"next\""@) == Some(link),
        hub_api::link_header_ok(seq!['<'] + link + seq!['>'] + "; rel=\"next\""@),
{
    reveal_strlit("; rel=\"next\"");
    reveal_strlit("rel=\"next\"");
    let tail = "; rel=\"next\""@;
    let p = seq!['<'] + link + seq!['>'] + tail;
    let n = link.len() as int;
    assert(tail.len() == 12);
    assert(p.len() == n + 14);
    assert forall|i: int| 0 <= i < p.len() implies p[i] != ',' by {
        if 1 <= i < n + 1 {
            assert(p[i] == link[i - 1]);
            assert(link.contains(link[i - 1]));
        } else if i >= n + 2 {
            assert(p[i] == tail[i - n - 2]);
        }
    }
    text::lemma_split_first_at(p, ',', p.len() as int);
    assert(text::parts(p, ',') =~= seq![p]);
    let set = |c: char| text::is_whitespace(c);
    assert(p[0] == '<');
    assert(p[p.len() - 1] == tail[11]);
    assert(tail[11] == '"');
    text::lemma_first_outside(p, set, 0);
    assert(p.skip(0) =~= p);
    text::lemma_last_outside(p, set, p.len() as int);
    assert(p.take(p.len() as int) =~= p);
    assert(text::trimmed_space(p) == p);
    assert(p.subrange(n + 4, n + 14) =~= "rel=\"next\""@);
    assert(text::stands_at(p, "rel=\"next\""@, n + 4));
    assert(p.contains('<')) by {
        assert(p[0] == '<');
    }
    assert(p[n + 1] == '>');
    assert(p.contains('>'));
    assert(hub_api::is_next_part(p));
    text::lemma_split_first_at(p, '<', 0);
    assert forall|i: int| 0 <= i < n + 1 implies p[i] != '>' by {
        if i > 0 {
            assert(p[i] == link[i - 1]);
            assert(link.contains(link[i - 1]));
        }
    }
    text::lemma_split_first_at(p, '>', n + 1);
    let upto = p.take(n + 1);
    assert(p.take(0) =~= Seq::empty());
    assert(upto.skip(1) =~= link);
    assert(seq![p][0] == p);
    assert(hub_api::next_part(seq![p]) == Some(p));
}

/// What is outside of the subfolder has no path in it, and what has one is under the subfolder.
pub proof fn law_paths_in_a_subfolder(prefix: Seq<char>, full: Seq<char>)
    ensures
        match hub_api::unjoined(prefix, full) {
            Some(path) => hub_api::joined(prefix, path) == full || (path.len() == 0 && full == prefix
                + seq!['/']),
            None => prefix.len() > 0 && forall|path: Seq<char>| #[trigger]
                hub_api::joined(prefix, path) != full,
        },
        prefix.len() > 0 && full.len() > 0 ==> hub_api::joined(prefix, full) == prefix + seq!['/']
            + full,
        hub_api::joined(prefix, Seq::empty()) == prefix,
        hub_api::joined(Seq::empty(), full) == full,
{
    reveal_strlit("/");
    reveal_strlit("");
    assert("/"@ =~= seq!['/']);
    assert(""@ =~= Seq::<char>::empty());
    match hub_api::unjoined(prefix, full) {
        Some(path) => {
            if prefix.len() > 0 && full != prefix {
                let rest = full.skip(prefix.len() as int);
                assert(full =~= prefix + rest);
                assert(rest =~= "/"@ + rest.skip(1));
                assert(full =~= prefix + "/"@ + path);
            }
        },
        None => {
            assert forall|path: Seq<char>| #[trigger] hub_api::joined(prefix, path) != full by {
                hub_api::law_strip_undoes_prefix(prefix, path);
            }
        },
    }
    if prefix.len() == 0 {
        assert(prefix =~= Seq::empty());
    }
}

/// An entry of a listing is seen from the subfolder under the path it has in it, and otherwise as it
/// is. The subfolder itself, and what is outside of it, is not seen.
pub proof fn law_listings_are_seen_from_the_subfolder(
    prefix: Seq<char>,
    path: Seq<char>,
    e: TreeModel,
)
    ensures
        path.len() > 0 && e.path == hub_api::joined(prefix, path) ==> hub_api::scoped(prefix, e)
            == Some(TreeModel { path, ..e }),
        prefix.len() == 0 ==> hub_api::scoped(prefix, e) == Some(e),
        prefix.len() > 0 && e.path == prefix ==> hub_api::scoped(prefix, e) is None,
        hub_api::scoped(prefix, e) matches Some(seen) ==> e.path == hub_api::joined(
            prefix,
            seen.path,
        ) && seen == (TreeModel { path: seen.path, ..e }),
{
    hub_api::law_strip_undoes_prefix(prefix, path);
    law_paths_in_a_subfolder(prefix, e.path);
    reveal_strlit("");
}

/// An operation is sent for the path under the subfolder, and otherwise as it is.
pub proof fn law_operations_are_sent_for_the_subfolder(
    prefix: Seq<char>,
    path: Seq<char>,
    xet_hash: Seq<char>,
    mtime: u64,
    content_type: Option<Seq<char>>,
)
    requires
        path.len() > 0,
    ensures
        ({
            let full = if prefix.len() > 0 {
                prefix + seq!['/'] + path
            } else {
                path
            };
            &&& OpModel::AddFile { path, xet_hash, mtime, content_type }.under(prefix) == (
            OpModel::AddFile { path: full, xet_hash, mtime, content_type })
            &&& OpModel::DeleteFile { path }.under(prefix) == (OpModel::DeleteFile { path: full })
        }),
{
    law_paths_in_a_subfolder(prefix, path);
}

/// Lines are written one after the other, each with its end.
pub proof fn law_lines_follow_each_other(a: Seq<Seq<char>>, b: Seq<Seq<char>>, line: Seq<char>)
    ensures
        hub_api::lines_of(a + b) == hub_api::lines_of(a) + hub_api::lines_of(b),
        hub_api::lines_of(seq![line]) == line + seq!['\n'],
    decreases b.len(),
{
    reveal_strlit("\n");
    assert("\n"@ =~= seq!['\n']);
    assert(seq![line].drop_last() =~= Seq::empty());
    assert(hub_api::lines_of(Seq::empty()) =~= Seq::empty());
    assert(hub_api::lines_of(seq![line]) =~= line + seq!['\n']);
    if b.len() == 0 {
        assert(a + b =~= a);
        assert(hub_api::lines_of(a) + hub_api::lines_of(b) =~= hub_api::lines_of(a));
    } else {
        law_lines_follow_each_other(a, b.drop_last(), line);
        assert((a + b).drop_last() =~= a + b.drop_last());
        assert((a + b).last() == b.last());
        assert(hub_api::lines_of(a + b) =~= hub_api::lines_of(a) + hub_api::lines_of(b));
    }
}

/// The size of a file is that of its content: where it is kept elsewhere, the size that is listed
/// for the pointer does not count. Everything else is as it is listed.
pub proof fn law_listed_sizes_are_of_the_content(e: RepoTreeEntry)
    ensures
        e.lfs_size matches Some(size) ==> e.common().size == Some(size),
        e.lfs_size is None ==> e.common().size == e.size,
        e.common().path == e.path@,
        e.common().entry_type == e.entry_type@,
        e.common().xet_hash == text::opt_text(e.xet_hash),
        e.common().oid == text::opt_text(e.oid),
        e.common().mtime == text::opt_text(e.commit_date),
{
}

/// A header that is there is preferred to another, whatever it holds.
pub proof fn law_first_header_is_preferred(first: Header, second: Header)
    ensures
        first matches Header::Text(s) ==> hub_api::preferred(first, second) == Some(s@),
        first is Opaque ==> hub_api::preferred(first, second) is None,
        first is Missing && second is Text ==> hub_api::preferred(first, second) == Some(
            second->Text_0@,
        ),
        first is Missing && !(second is Text) ==> hub_api::preferred(first, second) is None,
{
}

/// The token of a file is its text without whitespace around it. A file that holds one takes
/// precedence over the token that is given, and a file that holds none does not count.
pub proof fn law_token_files_take_precedence(token: Option<Seq<char>>, contents: Seq<char>)
    ensures
        hub_api::first_token(token, None) == token,
        match hub_api::file_token(contents) {
            Some(t) => {
                &&& hub_api::first_token(token, Some(contents)) == Some(t)
                &&& t.len() > 0
                &&& !text::is_whitespace(t[0])
                &&& !text::is_whitespace(t.last())
                &&& exists|a: Seq<char>, b: Seq<char>| contents == #[trigger] (a + t + b)
            },
            None => {
                &&& hub_api::first_token(token, Some(contents)) == token
                &&& forall|i: int|
                    0 <= i < contents.len() ==> text::is_whitespace(#[trigger] contents[i])
            },
        },
{
    let set = |c: char| text::is_whitespace(c);
    law_trimming_takes_the_ends(contents, set);
    let r = text::trimmed_space(contents);
    let (a, b) = choose|a: Seq<char>, b: Seq<char>|
        #![trigger a + r + b]
        contents == a + r + b && (forall|i: int| 0 <= i < a.len() ==> set(#[trigger] a[i])) && (
        forall|i: int| 0 <= i < b.len() ==> set(#[trigger] b[i]));
    if r.len() == 0 {
        assert forall|i: int| 0 <= i < contents.len() implies text::is_whitespace(
            #[trigger] contents[i],
        ) by {
            if i < a.len() {
                assert(contents[i] == a[i] && set(a[i]));
            } else {
                assert(contents[i] == b[i - a.len()] && set(b[i - a.len()]));
            }
        }
    } else {
        assert(!set(r[0]) && !set(r.last()));
        assert(contents == a + r + b);
    }
}

/// The address of a file ends in its path and starts with the endpoint, and a listing is asked for
/// under the same path. Two paths never have the same address.
pub proof fn law_addresses_tell_files_apart(
    endpoint: Seq<char>,
    source: SourceModel,
    a: Seq<char>,
    b: Seq<char>,
)
    ensures
        endpoint.is_prefix_of(hub_api::resolve_route(endpoint, source, a)),
        hub_api::resolve_route(endpoint, source, a) == hub_api::resolve_route(
            endpoint,
            source,
            Seq::empty(),
        ) + a,
        hub_api::resolve_route(endpoint, source, a) == hub_api::resolve_route(endpoint, source, b)
            ==> a == b,
        hub_api::tree_route(endpoint, source, a) == hub_api::tree_route(endpoint, source, b) ==> a
            == b,
{
    let base = hub_api::resolve_route(endpoint, source, Seq::empty());
    let whole = hub_api::resolve_route(endpoint, source, a);
    assert(whole =~= base + a);
    assert(hub_api::resolve_route(endpoint, source, b) =~= base + b);
    assert((base + a).skip(base.len() as int) =~= a);
    assert((base + b).skip(base.len() as int) =~= b);
    assert(whole.subrange(0, endpoint.len() as int) =~= endpoint);
    reveal_strlit("/");
    let (tree, query) = lemma_tree_route(endpoint, source, a);
    let (_, _) = lemma_tree_route(endpoint, source, b);
    let x = hub_api::tree_route(endpoint, source, a);
    let y = hub_api::tree_route(endpoint, source, b);
    if x == y {
        let n = tree.len() as int;
        if a.len() > 0 && b.len() > 0 {
            assert(x.subrange(n + 1, x.len() - query.len()) =~= a);
            assert(y.subrange(n + 1, y.len() - query.len()) =~= b);
        } else {
            assert(a.len() == b.len());
            assert(a =~= b);
        }
    }
}

proof fn lemma_tree_route(endpoint: Seq<char>, source: SourceModel, path: Seq<char>) -> (r: (
    Seq<char>,
    Seq<char>,
))
    ensures
        r == tree_route_parts(endpoint, source),
        hub_api::tree_route(endpoint, source, path) == if path.len() == 0 {
            r.0 + r.1
        } else {
            r.0 + seq!['/'] + path + r.1
        },
{
    reveal_strlit("/");
    assert("/"@ =~= seq!['/']);
    tree_route_parts(endpoint, source)
}

/// The parts of the address of a listing that stand before and behind the path.
spec fn tree_route_parts(endpoint: Seq<char>, source: SourceModel) -> (
    Seq<char>,
    Seq<char>,
) {
    match source {
        SourceModel::Bucket { bucket_id } => (
            endpoint + "/api/buckets/"@ + bucket_id + "/tree"@,
            "?recursive=false&limit=10000"@,
        ),
        SourceModel::Repo { repo_id, repo_type, revision } => (
            endpoint + "/api/"@ + repo_type.api_segment() + "/"@ + repo_id + "/tree/"@ + revision,
            "?expand=true&limit=1000"@,
        ),
    }
}

/// The addresses of listings and tokens start with that of the facts about a repo or bucket, and
/// those of a repo name its revision.
pub proof fn law_addresses_share_their_start(endpoint: Seq<char>, source: SourceModel)
    ensures
        endpoint.is_prefix_of(hub_api::info_route(endpoint, source)),
        hub_api::info_route(endpoint, source).is_prefix_of(
            hub_api::tree_route(endpoint, source, Seq::empty()),
        ),
        match source {
            SourceModel::Bucket { .. } => hub_api::read_token_route(endpoint, source)
                == hub_api::info_route(endpoint, source) + "/xet-read-token"@,
            SourceModel::Repo { revision, .. } => hub_api::read_token_route(endpoint, source)
                == hub_api::info_route(endpoint, source) + "/xet-read-token/"@ + revision,
        },
        match source {
            SourceModel::Bucket { bucket_id } => hub_api::info_route(endpoint, source) == endpoint
                + "/api/buckets/"@ + bucket_id,
            SourceModel::Repo { repo_id, repo_type, .. } => hub_api::info_route(endpoint, source)
                == endpoint + "/api/"@ + repo_type.label() + seq!['s', '/'] + repo_id,
        },
{
    let info = hub_api::info_route(endpoint, source);
    let tree = hub_api::tree_route(endpoint, source, Seq::empty());
    assert(info.subrange(0, endpoint.len() as int) =~= endpoint);
    assert(tree.subrange(0, info.len() as int) =~= info);
    reveal_strlit("/");
    match source {
        SourceModel::Bucket { bucket_id } => {},
        SourceModel::Repo { repo_id, repo_type, revision } => {
            law_types_have_one_name(repo_type);
            assert(info =~= endpoint + "/api/"@ + repo_type.label() + seq!['s', '/'] + repo_id);
        },
    }
}

/// A type is written as its name in the plural, in both kinds of addresses; a model is not written
/// at all in those of files.
pub proof fn law_types_have_one_name(kind: RepoType)
    ensures
        kind.api_segment() == kind.label() + seq!['s'],
        kind != RepoType::Model ==> kind.resolve_segment() == kind.label() + seq!['s', '/'],
        kind == RepoType::Model ==> kind.resolve_segment().len() == 0,
        forall|other: RepoType| #[trigger] other.label() == kind.label() ==> other == kind,
{
    reveal_strlit("model");
    reveal_strlit("models");
    reveal_strlit("dataset");
    reveal_strlit("datasets");
    reveal_strlit("datasets/");
    reveal_strlit("space");
    reveal_strlit("spaces");
    reveal_strlit("spaces/");
    reveal_strlit("");
    assert("models"@ =~= "model"@ + seq!['s']);
    assert("datasets"@ =~= "dataset"@ + seq!['s']);
    assert("spaces"@ =~= "space"@ + seq!['s']);
    assert("datasets/"@ =~= "dataset"@ + seq!['s', '/']);
    assert("spaces/"@ =~= "space"@ + seq!['s', '/']);
    assert forall|other: RepoType| #[trigger] other.label() == kind.label() implies other == kind by {
        assert("model"@[0] == 'm' && "dataset"@[0] == 'd' && "space"@[0] == 's');
    }
}

/// A second is a thousand milliseconds, and a millisecond a million nanoseconds.
pub proof fn law_units_of_time_agree(secs: u64)
    requires
        secs * 1000 <= u64::MAX,
    ensures
        Duration::from_secs(secs) == Duration::from_millis((secs * 1000) as u64),
        Duration::from_millis(secs).nanos == secs * 1_000_000,
        Timestamp::unix_epoch().from_epoch() == 0,
{
}

} // verus!
