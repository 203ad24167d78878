//! String operations, stated over the sequence of characters.
use vstd::prelude::*;
use vstd::string::*;
use vstd::utf8::*;

verus! {

broadcast use vstd::string::group_string_axioms;

/// Two strings are equal exactly when they hold the same characters.
pub fn str_eq(a: &str, b: &str) -> (r: bool)
    ensures
        r == (a@ == b@),
{
    let x = a.as_bytes();
    let y = b.as_bytes();
    proof {
        encode_utf8_decode_utf8(a@);
        encode_utf8_decode_utf8(b@);
    }
    if x.len() != y.len() {
        return false;
    }
    let mut i: usize = 0;
    while i < x.len()
        invariant
            i <= x.len(),
            x.len() == y.len(),
            x@ == a.spec_bytes(),
            y@ == b.spec_bytes(),
            forall|j: int| 0 <= j < i ==> x@[j] == y@[j],
        decreases x.len() - i,
    {
        if x[i] != y[i] {
            return false;
        }
        i += 1;
    }
    assert(x@ =~= y@);
    true
}

/// The characters of an optional string.
pub open spec fn opt_text(o: Option<String>) -> Option<Seq<char>> {
    match o {
        Some(s) => Some(s@),
        None => None,
    }
}

/// The characters of each string of a list.
pub open spec fn texts(v: Seq<String>) -> Seq<Seq<char>> {
    v.map_values(|s: String| s@)
}

/// Two optional strings are equal exactly when both are absent or hold the same characters.
pub fn opt_eq(a: &Option<String>, b: &Option<String>) -> (r: bool)
    ensures
        r == (opt_text(*a) == opt_text(*b)),
{
    match (a, b) {
        (Some(x), Some(y)) => str_eq(x.as_str(), y.as_str()),
        (None, None) => true,
        _ => false,
    }
}

/// Copies a list of strings.
pub fn clone_texts(v: &Vec<String>) -> (r: Vec<String>)
    ensures
        texts(r@) == texts(v@),
{
    let mut out: Vec<String> = Vec::new();
    let mut i: usize = 0;
    while i < v.len()
        invariant
            i <= v.len(),
            out@.len() == i,
            forall|j: int| 0 <= j < i ==> out@[j]@ == v@[j]@,
        decreases v.len() - i,
    {
        out.push(v[i].clone());
        i += 1;
    }
    assert(texts(out@) =~= texts(v@));
    out
}

/// Copies an optional string.
pub fn clone_opt(o: &Option<String>) -> (r: Option<String>)
    ensures
        opt_text(r) == opt_text(*o),
{
    match o {
        Some(s) => Some(s.clone()),
        None => None,
    }
}

/// The characters of a string, in order.
pub fn chars_of(s: &str) -> (r: Vec<char>)
    ensures
        r@ == s@,
{
    let mut out: Vec<char> = Vec::new();
    for c in it: s.chars()
        invariant
            it.seq() == s@,
            out@ == s@.take(it.index()),
    {
        out.push(c);
        assert(s@.take(it.index() + 1) =~= s@.take(it.index()).push(c));
    }
    assert(s@.take(s@.len() as int) =~= s@);
    out
}

/// `a` followed by `b`.
pub fn concat(a: &str, b: &str) -> (r: String)
    ensures
        r@ == a@ + b@,
{
    let mut out = a.to_owned();
    out.append(b);
    out
}

/// What is left of `s` behind `prefix`, if `s` starts with it.
pub open spec fn stripped(s: Seq<char>, prefix: Seq<char>) -> Option<Seq<char>> {
    if prefix.is_prefix_of(s) {
        Some(s.skip(prefix.len() as int))
    } else {
        None
    }
}

/// What is left of `s` behind `prefix`, if `s` starts with it.
pub fn strip_prefix<'a>(s: &'a str, prefix: &str) -> (r: Option<&'a str>)
    ensures
        r is Some <==> stripped(s@, prefix@) is Some,
        r matches Some(rest) ==> Some(rest@) == stripped(s@, prefix@),
{
    let n: usize = prefix.unicode_len();
    let total: usize = s.unicode_len();
    if n > total {
        return None;
    }
    let head = s.substring_char(0, n);
    if str_eq(head, prefix) {
        let rest = s.substring_char(n, total);
        assert(rest@ =~= s@.skip(n as int));
        assert(prefix@ =~= s@.subrange(0, n as int));
        Some(rest)
    } else {
        assert(prefix@.is_prefix_of(s@) ==> head@ =~= prefix@);
        None
    }
}

/// Whether `s` starts with `prefix`.
pub fn starts_with(s: &str, prefix: &str) -> (r: bool)
    ensures
        r == prefix@.is_prefix_of(s@),
{
    strip_prefix(s, prefix).is_some()
}

/// The parts of `s` before and behind the first `c`, if there is one.
pub open spec fn split_first(s: Seq<char>, c: char) -> Option<(Seq<char>, Seq<char>)>
    decreases s.len(),
{
    if s.len() == 0 {
        None
    } else if s[0] == c {
        Some((Seq::empty(), s.skip(1)))
    } else {
        match split_first(s.skip(1), c) {
            Some((a, b)) => Some((seq![s[0]] + a, b)),
            None => None,
        }
    }
}

/// The parts of `s` before and behind the last `c`, if there is one.
pub open spec fn split_last(s: Seq<char>, c: char) -> Option<(Seq<char>, Seq<char>)>
    decreases s.len(),
{
    if s.len() == 0 {
        None
    } else if s.last() == c {
        Some((s.drop_last(), Seq::empty()))
    } else {
        match split_last(s.drop_last(), c) {
            Some((a, b)) => Some((a, b.push(s.last()))),
            None => None,
        }
    }
}

/// Where the first `c` is, the string splits.
pub proof fn lemma_split_first_at(s: Seq<char>, c: char, i: int)
    requires
        0 <= i <= s.len(),
        forall|j: int| 0 <= j < i ==> s[j] != c,
    ensures
        i < s.len() && s[i] == c ==> split_first(s, c) == Some((s.take(i), s.skip(i + 1))),
        i == s.len() ==> split_first(s, c) is None,
    decreases s.len(),
{
    if s.len() > 0 && i > 0 {
        let t = s.skip(1);
        assert forall|j: int| 0 <= j < i - 1 implies t[j] != c by {
            assert(t[j] == s[j + 1]);
        }
        lemma_split_first_at(t, c, i - 1);
        if i < s.len() && s[i] == c {
            assert(seq![s[0]] + t.take(i - 1) =~= s.take(i));
            assert(t.skip(i) =~= s.skip(i + 1));
        }
    } else if s.len() > 0 && s[0] == c {
        assert(s.take(0) =~= Seq::empty());
    }
}

/// Where the last `c` is, the string splits.
pub proof fn lemma_split_last_at(s: Seq<char>, c: char, i: int)
    requires
        0 <= i <= s.len(),
        forall|j: int| i <= j < s.len() ==> s[j] != c,
    ensures
        i > 0 && s[i - 1] == c ==> split_last(s, c) == Some((s.take(i - 1), s.skip(i))),
        i == 0 ==> split_last(s, c) is None,
    decreases s.len(),
{
    if s.len() > 0 && i < s.len() {
        let t = s.drop_last();
        lemma_split_last_at(t, c, i);
        if i > 0 && s[i - 1] == c {
            assert(t.take(i - 1) =~= s.take(i - 1));
            assert(t.skip(i).push(s.last()) =~= s.skip(i));
        }
    } else if s.len() > 0 {
        assert(s.take(i - 1) =~= s.drop_last());
        assert(s.skip(i) =~= Seq::empty());
    }
}

/// The parts of a split make up the string again.
pub proof fn lemma_split_first(s: Seq<char>, c: char)
    ensures
        split_first(s, c) is Some <==> s.contains(c),
        split_first(s, c) matches Some((a, b)) ==> s == a + seq![c] + b && !a.contains(c),
    decreases s.len(),
{
    if s.len() > 0 && s[0] != c {
        let t = s.skip(1);
        lemma_split_first(t, c);
        if s.contains(c) {
            let i = choose|i: int| 0 <= i < s.len() && s[i] == c;
            assert(t[i - 1] == c);
        }
        if let Some((a, b)) = split_first(t, c) {
            assert(t.contains(c));
            let i = choose|i: int| 0 <= i < t.len() && t[i] == c;
            assert(s[i + 1] == c);
            assert(s =~= seq![s[0]] + t);
            assert((seq![s[0]] + a) + seq![c] + b =~= s);
            assert(!(seq![s[0]] + a).contains(c)) by {
                if (seq![s[0]] + a).contains(c) {
                    let j = choose|j: int|
                        0 <= j < (seq![s[0]] + a).len() && (seq![s[0]] + a)[j] == c;
                    assert(a[j - 1] == c);
                }
            }
        }
    } else if s.len() > 0 {
        assert(s[0] == c);
        assert(Seq::<char>::empty() + seq![c] + s.skip(1) =~= s);
    }
}

/// The parts of a split make up the string again.
pub proof fn lemma_split_last(s: Seq<char>, c: char)
    ensures
        split_last(s, c) is Some <==> s.contains(c),
        split_last(s, c) matches Some((a, b)) ==> s == a + seq![c] + b && !b.contains(c),
    decreases s.len(),
{
    if s.len() > 0 && s.last() != c {
        let t = s.drop_last();
        lemma_split_last(t, c);
        if s.contains(c) {
            let i = choose|i: int| 0 <= i < s.len() && s[i] == c;
            assert(t[i] == c);
        }
        if let Some((a, b)) = split_last(t, c) {
            assert(t.contains(c));
            let i = choose|i: int| 0 <= i < t.len() && t[i] == c;
            assert(s[i] == c);
            assert(t =~= a + seq![c] + b);
            assert(s =~= t.push(s.last()));
            assert(a + seq![c] + b.push(s.last()) =~= (a + seq![c] + b).push(s.last()));
            assert(!b.push(s.last()).contains(c)) by {
                if b.push(s.last()).contains(c) {
                    let j = choose|j: int|
                        0 <= j < b.push(s.last()).len() && b.push(s.last())[j] == c;
                    assert(b[j] == c);
                }
            }
        }
    } else if s.len() > 0 {
        assert(s[s.len() - 1] == c);
        assert(s.drop_last() + seq![c] + Seq::<char>::empty() =~= s);
    }
}

/// The parts of `s` before and behind the first `c`, if there is one.
pub fn split_at_first<'a>(s: &'a str, c: char) -> (r: Option<(&'a str, &'a str)>)
    ensures
        r is Some <==> split_first(s@, c) is Some,
        r matches Some((a, b)) ==> Some((a@, b@)) == split_first(s@, c),
{
    let chars = chars_of(s);
    let mut i: usize = 0;
    while i < chars.len()
        invariant
            i <= chars.len(),
            chars@ == s@,
            forall|j: int| 0 <= j < i ==> s@[j] != c,
        decreases chars.len() - i,
    {
        if chars[i] == c {
            proof {
                lemma_split_first_at(s@, c, i as int);
            }
            let a = s.substring_char(0, i);
            let b = s.substring_char(i + 1, chars.len());
            assert(a@ =~= s@.take(i as int));
            assert(b@ =~= s@.skip(i + 1));
            return Some((a, b));
        }
        i += 1;
    }
    proof {
        lemma_split_first_at(s@, c, i as int);
    }
    None
}

/// The parts of `s` before and behind the last `c`, if there is one.
pub fn split_at_last<'a>(s: &'a str, c: char) -> (r: Option<(&'a str, &'a str)>)
    ensures
        r is Some <==> split_last(s@, c) is Some,
        r matches Some((a, b)) ==> Some((a@, b@)) == split_last(s@, c),
{
    let chars = chars_of(s);
    let mut i: usize = chars.len();
    while i > 0
        invariant
            i <= chars.len(),
            chars@ == s@,
            forall|j: int| i <= j < s@.len() ==> s@[j] != c,
        decreases i,
    {
        if chars[i - 1] == c {
            proof {
                lemma_split_last_at(s@, c, i as int);
            }
            let a = s.substring_char(0, i - 1);
            let b = s.substring_char(i, chars.len());
            assert(a@ =~= s@.take(i - 1));
            assert(b@ =~= s@.skip(i as int));
            return Some((a, b));
        }
        i -= 1;
    }
    proof {
        lemma_split_last_at(s@, c, 0);
    }
    None
}

/// The directory part of a path: what is before the last `/`, or nothing.
pub open spec fn spec_parent_path(path: Seq<char>) -> Seq<char> {
    match split_last(path, '/') {
        Some((dir, _)) => dir,
        None => Seq::empty(),
    }
}

/// The directory part of a path: what is before the last `/`, or nothing.
pub fn parent_path<'a>(path: &'a str) -> (r: &'a str)
    ensures
        r@ == spec_parent_path(path@),
        path@.len() > 0 ==> r@.len() < path@.len(),
{
    proof {
        lemma_split_last(path@, '/');
    }
    match split_at_last(path, '/') {
        Some((dir, _)) => dir,
        None => {
            let end: usize = 0;
            let none = path.substring_char(0, end);
            assert(none@ =~= Seq::empty());
            none
        },
    }
}

/// `s` without the `c`s at its end.
pub open spec fn trimmed_end(s: Seq<char>, c: char) -> Seq<char>
    decreases s.len(),
{
    if s.len() > 0 && s.last() == c {
        trimmed_end(s.drop_last(), c)
    } else {
        s
    }
}

/// `s` without the `c`s at its end.
pub fn trim_end_char<'a>(s: &'a str, c: char) -> (r: &'a str)
    ensures
        r@ == trimmed_end(s@, c),
{
    let chars = chars_of(s);
    let mut n: usize = chars.len();
    assert(s@.take(n as int) =~= s@);
    while n > 0 && chars[n - 1] == c
        invariant
            n <= chars.len(),
            chars@ == s@,
            trimmed_end(s@, c) == trimmed_end(s@.take(n as int), c),
        ensures
            n <= chars.len(),
            n == 0 || s@[n - 1] != c,
            trimmed_end(s@, c) == trimmed_end(s@.take(n as int), c),
        decreases n,
    {
        assert(s@.take(n as int).drop_last() =~= s@.take(n - 1));
        n -= 1;
    }
    let r = s.substring_char(0, n);
    assert(r@ =~= s@.take(n as int));
    r
}

/// A set of characters to trim.
pub type CharSet = spec_fn(char) -> bool;

/// Where the part of `s` begins that is left when leading characters of `set` are taken off.
pub open spec fn first_outside(s: Seq<char>, set: CharSet) -> int
    decreases s.len(),
{
    if s.len() == 0 || !set(s[0]) {
        0
    } else {
        1 + first_outside(s.skip(1), set)
    }
}

/// Where the part of `s` ends that is left when trailing characters of `set` are taken off.
pub open spec fn last_outside(s: Seq<char>, set: CharSet) -> int
    decreases s.len(),
{
    if s.len() == 0 || !set(s.last()) {
        s.len() as int
    } else {
        last_outside(s.drop_last(), set)
    }
}

/// `s` without the characters of `set` at its beginning and at its end.
pub open spec fn trimmed(s: Seq<char>, set: CharSet) -> Seq<char> {
    let head = s.skip(first_outside(s, set));
    head.take(last_outside(head, set))
}

pub proof fn lemma_first_outside(s: Seq<char>, set: CharSet, i: int)
    requires
        0 <= i <= s.len(),
        forall|j: int| 0 <= j < i ==> set(#[trigger] s[j]),
        i == s.len() || !set(s[i]),
    ensures
        first_outside(s, set) == i,
    decreases s.len(),
{
    if i > 0 {
        assert(set(s[0]));
        let t = s.skip(1);
        assert forall|j: int| 0 <= j < i - 1 implies set(#[trigger] t[j]) by {
            assert(set(s[j + 1]));
        }
        lemma_first_outside(t, set, i - 1);
    }
}

pub proof fn lemma_last_outside(s: Seq<char>, set: CharSet, n: int)
    requires
        0 <= n <= s.len(),
        forall|j: int| n <= j < s.len() ==> set(#[trigger] s[j]),
        n == 0 || !set(s[n - 1]),
    ensures
        last_outside(s, set) == n,
    decreases s.len(),
{
    if n < s.len() {
        assert(set(s[s.len() - 1]));
        lemma_last_outside(s.drop_last(), set, n);
    }
}

/// The characters with the Unicode property White_Space.
pub open spec fn is_whitespace(c: char) -> bool {
    ||| '\u{9}' <= c <= '\u{d}'
    ||| c == ' '
    ||| c == '\u{85}'
    ||| c == '\u{a0}'
    ||| c == '\u{1680}'
    ||| '\u{2000}' <= c <= '\u{200a}'
    ||| c == '\u{2028}'
    ||| c == '\u{2029}'
    ||| c == '\u{202f}'
    ||| c == '\u{205f}'
    ||| c == '\u{3000}'
}

fn whitespace(c: char) -> (r: bool)
    ensures
        r == is_whitespace(c),
{
    ('\u{9}' <= c && c <= '\u{d}') || c == ' ' || c == '\u{85}' || c == '\u{a0}' || c == '\u{1680}'
        || ('\u{2000}' <= c && c <= '\u{200a}') || c == '\u{2028}' || c == '\u{2029}' || c
        == '\u{202f}' || c == '\u{205f}' || c == '\u{3000}'
}

/// `s` without leading and trailing whitespace.
pub open spec fn trimmed_space(s: Seq<char>) -> Seq<char> {
    trimmed(s, |c: char| is_whitespace(c))
}

/// `s` without leading and trailing whitespace.
pub fn trim<'a>(s: &'a str) -> (r: &'a str)
    ensures
        r@ == trimmed_space(s@),
{
    let ghost set = |c: char| is_whitespace(c);
    let chars = chars_of(s);
    let mut i: usize = 0;
    while i < chars.len() && whitespace(chars[i])
        invariant
            i <= chars.len(),
            chars@ == s@,
            set == (|c: char| is_whitespace(c)),
            forall|j: int| 0 <= j < i ==> set(#[trigger] s@[j]),
        ensures
            i == chars.len() || !set(s@[i as int]),
            i <= chars.len(),
            forall|j: int| 0 <= j < i ==> set(#[trigger] s@[j]),
        decreases chars.len() - i,
    {
        i += 1;
    }
    let ghost head = s@.skip(i as int);
    proof {
        lemma_first_outside(s@, set, i as int);
    }
    let mut n: usize = chars.len();
    while n > i && whitespace(chars[n - 1])
        invariant
            i <= n <= chars.len(),
            chars@ == s@,
            set == (|c: char| is_whitespace(c)),
            forall|j: int| n <= j < s@.len() ==> set(#[trigger] s@[j]),
        ensures
            i <= n <= chars.len(),
            n == i || !set(s@[n - 1]),
            forall|j: int| n <= j < s@.len() ==> set(#[trigger] s@[j]),
        decreases n,
    {
        n -= 1;
    }
    proof {
        assert forall|j: int| n - i <= j < head.len() implies set(#[trigger] head[j]) by {
            assert(set(s@[j + i]));
        }
        lemma_last_outside(head, set, n - i);
    }
    let r = s.substring_char(i, n);
    assert(r@ =~= head.take(n - i));
    r
}

/// `s` without the `c`s at its beginning and at its end.
pub fn trim_char<'a>(s: &'a str, c: char) -> (r: &'a str)
    ensures
        r@ == trimmed(s@, |x: char| x == c),
{
    let ghost set = |x: char| x == c;
    let chars = chars_of(s);
    let mut i: usize = 0;
    while i < chars.len() && chars[i] == c
        invariant
            i <= chars.len(),
            chars@ == s@,
            set == (|x: char| x == c),
            forall|j: int| 0 <= j < i ==> set(#[trigger] s@[j]),
        ensures
            i == chars.len() || !set(s@[i as int]),
            i <= chars.len(),
            forall|j: int| 0 <= j < i ==> set(#[trigger] s@[j]),
        decreases chars.len() - i,
    {
        i += 1;
    }
    let ghost head = s@.skip(i as int);
    proof {
        lemma_first_outside(s@, set, i as int);
    }
    let mut n: usize = chars.len();
    while n > i && chars[n - 1] == c
        invariant
            i <= n <= chars.len(),
            chars@ == s@,
            set == (|x: char| x == c),
            forall|j: int| n <= j < s@.len() ==> set(#[trigger] s@[j]),
        ensures
            i <= n <= chars.len(),
            n == i || !set(s@[n - 1]),
            forall|j: int| n <= j < s@.len() ==> set(#[trigger] s@[j]),
        decreases n,
    {
        n -= 1;
    }
    proof {
        assert forall|j: int| n - i <= j < head.len() implies set(#[trigger] head[j]) by {
            assert(set(s@[j + i]));
        }
        lemma_last_outside(head, set, n - i);
    }
    let r = s.substring_char(i, n);
    assert(r@ =~= head.take(n - i));
    r
}

/// The parts of `s` between the `c`s, in order.
pub open spec fn parts(s: Seq<char>, c: char) -> Seq<Seq<char>>
    decreases s.len(),
{
    match split_first(s, c) {
        Some((a, b)) => {
            proof {
                lemma_split_first(s, c);
            }
            seq![a] + parts(b, c)
        },
        None => seq![s],
    }
}

/// The characters of each string slice of a list.
pub open spec fn slices(v: Seq<&str>) -> Seq<Seq<char>> {
    v.map_values(|s: &str| s@)
}

/// The parts of `s` between the `c`s, in order.
pub fn split<'a>(s: &'a str, c: char) -> (r: Vec<&'a str>)
    ensures
        slices(r@) == parts(s@, c),
{
    let mut out: Vec<&'a str> = Vec::new();
    let mut rest: &'a str = s;
    assert(slices(out@) + parts(rest@, c) =~= parts(s@, c));
    loop
        invariant
            slices(out@) + parts(rest@, c) == parts(s@, c),
        decreases rest@.len(),
    {
        proof {
            lemma_split_first(rest@, c);
        }
        match split_at_first(rest, c) {
            Some((a, b)) => {
                let ghost before = out@;
                out.push(a);
                proof {
                    assert(slices(out@) =~= slices(before).push(a@));
                    assert(slices(out@) + parts(b@, c) =~= slices(before) + (seq![a@] + parts(
                        b@,
                        c,
                    )));
                }
                rest = b;
            },
            None => {
                let ghost before = out@;
                out.push(rest);
                assert(slices(out@) =~= slices(before) + seq![rest@]);
                return out;
            },
        }
    }
}

/// `needle` stands in `s` from position `i` on.
pub open spec fn stands_at(s: Seq<char>, needle: Seq<char>, i: int) -> bool {
    0 <= i && i + needle.len() <= s.len() && s.subrange(i, i + needle.len()) == needle
}

/// `needle` stands somewhere in `s`.
pub open spec fn holds(s: Seq<char>, needle: Seq<char>) -> bool {
    exists|i: int| stands_at(s, needle, i)
}

/// Whether `needle` stands somewhere in `s`.
pub fn contains(s: &str, needle: &str) -> (r: bool)
    ensures
        r == holds(s@, needle@),
{
    let n: usize = needle.unicode_len();
    let total: usize = s.unicode_len();
    if n > total {
        return false;
    }
    let mut i: usize = 0;
    while i <= total - n
        invariant
            n <= total,
            i <= total - n + 1,
            n == needle@.len(),
            total == s@.len(),
            forall|j: int| 0 <= j < i ==> !stands_at(s@, needle@, j),
        decreases total - n + 1 - i,
    {
        if str_eq(s.substring_char(i, i + n), needle) {
            assert(stands_at(s@, needle@, i as int));
            return true;
        }
        if i == total - n {
            return false;
        }
        i += 1;
    }
    false
}

/// The value of a decimal digit.
pub open spec fn digit(c: char) -> Option<nat> {
    if '0' <= c <= '9' {
        Some((c as int - '0' as int) as nat)
    } else {
        None
    }
}

/// The number that a sequence of decimal digits stands for.
pub open spec fn digits_value(s: Seq<char>) -> Option<nat>
    decreases s.len(),
{
    if s.len() == 0 {
        Some(0)
    } else {
        match (digits_value(s.drop_last()), digit(s.last())) {
            (Some(high), Some(low)) => Some(high * 10 + low),
            _ => None,
        }
    }
}

/// The 64-bit number that `s` stands for: decimal digits behind an optional plus sign.
pub open spec fn number(s: Seq<char>) -> Option<u64> {
    let digits = if s.len() > 0 && s[0] == '+' {
        s.skip(1)
    } else {
        s
    };
    match digits_value(digits) {
        Some(v) => if digits.len() > 0 && v <= u64::MAX {
            Some(v as u64)
        } else {
            None
        },
        None => None,
    }
}

proof fn lemma_digits_prefix(s: Seq<char>, n: int)
    requires
        0 <= n <= s.len(),
    ensures
        digits_value(s.take(n)) is None ==> digits_value(s) is None,
        digits_value(s) is Some ==> digits_value(s)->Some_0 >= digits_value(s.take(n))->Some_0,
    decreases s.len() - n,
{
    if n < s.len() {
        assert(s.take(n + 1).drop_last() =~= s.take(n));
        lemma_digits_prefix(s, n + 1);
    } else {
        assert(s.take(n) =~= s);
    }
}

/// The 64-bit number that `s` stands for: decimal digits behind an optional plus sign.
pub fn parse_u64(s: &str) -> (r: Option<u64>)
    ensures
        r == number(s@),
{
    let chars = chars_of(s);
    let first: usize = if chars.len() > 0 && chars[0] == '+' {
        1
    } else {
        0
    };
    let ghost digits = s@.skip(first as int);
    assert(first == 0 ==> digits =~= s@);
    if first == chars.len() {
        return None;
    }
    let mut value: u64 = 0;
    let mut i: usize = first;
    assert(digits.take(0) =~= Seq::empty());
    while i < chars.len()
        invariant
            first <= i <= chars.len(),
            chars@ == s@,
            digits == s@.skip(first as int),
            digits_value(digits.take(i - first)) == Some(value as nat),
            number(s@) == match digits_value(digits) {
                Some(v) => if digits.len() > 0 && v <= u64::MAX {
                    Some(v as u64)
                } else {
                    None
                },
                None => None,
            },
        decreases chars.len() - i,
    {
        let c = chars[i];
        proof {
            assert(digits.take(i - first + 1).drop_last() =~= digits.take(i - first));
            assert(digits.take(i - first + 1).last() == c);
            lemma_digits_prefix(digits, i - first + 1);
        }
        if !('0' <= c && c <= '9') {
            return None;
        }
        let low: u64 = c as u64 - '0' as u64;
        if value > (u64::MAX - low) / 10 {
            assert(value * 10 + low > u64::MAX);
            return None;
        }
        value = value * 10 + low;
        i += 1;
    }
    assert(digits.take(i - first) =~= digits);
    Some(value)
}

/// The character of a decimal digit.
pub open spec fn digit_char(d: nat) -> char {
    ('0' as int + d) as char
}

/// A number in decimal, without leading zeros.
pub open spec fn decimal(n: nat) -> Seq<char>
    decreases n,
{
    if n < 10 {
        seq![digit_char(n)]
    } else {
        decimal(n / 10).push(digit_char(n % 10))
    }
}

fn digit_text(d: u64) -> (r: &'static str)
    requires
        d < 16,
    ensures
        r@ == seq![hex_char(d as nat)],
{
    proof {
        reveal_strlit("0");
        reveal_strlit("1");
        reveal_strlit("2");
        reveal_strlit("3");
        reveal_strlit("4");
        reveal_strlit("5");
        reveal_strlit("6");
        reveal_strlit("7");
        reveal_strlit("8");
        reveal_strlit("9");
        reveal_strlit("a");
        reveal_strlit("b");
        reveal_strlit("c");
        reveal_strlit("d");
        reveal_strlit("e");
        reveal_strlit("f");
    }
    let r = if d == 0 {
        "0"
    } else if d == 1 {
        "1"
    } else if d == 2 {
        "2"
    } else if d == 3 {
        "3"
    } else if d == 4 {
        "4"
    } else if d == 5 {
        "5"
    } else if d == 6 {
        "6"
    } else if d == 7 {
        "7"
    } else if d == 8 {
        "8"
    } else if d == 9 {
        "9"
    } else if d == 10 {
        "a"
    } else if d == 11 {
        "b"
    } else if d == 12 {
        "c"
    } else if d == 13 {
        "d"
    } else if d == 14 {
        "e"
    } else {
        "f"
    };
    assert(r@ =~= seq![hex_char(d as nat)]);
    r
}

/// A number in decimal, without leading zeros.
pub fn decimal_text(n: u64) -> (r: String)
    ensures
        r@ == decimal(n as nat),
    decreases n,
{
    if n < 10 {
        digit_text(n).to_owned()
    } else {
        let mut out = decimal_text(n / 10);
        out.append(digit_text(n % 10));
        assert(out@ =~= decimal(n as nat));
        out
    }
}

/// The character of a hexadecimal digit.
pub open spec fn hex_char(d: nat) -> char {
    if d < 10 {
        digit_char(d)
    } else {
        ('a' as int + d - 10) as char
    }
}

/// A number in lower-case hexadecimal, without leading zeros.
pub open spec fn hex(n: nat) -> Seq<char>
    decreases n,
{
    if n < 16 {
        seq![hex_char(n)]
    } else {
        hex(n / 16).push(hex_char(n % 16))
    }
}

/// A number in lower-case hexadecimal, without leading zeros.
pub fn hex_text(n: u64) -> (r: String)
    ensures
        r@ == hex(n as nat),
    decreases n,
{
    if n < 16 {
        digit_text(n).to_owned()
    } else {
        let mut out = hex_text(n / 16);
        out.append(digit_text(n % 16));
        assert(out@ =~= hex(n as nat));
        out
    }
}

/// A number in lower-case hexadecimal, filled up with zeros on the left to `width` digits.
pub open spec fn hex_padded(n: nat, width: nat) -> Seq<char>
    decreases width,
{
    if width == 0 {
        Seq::empty()
    } else {
        hex_padded(n / 16, (width - 1) as nat).push(hex_char(n % 16))
    }
}

/// A number in lower-case hexadecimal, in 16 digits.
pub fn hex_text_16(n: u64) -> (r: String)
    ensures
        r@ == hex_padded(n as nat, 16),
{
    hex_digits(n, 16)
}

fn hex_digits(n: u64, width: u64) -> (r: String)
    ensures
        r@ == hex_padded(n as nat, width as nat),
    decreases width,
{
    if width == 0 {
        String::new()
    } else {
        let mut out = hex_digits(n / 16, width - 1);
        out.append(digit_text(n % 16));
        assert(out@ =~= hex_padded(n as nat, width as nat));
        out
    }
}

} // verus!
