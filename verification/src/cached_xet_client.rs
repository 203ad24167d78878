//! A cache of reconstruction plans: which pieces of which storage objects make up a file.
//!
//! A plan for a whole file answers every question about a part of it, so such plans are preferred.
//! Concurrent questions for the same plan are answered by one request.
use crate::time::Duration;
use vstd::prelude::*;
use vstd::string::*;

verus! {

broadcast use vstd::string::group_string_axioms;

/// How many plans the cache holds at most.
pub const MAX_CACHE_ENTRIES: usize = 4096;

/// How long a plan may be used, in seconds: its URLs expire after an hour.
pub const CACHE_TTL_SECS: u64 = 3_540;

/// The hash of a file or of a storage object.
#[derive(Debug, Clone, Copy, PartialEq, Eq, Structural)]
pub struct MerkleHash {
    pub w0: u64,
    pub w1: u64,
    pub w2: u64,
    pub w3: u64,
}

/// The bytes of a file from `start` up to but not including `end`.
#[derive(Debug, Clone, Copy, PartialEq, Eq, Structural)]
pub struct FileRange {
    pub start: u64,
    pub end: u64,
}

/// What a plan is for: a file, or a part of it.
#[derive(Debug, Clone, Copy, PartialEq, Eq, Structural)]
pub struct ReconCacheKey {
    pub hash: MerkleHash,
    /// `None` for the whole file.
    pub range: Option<FileRange>,
}

/// A run of chunks of a storage object, which unpacks to `unpacked_length` bytes of the file.
#[derive(Debug, Clone, Copy, PartialEq, Eq, Structural)]
pub struct Term {
    pub hash: MerkleHash,
    pub unpacked_length: u32,
    pub chunk_start: u32,
    pub chunk_end: u32,
}

/// Where the bytes of some chunks of a storage object are.
#[derive(Debug, Clone, Copy, PartialEq, Eq, Structural)]
pub struct RangeDescriptor {
    pub chunk_start: u32,
    pub chunk_end: u32,
    pub byte_start: u64,
    pub byte_end: u64,
}

/// A URL from which some ranges of a storage object can be had.
#[derive(Debug)]
pub struct RangeFetch {
    pub url: String,
    pub ranges: Vec<RangeDescriptor>,
}

/// What a `RangeFetch` holds.
pub struct FetchModel {
    pub url: Seq<char>,
    pub ranges: Seq<RangeDescriptor>,
}

impl View for RangeFetch {
    type V = FetchModel;

    open spec fn view(&self) -> FetchModel {
        FetchModel { url: self.url@, ranges: self.ranges@ }
    }
}

/// A storage object with the URLs from which it can be had.
#[derive(Debug)]
pub struct Xorb {
    pub hash: MerkleHash,
    pub fetches: Vec<RangeFetch>,
}

/// What a `Xorb` holds.
pub struct XorbModel {
    pub hash: MerkleHash,
    pub fetches: Seq<FetchModel>,
}

impl View for Xorb {
    type V = XorbModel;

    open spec fn view(&self) -> XorbModel {
        XorbModel { hash: self.hash, fetches: fetch_models(self.fetches@) }
    }
}

/// What a list of fetches holds.
pub open spec fn fetch_models(v: Seq<RangeFetch>) -> Seq<FetchModel> {
    v.map_values(|f: RangeFetch| f@)
}

/// What a list of storage objects holds.
pub open spec fn xorb_models(v: Seq<Xorb>) -> Seq<XorbModel> {
    v.map_values(|x: Xorb| x@)
}

/// How a file, or a part of it, is put together: the terms one after the other, without the first
/// `offset_into_first_range` bytes.
#[derive(Debug)]
pub struct Plan {
    pub offset_into_first_range: u64,
    pub terms: Vec<Term>,
    pub xorbs: Vec<Xorb>,
}

/// What a `Plan` holds.
pub struct PlanModel {
    pub offset_into_first_range: u64,
    pub terms: Seq<Term>,
    pub xorbs: Seq<XorbModel>,
}

impl View for Plan {
    type V = PlanModel;

    open spec fn view(&self) -> PlanModel {
        PlanModel {
            offset_into_first_range: self.offset_into_first_range,
            terms: self.terms@,
            xorbs: xorb_models(self.xorbs@),
        }
    }
}

impl Clone for RangeFetch {
    fn clone(&self) -> (r: Self)
        ensures
            r@ == self@,
    {
        let r = RangeFetch { url: self.url.clone(), ranges: self.ranges.clone() };
        assert(r.ranges@ =~= self.ranges@);
        r
    }
}

impl Clone for Xorb {
    fn clone(&self) -> (r: Self)
        ensures
            r@ == self@,
    {
        let mut fetches: Vec<RangeFetch> = Vec::new();
        let mut i: usize = 0;
        let ghost all = fetch_models(self.fetches@);
        while i < self.fetches.len()
            invariant
                i <= self.fetches.len(),
                all == fetch_models(self.fetches@),
                fetch_models(fetches@) == all.take(i as int),
            decreases self.fetches.len() - i,
        {
            let ghost before = fetches@;
            fetches.push(self.fetches[i].clone());
            assert(fetch_models(fetches@) =~= fetch_models(before).push(all[i as int]));
            assert(all.take(i + 1) =~= all.take(i as int).push(all[i as int]));
            i += 1;
        }
        assert(all.take(i as int) =~= all);
        Xorb { hash: self.hash, fetches }
    }
}

impl Clone for Plan {
    fn clone(&self) -> (r: Self)
        ensures
            r@ == self@,
    {
        let mut xorbs: Vec<Xorb> = Vec::new();
        let mut i: usize = 0;
        let ghost all = xorb_models(self.xorbs@);
        while i < self.xorbs.len()
            invariant
                i <= self.xorbs.len(),
                all == xorb_models(self.xorbs@),
                xorb_models(xorbs@) == all.take(i as int),
            decreases self.xorbs.len() - i,
        {
            let ghost before = xorbs@;
            xorbs.push(self.xorbs[i].clone());
            assert(xorb_models(xorbs@) =~= xorb_models(before).push(all[i as int]));
            assert(all.take(i + 1) =~= all.take(i as int).push(all[i as int]));
            i += 1;
        }
        assert(all.take(i as int) =~= all);
        let terms = self.terms.clone();
        assert(terms@ =~= self.terms@);
        Plan { offset_into_first_range: self.offset_into_first_range, terms, xorbs }
    }
}

/// How many bytes terms unpack to.
pub open spec fn unpacked(terms: Seq<Term>) -> nat
    decreases terms.len(),
{
    if terms.len() == 0 {
        0
    } else {
        unpacked(terms.drop_last()) + terms.last().unpacked_length as nat
    }
}

/// Where term `i` starts in the file.
pub open spec fn term_start(terms: Seq<Term>, i: int) -> nat {
    unpacked(terms.take(i))
}

/// Term `i` is needed for a range: it ends after the range starts, and starts before it ends.
pub open spec fn needed(terms: Seq<Term>, range: FileRange, i: int) -> bool {
    term_start(terms, i + 1) > range.start && term_start(terms, i) < range.end
}

/// The terms among the first `n` that are needed for a range.
pub open spec fn needed_terms(terms: Seq<Term>, range: FileRange, n: nat) -> Seq<Term>
    decreases n,
{
    if n == 0 {
        Seq::empty()
    } else {
        let low = needed_terms(terms, range, (n - 1) as nat);
        if needed(terms, range, n - 1) {
            low.push(terms[n - 1])
        } else {
            low
        }
    }
}

/// How far into the first needed term among the first `n` a range starts; 0 if none is needed.
pub open spec fn needed_offset(terms: Seq<Term>, range: FileRange, n: nat) -> u64
    decreases n,
{
    if n == 0 {
        0
    } else if needed_terms(terms, range, (n - 1) as nat).len() > 0 {
        needed_offset(terms, range, (n - 1) as nat)
    } else if needed(terms, range, n - 1) && range.start > term_start(terms, n - 1) {
        (range.start - term_start(terms, n - 1)) as u64
    } else {
        0
    }
}

/// One of the terms is about the storage object.
pub open spec fn uses(terms: Seq<Term>, hash: MerkleHash) -> bool {
    exists|i: int| 0 <= i < terms.len() && (#[trigger] terms[i]).hash == hash
}

/// The plan for a part of a file, from the plan for the whole: the needed terms, and the storage
/// objects that they are about.
pub open spec fn derived(full: PlanModel, range: FileRange) -> PlanModel {
    let terms = needed_terms(full.terms, range, full.terms.len());
    PlanModel {
        offset_into_first_range: needed_offset(full.terms, range, full.terms.len()),
        terms,
        xorbs: full.xorbs.filter(|x: XorbModel| uses(terms, x.hash)),
    }
}

proof fn lemma_starts_grow(terms: Seq<Term>, i: int, j: int)
    requires
        0 <= i <= j <= terms.len(),
    ensures
        term_start(terms, i) <= term_start(terms, j),
    decreases j - i,
{
    if i < j {
        lemma_starts_grow(terms, i, j - 1);
        lemma_start_step(terms, j - 1);
    }
}

proof fn lemma_start_step(terms: Seq<Term>, i: int)
    requires
        0 <= i < terms.len(),
    ensures
        term_start(terms, i + 1) == term_start(terms, i) + terms[i].unpacked_length,
{
    assert(terms.take(i + 1).drop_last() =~= terms.take(i));
    assert(terms.take(i + 1).last() == terms[i]);
}

proof fn lemma_none_needed_from(terms: Seq<Term>, range: FileRange, i: nat, n: nat)
    requires
        i <= n <= terms.len(),
        term_start(terms, i as int) >= range.end,
    ensures
        needed_terms(terms, range, n) == needed_terms(terms, range, i),
        needed_offset(terms, range, n) == needed_offset(terms, range, i),
    decreases n - i,
{
    if i < n {
        lemma_none_needed_from(terms, range, i, (n - 1) as nat);
        lemma_starts_grow(terms, i as int, n - 1);
        if needed_terms(terms, range, (n - 1) as nat).len() == 0 {
            lemma_no_offset(terms, range, (n - 1) as nat);
        }
    }
}

proof fn lemma_no_offset(terms: Seq<Term>, range: FileRange, n: nat)
    requires
        needed_terms(terms, range, n).len() == 0,
    ensures
        needed_offset(terms, range, n) == 0,
    decreases n,
{
    if n > 0 {
        lemma_no_offset(terms, range, (n - 1) as nat);
    }
}

/// The plan for a part of a file, from the plan for the whole.
///
/// Terms are kept or left out as a whole, as nothing is known of the sizes of their chunks.
pub fn derive_range_response(full: &Plan, range: FileRange) -> (r: Plan)
    ensures
        r@ == derived(full@, range),
{
    let ghost all = full.terms@;
    let mut cur_offset: u128 = 0;
    let mut result_terms: Vec<Term> = Vec::new();
    let mut offset_into_first: u64 = 0;
    let mut i: usize = 0;
    assert(all.take(0) =~= Seq::empty());
    while i < full.terms.len()
        invariant_except_break
            i <= full.terms.len(),
            all == full.terms@,
            cur_offset == term_start(all, i as int),
            cur_offset <= i * u32::MAX,
            result_terms@ == needed_terms(all, range, i as nat),
            offset_into_first == needed_offset(all, range, i as nat),
        ensures
            result_terms@ == needed_terms(all, range, all.len()),
            offset_into_first == needed_offset(all, range, all.len()),
        decreases full.terms.len() - i,
    {
        let term = full.terms[i];
        proof {
            lemma_start_step(all, i as int);
            assert(i * u32::MAX + u32::MAX == (i + 1) * u32::MAX) by (nonlinear_arith);
            assert(i * u32::MAX <= usize::MAX * u32::MAX) by (nonlinear_arith)
                requires
                    i <= usize::MAX,
            ;
        }
        let term_end: u128 = cur_offset + term.unpacked_length as u128;
        if term_end > range.start as u128 {
            if cur_offset >= range.end as u128 {
                proof {
                    lemma_none_needed_from(all, range, i as nat, all.len());
                }
                break ;
            }
            if result_terms.len() == 0 && range.start as u128 > cur_offset {
                offset_into_first = (range.start as u128 - cur_offset) as u64;
            }
            proof {
                if result_terms@.len() == 0 {
                    lemma_no_offset(all, range, i as nat);
                }
            }
            result_terms.push(term);
        } else {
            proof {
                if result_terms@.len() == 0 {
                    lemma_no_offset(all, range, i as nat);
                }
            }
        }
        cur_offset = term_end;
        i += 1;
    }
    let ghost keep = |x: XorbModel| uses(result_terms@, x.hash);
    let ghost objects = xorb_models(full.xorbs@);
    let mut xorbs: Vec<Xorb> = Vec::new();
    let mut j: usize = 0;
    proof {
        reveal(Seq::filter);
        assert(objects.take(0) =~= Seq::empty());
        assert(xorb_models(xorbs@) =~= objects.take(0).filter(keep));
    }
    while j < full.xorbs.len()
        invariant
            j <= full.xorbs.len(),
            keep == (|x: XorbModel| uses(result_terms@, x.hash)),
            objects == xorb_models(full.xorbs@),
            xorb_models(xorbs@) == objects.take(j as int).filter(keep),
        decreases full.xorbs.len() - j,
    {
        proof {
            reveal(Seq::filter);
            assert(objects.take(j + 1).drop_last() =~= objects.take(j as int));
            assert(objects.take(j + 1).last() == objects[j as int]);
        }
        if is_used(&result_terms, full.xorbs[j].hash) {
            let ghost before = xorbs@;
            xorbs.push(full.xorbs[j].clone());
            assert(xorb_models(xorbs@) =~= xorb_models(before).push(objects[j as int]));
        }
        j += 1;
    }
    assert(objects.take(j as int) =~= objects);
    Plan { offset_into_first_range: offset_into_first, terms: result_terms, xorbs }
}

/// Whether one of the terms is about the storage object.
fn is_used(terms: &Vec<Term>, hash: MerkleHash) -> (r: bool)
    ensures
        r == uses(terms@, hash),
{
    let mut i: usize = 0;
    while i < terms.len()
        invariant
            i <= terms.len(),
            forall|k: int| 0 <= k < i ==> (#[trigger] terms@[k]).hash != hash,
        decreases terms.len() - i,
    {
        if terms[i].hash == hash {
            return true;
        }
        i += 1;
    }
    false
}

/// Where the needed terms among the first `n` start and end.
proof fn lemma_window(terms: Seq<Term>, range: FileRange, n: nat) -> (r: (int, int))
    requires
        n <= terms.len(),
        range.start < range.end,
    ensures
        0 <= r.0 <= r.1 <= n,
        needed_terms(terms, range, n) == terms.subrange(r.0, r.1),
        term_start(terms, r.0) <= range.start,
        r.0 == n ==> r.1 == n,
        r.0 < n ==> {
            &&& r.0 < r.1
            &&& term_start(terms, r.0 + 1) > range.start
            &&& needed_offset(terms, range, n) == range.start - term_start(terms, r.0)
            &&& r.1 < n ==> term_start(terms, r.1) >= range.end
        },
    decreases n,
{
    if n == 0 {
        assert(terms.take(0) =~= Seq::empty());
        assert(terms.subrange(0, 0) =~= Seq::empty());
        (0, 0)
    } else {
        let m = (n - 1) as nat;
        let (a, b) = lemma_window(terms, range, m);
        lemma_start_step(terms, m as int);
        if a < m {
            lemma_starts_grow(terms, a + 1, n as int);
            assert(needed_terms(terms, range, m).len() > 0);
            if b < m {
                lemma_starts_grow(terms, b, m as int);
                (a, b)
            } else if needed(terms, range, m as int) {
                assert(terms.subrange(a, b).push(terms[m as int]) =~= terms.subrange(a, n as int));
                (a, n as int)
            } else {
                (a, b)
            }
        } else {
            assert(terms.subrange(a, b) =~= Seq::empty());
            if term_start(terms, n as int) > range.start {
                assert(needed(terms, range, m as int));
                assert(Seq::<Term>::empty().push(terms[m as int]) =~= terms.subrange(
                    m as int,
                    n as int,
                ));
                (m as int, n as int)
            } else {
                assert(terms.subrange(n as int, n as int) =~= Seq::empty());
                (n as int, n as int)
            }
        }
    }
}

/// A plan that is derived for a part of a file holds consecutive terms of the whole, starts inside
/// the first of them exactly where the part starts, and reaches at least to the end of the part or
/// of the file.
pub proof fn law_derived_plan_covers_range(full: PlanModel, range: FileRange)
    requires
        range.start < range.end,
        range.start < unpacked(full.terms),
    ensures
        exists|a: int, b: int|
            0 <= a < b <= full.terms.len() && derived(full, range).terms
                == #[trigger] full.terms.subrange(a, b) && term_start(full.terms, a) + derived(
                full,
                range,
            ).offset_into_first_range == range.start && derived(full, range).offset_into_first_range
                < full.terms[a].unpacked_length && (term_start(full.terms, b) >= range.end || b
                == full.terms.len()),
{
    let terms = full.terms;
    let (a, b) = lemma_window(terms, range, terms.len());
    assert(terms.take(terms.len() as int) =~= terms);
    lemma_start_step(terms, a);
    assert(derived(full, range).terms == terms.subrange(a, b));
}

/// A plan that is derived names every storage object that it needs, if the whole plan does.
pub proof fn law_derived_plan_keeps_needed_objects(full: PlanModel, range: FileRange, x: XorbModel)
    requires
        full.xorbs.contains(x),
        uses(derived(full, range).terms, x.hash),
    ensures
        derived(full, range).xorbs.contains(x),
{
    let keep = |y: XorbModel| uses(derived(full, range).terms, y.hash);
    lemma_filter_keeps(full.xorbs, keep, x);
}

proof fn lemma_filter_keeps(s: Seq<XorbModel>, keep: spec_fn(XorbModel) -> bool, x: XorbModel)
    requires
        s.contains(x),
        keep(x),
    ensures
        s.filter(keep).contains(x),
    decreases s.len(),
{
    reveal(Seq::filter);
    let low = s.drop_last().filter(keep);
    if s.last() == x {
        assert(s.filter(keep)[low.len() as int] == x);
    } else {
        let i = choose|i: int| 0 <= i < s.len() && s[i] == x;
        assert(s.drop_last()[i] == x);
        lemma_filter_keeps(s.drop_last(), keep, x);
        let j = choose|j: int| 0 <= j < low.len() && low[j] == x;
        assert(s.filter(keep)[j] == x);
    }
}

/// A plan in the cache, with the time at which it came.
pub struct CacheEntry {
    pub key: ReconCacheKey,
    pub response: Plan,
    pub inserted_at: Duration,
}

/// What a `CacheEntry` holds.
pub struct CacheEntryModel {
    pub key: ReconCacheKey,
    pub response: PlanModel,
    pub inserted_at: Duration,
}

impl View for CacheEntry {
    type V = CacheEntryModel;

    open spec fn view(&self) -> CacheEntryModel {
        CacheEntryModel {
            key: self.key,
            response: self.response@,
            inserted_at: self.inserted_at,
        }
    }
}

/// What a list of entries holds.
pub open spec fn cached_models(v: Seq<CacheEntry>) -> Seq<CacheEntryModel> {
    v.map_values(|e: CacheEntry| e@)
}

/// What a `CachedXetClient` holds.
#[verifier::ext_equal]
pub struct CacheModel {
    pub cache: Seq<CacheEntryModel>,
    pub inflight: Seq<ReconCacheKey>,
    pub ttl: Duration,
}

/// Plans that came from the server, and the questions it is being asked. Times count from when the
/// cache was made.
pub struct CachedXetClient {
    cache: Vec<CacheEntry>,
    inflight: Vec<ReconCacheKey>,
    ttl: Duration,
}

impl View for CachedXetClient {
    type V = CacheModel;

    closed spec fn view(&self) -> CacheModel {
        CacheModel { cache: cached_models(self.cache@), inflight: self.inflight@, ttl: self.ttl }
    }
}

/// What to do with a question for a plan.
#[derive(Debug)]
pub enum ReconStep {
    /// Answer it.
    Answer(Option<Plan>),
    /// The server is being asked already: wait for its answer, and ask again.
    Wait,
    /// Ask the server.
    Lead,
}

/// What a `ReconStep` holds.
pub enum StepModel {
    Answer(Option<PlanModel>),
    Wait,
    Lead,
}

/// What an optional plan holds.
pub open spec fn opt_plan(p: Option<Plan>) -> Option<PlanModel> {
    match p {
        Some(plan) => Some(plan@),
        None => None,
    }
}

impl View for ReconStep {
    type V = StepModel;

    open spec fn view(&self) -> StepModel {
        match self {
            ReconStep::Answer(p) => StepModel::Answer(opt_plan(*p)),
            ReconStep::Wait => StepModel::Wait,
            ReconStep::Lead => StepModel::Lead,
        }
    }
}

/// An entry may still be used at `now`.
pub open spec fn is_valid(e: CacheEntryModel, ttl: Duration, now: Duration) -> bool {
    if now.nanos >= e.inserted_at.nanos {
        now.nanos - e.inserted_at.nanos < ttl.nanos
    } else {
        ttl.nanos > 0
    }
}

/// The entries for other keys.
pub open spec fn without_key(s: Seq<CacheEntryModel>, key: ReconCacheKey) -> Seq<CacheEntryModel> {
    s.filter(|e: CacheEntryModel| e.key != key)
}

/// The position of the entry for `key`.
pub open spec fn position(s: Seq<CacheEntryModel>, key: ReconCacheKey) -> Option<int>
    decreases s.len(),
{
    if s.len() == 0 {
        None
    } else {
        match position(s.drop_last(), key) {
            Some(i) => Some(i),
            None => if s.last().key == key {
                Some(s.len() - 1)
            } else {
                None
            },
        }
    }
}

/// The plan for `key` that may be used at `now`.
pub open spec fn usable(
    s: Seq<CacheEntryModel>,
    key: ReconCacheKey,
    ttl: Duration,
    now: Duration,
) -> Option<PlanModel> {
    match position(s, key) {
        Some(i) => if is_valid(s[i], ttl, now) {
            Some(s[i].response)
        } else {
            None
        },
        None => None,
    }
}

/// The entries without that for `key`, if it may no longer be used.
pub open spec fn refreshed(
    s: Seq<CacheEntryModel>,
    key: ReconCacheKey,
    ttl: Duration,
    now: Duration,
) -> Seq<CacheEntryModel> {
    if usable(s, key, ttl, now) is None {
        without_key(s, key)
    } else {
        s
    }
}

/// The key of the plan for the whole file.
pub open spec fn whole(hash: MerkleHash) -> ReconCacheKey {
    ReconCacheKey { hash, range: None }
}

/// The answer to a question for a part of a file, from the plan for the whole. There is none past
/// the end of the file.
pub open spec fn answer_from_whole(full: PlanModel, range: FileRange) -> Option<PlanModel> {
    let part = derived(full, range);
    if part.terms.len() == 0 && (full.terms.len() > 0 || range.start > 0) {
        None
    } else {
        Some(part)
    }
}

/// What the cache alone answers to a question, if it can.
pub open spec fn cached_answer(
    c: CacheModel,
    key: ReconCacheKey,
    now: Duration,
) -> Option<Option<PlanModel>> {
    match usable(c.cache, key, c.ttl, now) {
        Some(plan) => Some(Some(plan)),
        None => match key.range {
            None => None,
            Some(range) => match usable(
                refreshed(c.cache, key, c.ttl, now),
                whole(key.hash),
                c.ttl,
                now,
            ) {
                Some(full) => Some(answer_from_whole(full, range)),
                None => None,
            },
        },
    }
}

/// The entries after a question: those looked at that may no longer be used are gone.
pub open spec fn looked_at(
    c: CacheModel,
    key: ReconCacheKey,
    now: Duration,
) -> Seq<CacheEntryModel> {
    let first = refreshed(c.cache, key, c.ttl, now);
    if usable(c.cache, key, c.ttl, now) is None && key.range is Some {
        refreshed(first, whole(key.hash), c.ttl, now)
    } else {
        first
    }
}

/// What to do with a question: answer it from the cache, or wait if the server is being asked, or
/// ask it.
pub open spec fn question(c: CacheModel, key: ReconCacheKey, now: Duration) -> StepModel {
    match cached_answer(c, key, now) {
        Some(answer) => StepModel::Answer(answer),
        None => if c.inflight.contains(key) {
            StepModel::Wait
        } else {
            StepModel::Lead
        },
    }
}

/// The cache after a question.
pub open spec fn questioned(c: CacheModel, key: ReconCacheKey, now: Duration) -> CacheModel {
    CacheModel {
        cache: looked_at(c, key, now),
        inflight: if question(c, key, now) is Lead {
            c.inflight.push(key)
        } else {
            c.inflight
        },
        ttl: c.ttl,
    }
}

/// The entries once room is made for a plan for `key`. The plan for a whole file makes those for
/// its parts superfluous. A full cache gives up all plans for parts, and if there are none, the
/// plan that has been there longest.
pub open spec fn with_room(s: Seq<CacheEntryModel>, key: ReconCacheKey) -> Seq<CacheEntryModel> {
    let purged = if key.range is None {
        s.filter(|e: CacheEntryModel| e.key.hash != key.hash || e.key.range is None)
    } else {
        s
    };
    if purged.len() < MAX_CACHE_ENTRIES {
        purged
    } else {
        let wholes = purged.filter(|e: CacheEntryModel| e.key.range is None);
        if wholes.len() < MAX_CACHE_ENTRIES {
            wholes
        } else {
            wholes.drop_first()
        }
    }
}

/// Holds of the other keys.
pub open spec fn other_than(key: ReconCacheKey) -> spec_fn(ReconCacheKey) -> bool {
    |k: ReconCacheKey| k != key
}

/// The cache after the server's answer. Only plans are kept, not that there is none or that the
/// request failed.
pub open spec fn answered(
    c: CacheModel,
    key: ReconCacheKey,
    response: Option<PlanModel>,
    now: Duration,
) -> CacheModel {
    CacheModel {
        cache: match response {
            Some(plan) => without_key(with_room(c.cache, key), key).push(
                CacheEntryModel { key, response: plan, inserted_at: now },
            ),
            None => c.cache,
        },
        inflight: c.inflight.filter(other_than(key)),
        ttl: c.ttl,
    }
}

/// No key occurs twice.
pub open spec fn distinct(s: Seq<CacheEntryModel>) -> bool {
    forall|i: int, j: int| 0 <= i < j < s.len() ==> (#[trigger] s[i]).key != (#[trigger] s[j]).key
}

impl CacheModel {
    /// No key occurs twice, and the cache is within its capacity.
    pub open spec fn wf(self) -> bool {
        distinct(self.cache) && self.cache.len() <= MAX_CACHE_ENTRIES
    }
}

/// Which entries stay.
#[derive(Clone, Copy)]
enum Keep {
    /// Those for other keys.
    NotKey(ReconCacheKey),
    /// All but those for parts of the file.
    NotPartsOf(MerkleHash),
    /// Those for whole files.
    Wholes,
}

/// The entry stays.
spec fn keeps(rule: Keep) -> spec_fn(CacheEntryModel) -> bool {
    match rule {
        Keep::NotKey(key) => |e: CacheEntryModel| e.key != key,
        Keep::NotPartsOf(hash) => |e: CacheEntryModel| e.key.hash != hash || e.key.range is None,
        Keep::Wholes => |e: CacheEntryModel| e.key.range is None,
    }
}

/// Drop the entries that do not stay.
fn retain(entries: &mut Vec<CacheEntry>, rule: Keep)
    ensures
        cached_models(final(entries)@) == cached_models(old(entries)@).filter(keeps(rule)),
{
    let ghost all = cached_models(entries@);
    let ghost keep = keeps(rule);
    let mut i: usize = 0;
    let ghost mut k: int = 0;
    proof {
        reveal(Seq::filter);
        assert(all.take(0) =~= Seq::empty());
        assert(cached_models(entries@).take(0) =~= all.take(0).filter(keep));
        assert(cached_models(entries@).skip(0) =~= all.skip(0));
    }
    while i < entries.len()
        invariant
            i <= entries.len(),
            0 <= k <= all.len(),
            keep == keeps(rule),
            cached_models(entries@).take(i as int) == all.take(k).filter(keep),
            cached_models(entries@).skip(i as int) == all.skip(k),
        decreases entries.len() - i,
    {
        let ghost here = cached_models(entries@);
        let ghost e = entries@[i as int]@;
        proof {
            reveal(Seq::filter);
            assert(here.skip(i as int)[0] == e);
            assert(all.skip(k).len() == all.len() - k);
            assert(all.skip(k)[0] == all[k]);
            assert(all.take(k + 1).drop_last() =~= all.take(k));
            assert(all.take(k + 1).last() == e);
            assert(here.skip(i + 1) =~= here.skip(i as int).skip(1));
            assert(all.skip(k + 1) =~= all.skip(k).skip(1));
        }
        let stays = match rule {
            Keep::NotKey(key) => entries[i].key != key,
            Keep::NotPartsOf(hash) => entries[i].key.hash != hash || entries[i].key.range.is_none(),
            Keep::Wholes => entries[i].key.range.is_none(),
        };
        assert(stays == keep(e));
        if stays {
            assert(here.take(i + 1) =~= here.take(i as int).push(e));
            i += 1;
        } else {
            let _ = entries.remove(i);
            assert(cached_models(entries@).take(i as int) =~= here.take(i as int));
            assert(cached_models(entries@).skip(i as int) =~= here.skip(i + 1));
        }
        proof {
            k = k + 1;
        }
    }
    proof {
        assert(cached_models(entries@).skip(i as int) =~= Seq::empty());
        assert(all.skip(k).len() == 0);
        assert(all.take(k) =~= all);
        assert(cached_models(entries@).take(i as int) =~= cached_models(entries@));
    }
}

proof fn lemma_position(s: Seq<CacheEntryModel>, key: ReconCacheKey)
    ensures
        match position(s, key) {
            Some(i) => 0 <= i < s.len() && s[i].key == key && forall|j: int|
                0 <= j < i ==> (#[trigger] s[j]).key != key,
            None => forall|j: int| 0 <= j < s.len() ==> (#[trigger] s[j]).key != key,
        },
    decreases s.len(),
{
    if s.len() > 0 {
        lemma_position(s.drop_last(), key);
        assert forall|j: int| 0 <= j < s.len() - 1 implies #[trigger] s[j] == s.drop_last()[j] by {}
    }
}

proof fn lemma_filter_distinct(s: Seq<CacheEntryModel>, keep: spec_fn(CacheEntryModel) -> bool)
    ensures
        distinct(s) ==> distinct(s.filter(keep)),
        s.filter(keep).len() <= s.len(),
        forall|j: int|
            0 <= j < s.filter(keep).len() ==> keep(#[trigger] s.filter(keep)[j]) && s.contains(
                s.filter(keep)[j],
            ),
    decreases s.len(),
{
    reveal(Seq::filter);
    if s.len() > 0 {
        let low = s.drop_last();
        lemma_filter_distinct(low, keep);
        assert forall|j: int| 0 <= j < s.filter(keep).len() implies keep(
            #[trigger] s.filter(keep)[j],
        ) && s.contains(s.filter(keep)[j]) by {
            if j < low.filter(keep).len() {
                assert(s.filter(keep)[j] == low.filter(keep)[j]);
                let x = low.filter(keep)[j];
                let i = choose|i: int| 0 <= i < low.len() && low[i] == x;
                assert(s[i] == x);
            } else {
                assert(s[s.len() - 1] == s.last());
            }
        }
        if distinct(s) {
            assert forall|i: int, j: int| 0 <= i < j < s.filter(keep).len() implies (
            #[trigger] s.filter(keep)[i]).key != (#[trigger] s.filter(keep)[j]).key by {
                assert(s.filter(keep)[i] == low.filter(keep)[i]);
                let a = low.filter(keep)[i];
                let x = choose|x: int| 0 <= x < low.len() && low[x] == a;
                if j < low.filter(keep).len() {
                    assert(s.filter(keep)[j] == low.filter(keep)[j]);
                } else {
                    assert(s[x] == a && s[s.len() - 1] == s.last());
                }
            }
        }
    }
}

proof fn lemma_filter_whole(s: Seq<CacheEntryModel>, keep: spec_fn(CacheEntryModel) -> bool)
    requires
        forall|j: int| 0 <= j < s.len() ==> keep(#[trigger] s[j]),
    ensures
        s.filter(keep) == s,
    decreases s.len(),
{
    reveal(Seq::filter);
    if s.len() > 0 {
        let low = s.drop_last();
        assert forall|j: int| 0 <= j < low.len() implies keep(#[trigger] low[j]) by {
            assert(low[j] == s[j]);
        }
        lemma_filter_whole(low, keep);
        assert(keep(s[s.len() - 1]));
        assert(low.push(s.last()) =~= s);
    }
}

impl CachedXetClient {
    /// An empty cache.
    pub fn new() -> (r: Self)
        ensures
            r@ == (CacheModel {
                cache: Seq::empty(),
                inflight: Seq::empty(),
                ttl: Duration::from_secs(CACHE_TTL_SECS),
            }),
            r@.wf(),
    {
        Self::new_with_ttl(Duration::from_secs(CACHE_TTL_SECS))
    }

    /// An empty cache whose plans may be used for `ttl`.
    pub fn new_with_ttl(ttl: Duration) -> (r: Self)
        ensures
            r@ == (CacheModel { cache: Seq::empty(), inflight: Seq::empty(), ttl }),
            r@.wf(),
    {
        let r = CachedXetClient { cache: Vec::new(), inflight: Vec::new(), ttl };
        assert(r@ =~= CacheModel { cache: Seq::empty(), inflight: Seq::empty(), ttl });
        r
    }

    /// How many plans are in the cache.
    pub fn len(&self) -> (r: usize)
        ensures
            r == self@.cache.len(),
    {
        self.cache.len()
    }

    /// The plan for `key` that may be used at `now`. An entry that may no longer be used is
    /// dropped.
    fn try_get(&mut self, key: ReconCacheKey, now: Duration) -> (r: Option<Plan>)
        ensures
            opt_plan(r) == usable(old(self)@.cache, key, old(self)@.ttl, now),
            final(self)@ == (CacheModel {
                cache: refreshed(old(self)@.cache, key, old(self)@.ttl, now),
                ..old(self)@
            }),
    {
        let ghost s = self@.cache;
        let mut i: usize = 0;
        while i < self.cache.len()
            invariant
                i <= self.cache.len(),
                s == cached_models(self.cache@),
                *self == *old(self),
                forall|j: int| 0 <= j < i ==> (#[trigger] s[j]).key != key,
            decreases self.cache.len() - i,
        {
            assert(s[i as int].key == self.cache@[i as int].key);
            if self.cache[i].key == key {
                proof {
                    lemma_position(s, key);
                }
                let age: u128 = if now.nanos >= self.cache[i].inserted_at.nanos {
                    now.nanos - self.cache[i].inserted_at.nanos
                } else {
                    0
                };
                if age < self.ttl.nanos {
                    return Some(self.cache[i].response.clone());
                }
                retain(&mut self.cache, Keep::NotKey(key));
                return None;
            }
            i += 1;
        }
        proof {
            lemma_position(s, key);
            lemma_filter_whole(s, |e: CacheEntryModel| e.key != key);
        }
        None
    }

    /// What to do with a question for the plan of a file, or of a part of it. An exact entry is
    /// preferred over the plan for the whole file, as the server trims what it answers more
    /// tightly.
    pub fn get_reconstruction(
        &mut self,
        file_id: MerkleHash,
        bytes_range: Option<FileRange>,
        now: Duration,
    ) -> (r: ReconStep)
        ensures
            r@ == question(old(self)@, ReconCacheKey { hash: file_id, range: bytes_range }, now),
            final(self)@ == questioned(
                old(self)@,
                ReconCacheKey { hash: file_id, range: bytes_range },
                now,
            ),
            old(self)@.wf() ==> final(self)@.wf(),
    {
        let key = ReconCacheKey { hash: file_id, range: bytes_range };
        let ghost start = self@;
        proof {
            lemma_questioned_wf(start, key, now);
        }
        if let Some(plan) = self.try_get(key, now) {
            return ReconStep::Answer(Some(plan));
        }
        if let Some(range) = bytes_range {
            let whole_key = ReconCacheKey { hash: file_id, range: None };
            if let Some(full) = self.try_get(whole_key, now) {
                let part = derive_range_response(&full, range);
                if part.terms.len() == 0 && (full.terms.len() > 0 || range.start > 0) {
                    return ReconStep::Answer(None);
                }
                return ReconStep::Answer(Some(part));
            }
        }
        let mut i: usize = 0;
        while i < self.inflight.len()
            invariant
                i <= self.inflight.len(),
                self@ == (CacheModel { cache: looked_at(start, key, now), ..start }),
                cached_answer(start, key, now) is None,
                forall|j: int| 0 <= j < i ==> (#[trigger] self.inflight@[j]) != key,
                key == (ReconCacheKey { hash: file_id, range: bytes_range }),
                old(self)@ == start,
                start.wf() ==> questioned(start, key, now).wf(),
            decreases self.inflight.len() - i,
        {
            if self.inflight[i] == key {
                assert(start.inflight[i as int] == key);
                return ReconStep::Wait;
            }
            i += 1;
        }
        assert(!start.inflight.contains(key));
        self.inflight.push(key);
        assert(self@ =~= questioned(start, key, now));
        ReconStep::Lead
    }

    /// Take note of the server's answer: `None` for a request that failed or found nothing. Those
    /// who wait for it can ask again.
    pub fn fetched(
        &mut self,
        file_id: MerkleHash,
        bytes_range: Option<FileRange>,
        response: Option<Plan>,
        now: Duration,
    )
        requires
            old(self)@.wf(),
        ensures
            final(self)@ == answered(
                old(self)@,
                ReconCacheKey { hash: file_id, range: bytes_range },
                opt_plan(response),
                now,
            ),
            final(self)@.wf(),
    {
        let key = ReconCacheKey { hash: file_id, range: bytes_range };
        let ghost start = self@;
        proof {
            lemma_answered_wf(start, key, opt_plan(response), now);
        }
        if let Some(plan) = response {
            if bytes_range.is_none() {
                retain(&mut self.cache, Keep::NotPartsOf(file_id));
                assert(keeps(Keep::NotPartsOf(file_id)) =~= (|e: CacheEntryModel|
                    e.key.hash != key.hash || e.key.range is None));
            }
            if self.cache.len() >= MAX_CACHE_ENTRIES {
                retain(&mut self.cache, Keep::Wholes);
                if self.cache.len() >= MAX_CACHE_ENTRIES {
                    let ghost wholes = cached_models(self.cache@);
                    let _ = self.cache.remove(0);
                    assert(cached_models(self.cache@) =~= wholes.drop_first());
                }
            }
            assert(cached_models(self.cache@) == with_room(start.cache, key));
            retain(&mut self.cache, Keep::NotKey(key));
            let ghost kept = cached_models(self.cache@);
            self.cache.push(CacheEntry { key, response: plan, inserted_at: now });
            assert(cached_models(self.cache@) =~= kept.push(
                CacheEntryModel { key, response: plan@, inserted_at: now },
            ));
        }
        let ghost asked = self.inflight@;
        let ghost other = other_than(key);
        let mut rest: Vec<ReconCacheKey> = Vec::new();
        let mut i: usize = 0;
        proof {
            reveal(Seq::filter);
            assert(asked.take(0) =~= Seq::empty());
            assert(rest@ =~= asked.take(0).filter(other));
        }
        while i < self.inflight.len()
            invariant
                i <= self.inflight.len(),
                asked == self.inflight@,
                other == other_than(key),
                rest@ == asked.take(i as int).filter(other),
                self@ == (CacheModel {
                    cache: answered(start, key, opt_plan(response), now).cache,
                    ..start
                }),
            decreases self.inflight.len() - i,
        {
            proof {
                reveal(Seq::filter);
                assert(asked.take(i + 1).drop_last() =~= asked.take(i as int));
                assert(asked.take(i + 1).last() == asked[i as int]);
            }
            if self.inflight[i] != key {
                rest.push(self.inflight[i]);
            }
            i += 1;
        }
        assert(asked.take(i as int) =~= asked);
        self.inflight = rest;
        assert(self@ =~= answered(start, key, opt_plan(response), now));
    }
}

proof fn lemma_questioned_wf(c: CacheModel, key: ReconCacheKey, now: Duration)
    ensures
        c.wf() ==> questioned(c, key, now).wf(),
{
    lemma_filter_distinct(c.cache, |e: CacheEntryModel| e.key != key);
    let first = refreshed(c.cache, key, c.ttl, now);
    let full = whole(key.hash);
    lemma_filter_distinct(first, |e: CacheEntryModel| e.key != full);
}

proof fn lemma_answered_wf(
    c: CacheModel,
    key: ReconCacheKey,
    response: Option<PlanModel>,
    now: Duration,
)
    requires
        c.wf(),
    ensures
        answered(c, key, response, now).wf(),
{
    let parts = |e: CacheEntryModel| e.key.hash != key.hash || e.key.range is None;
    let wholes = |e: CacheEntryModel| e.key.range is None;
    let other = |e: CacheEntryModel| e.key != key;
    lemma_filter_distinct(c.cache, parts);
    let purged = if key.range is None {
        c.cache.filter(parts)
    } else {
        c.cache
    };
    lemma_filter_distinct(purged, wholes);
    let room = with_room(c.cache, key);
    assert(distinct(room) && room.len() < MAX_CACHE_ENTRIES);
    lemma_filter_distinct(room, other);
}

/// A server that is being asked for a plan is not asked for it again: whoever asks next waits.
pub proof fn law_one_request_at_a_time(
    c: CacheModel,
    key: ReconCacheKey,
    now: Duration,
    later: Duration,
)
    requires
        question(c, key, now) is Lead,
    ensures
        question(questioned(c, key, now), key, later) is Wait,
{
    let next = questioned(c, key, now);
    let full = whole(key.hash);
    let first = refreshed(c.cache, key, c.ttl, now);
    assert(next.inflight[c.inflight.len() as int] == key);
    lemma_refreshed_away(c.cache, key, key, c.ttl, now);
    lemma_refreshed_away(first, full, full, c.ttl, now);
    lemma_refreshed_away(first, full, key, c.ttl, now);
    let s = next.cache;
    lemma_position(s, key);
    lemma_filter_whole(s, |e: CacheEntryModel| e.key != key);
    assert(refreshed(s, key, c.ttl, later) == s);
    lemma_position(s, full);
}

proof fn lemma_refreshed_away(
    s: Seq<CacheEntryModel>,
    key: ReconCacheKey,
    gone: ReconCacheKey,
    ttl: Duration,
    now: Duration,
)
    requires
        usable(s, key, ttl, now) is None,
        gone == key || position(s, gone) is None,
    ensures
        position(refreshed(s, key, ttl, now), gone) is None,
{
    let other = |e: CacheEntryModel| e.key != key;
    let r = refreshed(s, key, ttl, now);
    lemma_filter_distinct(s, other);
    lemma_position(s, gone);
    lemma_position(r, gone);
    if position(r, gone) is Some {
        let i = position(r, gone)->Some_0;
        assert(s.contains(r[i]));
        let j = choose|j: int| 0 <= j < s.len() && s[j] == r[i];
        assert(s[j].key == gone);
    }
}

/// A plan that the server gave is what the next question for it is answered with, as long as it may
/// be used.
pub proof fn law_plan_is_remembered(
    c: CacheModel,
    key: ReconCacheKey,
    plan: PlanModel,
    now: Duration,
    later: Duration,
)
    requires
        now.nanos <= later.nanos,
        later.nanos - now.nanos < c.ttl.nanos,
    ensures
        question(answered(c, key, Some(plan), now), key, later) == StepModel::Answer(Some(plan)),
{
    let next = answered(c, key, Some(plan), now);
    let kept = without_key(with_room(c.cache, key), key);
    lemma_filter_distinct(with_room(c.cache, key), |e: CacheEntryModel| e.key != key);
    lemma_last_position(kept, key, plan, now);
}

proof fn lemma_last_position(
    room: Seq<CacheEntryModel>,
    key: ReconCacheKey,
    plan: PlanModel,
    now: Duration,
)
    requires
        forall|j: int| 0 <= j < room.len() ==> (#[trigger] room[j]).key != key,
    ensures
        ({
            let s = room.push(CacheEntryModel { key, response: plan, inserted_at: now });
            position(s, key) == Some(room.len() as int) && s[room.len() as int].response == plan
        }),
{
    let s = room.push(CacheEntryModel { key, response: plan, inserted_at: now });
    assert(s.drop_last() =~= room);
    lemma_position(room, key);
}

/// The plan for a whole file answers every question for a part of it, without the server.
pub proof fn law_whole_plan_serves_parts(
    c: CacheModel,
    hash: MerkleHash,
    range: FileRange,
    plan: PlanModel,
    now: Duration,
    later: Duration,
)
    requires
        now.nanos <= later.nanos,
        later.nanos - now.nanos < c.ttl.nanos,
    ensures
        question(
            answered(c, whole(hash), Some(plan), now),
            ReconCacheKey { hash, range: Some(range) },
            later,
        ) == StepModel::Answer(answer_from_whole(plan, range)),
{
    let full = whole(hash);
    let part = ReconCacheKey { hash, range: Some(range) };
    let parts = |e: CacheEntryModel| e.key.hash != full.hash || e.key.range is None;
    let wholes = |e: CacheEntryModel| e.key.range is None;
    let purged = c.cache.filter(parts);
    let room = with_room(c.cache, full);
    lemma_filter_distinct(c.cache, parts);
    lemma_filter_distinct(purged, wholes);
    lemma_filter_distinct(room, |e: CacheEntryModel| e.key != full);
    assert forall|j: int| 0 <= j < room.len() implies (#[trigger] room[j]).key != part by {
        if purged.len() >= MAX_CACHE_ENTRIES {
            let kept = purged.filter(wholes);
            if kept.len() < MAX_CACHE_ENTRIES {
                assert(wholes(kept[j]));
            } else {
                assert(wholes(kept[j + 1]));
            }
        } else {
            assert(parts(purged[j]));
        }
    }
    let kept = without_key(room, full);
    let s = answered(c, full, Some(plan), now).cache;
    assert forall|j: int| 0 <= j < s.len() implies (#[trigger] s[j]).key != part by {
        if j < kept.len() {
            assert(room.contains(kept[j]));
        }
    }
    lemma_position(s, part);
    lemma_filter_whole(s, |e: CacheEntryModel| e.key != part);
    lemma_last_position(kept, full, plan, now);
}

proof fn lemma_filter_entry(
    s: Seq<CacheEntryModel>,
    keep: spec_fn(CacheEntryModel) -> bool,
    x: CacheEntryModel,
)
    requires
        s.contains(x),
    ensures
        keep(x) ==> s.filter(keep).contains(x),
        !keep(x) ==> s.filter(keep).len() < s.len(),
    decreases s.len(),
{
    reveal(Seq::filter);
    let low = s.drop_last();
    lemma_filter_distinct(low, keep);
    if s.last() == x {
        if keep(x) {
            assert(s.filter(keep)[low.filter(keep).len() as int] == x);
        }
    } else {
        let i = choose|i: int| 0 <= i < s.len() && s[i] == x;
        assert(low[i] == x);
        lemma_filter_entry(low, keep, x);
        if keep(x) {
            let j = choose|j: int| 0 <= j < low.filter(keep).len() && low.filter(keep)[j] == x;
            assert(s.filter(keep)[j] == x);
        }
    }
}

/// As long as there are plans for parts of files to give up, room is not made at the cost of a plan
/// for a whole file.
pub proof fn law_whole_plans_outlast_parts(
    c: CacheModel,
    key: ReconCacheKey,
    plan: PlanModel,
    now: Duration,
    part: CacheEntryModel,
    kept: CacheEntryModel,
)
    requires
        c.wf(),
        c.cache.contains(part),
        part.key.range is Some,
        c.cache.contains(kept),
        kept.key.range is None,
        kept.key != key,
    ensures
        answered(c, key, Some(plan), now).cache.contains(kept),
{
    let parts = |e: CacheEntryModel| e.key.hash != key.hash || e.key.range is None;
    let wholes = |e: CacheEntryModel| e.key.range is None;
    let other = |e: CacheEntryModel| e.key != key;
    lemma_filter_entry(c.cache, parts, part);
    lemma_filter_entry(c.cache, parts, kept);
    lemma_filter_distinct(c.cache, parts);
    let purged = if key.range is None {
        c.cache.filter(parts)
    } else {
        c.cache
    };
    lemma_filter_entry(purged, wholes, kept);
    if purged.contains(part) {
        lemma_filter_entry(purged, wholes, part);
    }
    let room = with_room(c.cache, key);
    assert(room.contains(kept));
    lemma_filter_entry(room, other, kept);
    let rest = room.filter(other);
    let i = choose|i: int| 0 <= i < rest.len() && rest[i] == kept;
    assert(answered(c, key, Some(plan), now).cache[i] == kept);
}

/// A plan that is derived for a part of a file holds no term that the part does not need: the first
/// reaches beyond its start, the last starts before its end. It names no storage object that none of
/// its terms is about.
pub proof fn law_derived_plan_is_tight(full: PlanModel, range: FileRange)
    requires
        range.start < range.end,
        range.start < unpacked(full.terms),
    ensures
        exists|a: int, b: int|
            0 <= a < b <= full.terms.len() && derived(full, range).terms
                == #[trigger] full.terms.subrange(a, b) && unpacked(full.terms.take(a + 1))
                > range.start && unpacked(full.terms.take(b - 1)) < range.end,
        forall|i: int|
            0 <= i < derived(full, range).xorbs.len() ==> {
                let x = #[trigger] derived(full, range).xorbs[i];
                &&& full.xorbs.contains(x)
                &&& exists|k: int|
                    0 <= k < derived(full, range).terms.len() && (#[trigger] derived(
                        full,
                        range,
                    ).terms[k]).hash == x.hash
            },
{
    let terms = full.terms;
    let (a, b) = lemma_window(terms, range, terms.len());
    if a == terms.len() {
        assert(terms.take(a) =~= terms);
    }
    lemma_last_needed(terms, range, terms.len());
    let part = derived(full, range).terms;
    assert(part == terms.subrange(a, b));
    let k = choose|k: int|
        0 <= k < terms.len() && needed(terms, range, k) && part.len() > 0 && part
            == needed_terms(terms, range, (k + 1) as nat);
    let (c, d) = lemma_window(terms, range, (k + 1) as nat);
    lemma_needed_starts(terms, range, k);
    assert(part =~= terms.subrange(c, d));
    assert(c < k + 1) by {
        if c == k + 1 {
            assert(terms.subrange(c, d).len() == 0);
        }
    }
    assert(d == k + 1) by {
        if d < k + 1 {
            lemma_starts_grow(terms, d, k);
        }
    }
    assert(unpacked(terms.take(c + 1)) > range.start);
    assert(unpacked(terms.take(d - 1)) < range.end);
    assert(part == terms.subrange(c, d));
    let keep = |x: XorbModel| uses(part, x.hash);
    assert forall|i: int| 0 <= i < full.xorbs.filter(keep).len() implies ({
        let x = #[trigger] full.xorbs.filter(keep)[i];
        &&& full.xorbs.contains(x)
        &&& exists|m: int| 0 <= m < part.len() && (#[trigger] part[m]).hash == x.hash
    }) by {
        lemma_filter_only(full.xorbs, keep, i);
    }
}

proof fn lemma_filter_only(s: Seq<XorbModel>, keep: spec_fn(XorbModel) -> bool, i: int)
    requires
        0 <= i < s.filter(keep).len(),
    ensures
        s.contains(s.filter(keep)[i]),
        keep(s.filter(keep)[i]),
    decreases s.len(),
{
    reveal(Seq::filter);
    let low = s.drop_last().filter(keep);
    if s.len() > 0 {
        if i < low.len() {
            lemma_filter_only(s.drop_last(), keep, i);
            let x = low[i];
            let j = choose|j: int| 0 <= j < s.drop_last().len() && s.drop_last()[j] == x;
            assert(s[j] == x);
        } else {
            assert(s[s.len() - 1] == s.last());
        }
    }
}

proof fn lemma_needed_starts(terms: Seq<Term>, range: FileRange, k: int)
    requires
        needed(terms, range, k),
    ensures
        term_start(terms, k) < range.end,
        term_start(terms, k + 1) > range.start,
{
}

/// If any term is needed, the last that is ends the needed ones.
proof fn lemma_last_needed(terms: Seq<Term>, range: FileRange, n: nat)
    ensures
        needed_terms(terms, range, n).len() > 0 ==> exists|k: int|
            0 <= k < n && #[trigger] needed(terms, range, k) && needed_terms(terms, range, n)
                == needed_terms(terms, range, (k + 1) as nat),
    decreases n,
{
    if n > 0 {
        let m = (n - 1) as nat;
        if needed(terms, range, m as int) {
            assert(needed_terms(terms, range, n) == needed_terms(
                terms,
                range,
                (m as int + 1) as nat,
            ));
        } else {
            lemma_last_needed(terms, range, m);
        }
    }
}

/// A part that starts beyond the end of a file has no plan; any other part has one.
pub proof fn law_parts_beyond_the_end_have_no_plan(full: PlanModel, range: FileRange)
    requires
        range.start < range.end,
        range.start > 0,
    ensures
        answer_from_whole(full, range) is None <==> range.start >= unpacked(full.terms),
{
    let terms = full.terms;
    let (a, b) = lemma_window(terms, range, terms.len());
    assert(terms.take(terms.len() as int) =~= terms);
    if range.start >= unpacked(terms) {
        if a < terms.len() {
            lemma_starts_grow(terms, a + 1, terms.len() as int);
        }
        assert(derived(full, range).terms.len() == 0);
    } else {
        assert(a < terms.len());
    }
}

/// A plan is not used once it is as old as plans may get: the server is asked again.
pub proof fn law_old_plans_are_not_used(
    c: CacheModel,
    hash: MerkleHash,
    plan: PlanModel,
    now: Duration,
    later: Duration,
)
    requires
        later.nanos >= now.nanos + c.ttl.nanos,
        !c.inflight.contains(whole(hash)),
    ensures
        question(answered(c, whole(hash), Some(plan), now), whole(hash), later) is Lead,
{
    let key = whole(hash);
    let room = with_room(c.cache, key);
    let kept = without_key(room, key);
    lemma_filter_distinct(room, |e: CacheEntryModel| e.key != key);
    lemma_last_position(kept, key, plan, now);
    lemma_not_inflight(c.inflight, key);
}

proof fn lemma_not_inflight(s: Seq<ReconCacheKey>, key: ReconCacheKey)
    ensures
        !s.filter(other_than(key)).contains(key),
    decreases s.len(),
{
    reveal(Seq::filter);
    let r = s.filter(other_than(key));
    if s.len() > 0 {
        lemma_not_inflight(s.drop_last(), key);
        let low = s.drop_last().filter(other_than(key));
        if r.contains(key) {
            let i = choose|i: int| 0 <= i < r.len() && r[i] == key;
            if i < low.len() {
                assert(low[i] == key);
            }
        }
    }
}

/// A request that brings no plan changes no plan, and whoever asks next asks the server again.
pub proof fn law_failed_requests_can_be_repeated(
    c: CacheModel,
    key: ReconCacheKey,
    now: Duration,
    later: Duration,
)
    requires
        cached_answer(c, key, later) is None,
    ensures
        answered(c, key, None, now).cache == c.cache,
        question(answered(c, key, None, now), key, later) is Lead,
{
    lemma_not_inflight(c.inflight, key);
}

} // verus!
