//! A bounded cache of paths that are known not to exist.
use crate::text;
use crate::text::{concat, starts_with, str_eq};
use crate::time::{elapsed_since, instant_now, Duration};
use std::time::Instant;
use vstd::prelude::*;
use vstd::string::*;

verus! {

broadcast use vstd::string::group_string_axioms;

/// How many paths the cache holds at most.
pub const NEG_CACHE_CAPACITY: usize = 1_000;

/// How long a path is taken not to exist, in seconds.
pub const NEG_CACHE_TTL_SECS: u64 = 30;

/// How many entries are looked at when room has to be made.
pub const NEG_CACHE_SAMPLE: usize = 128;

/// Paths known not to exist, each with the time it was found so.
pub struct NegativeCache {
    entries: Vec<(String, Instant)>,
}

impl View for NegativeCache {
    type V = Seq<(Seq<char>, Instant)>;

    closed spec fn view(&self) -> Seq<(Seq<char>, Instant)> {
        entry_models(self.entries@)
    }
}

/// What the entries hold.
pub open spec fn entry_models(v: Seq<(String, Instant)>) -> Seq<(Seq<char>, Instant)> {
    v.map_values(|e: (String, Instant)| (e.0@, e.1))
}

/// `path` is among the keys of a list of entries.
pub open spec fn has_key(s: Seq<(Seq<char>, Instant)>, path: Seq<char>) -> bool {
    exists|i: int| 0 <= i < s.len() && (#[trigger] s[i]).0 == path
}

/// No key occurs twice.
pub open spec fn distinct_keys(s: Seq<(Seq<char>, Instant)>) -> bool {
    forall|i: int, j: int| 0 <= i < j < s.len() ==> (#[trigger] s[i]).0 != (#[trigger] s[j]).0
}

/// The entries of other paths.
pub open spec fn without_key(
    s: Seq<(Seq<char>, Instant)>,
    path: Seq<char>,
) -> Seq<(Seq<char>, Instant)> {
    s.filter(|e: (Seq<char>, Instant)| e.0 != path)
}

/// A directory covers its own path and every path below it; the root covers all.
pub open spec fn covers(dir: Seq<char>, path: Seq<char>) -> bool {
    dir.len() == 0 || (dir + "/"@).is_prefix_of(path) || path == dir
}

/// One of the directories covers the path.
pub open spec fn any_covers(dirs: Seq<Seq<char>>, path: Seq<char>) -> bool {
    exists|i: int| 0 <= i < dirs.len() && covers(#[trigger] dirs[i], path)
}

/// The entries that none of the directories covers.
pub open spec fn uncovered(
    s: Seq<(Seq<char>, Instant)>,
    dirs: Seq<Seq<char>>,
) -> Seq<(Seq<char>, Instant)> {
    s.filter(|e: (Seq<char>, Instant)| !any_covers(dirs, e.0))
}

/// An entry of this age still holds.
pub open spec fn is_fresh(age: Duration) -> bool {
    age.nanos < Duration::from_secs(NEG_CACHE_TTL_SECS).nanos
}

/// The path has an entry, which holds at this age.
pub open spec fn known_missing(
    s: Seq<(Seq<char>, Instant)>,
    path: Seq<char>,
    age: Duration,
) -> bool {
    has_key(s, path) && is_fresh(age)
}

/// Whether an entry of this age still holds.
pub fn fresh(age: Duration) -> (r: bool)
    ensures
        r == is_fresh(age),
{
    age.nanos < Duration::from_secs(NEG_CACHE_TTL_SECS).nanos
}

/// The positions of the first entries that no longer hold, as many as the sample at most.
pub open spec fn expired_positions(ages: Seq<Duration>) -> Seq<int>
    decreases ages.len(),
{
    if ages.len() == 0 {
        Seq::empty()
    } else {
        let low = expired_positions(ages.drop_last());
        if !is_fresh(ages.last()) && low.len() < NEG_CACHE_SAMPLE {
            low.push(ages.len() - 1)
        } else {
            low
        }
    }
}

/// The position of the oldest of the first `n` entries, the first of those of equal age.
pub open spec fn oldest_position(ages: Seq<Duration>, n: nat) -> int
    decreases n,
{
    if n <= 1 {
        0
    } else {
        let low = oldest_position(ages, (n - 1) as nat);
        if ages[n - 1].nanos > ages[low].nanos {
            n - 1
        } else {
            low
        }
    }
}

/// The positions of the entries that make room in a full cache, given their ages: the expired ones,
/// or else the oldest of the sample.
pub open spec fn dropped_positions(ages: Seq<Duration>) -> Seq<int> {
    let expired = expired_positions(ages);
    let sample = if ages.len() < NEG_CACHE_SAMPLE {
        ages.len()
    } else {
        NEG_CACHE_SAMPLE as nat
    };
    if expired.len() > 0 {
        expired
    } else {
        seq![oldest_position(ages, sample)]
    }
}

/// What positions stand for.
pub open spec fn as_ints(v: Seq<usize>) -> Seq<int> {
    v.map_values(|i: usize| i as int)
}

/// Which entries make room for a new one in a full cache, given their ages: the expired ones of
/// the sample, or else the oldest of the sample.
pub fn entries_to_drop(ages: &Vec<Duration>) -> (r: Vec<usize>)
    requires
        ages.len() > 0,
    ensures
        as_ints(r@) == dropped_positions(ages@),
        forall|i: int| 0 <= i < r@.len() ==> #[trigger] r@[i] < ages@.len(),
{
    let mut out: Vec<usize> = Vec::new();
    let mut i: usize = 0;
    assert(ages@.take(0) =~= Seq::empty());
    assert(as_ints(out@) =~= Seq::empty());
    while i < ages.len()
        invariant
            i <= ages.len(),
            as_ints(out@) == expired_positions(ages@.take(i as int)),
            forall|j: int| 0 <= j < out@.len() ==> #[trigger] out@[j] < i,
        decreases ages.len() - i,
    {
        assert(ages@.take(i + 1).drop_last() =~= ages@.take(i as int));
        assert(ages@.take(i + 1).last() == ages@[i as int]);
        if !fresh(ages[i]) && out.len() < NEG_CACHE_SAMPLE {
            let ghost before = out@;
            out.push(i);
            assert(as_ints(out@) =~= as_ints(before).push(i as int));
        }
        i += 1;
    }
    assert(ages@.take(i as int) =~= ages@);
    assert(as_ints(out@).len() == out@.len());
    if out.len() == 0 {
        let mut best: usize = 0;
        let mut j: usize = 1;
        while j < ages.len() && j < NEG_CACHE_SAMPLE
            invariant
                1 <= j <= ages.len(),
                j <= NEG_CACHE_SAMPLE,
                best < j,
                best == oldest_position(ages@, j as nat),
            decreases ages.len() - j,
        {
            if ages[j].nanos > ages[best].nanos {
                best = j;
            }
            j += 1;
        }
        out.push(best);
        assert(as_ints(out@) =~= seq![best as int]);
    }
    out
}

/// The entries that are not at one of the positions.
pub open spec fn left_after(
    s: Seq<(Seq<char>, Instant)>,
    positions: Seq<int>,
) -> Seq<(Seq<char>, Instant)>
    decreases s.len(),
{
    if s.len() == 0 {
        Seq::empty()
    } else {
        let low = left_after(s.drop_last(), positions);
        if positions.contains(s.len() - 1) {
            low
        } else {
            low.push(s.last())
        }
    }
}

/// The entries once room is made for one more, given the ages of those there are.
pub open spec fn with_room(
    s: Seq<(Seq<char>, Instant)>,
    ages: Seq<Duration>,
) -> Seq<(Seq<char>, Instant)> {
    if s.len() < NEG_CACHE_CAPACITY {
        s
    } else {
        left_after(s, dropped_positions(ages))
    }
}

/// `after` is what becomes of the entries `before` when it is noted at some time that `path` does not
/// exist, the entries having some ages then.
pub open spec fn noted(
    before: Seq<(Seq<char>, Instant)>,
    after: Seq<(Seq<char>, Instant)>,
    path: Seq<char>,
) -> bool {
    exists|now: Instant, ages: Seq<Duration>|
        ages.len() == before.len() && after == #[trigger] without_key(
            with_room(before, ages),
            path,
        ).push((path, now))
}

proof fn lemma_left_after(s: Seq<(Seq<char>, Instant)>, positions: Seq<int>)
    ensures
        left_after(s, positions).len() <= s.len(),
        forall|i: int|
            0 <= i < left_after(s, positions).len() ==> s.contains(
                #[trigger] left_after(s, positions)[i],
            ),
        distinct_keys(s) ==> distinct_keys(left_after(s, positions)),
        (exists|k: int| 0 <= k < s.len() && #[trigger] positions.contains(k)) ==> left_after(
            s,
            positions,
        ).len() < s.len(),
    decreases s.len(),
{
    if s.len() > 0 {
        let front = s.drop_last();
        let low = left_after(front, positions);
        let r = left_after(s, positions);
        lemma_left_after(front, positions);
        assert forall|i: int| 0 <= i < r.len() implies s.contains(#[trigger] r[i]) by {
            if i < low.len() {
                assert(r[i] == low[i]);
                let j = choose|j: int| 0 <= j < front.len() && front[j] == low[i];
                assert(s[j] == r[i]);
            } else {
                assert(s[s.len() - 1] == r[i]);
            }
        }
        if distinct_keys(s) {
            assert forall|i: int, j: int| 0 <= i < j < front.len() implies (
            #[trigger] front[i]).0 != (#[trigger] front[j]).0 by {
                assert(s[i].0 != s[j].0);
            }
            assert forall|i: int, j: int| 0 <= i < j < r.len() implies (#[trigger] r[i]).0 != (
            #[trigger] r[j]).0 by {
                assert(r[i] == low[i]);
                if j < low.len() {
                    assert(r[j] == low[j]);
                } else {
                    let k = choose|k: int| 0 <= k < front.len() && front[k] == low[i];
                    assert(s[k].0 != s[s.len() - 1].0);
                }
            }
        }
        if exists|k: int| 0 <= k < s.len() && #[trigger] positions.contains(k) {
            let k = choose|k: int| 0 <= k < s.len() && #[trigger] positions.contains(k);
            if k < front.len() {
                assert(positions.contains(k));
            }
        }
    }
}

/// Whether a position is in a list.
fn has_position(positions: &Vec<usize>, k: usize) -> (r: bool)
    ensures
        r == as_ints(positions@).contains(k as int),
{
    let mut i: usize = 0;
    while i < positions.len()
        invariant
            i <= positions.len(),
            forall|j: int| 0 <= j < i ==> #[trigger] positions@[j] != k,
        decreases positions.len() - i,
    {
        if positions[i] == k {
            assert(as_ints(positions@)[i as int] == k as int);
            return true;
        }
        i += 1;
    }
    false
}

impl NegativeCache {
    /// No path occurs twice, and the cache is within its capacity.
    pub open spec fn wf(&self) -> bool {
        distinct_keys(self@) && self@.len() <= NEG_CACHE_CAPACITY
    }

    pub fn new() -> (r: Self)
        ensures
            r@ == Seq::<(Seq<char>, Instant)>::empty(),
            r.wf(),
    {
        let r = NegativeCache { entries: Vec::new() };
        assert(r@ =~= Seq::empty());
        r
    }

    /// When `path` was found not to exist.
    pub fn found_at(&self, path: &str) -> (r: Option<Instant>)
        ensures
            r is Some <==> has_key(self@, path@),
            r matches Some(at) ==> self@.contains((path@, at)),
    {
        let mut i: usize = 0;
        while i < self.entries.len()
            invariant
                i <= self.entries.len(),
                forall|j: int| 0 <= j < i ==> (#[trigger] self@[j]).0 != path@,
            decreases self.entries.len() - i,
        {
            if str_eq(self.entries[i].0.as_str(), path) {
                assert(self@[i as int] == (path@, self.entries@[i as int].1));
                return Some(self.entries[i].1);
            }
            i += 1;
        }
        assert(self@.len() == self.entries@.len());
        None
    }

    /// Whether `path` is known not to exist when its entry is of this age. It never is without an
    /// entry.
    pub fn check_at_age(&self, path: &str, age: Duration) -> (r: bool)
        ensures
            r == known_missing(self@, path@, age),
    {
        self.found_at(path).is_some() && fresh(age)
    }

    /// Whether `path` is known not to exist now. It never is without an entry; with one, its age,
    /// which the clock gives, decides.
    pub fn check(&self, path: &str) -> (r: bool)
        ensures
            exists|age: Duration| r == #[trigger] known_missing(self@, path@, age),
            r ==> has_key(self@, path@),
    {
        match self.found_at(path) {
            Some(at) => self.check_at_age(path, elapsed_since(&at)),
            None => {
                assert(!known_missing(self@, path@, Duration { nanos: 0 }));
                false
            },
        }
    }

    /// Forget `path`, which may exist now.
    pub fn remove(&mut self, path: &str)
        ensures
            final(self)@ == without_key(old(self)@, path@),
            old(self).wf() ==> final(self).wf(),
    {
        let ghost all = self@;
        let ghost keep = |e: (Seq<char>, Instant)| e.0 != path@;
        let mut kept: Vec<(String, Instant)> = Vec::new();
        let mut i: usize = 0;
        proof {
            reveal(Seq::filter);
            assert(all.take(0) =~= Seq::empty());
            assert(entry_models(kept@) =~= all.take(0).filter(keep));
        }
        while i < self.entries.len()
            invariant
                i <= self.entries.len(),
                all == entry_models(self.entries@),
                keep == (|e: (Seq<char>, Instant)| e.0 != path@),
                entry_models(kept@) == all.take(i as int).filter(keep),
            decreases self.entries.len() - i,
        {
            proof {
                reveal(Seq::filter);
                assert(all.take(i + 1).drop_last() =~= all.take(i as int));
                assert(all.take(i + 1).last() == all[i as int]);
            }
            if !str_eq(self.entries[i].0.as_str(), path) {
                let ghost before = kept@;
                kept.push((self.entries[i].0.clone(), self.entries[i].1));
                assert(entry_models(kept@) =~= entry_models(before).push(all[i as int]));
            }
            i += 1;
        }
        assert(all.take(i as int) =~= all);
        self.entries = kept;
        proof {
            if old(self).wf() {
                lemma_filter_distinct(all, keep);
            }
        }
    }

    /// Forget every path that one of `dirs` covers.
    pub fn prune(&mut self, dirs: &Vec<String>)
        ensures
            final(self)@ == uncovered(old(self)@, text::texts(dirs@)),
            old(self).wf() ==> final(self).wf(),
    {
        let ghost all = self@;
        let ghost keep = |e: (Seq<char>, Instant)| !any_covers(text::texts(dirs@), e.0);
        let mut kept: Vec<(String, Instant)> = Vec::new();
        let mut i: usize = 0;
        proof {
            reveal(Seq::filter);
            assert(all.take(0) =~= Seq::empty());
            assert(entry_models(kept@) =~= all.take(0).filter(keep));
        }
        while i < self.entries.len()
            invariant
                i <= self.entries.len(),
                all == entry_models(self.entries@),
                keep == (|e: (Seq<char>, Instant)| !any_covers(text::texts(dirs@), e.0)),
                entry_models(kept@) == all.take(i as int).filter(keep),
            decreases self.entries.len() - i,
        {
            proof {
                reveal(Seq::filter);
                assert(all.take(i + 1).drop_last() =~= all.take(i as int));
                assert(all.take(i + 1).last() == all[i as int]);
            }
            if !covered(dirs, self.entries[i].0.as_str()) {
                let ghost before = kept@;
                kept.push((self.entries[i].0.clone(), self.entries[i].1));
                assert(entry_models(kept@) =~= entry_models(before).push(all[i as int]));
            }
            i += 1;
        }
        assert(all.take(i as int) =~= all);
        self.entries = kept;
        proof {
            if old(self).wf() {
                lemma_filter_distinct(all, keep);
            }
        }
    }

    /// Note at `now` that `path` does not exist. A full cache first drops entries, chosen by the
    /// ages of all of them.
    pub fn insert_aged(&mut self, path: String, now: Instant, ages: &Vec<Duration>)
        requires
            old(self).wf(),
            ages@.len() == old(self)@.len(),
        ensures
            final(self).wf(),
            final(self)@ == without_key(with_room(old(self)@, ages@), path@).push((path@, now)),
    {
        let ghost all = self@;
        if self.entries.len() >= NEG_CACHE_CAPACITY {
            self.make_room(ages);
        }
        let ghost roomy = self@;
        self.remove(path.as_str());
        let ghost kept = self@;
        proof {
            lemma_filter_members(roomy, |e: (Seq<char>, Instant)| e.0 != path@);
        }
        self.entries.push((path, now));
        proof {
            assert(self@ =~= kept.push((path@, now)));
            assert forall|i: int| 0 <= i < kept.len() implies (#[trigger] kept[i]).0 != path@ by {
                assert(kept.contains(kept[i]));
            }
        }
    }

    /// Note that `path` does not exist. A full cache drops entries first; which ones depends on
    /// their ages.
    pub fn insert(&mut self, path: String)
        requires
            old(self).wf(),
        ensures
            final(self).wf(),
            noted(old(self)@, final(self)@, path@),
    {
        let now = instant_now();
        let mut ages: Vec<Duration> = Vec::new();
        let mut i: usize = 0;
        while i < self.entries.len()
            invariant
                i <= self.entries.len(),
                ages.len() == i,
                *self == *old(self),
            decreases self.entries.len() - i,
        {
            ages.push(elapsed_since(&self.entries[i].1));
            i += 1;
        }
        assert(ages@.len() == self@.len());
        self.insert_aged(path, now, &ages);
    }

    /// Drop entries of a full cache.
    fn make_room(&mut self, ages: &Vec<Duration>)
        requires
            old(self).wf(),
            old(self)@.len() == NEG_CACHE_CAPACITY,
            ages@.len() == old(self)@.len(),
        ensures
            final(self).wf(),
            final(self)@ == left_after(old(self)@, dropped_positions(ages@)),
            final(self)@.len() < NEG_CACHE_CAPACITY,
    {
        let drop = entries_to_drop(ages);
        let ghost all = self@;
        let ghost gone = dropped_positions(ages@);
        let mut kept: Vec<(String, Instant)> = Vec::new();
        let mut k: usize = 0;
        assert(all.take(0) =~= Seq::empty());
        assert(entry_models(kept@) =~= Seq::empty());
        while k < self.entries.len()
            invariant
                k <= self.entries.len(),
                all == entry_models(self.entries@),
                gone == as_ints(drop@),
                entry_models(kept@) == left_after(all.take(k as int), gone),
            decreases self.entries.len() - k,
        {
            let ghost before = entry_models(kept@);
            assert(all.take(k + 1).drop_last() =~= all.take(k as int));
            assert(all.take(k + 1).last() == all[k as int]);
            if !has_position(&drop, k) {
                kept.push((self.entries[k].0.clone(), self.entries[k].1));
                assert(entry_models(kept@) =~= before.push(all[k as int]));
            }
            k += 1;
        }
        assert(all.take(k as int) =~= all);
        self.entries = kept;
        proof {
            lemma_left_after(all, gone);
            lemma_some_dropped(ages@);
            assert(as_ints(drop@)[0] == drop@[0] as int);
            assert(gone.contains(gone[0]));
        }
    }
}

proof fn lemma_some_dropped(ages: Seq<Duration>)
    ensures
        dropped_positions(ages).len() > 0,
{
}

/// What was noted last is in the cache.
pub proof fn law_last_note_is_kept(
    before: Seq<(Seq<char>, Instant)>,
    after: Seq<(Seq<char>, Instant)>,
    path: Seq<char>,
)
    requires
        noted(before, after, path),
    ensures
        has_key(after, path),
{
    assert(after[after.len() - 1].0 == path);
}

/// Whether one of the directories covers the path.
fn covered(dirs: &Vec<String>, path: &str) -> (r: bool)
    ensures
        r == any_covers(text::texts(dirs@), path@),
{
    let mut i: usize = 0;
    while i < dirs.len()
        invariant
            i <= dirs.len(),
            forall|j: int| 0 <= j < i ==> !covers(#[trigger] text::texts(dirs@)[j], path@),
        decreases dirs.len() - i,
    {
        let dir = dirs[i].as_str();
        assert(text::texts(dirs@)[i as int] == dir@);
        if dir.is_empty() || str_eq(path, dir) || starts_with(path, concat(dir, "/").as_str()) {
            assert(covers(text::texts(dirs@)[i as int], path@));
            return true;
        }
        i += 1;
    }
    false
}

proof fn lemma_filter_members(
    s: Seq<(Seq<char>, Instant)>,
    keep: spec_fn((Seq<char>, Instant)) -> bool,
)
    ensures
        s.filter(keep).len() <= s.len(),
        forall|e: (Seq<char>, Instant)| s.filter(keep).contains(e) ==> s.contains(e) && keep(e),
    decreases s.len(),
{
    broadcast use vstd::seq_lib::group_filter_ensures;

    s.lemma_filter_len(keep);
    assert forall|e: (Seq<char>, Instant)| s.filter(keep).contains(e) implies s.contains(e)
        && keep(e) by {
        s.lemma_filter_contains_rev(keep, e);
        let i = choose|i: int| 0 <= i < s.filter(keep).len() && s.filter(keep)[i] == e;
        s.lemma_filter_pred(keep, i);
    }
}

proof fn lemma_filter_distinct(
    s: Seq<(Seq<char>, Instant)>,
    keep: spec_fn((Seq<char>, Instant)) -> bool,
)
    requires
        distinct_keys(s),
    ensures
        distinct_keys(s.filter(keep)),
        s.filter(keep).len() <= s.len(),
    decreases s.len(),
{
    reveal(Seq::filter);
    if s.len() > 0 {
        let low = s.drop_last();
        lemma_filter_distinct(low, keep);
        lemma_filter_members(low, keep);
        let f = low.filter(keep);
        assert forall|i: int| 0 <= i < f.len() implies (#[trigger] f[i]).0 != s.last().0 by {
            assert(f.contains(f[i]));
            assert(low.filter(keep).contains(f[i]));
            assert(low.contains(f[i]));
            let j = choose|j: int| 0 <= j < low.len() && low[j] == f[i];
            assert(s[j] == low[j]);
        }
    }
}

} // verus!
