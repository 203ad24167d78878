//! The eviction of inodes that were not used for the longest time.
use crate::virtual_fs::inode;
use crate::virtual_fs::inode::ChildModel;
use crate::virtual_fs::model;
use crate::virtual_fs::model::TableModel;
use crate::virtual_fs::VirtualFs;
use vstd::prelude::*;

verus! {

/// How many names are invalidated in the kernel at a time.
pub const INVAL_BATCH_SIZE: usize = 64;

/// How many names a sweep invalidates at most.
pub const SWEEP_LIMIT: usize = 1024;

/// How many inodes are evicted at a time.
pub const EVICT_CHUNK: usize = 4096;

/// What is next in a sweep.
#[derive(Debug, Clone, Copy, PartialEq, Eq, Structural)]
pub enum SweepStep {
    /// Pause, so that the kernel can catch up, and go on with the next batch.
    Pause,
    /// All names that can be invalidated have been: evict.
    Evict,
}

/// A sweep under way: candidates are invalidated in the kernel batch by batch, and those for which
/// that worked are evicted.
#[derive(Debug)]
pub struct Sweep {
    /// Inode number, parent and name, in the order in which they are tried.
    pub candidates: Vec<(u64, u64, String)>,
    /// How many have been tried.
    pub tried: usize,
    /// Inodes whose names have been invalidated.
    pub to_evict: Vec<u64>,
}

/// How many candidates the batch that starts at `tried` has.
pub open spec fn batch_len(candidates: nat, tried: nat) -> nat {
    if candidates <= tried {
        0
    } else if candidates - tried < INVAL_BATCH_SIZE {
        (candidates - tried) as nat
    } else {
        INVAL_BATCH_SIZE as nat
    }
}

/// How many candidates a sweep over a table of `len` inodes takes at most.
pub open spec fn sweep_size(len: nat, soft_limit: usize) -> nat {
    if len <= soft_limit {
        0
    } else if len - soft_limit < SWEEP_LIMIT {
        (len - soft_limit) as nat
    } else {
        SWEEP_LIMIT as nat
    }
}

/// The inode numbers of candidates.
pub open spec fn candidate_inos(rows: Seq<(u64, u64, String)>) -> Seq<u64> {
    rows.map_values(|row: (u64, u64, String)| row.0)
}

impl Sweep {
    /// A batch is tried up to its end, and no sweep is longer than its bound.
    pub open spec fn wf(self) -> bool {
        self.tried <= self.candidates@.len() <= SWEEP_LIMIT
    }

    /// A sweep over `candidates`.
    pub fn new(candidates: Vec<(u64, u64, String)>) -> (r: Sweep)
        requires
            candidates@.len() <= SWEEP_LIMIT,
        ensures
            r.wf(),
            r.candidates == candidates,
            r.tried == 0,
            r.to_evict@ == Seq::<u64>::empty(),
    {
        Sweep { candidates, tried: 0, to_evict: Vec::new() }
    }

    /// How many candidates, from `tried` on, are to be invalidated next.
    pub fn batch(&self) -> (r: usize)
        requires
            self.wf(),
        ensures
            r == batch_len(self.candidates@.len(), self.tried as nat),
            self.tried + r <= self.candidates@.len(),
    {
        let left: usize = self.candidates.len() - self.tried;
        if left < INVAL_BATCH_SIZE {
            left
        } else {
            INVAL_BATCH_SIZE
        }
    }

    /// Take note of a batch of which the first `invalidated` names could be invalidated. Anything
    /// short of the whole batch means that the kernel cannot keep up, which ends the sweep, as the
    /// last batch does.
    pub fn batch_done(&mut self, invalidated: usize) -> (r: SweepStep)
        requires
            old(self).wf(),
            invalidated <= batch_len(old(self).candidates@.len(), old(self).tried as nat),
        ensures
            final(self).wf(),
            final(self).candidates == old(self).candidates,
            final(self).tried == old(self).tried + batch_len(
                old(self).candidates@.len(),
                old(self).tried as nat,
            ),
            final(self).to_evict@ == old(self).to_evict@ + candidate_inos(
                old(self).candidates@.subrange(
                    old(self).tried as int,
                    old(self).tried + invalidated,
                ),
            ),
            r == if invalidated < INVAL_BATCH_SIZE {
                SweepStep::Evict
            } else {
                SweepStep::Pause
            },
    {
        let size: usize = self.batch();
        let total: usize = self.candidates.len();
        let start: usize = self.tried;
        let ghost before = self.to_evict@;
        let ghost rows = self.candidates@.subrange(start as int, start + invalidated);
        let mut i: usize = 0;
        assert(before + candidate_inos(rows.take(0)) =~= before);
        while i < invalidated
            invariant
                i <= invalidated,
                start + invalidated <= total,
                total == self.candidates@.len(),
                rows == self.candidates@.subrange(start as int, start + invalidated),
                self.to_evict@ == before + candidate_inos(rows.take(i as int)),
                self.candidates == old(self).candidates,
                self.tried == start,
            decreases invalidated - i,
        {
            self.to_evict.push(self.candidates[start + i].0);
            assert(before + candidate_inos(rows.take(i + 1)) =~= (before + candidate_inos(
                rows.take(i as int),
            )).push(rows[i as int].0));
            i += 1;
        }
        assert(rows.take(i as int) =~= rows);
        self.tried = start + size;
        if invalidated < INVAL_BATCH_SIZE {
            SweepStep::Evict
        } else {
            SweepStep::Pause
        }
    }

    /// Take out the inodes to evict next; none is left when it is empty.
    pub fn take_chunk(&mut self) -> (r: Vec<u64>)
        ensures
            final(self).candidates == old(self).candidates,
            final(self).tried == old(self).tried,
            r@ + final(self).to_evict@ == old(self).to_evict@,
            r@.len() == if old(self).to_evict@.len() < EVICT_CHUNK {
                old(self).to_evict@.len()
            } else {
                EVICT_CHUNK as nat
            },
    {
        let ghost before = self.to_evict@;
        let mut chunk: Vec<u64> = Vec::new();
        let mut rest: Vec<u64> = Vec::new();
        let mut i: usize = 0;
        while i < self.to_evict.len()
            invariant
                i <= self.to_evict.len(),
                self.to_evict@ == before,
                self.candidates == old(self).candidates,
                self.tried == old(self).tried,
                chunk@ + rest@ == before.take(i as int),
                chunk@.len() == if i < EVICT_CHUNK {
                    i as nat
                } else {
                    EVICT_CHUNK as nat
                },
                i <= EVICT_CHUNK ==> rest@.len() == 0,
            decreases self.to_evict.len() - i,
        {
            let ghost low = chunk@ + rest@;
            if i < EVICT_CHUNK {
                chunk.push(self.to_evict[i]);
            } else {
                rest.push(self.to_evict[i]);
            }
            assert(chunk@ + rest@ =~= low.push(before[i as int]));
            assert(before.take(i + 1) =~= before.take(i as int).push(before[i as int]));
            i += 1;
        }
        assert(before.take(i as int) =~= before);
        self.to_evict = rest;
        chunk
    }
}

impl VirtualFs {
    /// The candidates of a sweep: as many of the sweepable files as the table is over the limit,
    /// within the bound of one sweep, those first that were not used for the longest time.
    pub fn sweep_candidates(&self, soft_limit: usize) -> (r: Vec<(u64, u64, String)>)
        ensures
            r@.len() <= SWEEP_LIMIT,
            self.inodes@.inodes.len() <= soft_limit ==> r@.len() == 0,
            self.inodes@.inodes.len() > soft_limit ==> exists|picked: Seq<u64>| #[trigger]
                self.inodes@.oldest(
                    picked,
                    sweep_size(self.inodes@.inodes.len(), soft_limit),
                    self.inodes@.sweepable_files(),
                ) && inode::candidate_models(r@) == picked.map_values(
                    |k: u64| (k, self.inodes@.inodes[k].parent, self.inodes@.inodes[k].name),
                ),
    {
        let len: usize = self.inodes.len();
        if len <= soft_limit {
            return Vec::new();
        }
        let over: usize = len - soft_limit;
        let max: usize = if over < SWEEP_LIMIT {
            over
        } else {
            SWEEP_LIMIT
        };
        let r = self.inodes.lru_candidates(max);
        proof {
            let t = self.inodes@;
            let picked = choose|picked: Seq<u64>| #[trigger]
                t.oldest(picked, max as nat, t.sweepable_files()) && inode::candidate_models(r@)
                    == picked.map_values(|k: u64| (k, t.inodes[k].parent, t.inodes[k].name));
            assert(t.oldest(picked, sweep_size(t.inodes.len(), soft_limit), t.sweepable_files()));
            assert(inode::candidate_models(r@).len() == r@.len());
            assert(inode::candidate_models(r@) =~= picked.map_values(
                |k: u64| (k, self.inodes@.inodes[k].parent, self.inodes@.inodes[k].name),
            ));
        }
        r
    }

    /// Evict a chunk of inodes, as far as nothing would be lost. Returns those evicted, whose
    /// staging files can go too.
    pub fn sweep_evict(&mut self, inos: &[u64]) -> (r: Vec<u64>)
        ensures
            model::enumerates(r@, old(self).inodes@.batch(inos@)),
            final(self).inodes@ == old(self).inodes@.batch_evicted(old(self).inodes@.batch(inos@)),
            old(self).only_inodes(*final(self)),
    {
        self.inodes.evict_batch_if_safe(inos)
    }
}

proof fn lemma_filter_twice(
    s: Seq<ChildModel>,
    f: spec_fn(ChildModel) -> bool,
    g: spec_fn(ChildModel) -> bool,
    h: spec_fn(ChildModel) -> bool,
)
    requires
        forall|c: ChildModel| #[trigger] h(c) == (f(c) && g(c)),
    ensures
        s.filter(f).filter(g) == s.filter(h),
    decreases s.len(),
{
    reveal(Seq::filter);
    if s.len() > 0 {
        lemma_filter_twice(s.drop_last(), f, g, h);
        let c = s.last();
        let low = s.drop_last().filter(f);
        assert(h(c) == (f(c) && g(c)));
        if f(c) {
            assert(s.filter(f) == low.push(c));
            assert(low.push(c).drop_last() =~= low);
            assert(low.push(c).last() == c);
        }
    }
}

proof fn lemma_pruned_twice(t: TableModel, a: Set<u64>, b: Set<u64>, p: u64)
    requires
        t.inodes.contains_key(p),
        !a.contains(p),
        !b.contains(p),
        a.disjoint(b),
        forall|x: u64| #[trigger] a.contains(x) ==> t.inodes.contains_key(x),
        forall|x: u64| #[trigger] b.contains(x) ==> t.inodes.contains_key(x),
    ensures
        t.batch_evicted(a).pruned(p, b) == t.pruned(p, a.union(b)),
{
    let mid = t.batch_evicted(a);
    let ab = a.union(b);
    let f = |c: ChildModel| !(a.contains(c.ino) && t.inodes[c.ino].parent == p);
    let g = |c: ChildModel| !(b.contains(c.ino) && mid.inodes[c.ino].parent == p);
    let h = |c: ChildModel| !(ab.contains(c.ino) && t.inodes[c.ino].parent == p);
    assert forall|x: u64| #[trigger] b.contains(x) implies mid.inodes[x].parent
        == t.inodes[x].parent by {
        assert(mid.inodes.contains_key(x));
    }
    assert forall|c: ChildModel| #[trigger] h(c) == (f(c) && g(c)) by {}
    let e = t.inodes[p];
    lemma_filter_twice(e.children, f, g, h);
    let in_a = exists|i: u64| #[trigger] a.contains(i) && t.inodes[i].parent == p;
    let in_b = exists|i: u64| #[trigger] b.contains(i) && mid.inodes[i].parent == p;
    let in_ab = exists|i: u64| #[trigger] ab.contains(i) && t.inodes[i].parent == p;
    assert(in_ab == (in_a || in_b)) by {
        if in_a {
            let i = choose|i: u64| #[trigger] a.contains(i) && t.inodes[i].parent == p;
            assert(ab.contains(i));
        }
        if in_b {
            let i = choose|i: u64| #[trigger] b.contains(i) && mid.inodes[i].parent == p;
            assert(ab.contains(i));
        }
        if in_ab {
            let i = choose|i: u64| #[trigger] ab.contains(i) && t.inodes[i].parent == p;
            assert(a.contains(i) || b.contains(i));
        }
    }
    if !in_a {
        lemma_filter_all(e.children, f);
    }
    if !in_b {
        lemma_filter_all(e.children.filter(f), g);
    }
    assert(mid.inodes[p] == t.pruned(p, a));
}

proof fn lemma_filter_all(s: Seq<ChildModel>, f: spec_fn(ChildModel) -> bool)
    requires
        forall|c: ChildModel| #[trigger] f(c),
    ensures
        s.filter(f) == s,
    decreases s.len(),
{
    reveal(Seq::filter);
    if s.len() > 0 {
        lemma_filter_all(s.drop_last(), f);
        assert(f(s.last()));
        assert(s.drop_last().push(s.last()) =~= s);
    }
}

/// Evicting in chunks comes to the same as evicting all at once.
pub proof fn law_chunks_evict_as_one(t: TableModel, first: Seq<u64>, second: Seq<u64>)
    ensures
        ({
            let mid = t.batch_evicted(t.batch(first));
            &&& t.batch(first + second) == t.batch(first).union(mid.batch(second))
            &&& t.batch_evicted(t.batch(first + second)) == mid.batch_evicted(mid.batch(second))
        }),
{
    let a = t.batch(first);
    let mid = t.batch_evicted(a);
    let b = mid.batch(second);
    let all = first + second;
    assert forall|x: u64| #[trigger] all.contains(x) <==> first.contains(x) || second.contains(
        x,
    ) by {
        if first.contains(x) {
            let i = choose|i: int| 0 <= i < first.len() && first[i] == x;
            assert(all[i] == x);
        }
        if second.contains(x) {
            let i = choose|i: int| 0 <= i < second.len() && second[i] == x;
            assert(all[first.len() + i] == x);
        }
        if all.contains(x) {
            let i = choose|i: int| 0 <= i < all.len() && all[i] == x;
            if i < first.len() {
                assert(first[i] == x);
            } else {
                assert(second[i - first.len()] == x);
            }
        }
    }
    assert forall|x: u64| #[trigger] b.contains(x) <==> t.batch(second).contains(x) && !a.contains(
        x,
    ) by {}
    assert(t.batch(all) =~= a.union(b));
    let once = t.batch_evicted(a.union(b));
    let twice = mid.batch_evicted(b);
    assert(once.inodes =~= twice.inodes) by {
        assert forall|p: u64| #[trigger] once.inodes.contains_key(p) implies once.inodes[p]
            == twice.inodes[p] by {
            lemma_pruned_twice(t, a, b, p);
        }
    }
    let pa = model::paths_of(t.inodes, a);
    let pb = model::paths_of(mid.inodes, b);
    let pab = model::paths_of(t.inodes, a.union(b));
    assert forall|q: Seq<char>| #[trigger] pab.contains(q) <==> pa.contains(q) || pb.contains(
        q,
    ) by {
        if pa.contains(q) {
            let x = choose|x: u64| #[trigger] a.contains(x) && t.inodes[x].full_path == q;
            assert(a.union(b).contains(x));
        }
        if pb.contains(q) {
            let x = choose|x: u64| #[trigger] b.contains(x) && mid.inodes[x].full_path == q;
            assert(a.union(b).contains(x));
        }
        if pab.contains(q) {
            let x = choose|x: u64| #[trigger]
                a.union(b).contains(x) && t.inodes[x].full_path == q;
            assert(a.contains(x) || b.contains(x));
            assert(b.contains(x) ==> mid.inodes[x].full_path == q);
        }
    }
    assert(once.paths =~= twice.paths);
}

} // verus!
