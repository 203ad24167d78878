//! What is kept for a while, and what goes when there is too much of it.
use crate::time::Duration;
use crate::virtual_fs::handles;
use crate::virtual_fs::handles::OpenFile;
use crate::virtual_fs::inode::{EntryModel, InodeKind};
use crate::virtual_fs::model::TableModel;
use crate::virtual_fs::negative_cache;
use crate::virtual_fs::streaming;
use crate::virtual_fs::sweep;
use crate::virtual_fs::tree;
use crate::virtual_fs::VirtualFs;
use std::time::Instant;
use vstd::prelude::*;

verus! {

/// Forgetting a path forgets that path, and no other.
pub proof fn law_forgotten_paths_are_gone(
    s: Seq<(Seq<char>, Instant)>,
    path: Seq<char>,
    other: Seq<char>,
)
    ensures
        negative_cache::has_key(negative_cache::without_key(s, path), other)
            <==> negative_cache::has_key(s, other) && other != path,
    decreases s.len(),
{
    reveal(Seq::filter);
    if s.len() > 0 {
        let front = s.drop_last();
        law_forgotten_paths_are_gone(front, path, other);
        let low = negative_cache::without_key(front, path);
        let all = negative_cache::without_key(s, path);
        assert(s[s.len() - 1] == s.last());
        assert(negative_cache::has_key(s, other) <==> negative_cache::has_key(front, other)
            || s.last().0 == other) by {
            if negative_cache::has_key(front, other) {
                let i = choose|i: int| 0 <= i < front.len() && (#[trigger] front[i]).0 == other;
                assert(s[i].0 == other);
            }
            if negative_cache::has_key(s, other) {
                let i = choose|i: int| 0 <= i < s.len() && (#[trigger] s[i]).0 == other;
                if i < front.len() {
                    assert(front[i].0 == other);
                }
            }
        }
        if s.last().0 != path {
            assert(all == low.push(s.last()));
            assert(all[low.len() as int] == s.last());
            assert(negative_cache::has_key(all, other) <==> negative_cache::has_key(low, other)
                || s.last().0 == other) by {
                if negative_cache::has_key(low, other) {
                    let i = choose|i: int| 0 <= i < low.len() && (#[trigger] low[i]).0 == other;
                    assert(all[i].0 == other);
                }
                if negative_cache::has_key(all, other) {
                    let i = choose|i: int| 0 <= i < all.len() && (#[trigger] all[i]).0 == other;
                    if i < low.len() {
                        assert(low[i].0 == other);
                    }
                }
            }
        } else {
            assert(all == low);
        }
    }
}

/// The keys of what is filtered.
proof fn lemma_filtered_keys(
    s: Seq<(Seq<char>, Instant)>,
    keep: spec_fn((Seq<char>, Instant)) -> bool,
    key: Seq<char>,
)
    ensures
        negative_cache::has_key(s.filter(keep), key) <==> exists|i: int|
            0 <= i < s.len() && (#[trigger] s[i]).0 == key && keep(s[i]),
    decreases s.len(),
{
    reveal(Seq::filter);
    if s.len() > 0 {
        let front = s.drop_last();
        lemma_filtered_keys(front, keep, key);
        let low = front.filter(keep);
        let all = s.filter(keep);
        assert(s[s.len() - 1] == s.last());
        if negative_cache::has_key(low, key) {
            let i = choose|i: int| 0 <= i < low.len() && (#[trigger] low[i]).0 == key;
            assert(all[i].0 == key);
            let j = choose|j: int|
                0 <= j < front.len() && (#[trigger] front[j]).0 == key && keep(front[j]);
            assert(s[j] == front[j]);
        }
        if negative_cache::has_key(all, key) && !negative_cache::has_key(low, key) {
            let i = choose|i: int| 0 <= i < all.len() && (#[trigger] all[i]).0 == key;
            if i < low.len() {
                assert(low[i].0 == key);
            }
        }
        if exists|i: int| 0 <= i < s.len() && (#[trigger] s[i]).0 == key && keep(s[i]) {
            let i = choose|i: int| 0 <= i < s.len() && (#[trigger] s[i]).0 == key && keep(s[i]);
            if i < front.len() {
                assert(front[i] == s[i]);
            } else {
                assert(all[low.len() as int].0 == key);
            }
        }
    }
}

/// What is known to be missing in, or below, a directory that is listed again is forgotten, and
/// nothing else is: not what only starts with the same name.
pub proof fn law_listing_again_forgets_what_is_missing(
    s: Seq<(Seq<char>, Instant)>,
    dirs: Seq<Seq<char>>,
    path: Seq<char>,
)
    ensures
        negative_cache::has_key(negative_cache::uncovered(s, dirs), path)
            <==> negative_cache::has_key(s, path) && forall|i: int|
            0 <= i < dirs.len() ==> {
                let dir = #[trigger] dirs[i];
                &&& dir.len() > 0
                &&& path != dir
                &&& !(dir.is_prefix_of(path) && path.len() > dir.len() && path[dir.len() as int]
                    == '/')
            },
{
    reveal_strlit("/");
    let keep = |e: (Seq<char>, Instant)| !negative_cache::any_covers(dirs, e.0);
    lemma_filtered_keys(s, keep, path);
    assert forall|i: int| 0 <= i < dirs.len() implies (negative_cache::covers(
        #[trigger] dirs[i],
        path,
    ) <==> dirs[i].len() == 0 || path == dirs[i] || (dirs[i].is_prefix_of(path) && path.len()
        > dirs[i].len() && path[dirs[i].len() as int] == '/')) by {
        lemma_slash_behind(dirs[i], path);
    }
    if negative_cache::any_covers(dirs, path) {
        let i = choose|i: int|
            0 <= i < dirs.len() && negative_cache::covers(#[trigger] dirs[i], path);
        assert(dirs[i].len() == 0 || path == dirs[i] || dirs[i].is_prefix_of(path));
    }
    if negative_cache::has_key(s, path) {
        let i = choose|i: int| 0 <= i < s.len() && (#[trigger] s[i]).0 == path;
        assert(keep(s[i]) <==> !negative_cache::any_covers(dirs, path));
    }
}

proof fn lemma_slash_behind(dir: Seq<char>, path: Seq<char>)
    ensures
        (dir + "/"@).is_prefix_of(path) <==> dir.is_prefix_of(path) && path.len() > dir.len()
            && path[dir.len() as int] == '/',
{
    reveal_strlit("/");
    let n = dir.len() as int;
    let longer = dir + "/"@;
    if longer.is_prefix_of(path) {
        assert(path.subrange(0, n + 1) == longer);
        assert(path.subrange(0, n) =~= longer.take(n));
        assert(longer.take(n) =~= dir);
        assert(path[n] == path.subrange(0, n + 1)[n]);
    }
    if dir.is_prefix_of(path) && path.len() > n && path[n] == '/' {
        assert(path.subrange(0, n + 1) =~= longer) by {
            assert(path.subrange(0, n) == dir);
            assert forall|i: int| 0 <= i < n + 1 implies path.subrange(0, n + 1)[i]
                == longer[i] by {
                if i < n {
                    assert(path.subrange(0, n)[i] == dir[i]);
                }
            }
        }
    }
}

/// A path counts as missing only if it was found missing, and not for longer than half a minute.
pub proof fn law_missing_paths_are_asked_for_again(
    s: Seq<(Seq<char>, Instant)>,
    path: Seq<char>,
    age: Duration,
)
    ensures
        negative_cache::known_missing(s, path, age) <==> negative_cache::has_key(s, path)
            && age.nanos < 30_000_000_000,
{
}

/// A full cache gives up what no longer holds, and nothing that does, unless everything does: then
/// one entry, than which none of the first ones is older.
pub proof fn law_old_notes_go_first(ages: Seq<Duration>)
    requires
        ages.len() > 0,
    ensures
        ({
            let gone = negative_cache::dropped_positions(ages);
            let all_hold = forall|i: int|
                0 <= i < ages.len() ==> (#[trigger] ages[i]).nanos < 30_000_000_000;
            &&& gone.len() > 0
            &&& forall|k: int| 0 <= k < gone.len() ==> 0 <= #[trigger] gone[k] < ages.len()
            &&& !all_hold ==> forall|k: int|
                0 <= k < gone.len() ==> ages[#[trigger] gone[k]].nanos >= 30_000_000_000
            &&& all_hold ==> gone.len() == 1 && forall|i: int|
                0 <= i < ages.len() && i < 128 ==> (#[trigger] ages[i]).nanos <= ages[gone[0]].nanos
            &&& gone.len() <= 128
        }),
{
    lemma_expired(ages);
    let sample = if ages.len() < negative_cache::NEG_CACHE_SAMPLE {
        ages.len()
    } else {
        negative_cache::NEG_CACHE_SAMPLE as nat
    };
    lemma_oldest(ages, sample);
    let expired = negative_cache::expired_positions(ages);
    let gone = negative_cache::dropped_positions(ages);
    if expired.len() > 0 {
        assert(gone == expired);
        assert(ages[expired[0]].nanos >= 30_000_000_000);
    } else {
        assert(gone[0] == negative_cache::oldest_position(ages, sample));
    }
}

proof fn lemma_expired(ages: Seq<Duration>)
    ensures
        ({
            let gone = negative_cache::expired_positions(ages);
            &&& forall|k: int|
                0 <= k < gone.len() ==> 0 <= #[trigger] gone[k] < ages.len() && ages[gone[k]].nanos
                    >= 30_000_000_000
            &&& gone.len() <= 128
            &&& gone.len() == 0 ==> forall|i: int|
                0 <= i < ages.len() ==> (#[trigger] ages[i]).nanos < 30_000_000_000
        }),
    decreases ages.len(),
{
    if ages.len() > 0 {
        let front = ages.drop_last();
        lemma_expired(front);
        let low = negative_cache::expired_positions(front);
        let gone = negative_cache::expired_positions(ages);
        assert(ages[ages.len() - 1] == ages.last());
        assert forall|k: int| 0 <= k < gone.len() implies 0 <= #[trigger] gone[k] < ages.len()
            && ages[gone[k]].nanos >= 30_000_000_000 by {
            if k < low.len() {
                assert(gone[k] == low[k]);
                assert(ages[low[k]] == front[low[k]]);
            }
        }
        if gone.len() == 0 {
            assert forall|i: int| 0 <= i < ages.len() implies (#[trigger] ages[i]).nanos
                < 30_000_000_000 by {
                if i < front.len() {
                    assert(ages[i] == front[i]);
                }
            }
        }
    }
}

proof fn lemma_oldest(ages: Seq<Duration>, n: nat)
    requires
        0 < n <= ages.len(),
    ensures
        0 <= negative_cache::oldest_position(ages, n) < n,
        forall|i: int|
            0 <= i < n ==> (#[trigger] ages[i]).nanos <= ages[negative_cache::oldest_position(
                ages,
                n,
            )].nanos,
    decreases n,
{
    if n > 1 {
        lemma_oldest(ages, (n - 1) as nat);
    }
}

/// A batch is never longer than it may be, nor than what is left, and never empty while anything is.
pub proof fn law_batches_get_to_the_end(candidates: nat, tried: nat)
    requires
        tried <= candidates,
    ensures
        sweep::batch_len(candidates, tried) <= 64,
        tried + sweep::batch_len(candidates, tried) <= candidates,
        tried < candidates ==> sweep::batch_len(candidates, tried) > 0,
        sweep::batch_len(candidates, tried) < 64 ==> tried + sweep::batch_len(candidates, tried)
            == candidates,
{
}

/// A sweep takes as many inodes as there are too many, but not more than a bound, and none from a
/// table that is within its limit.
pub proof fn law_sweeps_take_what_is_too_much(len: nat, soft_limit: usize)
    ensures
        len <= soft_limit <==> sweep::sweep_size(len, soft_limit) == 0,
        sweep::sweep_size(len, soft_limit) <= 1024,
        len > soft_limit ==> sweep::sweep_size(len, soft_limit) <= len - soft_limit,
        len > soft_limit && sweep::sweep_size(len, soft_limit) < 1024 ==> sweep::sweep_size(
            len,
            soft_limit,
        ) == len - soft_limit,
{
}

/// What a sweep takes was used no later than anything that it leaves, and is a clean file with a
/// name that nobody has open and that has nothing to delete remotely.
pub proof fn law_sweeps_take_the_oldest(
    t: TableModel,
    picked: Seq<u64>,
    max: nat,
    i: int,
    x: u64,
)
    requires
        t.oldest(picked, max, t.sweepable_files()),
        0 <= i < picked.len(),
        t.inodes.contains_key(x),
        t.inodes[x].kind == InodeKind::File,
        t.inodes[x].nlink > 0,
        t.inodes[x].dirty_generation == 0,
        t.inodes[x].pending_deletes.len() == 0,
        t.inodes[x].eviction.open_handles == 0,
        t.inodes[x].eviction.nlookup > 0,
        !picked.contains(x),
    ensures
        ({
            let e = t.inodes[picked[i]];
            &&& e.eviction.last_touched <= t.inodes[x].eviction.last_touched
            &&& t.inodes.contains_key(picked[i])
            &&& e.kind == InodeKind::File
            &&& e.nlink > 0
            &&& e.dirty_generation == 0
            &&& e.pending_deletes.len() == 0
            &&& e.eviction.open_handles == 0
            &&& picked.len() == max
        }),
{
    assert(t.sweepable_files().contains(picked[i]));
    assert(t.sweepable_files().contains(x));
    assert(t.before(picked[i], x));
}

/// A file that is clean, has a name and nothing to delete remotely, and that neither the kernel nor a
/// handle holds on to, goes when it is evicted with others. Its directory is to be listed again.
pub proof fn law_idle_files_are_evicted(t: TableModel, inos: Seq<u64>, x: u64)
    requires
        tree::wf(t),
        inos.contains(x),
        t.inodes.contains_key(x),
        t.inodes[x].kind == InodeKind::File,
        t.inodes[x].nlink > 0,
        t.inodes[x].dirty_generation == 0,
        t.inodes[x].pending_deletes.len() == 0,
        t.inodes[x].eviction.open_handles == 0,
        t.inodes[x].eviction.nlookup == 0,
    ensures
        ({
            let r = t.batch_evicted(t.batch(inos));
            &&& !r.inodes.contains_key(x)
            &&& !r.paths.contains_key(t.inodes[x].full_path)
            &&& r.inodes.contains_key(t.inodes[x].parent)
            &&& !r.inodes[t.inodes[x].parent].children_loaded
        }),
{
    let gone = t.batch(inos);
    assert(gone.contains(x));
    assert(tree::place_ok(t, x));
}

/// Closing a handle undoes opening it.
pub proof fn law_closing_undoes_opening(t: TableModel, ino: u64)
    requires
        t.inodes.contains_key(ino),
    ensures
        ({
            let r = streaming::handle_closed(handles::handle_opened(t, ino), ino);
            &&& r.inodes.dom() == t.inodes.dom()
            &&& forall|x: u64| #[trigger] t.inodes.contains_key(x) ==> r.inodes[x] == t.inodes[x]
            &&& r.paths == t.paths
        }),
        t.inodes[ino].eviction.open_handles < u32::MAX ==> handles::handle_opened(
            t,
            ino,
        ).inodes[ino].eviction.open_handles == t.inodes[ino].eviction.open_handles + 1,
{
    let r = streaming::handle_closed(handles::handle_opened(t, ino), ino);
    assert(r.inodes.dom() =~= t.inodes.dom());
    assert(r.inodes[ino].eviction == t.inodes[ino].eviction);
    assert(r.inodes[ino] == t.inodes[ino]);
}

/// With its last handle a file goes that has no name any more, and one that the kernel gave up and
/// that nothing is lost with. Everything else stays as it is, and is no longer up for eviction.
pub proof fn law_last_handles_let_go(t: TableModel, x: u64)
    requires
        tree::wf(t),
        t.inodes.contains_key(x),
        t.inodes[x].kind == InodeKind::File,
    ensures
        ({
            let e = t.inodes[x];
            let r = streaming::released(t, x);
            let last = e.eviction.open_handles == 0;
            let given_up = e.eviction.evict_pending && e.eviction.nlookup == 0
                && e.dirty_generation == 0 && e.pending_deletes.len() == 0;
            &&& r.inodes.contains_key(x) <==> !last || (e.nlink > 0 && !given_up)
            &&& streaming::release_removes(t, x) <==> !r.inodes.contains_key(x)
            &&& !last ==> r == t
            &&& last && r.inodes.contains_key(x) ==> !r.inodes[x].eviction.evict_pending
                && r.inodes[x] == (EntryModel { eviction: r.inodes[x].eviction, ..e })
                && r.inodes[x].eviction.nlookup == e.eviction.nlookup
        }),
{
    if t.inodes[x].nlink > 0 {
        assert(tree::place_ok(t, x));
        assert(t.inodes[x].parent != x);
    }
}

/// A new handle is what it was opened as, and changes no other handle. The next one has another
/// number.
pub proof fn law_handles_are_what_they_were_opened_as(
    fs: VirtualFs,
    after: VirtualFs,
    fh: u64,
    file: OpenFile,
    other: u64,
)
    requires
        fs.handle_added(after, fh, file),
        fh < u64::MAX,
        other != fh,
    ensures
        after.files@.contains_key(fh),
        after.files@[fh] == file,
        after.files@.contains_key(other) <==> fs.files@.contains_key(other),
        fs.files@.contains_key(other) ==> after.files@[other] == fs.files@[other],
        after.next_file_handle > fh,
        after.channels@ == fs.channels@,
{
}

/// A path that has come to be is not taken for missing any more, and no other path is forgotten.
pub proof fn law_new_paths_are_not_missing(
    fs: VirtualFs,
    after: VirtualFs,
    path: Seq<char>,
    other: Seq<char>,
)
    requires
        fs.path_appeared(after, path),
        other != path,
    ensures
        !negative_cache::has_key(after.negative@, path),
        negative_cache::has_key(after.negative@, other) <==> negative_cache::has_key(
            fs.negative@,
            other,
        ),
{
    law_forgotten_paths_are_gone(fs.negative@, path, path);
    law_forgotten_paths_are_gone(fs.negative@, path, other);
}

} // verus!
