//! Detecting remote changes from fresh listings of the directories that have been visited.
use crate::hub_api;
use crate::hub_api::{mtime_from_str, TreeEntry, TreeModel};
use crate::text;
use crate::text::{clone_opt, opt_eq, parent_path, str_eq};
use crate::time::Timestamp;
use crate::virtual_fs::inode;
use crate::virtual_fs::inode::{EntryModel, InodeTable, SnapshotModel, ROOT_INODE};
use crate::virtual_fs::model::TableModel;
use crate::virtual_fs::negative_cache;
use crate::virtual_fs::negative_cache::NegativeCache;
use std::collections::HashSet;
use std::time::Instant;
use vstd::hash_map::StringHashMap;
use vstd::prelude::*;
use vstd::string::*;

verus! {

broadcast use {
    vstd::std_specs::hash::group_hash_axioms,
    vstd::hash_map::group_hash_map_axioms,
    vstd::string::group_string_axioms,
};

/// The listing of one directory: its path, and what was listed unless that failed.
pub type Listing = (String, Option<Vec<TreeEntry>>);

/// What a `Listing` holds.
pub type ListingModel = (Seq<char>, Option<Seq<TreeModel>>);

/// What a `Listing` holds.
pub open spec fn listing_model(l: Listing) -> ListingModel {
    (
        l.0@,
        match l.1 {
            Some(es) => Some(hub_api::tree_models(es@)),
            None => None,
        },
    )
}

/// What a list of listings holds.
pub open spec fn listing_models(ls: Seq<Listing>) -> Seq<ListingModel> {
    ls.map_values(|l: Listing| listing_model(l))
}

/// The directory at `p` was listed.
pub open spec fn was_listed(ls: Seq<ListingModel>, p: Seq<char>) -> bool {
    exists|i: int| 0 <= i < ls.len() && (#[trigger] ls[i]).0 == p && ls[i].1 is Some
}

/// Listing the directory at `p` failed.
pub open spec fn listing_failed(ls: Seq<ListingModel>, p: Seq<char>) -> bool {
    exists|i: int| 0 <= i < ls.len() && (#[trigger] ls[i]).0 == p && ls[i].1 is None
}

/// The entries of all listings, in order.
pub open spec fn all_entries(ls: Seq<ListingModel>) -> Seq<TreeModel>
    decreases ls.len(),
{
    if ls.len() == 0 {
        Seq::empty()
    } else {
        all_entries(ls.drop_last()) + match ls.last().1 {
            Some(es) => es,
            None => Seq::empty(),
        }
    }
}

/// There is an entry for a directory at `p`.
pub open spec fn shows_dir(es: Seq<TreeModel>, p: Seq<char>) -> bool {
    exists|i: int|
        0 <= i < es.len() && (#[trigger] es[i]).entry_type == "directory"@ && es[i].path == p
}

/// What is below `p` is known: `p` was listed, or it is gone. It is gone if listing it failed while
/// what is below its parent is known and does not show it.
pub open spec fn counts_as_polled(ls: Seq<ListingModel>, p: Seq<char>) -> bool
    decreases p.len(),
{
    was_listed(ls, p) || (p.len() > 0 && listing_failed(ls, p) && !shows_dir(all_entries(ls), p) && {
        proof {
            text::lemma_split_last(p, '/');
        }
        counts_as_polled(ls, text::spec_parent_path(p))
    })
}

/// The set of strings of a list, for lookup.
fn string_set(v: &Vec<String>) -> (r: StringHashMap<bool>)
    ensures
        forall|p: Seq<char>| #[trigger] r@.contains_key(p) <==> text::texts(v@).contains(p),
{
    let ghost all = text::texts(v@);
    let mut out: StringHashMap<bool> = StringHashMap::new();
    let mut i: usize = 0;
    while i < v.len()
        invariant
            i <= v.len(),
            all == text::texts(v@),
            forall|p: Seq<char>| #[trigger]
                out@.contains_key(p) <==> exists|j: int| 0 <= j < i && #[trigger] all[j] == p,
        decreases v.len() - i,
    {
        assert(all[i as int] == v@[i as int]@);
        let ghost before = out@;
        out.insert(v[i].clone(), true);
        proof {
            assert forall|p: Seq<char>| #[trigger] out@.contains_key(p) <==> exists|j: int|
                0 <= j < i + 1 && #[trigger] all[j] == p by {
                if before.contains_key(p) {
                    let j = choose|j: int| 0 <= j < i && #[trigger] all[j] == p;
                    assert(all[j] == p);
                }
                if exists|j: int| 0 <= j < i + 1 && #[trigger] all[j] == p {
                    let j = choose|j: int| 0 <= j < i + 1 && #[trigger] all[j] == p;
                    if j < i {
                        assert(before.contains_key(p));
                    }
                }
            }
        }
        i += 1;
    }
    out
}

/// What a round of listings says: all entries, and the directories of which it is known what is
/// below them.
pub fn read_listings(listings: &Vec<Listing>) -> (r: (Vec<TreeEntry>, Vec<String>))
    ensures
        hub_api::tree_models(r.0@) == all_entries(listing_models(listings@)),
        forall|p: Seq<char>| #[trigger]
            text::texts(r.1@).contains(p) <==> counts_as_polled(listing_models(listings@), p),
{
    let ghost ls = listing_models(listings@);
    let mut entries: Vec<TreeEntry> = Vec::new();
    let mut listed: Vec<String> = Vec::new();
    let mut failed: Vec<String> = Vec::new();
    let mut dirs: Vec<String> = Vec::new();
    let mut i: usize = 0;
    assert(ls.take(0) =~= Seq::empty());
    assert(hub_api::tree_models(entries@) =~= all_entries(ls.take(0)));
    while i < listings.len()
        invariant
            i <= listings.len(),
            ls == listing_models(listings@),
            hub_api::tree_models(entries@) == all_entries(ls.take(i as int)),
            forall|p: Seq<char>| #[trigger]
                text::texts(listed@).contains(p) <==> was_listed(ls.take(i as int), p),
            forall|p: Seq<char>| #[trigger]
                text::texts(failed@).contains(p) <==> listing_failed(ls.take(i as int), p),
        decreases listings.len() - i,
    {
        let ghost low = ls.take(i as int);
        let ghost high = ls.take(i + 1);
        let ghost listed_before = listed@;
        let ghost failed_before = failed@;
        proof {
            assert(high.drop_last() =~= low);
            assert(high.last() == listing_model(listings@[i as int]));
        }
        match &listings[i].1 {
            Some(es) => {
                listed.push(listings[i].0.clone());
                extend_entries(&mut entries, es);
            },
            None => {
                failed.push(listings[i].0.clone());
            },
        }
        proof {
            let prefix = listings@[i as int].0;
            let ok = high.last().1 is Some;
            if ok {
                lemma_texts_push(listed_before, prefix, listed@);
            } else {
                lemma_texts_push(failed_before, prefix, failed@);
            }
            assert forall|p: Seq<char>| was_listed(high, p) <==> was_listed(low, p) || (ok && p
                == prefix@) by {
                lemma_was_listed_push(low, high, p);
            }
            assert forall|p: Seq<char>| listing_failed(high, p) <==> listing_failed(low, p) || (!ok
                && p == prefix@) by {
                lemma_was_listed_push(low, high, p);
            }
        }
        i += 1;
    }
    assert(ls.take(i as int) =~= ls);
    let ghost es = hub_api::tree_models(entries@);
    let mut k: usize = 0;
    while k < entries.len()
        invariant
            k <= entries.len(),
            es == hub_api::tree_models(entries@),
            forall|p: Seq<char>| #[trigger]
                text::texts(dirs@).contains(p) <==> shows_dir(es.take(k as int), p),
        decreases entries.len() - k,
    {
        let ghost before = dirs@;
        let ghost low = es.take(k as int);
        let ghost high = es.take(k + 1);
        assert(high.last() == entries@[k as int]@);
        assert(high.drop_last() =~= low);
        let is_dir = str_eq(entries[k].entry_type.as_str(), "directory");
        if is_dir {
            dirs.push(entries[k].path.clone());
        }
        proof {
            if is_dir {
                lemma_texts_push(before, entries@[k as int].path, dirs@);
            }
            assert forall|p: Seq<char>| #[trigger] text::texts(dirs@).contains(p) <==> shows_dir(
                high,
                p,
            ) by {
                lemma_shows_dir_push(low, high, p);
            }
        }
        k += 1;
    }
    assert(es.take(k as int) =~= es);
    let listed_set = string_set(&listed);
    let failed_set = string_set(&failed);
    let dir_set = string_set(&dirs);
    let mut polled: Vec<String> = Vec::new();
    let mut j: usize = 0;
    while j < listings.len()
        invariant
            j <= listings.len(),
            ls == listing_models(listings@),
            forall|p: Seq<char>| #[trigger] listed_set@.contains_key(p) <==> was_listed(ls, p),
            forall|p: Seq<char>| #[trigger] failed_set@.contains_key(p) <==> listing_failed(ls, p),
            forall|p: Seq<char>| #[trigger]
                dir_set@.contains_key(p) <==> shows_dir(all_entries(ls), p),
            forall|p: Seq<char>| #[trigger]
                text::texts(polled@).contains(p) ==> counts_as_polled(ls, p),
            forall|m: int|
                0 <= m < j && counts_as_polled(ls, (#[trigger] ls[m]).0) ==> text::texts(
                    polled@,
                ).contains(ls[m].0),
        decreases listings.len() - j,
    {
        let ghost before = polled@;
        assert(ls[j as int].0 == listings@[j as int].0@);
        if polled_or_gone(&listed_set, &failed_set, &dir_set, listings[j].0.as_str(), Ghost(ls)) {
            polled.push(listings[j].0.clone());
            proof {
                lemma_texts_push(before, listings@[j as int].0, polled@);
            }
        }
        j += 1;
    }
    proof {
        assert forall|p: Seq<char>| counts_as_polled(ls, p) implies #[trigger] text::texts(
            polled@,
        ).contains(p) by {
            if was_listed(ls, p) {
                let m = choose|m: int|
                    0 <= m < ls.len() && (#[trigger] ls[m]).0 == p && ls[m].1 is Some;
                assert(ls[m].0 == p);
            } else {
                let m = choose|m: int|
                    0 <= m < ls.len() && (#[trigger] ls[m]).0 == p && ls[m].1 is None;
                assert(ls[m].0 == p);
            }
        }
    }
    (entries, polled)
}

/// Whether it is known what is below `p`.
fn polled_or_gone(
    listed: &StringHashMap<bool>,
    failed: &StringHashMap<bool>,
    dirs: &StringHashMap<bool>,
    p: &str,
    Ghost(ls): Ghost<Seq<ListingModel>>,
) -> (r: bool)
    requires
        forall|q: Seq<char>| #[trigger] listed@.contains_key(q) <==> was_listed(ls, q),
        forall|q: Seq<char>| #[trigger] failed@.contains_key(q) <==> listing_failed(ls, q),
        forall|q: Seq<char>| #[trigger] dirs@.contains_key(q) <==> shows_dir(all_entries(ls), q),
    ensures
        r == counts_as_polled(ls, p@),
    decreases p@.len(),
{
    if listed.contains_key(p) {
        true
    } else if p.is_empty() || !failed.contains_key(p) || dirs.contains_key(p) {
        false
    } else {
        polled_or_gone(listed, failed, dirs, parent_path(p), Ghost(ls))
    }
}

fn extend_entries(out: &mut Vec<TreeEntry>, more: &Vec<TreeEntry>)
    ensures
        hub_api::tree_models(final(out)@) == hub_api::tree_models(old(out)@)
            + hub_api::tree_models(more@),
{
    let ghost start = hub_api::tree_models(out@);
    let ghost add = hub_api::tree_models(more@);
    let mut i: usize = 0;
    assert(start + add.take(0) =~= start);
    while i < more.len()
        invariant
            i <= more.len(),
            add == hub_api::tree_models(more@),
            hub_api::tree_models(out@) == start + add.take(i as int),
        decreases more.len() - i,
    {
        let ghost before = out@;
        out.push(more[i].clone());
        assert(hub_api::tree_models(out@) =~= hub_api::tree_models(before).push(add[i as int]));
        assert(start + add.take(i + 1) =~= (start + add.take(i as int)).push(add[i as int]));
        i += 1;
    }
    assert(add.take(i as int) =~= add);
}

proof fn lemma_texts_push(before: Seq<String>, x: String, after: Seq<String>)
    requires
        after == before.push(x) || (after.len() == before.len() + 1 && text::texts(after)
            == text::texts(before).push(x@)),
    ensures
        forall|p: Seq<char>| #[trigger]
            text::texts(after).contains(p) <==> text::texts(before).contains(p) || p == x@,
{
    let a = text::texts(after);
    let b = text::texts(before);
    assert(a =~= b.push(x@));
    assert forall|p: Seq<char>| #[trigger] a.contains(p) <==> b.contains(p) || p == x@ by {
        if a.contains(p) {
            let i = choose|i: int| 0 <= i < a.len() && a[i] == p;
            if i < b.len() {
                assert(b[i] == p);
            }
        }
        if b.contains(p) {
            let i = choose|i: int| 0 <= i < b.len() && b[i] == p;
            assert(a[i] == p);
        }
        assert(a[b.len() as int] == x@);
    }
}

proof fn lemma_was_listed_push(low: Seq<ListingModel>, high: Seq<ListingModel>, p: Seq<char>)
    requires
        high.len() > 0,
        low == high.drop_last(),
    ensures
        was_listed(high, p) <==> was_listed(low, p) || (high.last().1 is Some && p
            == high.last().0),
        listing_failed(high, p) <==> listing_failed(low, p) || (high.last().1 is None && p
            == high.last().0),
{
    let n = low.len() as int;
    assert(high[n] == high.last());
    if was_listed(low, p) {
        let i = choose|i: int|
            0 <= i < low.len() && (#[trigger] low[i]).0 == p && low[i].1 is Some;
        assert(high[i].0 == p);
    }
    if listing_failed(low, p) {
        let i = choose|i: int|
            0 <= i < low.len() && (#[trigger] low[i]).0 == p && low[i].1 is None;
        assert(high[i].0 == p);
    }
    if was_listed(high, p) {
        let i = choose|i: int|
            0 <= i < high.len() && (#[trigger] high[i]).0 == p && high[i].1 is Some;
        if i < n {
            assert(low[i].0 == p);
        }
    }
    if listing_failed(high, p) {
        let i = choose|i: int|
            0 <= i < high.len() && (#[trigger] high[i]).0 == p && high[i].1 is None;
        if i < n {
            assert(low[i].0 == p);
        }
    }
}

proof fn lemma_shows_dir_push(low: Seq<TreeModel>, high: Seq<TreeModel>, p: Seq<char>)
    requires
        high.len() > 0,
        low == high.drop_last(),
    ensures
        shows_dir(high, p) <==> shows_dir(low, p) || (high.last().entry_type == "directory"@ && p
            == high.last().path),
{
    let n = low.len() as int;
    assert(high[n] == high.last());
    if shows_dir(low, p) {
        let i = choose|i: int|
            0 <= i < low.len() && (#[trigger] low[i]).entry_type == "directory"@ && low[i].path
                == p;
        assert(high[i].path == p);
    }
    if shows_dir(high, p) {
        let i = choose|i: int|
            0 <= i < high.len() && (#[trigger] high[i]).entry_type == "directory"@ && high[i].path
                == p;
        if i < n {
            assert(low[i].path == p);
        }
    }
}

/// A remote change of a file.
#[derive(Debug)]
pub struct RemoteUpdate {
    pub ino: u64,
    pub hash: Option<String>,
    pub etag: Option<String>,
    pub size: u64,
    pub mtime: Timestamp,
}

/// What a `RemoteUpdate` holds.
pub struct UpdateModel {
    pub ino: u64,
    pub hash: Option<Seq<char>>,
    pub etag: Option<Seq<char>>,
    pub size: u64,
    pub mtime: Timestamp,
}

impl View for RemoteUpdate {
    type V = UpdateModel;

    open spec fn view(&self) -> UpdateModel {
        UpdateModel {
            ino: self.ino,
            hash: text::opt_text(self.hash),
            etag: text::opt_text(self.etag),
            size: self.size,
            mtime: self.mtime,
        }
    }
}

/// What a list of updates holds.
pub open spec fn update_models(us: Seq<RemoteUpdate>) -> Seq<UpdateModel> {
    us.map_values(|u: RemoteUpdate| u@)
}

/// The remote changes that a round of listings shows.
#[derive(Debug)]
pub struct PollDiff {
    pub updates: Vec<RemoteUpdate>,
    pub deletions: Vec<u64>,
}

/// The last entry for a file at `path`.
pub open spec fn remote_file(es: Seq<TreeModel>, path: Seq<char>) -> Option<TreeModel>
    decreases es.len(),
{
    if es.len() == 0 {
        None
    } else if es.last().entry_type == "file"@ && es.last().path == path {
        Some(es.last())
    } else {
        remote_file(es.drop_last(), path)
    }
}

/// Content has changed: by xet hash where either side has one, else by OID against ETag.
pub open spec fn content_changed(
    local_hash: Option<Seq<char>>,
    local_etag: Option<Seq<char>>,
    remote_hash: Option<Seq<char>>,
    remote_etag: Option<Seq<char>>,
) -> bool {
    if local_hash is Some || remote_hash is Some {
        remote_hash != local_hash
    } else {
        remote_etag != local_etag
    }
}

/// Whether content has changed: by xet hash where either side has one, else by ETag.
pub fn is_changed(
    local_hash: &Option<String>,
    local_etag: &Option<String>,
    remote_hash: &Option<String>,
    remote_etag: &Option<String>,
) -> (r: bool)
    ensures
        r == content_changed(
            text::opt_text(*local_hash),
            text::opt_text(*local_etag),
            text::opt_text(*remote_hash),
            text::opt_text(*remote_etag),
        ),
{
    if local_hash.is_some() || remote_hash.is_some() {
        !opt_eq(remote_hash, local_hash)
    } else {
        !opt_eq(remote_etag, local_etag)
    }
}

/// The size of an entry, 0 where it has none.
pub open spec fn entry_size(e: TreeModel) -> u64 {
    match e.size {
        Some(size) => size,
        None => 0,
    }
}

/// The update that a local file needs, if the listings show a change. A dirty file needs none:
/// local writes take precedence until they are flushed.
pub open spec fn update_of(
    row: SnapshotModel,
    es: Seq<TreeModel>,
    now: Timestamp,
) -> Option<UpdateModel> {
    let (ino, path, hash, etag, size, dirty) = row;
    match remote_file(es, path) {
        Some(remote) => if !dirty && (content_changed(hash, etag, remote.xet_hash, remote.oid)
            || entry_size(remote) != size) {
            Some(
                UpdateModel {
                    ino,
                    hash: remote.xet_hash,
                    etag: remote.oid,
                    size: entry_size(remote),
                    mtime: match remote.mtime {
                        Some(s) => hub_api::mtime_of(hub_api::rfc3339_seconds(s)),
                        None => now,
                    },
                },
            )
        } else {
            None
        },
        None => None,
    }
}

/// The inode of a local file that is gone remotely: not dirty, not listed, and in a directory of
/// which it is known what is in it.
pub open spec fn deletion_of(
    row: SnapshotModel,
    es: Seq<TreeModel>,
    polled: Seq<Seq<char>>,
) -> Option<u64> {
    let (ino, path, hash, etag, size, dirty) = row;
    if !dirty && remote_file(es, path) is None && polled.contains(text::spec_parent_path(path)) {
        Some(ino)
    } else {
        None
    }
}

/// The updates that a poll finds.
pub open spec fn found_updates(
    rows: Seq<SnapshotModel>,
    es: Seq<TreeModel>,
    now: Timestamp,
) -> Seq<UpdateModel> {
    rows.filter_map(|row: SnapshotModel| update_of(row, es, now))
}

/// The deletions that a poll finds.
pub open spec fn found_deletions(
    rows: Seq<SnapshotModel>,
    es: Seq<TreeModel>,
    polled: Seq<Seq<char>>,
) -> Seq<u64> {
    rows.filter_map(|row: SnapshotModel| deletion_of(row, es, polled))
}

/// The position of the last file entry for each path.
fn file_index(entries: &Vec<TreeEntry>) -> (r: StringHashMap<usize>)
    ensures
        forall|p: Seq<char>| #[trigger]
            r@.contains_key(p) <==> remote_file(hub_api::tree_models(entries@), p) is Some,
        forall|p: Seq<char>| #[trigger]
            r@.contains_key(p) ==> r@[p] < entries@.len() && Some(entries@[r@[p] as int]@)
                == remote_file(hub_api::tree_models(entries@), p),
{
    let ghost es = hub_api::tree_models(entries@);
    let mut out: StringHashMap<usize> = StringHashMap::new();
    let mut i: usize = 0;
    while i < entries.len()
        invariant
            i <= entries.len(),
            es == hub_api::tree_models(entries@),
            forall|p: Seq<char>| #[trigger]
                out@.contains_key(p) <==> remote_file(es.take(i as int), p) is Some,
            forall|p: Seq<char>| #[trigger]
                out@.contains_key(p) ==> out@[p] < entries@.len() && Some(
                    entries@[out@[p] as int]@,
                ) == remote_file(es.take(i as int), p),
        decreases entries.len() - i,
    {
        assert(es.take(i + 1).drop_last() =~= es.take(i as int));
        assert(es.take(i + 1).last() == entries@[i as int]@);
        if str_eq(entries[i].entry_type.as_str(), "file") {
            out.insert(entries[i].path.clone(), i);
        }
        i += 1;
    }
    assert(es.take(i as int) =~= es);
    out
}

/// Compare a snapshot of the local files with a round of listings. `polled` are the directories of
/// which it is known what is in them; `now` stands in for a missing modification time.
pub fn poll_diff(
    snapshot: &Vec<(u64, String, Option<String>, Option<String>, u64, bool)>,
    remote_entries: &Vec<TreeEntry>,
    polled_prefixes: &Vec<String>,
    now: Timestamp,
) -> (r: PollDiff)
    ensures
        update_models(r.updates@) == found_updates(
            inode::snapshot_models(snapshot@),
            hub_api::tree_models(remote_entries@),
            now,
        ),
        r.deletions@ == found_deletions(
            inode::snapshot_models(snapshot@),
            hub_api::tree_models(remote_entries@),
            text::texts(polled_prefixes@),
        ),
{
    let ghost es = hub_api::tree_models(remote_entries@);
    let ghost ps = text::texts(polled_prefixes@);
    let ghost rows = inode::snapshot_models(snapshot@);
    let ghost up = |row: SnapshotModel| update_of(row, es, now);
    let ghost del = |row: SnapshotModel| deletion_of(row, es, ps);
    let index = file_index(remote_entries);
    let polled = string_set(polled_prefixes);
    let mut updates: Vec<RemoteUpdate> = Vec::new();
    let mut deletions: Vec<u64> = Vec::new();
    let mut i: usize = 0;
    proof {
        reveal(Seq::filter_map);
        assert(rows.take(0) =~= Seq::empty());
        assert(update_models(updates@) =~= rows.take(0).filter_map(up));
        assert(deletions@ =~= rows.take(0).filter_map(del));
    }
    while i < snapshot.len()
        invariant
            i <= snapshot.len(),
            es == hub_api::tree_models(remote_entries@),
            ps == text::texts(polled_prefixes@),
            rows == inode::snapshot_models(snapshot@),
            up == (|row: SnapshotModel| update_of(row, es, now)),
            del == (|row: SnapshotModel| deletion_of(row, es, ps)),
            forall|p: Seq<char>| #[trigger]
                index@.contains_key(p) <==> remote_file(es, p) is Some,
            forall|p: Seq<char>| #[trigger]
                index@.contains_key(p) ==> index@[p] < remote_entries@.len() && Some(
                    remote_entries@[index@[p] as int]@,
                ) == remote_file(es, p),
            forall|p: Seq<char>| #[trigger] polled@.contains_key(p) <==> ps.contains(p),
            update_models(updates@) == rows.take(i as int).filter_map(up),
            deletions@ == rows.take(i as int).filter_map(del),
        decreases snapshot.len() - i,
    {
        let row = &snapshot[i];
        proof {
            rows.lemma_filter_map_take_succ(up, i as int);
            rows.lemma_filter_map_take_succ(del, i as int);
            assert(rows[i as int] == inode::snapshot_model(*row));
        }
        if !row.5 {
            match index.get(row.1.as_str()) {
                Some(at) => {
                    let remote = &remote_entries[*at];
                    let size: u64 = match remote.size {
                        Some(size) => size,
                        None => 0,
                    };
                    if is_changed(&row.2, &row.3, &remote.xet_hash, &remote.oid) || size != row.4 {
                        let mtime = match &remote.mtime {
                            Some(s) => mtime_from_str(s.as_str()),
                            None => now,
                        };
                        let update = RemoteUpdate {
                            ino: row.0,
                            hash: clone_opt(&remote.xet_hash),
                            etag: clone_opt(&remote.oid),
                            size,
                            mtime,
                        };
                        let ghost before = updates@;
                        assert(Some(update@) == up(rows[i as int]));
                        updates.push(update);
                        assert(update_models(updates@) =~= update_models(before).push(update@));
                    }
                },
                None => {
                    if polled.contains_key(parent_path(row.1.as_str())) {
                        deletions.push(row.0);
                    }
                },
            }
        }
        i += 1;
    }
    assert(rows.take(i as int) =~= rows);
    PollDiff { updates, deletions }
}

/// The table after one remote change: a file that has become dirty or unknown is left alone.
pub open spec fn update_applied(t: TableModel, u: UpdateModel) -> TableModel {
    if t.inodes.contains_key(u.ino) && !t.inodes[u.ino].dirty() {
        t.remote_updated(u.ino, u.hash, u.etag, u.size, u.mtime)
    } else {
        t
    }
}

/// The table after the remote changes, in order.
pub open spec fn updates_applied(t: TableModel, us: Seq<UpdateModel>) -> TableModel
    decreases us.len(),
{
    if us.len() == 0 {
        t
    } else {
        update_applied(updates_applied(t, us.drop_last()), us.last())
    }
}

/// A remote deletion takes effect on `ino`: it is known and not dirty.
pub open spec fn deletable(t: TableModel, ino: u64) -> bool {
    t.inodes.contains_key(ino) && !t.inodes[ino].dirty()
}

/// The table after one remote deletion. A dirty file stays; one with open handles loses its name
/// but stays readable through them.
pub open spec fn deletion_applied(t: TableModel, ino: u64, now: Timestamp) -> TableModel {
    if !deletable(t, ino) {
        t
    } else if t.inodes[ino].eviction.open_handles > 0 {
        t.unlinked(t.inodes[ino].parent, t.inodes[ino].name, now)
    } else {
        t.removed(ino)
    }
}

/// The table after the remote deletions, in order.
pub open spec fn deletions_applied(t: TableModel, dels: Seq<u64>, now: Timestamp) -> TableModel
    decreases dels.len(),
{
    if dels.len() == 0 {
        t
    } else {
        deletion_applied(deletions_applied(t, dels.drop_last(), now), dels.last(), now)
    }
}

/// The inodes that the kernel has to drop from its cache for the deletions: each deleted inode
/// behind its parent.
pub open spec fn deletions_invalidated(
    t: TableModel,
    dels: Seq<u64>,
    now: Timestamp,
) -> Seq<u64>
    decreases dels.len(),
{
    if dels.len() == 0 {
        Seq::empty()
    } else {
        let before = deletions_applied(t, dels.drop_last(), now);
        let low = deletions_invalidated(t, dels.drop_last(), now);
        if deletable(before, dels.last()) {
            low.push(before.inodes[dels.last()].parent).push(dels.last())
        } else {
            low
        }
    }
}

/// The nearest directory above `path` that is known, with the path it is known by.
pub open spec fn nearest_dir(t: TableModel, path: Seq<char>) -> (u64, Seq<char>)
    decreases path.len(),
{
    let up = text::spec_parent_path(path);
    match t.dir_at(up) {
        Some(ino) => (ino, up),
        None => if up.len() == 0 {
            (ROOT_INODE, up)
        } else {
            proof {
                text::lemma_split_last(path, '/');
            }
            nearest_dir(t, up)
        },
    }
}

/// The path leads to an inode in the table.
pub open spec fn path_known(t: TableModel, path: Seq<char>) -> bool {
    t.paths.contains_key(path) && t.inodes.contains_key(t.paths[path])
}

/// An inode number is in a list of pairs.
pub open spec fn has_ino(dirs: Seq<(u64, Seq<char>)>, ino: u64) -> bool {
    exists|i: int| 0 <= i < dirs.len() && (#[trigger] dirs[i]).0 == ino
}

/// The directories to list again because of new remote entries: for each entry that is not known,
/// the nearest directory above it, if that has been listed. Each once.
pub open spec fn dirs_to_refresh(t: TableModel, es: Seq<TreeModel>) -> Seq<(u64, Seq<char>)>
    decreases es.len(),
{
    if es.len() == 0 {
        Seq::empty()
    } else {
        let low = dirs_to_refresh(t, es.drop_last());
        let dir = nearest_dir(t, es.last().path);
        if !path_known(t, es.last().path) && t.inodes.contains_key(dir.0)
            && t.inodes[dir.0].children_loaded && !has_ino(low, dir.0) {
            low.push(dir)
        } else {
            low
        }
    }
}

/// The table with these directories to be listed again.
pub open spec fn refreshed(t: TableModel, dirs: Seq<u64>) -> TableModel
    decreases dirs.len(),
{
    if dirs.len() == 0 {
        t
    } else {
        refreshed(t, dirs.drop_last()).updated(
            dirs.last(),
            |e: EntryModel| EntryModel { children_loaded: false, ..e },
        )
    }
}

/// The nearest directory above `path` that is known, with the path it is known by.
fn find_nearest_dir(inodes: &InodeTable, path: &str) -> (r: (u64, String))
    ensures
        (r.0, r.1@) == nearest_dir(inodes@, path@),
    decreases path@.len(),
{
    let up = parent_path(path);
    match inodes.get_dir_ino(up) {
        Some(ino) => (ino, up.to_owned()),
        None => if up.is_empty() {
            (ROOT_INODE, up.to_owned())
        } else {
            find_nearest_dir(inodes, up)
        },
    }
}

/// What the paths of a list of directories are.
pub open spec fn dir_models(dirs: Seq<(u64, String)>) -> Seq<(u64, Seq<char>)> {
    dirs.map_values(|d: (u64, String)| (d.0, d.1@))
}

/// The inode numbers of a list of directories.
pub open spec fn dir_inos(dirs: Seq<(u64, Seq<char>)>) -> Seq<u64> {
    dirs.map_values(|d: (u64, Seq<char>)| d.0)
}

/// The paths of a list of directories.
pub open spec fn dir_paths(dirs: Seq<(u64, Seq<char>)>) -> Seq<Seq<char>> {
    dirs.map_values(|d: (u64, Seq<char>)| d.1)
}

/// The directories to list again because of new remote entries.
fn find_dirs_to_refresh(inodes: &InodeTable, entries: &Vec<TreeEntry>) -> (r: Vec<(u64, String)>)
    ensures
        dir_models(r@) == dirs_to_refresh(inodes@, hub_api::tree_models(entries@)),
{
    let ghost es = hub_api::tree_models(entries@);
    let mut out: Vec<(u64, String)> = Vec::new();
    let mut seen: HashSet<u64> = HashSet::new();
    let mut i: usize = 0;
    assert(es.take(0) =~= Seq::empty());
    assert(dir_models(out@) =~= dirs_to_refresh(inodes@, es.take(0)));
    while i < entries.len()
        invariant
            i <= entries.len(),
            es == hub_api::tree_models(entries@),
            dir_models(out@) == dirs_to_refresh(inodes@, es.take(i as int)),
            forall|ino: u64| #[trigger] seen@.contains(ino) <==> has_ino(dir_models(out@), ino),
        decreases entries.len() - i,
    {
        assert(es.take(i + 1).drop_last() =~= es.take(i as int));
        assert(es.take(i + 1).last() == entries@[i as int]@);
        let path = entries[i].path.as_str();
        if inodes.get_by_path(path).is_none() {
            let dir = find_nearest_dir(inodes, path);
            let known = seen.contains(&dir.0);
            if inodes.is_children_loaded(dir.0) && !known {
                let ghost before = out@;
                let ino: u64 = dir.0;
                let ghost model = (dir.0, dir.1@);
                out.push(dir);
                let _ = seen.insert(ino);
                proof {
                    let a = dir_models(before);
                    let b = dir_models(out@);
                    assert(b =~= a.push(model));
                    assert forall|x: u64| #[trigger] has_ino(b, x) <==> has_ino(a, x) || x
                        == ino by {
                        if has_ino(a, x) {
                            let j = choose|j: int| 0 <= j < a.len() && (#[trigger] a[j]).0 == x;
                            assert(b[j].0 == x);
                        }
                        if has_ino(b, x) {
                            let j = choose|j: int| 0 <= j < b.len() && (#[trigger] b[j]).0 == x;
                            if j < a.len() {
                                assert(a[j].0 == x);
                            }
                        }
                        assert(b[a.len() as int].0 == ino);
                    }
                }
            }
        }
        i += 1;
    }
    assert(es.take(i as int) =~= es);
    out
}

/// The table after a round of polling.
pub open spec fn polled_table(
    t: TableModel,
    us: Seq<UpdateModel>,
    dels: Seq<u64>,
    es: Seq<TreeModel>,
    now: Timestamp,
) -> TableModel {
    let changed = deletions_applied(updates_applied(t, us), dels, now);
    refreshed(changed, dir_inos(dirs_to_refresh(changed, es)))
}

/// The inodes that the kernel has to drop from its cache after a round of polling: those updated,
/// those deleted with their parents, and the directories to be listed again.
pub open spec fn polled_invalidations(
    t: TableModel,
    us: Seq<UpdateModel>,
    dels: Seq<u64>,
    es: Seq<TreeModel>,
    now: Timestamp,
) -> Seq<u64> {
    let updated = updates_applied(t, us);
    let changed = deletions_applied(updated, dels, now);
    us.map_values(|u: UpdateModel| u.ino) + deletions_invalidated(updated, dels, now) + dir_inos(
        dirs_to_refresh(changed, es),
    )
}

/// Apply a diff to the table: updates, deletions (both checked anew, the table may have moved on
/// since the snapshot), and directories to list again because of new remote entries, with what the
/// negative cache knows below them. Returns the inodes that the kernel has to drop from its cache.
pub fn apply_poll_diff(
    inodes: &mut InodeTable,
    negative: &mut NegativeCache,
    diff: &PollDiff,
    remote_entries: &Vec<TreeEntry>,
    now: Timestamp,
) -> (r: Vec<u64>)
    ensures
        final(inodes)@ == polled_table(
            old(inodes)@,
            update_models(diff.updates@),
            diff.deletions@,
            hub_api::tree_models(remote_entries@),
            now,
        ),
        r@ == polled_invalidations(
            old(inodes)@,
            update_models(diff.updates@),
            diff.deletions@,
            hub_api::tree_models(remote_entries@),
            now,
        ),
        final(negative)@ == negative_cache::uncovered(
            old(negative)@,
            dir_paths(
                dirs_to_refresh(
                    deletions_applied(
                        updates_applied(old(inodes)@, update_models(diff.updates@)),
                        diff.deletions@,
                        now,
                    ),
                    hub_api::tree_models(remote_entries@),
                ),
            ),
        ),
        old(negative).wf() ==> final(negative).wf(),
{
    let ghost start = inodes@;
    let ghost us = update_models(diff.updates@);
    let ghost es = hub_api::tree_models(remote_entries@);
    let mut stale: Vec<u64> = Vec::new();
    let mut i: usize = 0;
    let ghost pick = |u: UpdateModel| u.ino;
    assert(us.take(0) =~= Seq::empty());
    assert(stale@ =~= us.take(0).map_values(pick));
    while i < diff.updates.len()
        invariant
            i <= diff.updates.len(),
            us == update_models(diff.updates@),
            pick == (|u: UpdateModel| u.ino),
            inodes@ == updates_applied(start, us.take(i as int)),
            stale@ == us.take(i as int).map_values(pick),
        decreases diff.updates.len() - i,
    {
        let u = &diff.updates[i];
        proof {
            assert(us.take(i + 1).drop_last() =~= us.take(i as int));
            assert(us.take(i + 1).last() == u@);
        }
        let _ = inodes.update_remote_file(
            u.ino,
            clone_opt(&u.hash),
            clone_opt(&u.etag),
            u.size,
            u.mtime,
        );
        stale.push(u.ino);
        assert(stale@ =~= us.take(i + 1).map_values(pick));
        i += 1;
    }
    assert(us.take(i as int) =~= us);
    let ghost updated = inodes@;
    let ghost dels = diff.deletions@;
    let ghost first = stale@;
    let mut j: usize = 0;
    assert(dels.take(0) =~= Seq::empty());
    assert(first + deletions_invalidated(updated, dels.take(0), now) =~= first);
    while j < diff.deletions.len()
        invariant
            j <= diff.deletions.len(),
            dels == diff.deletions@,
            inodes@ == deletions_applied(updated, dels.take(j as int), now),
            stale@ == first + deletions_invalidated(updated, dels.take(j as int), now),
        decreases diff.deletions.len() - j,
    {
        let ino: u64 = diff.deletions[j];
        proof {
            assert(dels.take(j + 1).drop_last() =~= dels.take(j as int));
            assert(dels.take(j + 1).last() == ino);
        }
        let ghost low = deletions_invalidated(updated, dels.take(j as int), now);
        let target: Option<(u64, String)> = match inodes.get(ino) {
            Some(entry) => if entry.is_dirty() {
                None
            } else {
                Some((entry.parent, entry.name.clone()))
            },
            None => None,
        };
        if let Some((parent, name)) = target {
            if inodes.has_open_handles(ino) {
                let _ = inodes.unlink_one_at(parent, name.as_str(), now);
            } else {
                let _ = inodes.remove(ino);
            }
            stale.push(parent);
            stale.push(ino);
            assert(first + low.push(parent).push(ino) =~= (first + low).push(parent).push(ino));
        }
        j += 1;
    }
    assert(dels.take(j as int) =~= dels);
    let ghost changed = inodes@;
    let ghost second = stale@;
    let dirs = find_dirs_to_refresh(&*inodes, remote_entries);
    let ghost models = dir_models(dirs@);
    let ghost inos = dir_inos(models);
    let mut paths: Vec<String> = Vec::new();
    let mut k: usize = 0;
    assert(inos.take(0) =~= Seq::empty());
    assert(second + inos.take(0) =~= second);
    assert(text::texts(paths@) =~= dir_paths(models).take(0));
    while k < dirs.len()
        invariant
            k <= dirs.len(),
            models == dir_models(dirs@),
            inos == dir_inos(models),
            inodes@ == refreshed(changed, inos.take(k as int)),
            stale@ == second + inos.take(k as int),
            text::texts(paths@) == dir_paths(models).take(k as int),
        decreases dirs.len() - k,
    {
        let ino: u64 = dirs[k].0;
        proof {
            assert(inos.take(k + 1).drop_last() =~= inos.take(k as int));
            assert(inos.take(k + 1).last() == ino);
            assert(second + inos.take(k + 1) =~= (second + inos.take(k as int)).push(ino));
        }
        inodes.invalidate_children(ino);
        stale.push(ino);
        let ghost before = paths@;
        paths.push(dirs[k].1.clone());
        assert(text::texts(paths@) =~= text::texts(before).push(dirs@[k as int].1@));
        assert(dir_paths(models).take(k + 1) =~= dir_paths(models).take(k as int).push(
            dirs@[k as int].1@,
        ));
        k += 1;
    }
    assert(inos.take(k as int) =~= inos);
    assert(dir_paths(models).take(k as int) =~= dir_paths(models));
    negative.prune(&paths);
    stale
}

} // verus!
