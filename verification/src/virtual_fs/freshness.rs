//! How the mount comes to show what the remote has.
use crate::hub_api;
use crate::hub_api::{HeadFileInfo, TreeModel};
use crate::text;
use crate::time::{Duration, Timestamp};
use crate::virtual_fs::entries;
use crate::virtual_fs::inode::{EntryModel, InodeKind, SnapshotModel, ROOT_INODE};
use crate::virtual_fs::laws;
use crate::virtual_fs::lookup;
use crate::virtual_fs::lookup::{HeadPlan, LookupPlan, LookupStep};
use crate::virtual_fs::model;
use crate::virtual_fs::model::{NewInode, TableModel};
use crate::virtual_fs::negative_cache;
use crate::virtual_fs::poll;
use crate::virtual_fs::poll::{ListingModel, UpdateModel};
use crate::virtual_fs::tree;
use crate::virtual_fs::{Errno, VirtualFs, VirtualFsAttr, VirtualFsResult};
use std::time::Instant;
use vstd::prelude::*;

verus! {

/// Entry `k` is the last one for a file at `path`.
pub open spec fn lists_file(es: Seq<TreeModel>, k: int, path: Seq<char>) -> bool {
    &&& 0 <= k < es.len()
    &&& es[k].entry_type == "file"@
    &&& es[k].path == path
    &&& forall|j: int|
        k < j < es.len() ==> (#[trigger] es[j]).entry_type != "file"@ || es[j].path != path
}

/// No entry is for a file at `path`.
pub open spec fn lists_no_file(es: Seq<TreeModel>, path: Seq<char>) -> bool {
    forall|j: int|
        0 <= j < es.len() ==> (#[trigger] es[j]).entry_type != "file"@ || es[j].path != path
}

/// The path is the directory's and a name: only the name in the top directory.
pub open spec fn is_named_in(dir: Seq<char>, name: Seq<char>, path: Seq<char>) -> bool {
    &&& !name.contains('/')
    &&& path == dir + seq!['/'] + name || (dir.len() == 0 && path == name)
}

/// The path is directly in the directory at `dir`.
pub open spec fn is_in(dir: Seq<char>, path: Seq<char>) -> bool {
    exists|name: Seq<char>| #[trigger] is_named_in(dir, name, path)
}

/// The listed size, 0 where there is none.
pub open spec fn listed_size(e: TreeModel) -> u64 {
    if e.size is Some {
        e.size->Some_0
    } else {
        0
    }
}

proof fn lemma_listed(es: Seq<TreeModel>, k: int, path: Seq<char>)
    requires
        lists_file(es, k, path),
    ensures
        poll::remote_file(es, path) == Some(es[k]),
    decreases es.len(),
{
    if k < es.len() - 1 {
        let low = es.drop_last();
        assert(es[es.len() - 1] == es.last());
        assert forall|j: int| k < j < low.len() implies (#[trigger] low[j]).entry_type != "file"@
            || low[j].path != path by {
            assert(low[j] == es[j]);
        }
        lemma_listed(low, k, path);
    }
}

proof fn lemma_not_listed(es: Seq<TreeModel>, path: Seq<char>)
    requires
        lists_no_file(es, path),
    ensures
        poll::remote_file(es, path) is None,
    decreases es.len(),
{
    if es.len() > 0 {
        let low = es.drop_last();
        assert(es[es.len() - 1] == es.last());
        assert forall|j: int| 0 <= j < low.len() implies (#[trigger] low[j]).entry_type != "file"@
            || low[j].path != path by {
            assert(low[j] == es[j]);
        }
        lemma_not_listed(low, path);
    }
}

proof fn lemma_where_listed(es: Seq<TreeModel>, path: Seq<char>) -> (k: int)
    requires
        !lists_no_file(es, path),
    ensures
        lists_file(es, k, path),
    decreases es.len(),
{
    let n = es.len() - 1;
    let low = es.drop_last();
    if es[n].entry_type == "file"@ && es[n].path == path {
        n
    } else {
        let j = choose|j: int|
            0 <= j < es.len() && !((#[trigger] es[j]).entry_type != "file"@ || es[j].path != path);
        assert(low[j] == es[j]);
        let k = lemma_where_listed(low, path);
        assert(low[k] == es[k]);
        assert forall|i: int| k < i < es.len() implies (#[trigger] es[i]).entry_type != "file"@
            || es[i].path != path by {
            if i < n {
                assert(low[i] == es[i]);
            }
        }
        k
    }
}

/// A poll notices every change of a file without local changes: of its hash, of its OID where
/// neither side has a hash, and of its size. The update is to what is listed.
pub proof fn law_poll_notices_changes(
    rows: Seq<SnapshotModel>,
    es: Seq<TreeModel>,
    now: Timestamp,
    i: int,
    k: int,
)
    requires
        0 <= i < rows.len(),
        !rows[i].5,
        lists_file(es, k, rows[i].1),
        es[k].xet_hash != rows[i].2 || (es[k].xet_hash is None && rows[i].2 is None && es[k].oid
            != rows[i].3) || listed_size(es[k]) != rows[i].4,
    ensures
        exists|m: int|
            0 <= m < poll::found_updates(rows, es, now).len() && {
                let u = #[trigger] poll::found_updates(rows, es, now)[m];
                &&& u.ino == rows[i].0
                &&& u.hash == es[k].xet_hash
                &&& u.etag == es[k].oid
                &&& u.size == listed_size(es[k])
                &&& es[k].mtime is None ==> u.mtime == now
                &&& es[k].mtime matches Some(text) ==> u.mtime == hub_api::mtime_of(
                    hub_api::rfc3339_seconds(text),
                )
            },
{
    lemma_listed(es, k, rows[i].1);
    let f = |row: SnapshotModel| poll::update_of(row, es, now);
    model::lemma_picked(rows, f, i);
    let us = poll::found_updates(rows, es, now);
    let u = f(rows[i])->Some_0;
    let m = choose|m: int| 0 <= m < us.len() && us[m] == u;
    assert(us[m].ino == rows[i].0);
}

/// A poll updates nothing but files without local changes that are listed otherwise than they are
/// on record.
pub proof fn law_poll_updates_only_what_changed(
    rows: Seq<SnapshotModel>,
    es: Seq<TreeModel>,
    now: Timestamp,
    m: int,
)
    requires
        0 <= m < poll::found_updates(rows, es, now).len(),
    ensures
        exists|i: int, k: int|
            #![trigger rows[i], es[k]]
            0 <= i < rows.len() && lists_file(es, k, rows[i].1) && !rows[i].5 && {
                let u = poll::found_updates(rows, es, now)[m];
                &&& u.ino == rows[i].0
                &&& u.hash == es[k].xet_hash
                &&& u.etag == es[k].oid
                &&& u.size == listed_size(es[k])
                &&& es[k].xet_hash != rows[i].2 || es[k].oid != rows[i].3 || listed_size(es[k])
                    != rows[i].4
            },
{
    let us = poll::found_updates(rows, es, now);
    let f = |row: SnapshotModel| poll::update_of(row, es, now);
    assert(us.contains(us[m]));
    rows.lemma_filter_map_contains(f, us[m]);
    let row = choose|row: SnapshotModel| #[trigger] rows.contains(row) && f(row) == Some(us[m]);
    let i = choose|i: int| 0 <= i < rows.len() && rows[i] == row;
    if lists_no_file(es, row.1) {
        lemma_not_listed(es, row.1);
    }
    let k = lemma_where_listed(es, row.1);
    lemma_listed(es, k, row.1);
    assert(rows[i] == row && es[k].path == row.1);
}

/// A poll finds a file deleted exactly if it has no local changes, is not listed, and the directory
/// it is in was polled.
pub proof fn law_poll_notices_deletions(
    rows: Seq<SnapshotModel>,
    es: Seq<TreeModel>,
    polled: Seq<Seq<char>>,
    ino: u64,
)
    ensures
        poll::found_deletions(rows, es, polled).contains(ino) <==> exists|i: int|
            #![trigger rows[i]]
            0 <= i < rows.len() && rows[i].0 == ino && !rows[i].5 && lists_no_file(es, rows[i].1)
                && exists|dir: Seq<char>| #[trigger]
                polled.contains(dir) && is_in(dir, rows[i].1),
{
    let dels = poll::found_deletions(rows, es, polled);
    let f = |row: SnapshotModel| poll::deletion_of(row, es, polled);
    if dels.contains(ino) {
        rows.lemma_filter_map_contains(f, ino);
        let row = choose|row: SnapshotModel| #[trigger] rows.contains(row) && f(row) == Some(ino);
        let i = choose|i: int| 0 <= i < rows.len() && rows[i] == row;
        if !lists_no_file(es, row.1) {
            let k = lemma_where_listed(es, row.1);
            lemma_listed(es, k, row.1);
        }
        lemma_in_its_dir(row.1);
        assert(polled.contains(text::spec_parent_path(row.1)));
        assert(rows[i].0 == ino);
    }
    if exists|i: int|
        #![trigger rows[i]]
        0 <= i < rows.len() && rows[i].0 == ino && !rows[i].5 && lists_no_file(es, rows[i].1)
            && exists|dir: Seq<char>| #[trigger]
            polled.contains(dir) && is_in(dir, rows[i].1) {
        let i = choose|i: int|
            #![trigger rows[i]]
            0 <= i < rows.len() && rows[i].0 == ino && !rows[i].5 && lists_no_file(es, rows[i].1)
                && exists|dir: Seq<char>| #[trigger]
                polled.contains(dir) && is_in(dir, rows[i].1);
        let dir = choose|dir: Seq<char>| #[trigger]
            polled.contains(dir) && is_in(dir, rows[i].1);
        lemma_dir_of(dir, rows[i].1);
        lemma_not_listed(es, rows[i].1);
        model::lemma_picked(rows, f, i);
    }
}

/// A path is directly in one directory.
pub proof fn lemma_dir_of(dir: Seq<char>, path: Seq<char>)
    requires
        is_in(dir, path),
    ensures
        text::spec_parent_path(path) == dir,
{
    let name = choose|name: Seq<char>| #[trigger] is_named_in(dir, name, path);
    let end = path.len() - name.len();
    assert forall|j: int| end <= j < path.len() implies path[j] != '/' by {
        assert(path[j] == name[j - end]);
        assert(name.contains(name[j - end]));
    }
    text::lemma_split_last_at(path, '/', end);
    if end > 0 {
        assert(path.take(end - 1) =~= dir);
    } else {
        assert(dir =~= Seq::empty());
    }
}

proof fn lemma_in_its_dir(path: Seq<char>)
    ensures
        is_in(text::spec_parent_path(path), path),
{
    text::lemma_split_last(path, '/');
    match text::split_last(path, '/') {
        Some((dir, name)) => assert(is_named_in(dir, name, path)),
        None => assert(is_named_in(Seq::empty(), path, path)),
    }
}

/// Of the updates of one inode that agree with each other, what they say is what it becomes.
proof fn lemma_update_lands(t: TableModel, us: Seq<UpdateModel>, x: u64, like: UpdateModel)
    requires
        tree::wf(t),
        t.inodes.contains_key(x),
        t.inodes[x].dirty_generation == 0,
        forall|m: int| 0 <= m < us.len() && (#[trigger] us[m]).ino == x ==> us[m] == like,
    ensures
        poll::updates_applied(t, us).inodes.contains_key(x),
        poll::updates_applied(t, us).inodes[x] == t.inodes[x] || poll::updates_applied(
            t,
            us,
        ).inodes[x] == (EntryModel {
            xet_hash: like.hash,
            etag: like.etag,
            size: like.size,
            mtime: like.mtime,
            staging_is_current: false,
            ..t.inodes[x]
        }),
        (forall|m: int| 0 <= m < us.len() ==> (#[trigger] us[m]).ino != x)
            ==> poll::updates_applied(t, us).inodes[x] == t.inodes[x],
        (exists|m: int| 0 <= m < us.len() && (#[trigger] us[m]).ino == x) ==> {
            &&& poll::updates_applied(t, us).inodes[x].xet_hash == like.hash
            &&& poll::updates_applied(t, us).inodes[x].etag == like.etag
            &&& poll::updates_applied(t, us).inodes[x].size == like.size
            &&& poll::updates_applied(t, us).inodes[x].mtime == like.mtime
            &&& !poll::updates_applied(t, us).inodes[x].staging_is_current
        },
    decreases us.len(),
{
    if us.len() > 0 {
        let front = us.drop_last();
        assert(us[us.len() - 1] == us.last());
        assert forall|m: int| 0 <= m < front.len() && (#[trigger] front[m]).ino
            == x implies front[m] == like by {
            assert(front[m] == us[m]);
        }
        lemma_update_lands(t, front, x, like);
        if us.last().ino != x {
            if exists|m: int| 0 <= m < us.len() && (#[trigger] us[m]).ino == x {
                let m = choose|m: int| 0 <= m < us.len() && (#[trigger] us[m]).ino == x;
                assert(front[m].ino == x);
            }
            if forall|m: int| 0 <= m < us.len() ==> (#[trigger] us[m]).ino != x {
                assert forall|m: int| 0 <= m < front.len() implies (#[trigger] front[m]).ino
                    != x by {
                    assert(front[m] == us[m]);
                }
            }
        }
    }
}

/// Deletions bring nothing into the table, and change the kind of nothing.
proof fn lemma_kinds_stay(t: TableModel, dels: Seq<u64>, now: Timestamp, x: u64)
    requires
        poll::deletions_applied(t, dels, now).inodes.contains_key(x),
    ensures
        t.inodes.contains_key(x),
        poll::deletions_applied(t, dels, now).inodes[x].kind == t.inodes[x].kind,
    decreases dels.len(),
{
    if dels.len() > 0 {
        lemma_kinds_stay(t, dels.drop_last(), now, x);
    }
}

/// Deleting files one after the other deletes each of them: from the table, or from its directory
/// while a handle is open on it.
proof fn lemma_deletion_lands(t: TableModel, dels: Seq<u64>, x: u64, now: Timestamp)
    requires
        tree::wf(t),
        laws::proper_deletions(t, dels),
        t.inodes.contains_key(x),
        t.inodes[x].dirty_generation == 0,
        dels.contains(x),
    ensures
        poll::deletions_applied(t, dels, now).inodes.contains_key(x) <==> t.inodes[x].eviction.open_handles
            > 0,
        t.inodes[x].eviction.open_handles > 0 ==> poll::deletions_applied(t, dels, now).inodes[x].nlink
            == 0,
    decreases dels.len(),
{
    let front = dels.drop_last();
    let low = poll::deletions_applied(t, front, now);
    let r = poll::deletions_applied(t, dels, now);
    let last = dels.last();
    assert(dels[dels.len() - 1] == last);
    assert(laws::proper_deletions(t, front)) by {
        assert forall|i: int|
            0 <= i < front.len() && t.inodes.contains_key(#[trigger] front[i]) implies t.inodes[front[i]].kind
            == InodeKind::File && t.inodes[front[i]].nlink > 0 by {
            assert(front[i] == dels[i]);
        }
    }
    laws::lemma_deletions(t, front, now);
    assert(!front.contains(last)) by {
        if front.contains(last) {
            let i = choose|i: int| 0 <= i < front.len() && front[i] == last;
            assert(dels[i] == dels[dels.len() - 1]);
        }
    }
    if low.inodes.contains_key(last) {
        assert(t.inodes.contains_key(dels[dels.len() - 1]));
        assert(low.inodes[last] == t.inodes[last]);
    }
    laws::lemma_deletion(low, last, now);
    let at = choose|i: int| 0 <= i < dels.len() && dels[i] == x;
    assert(t.inodes.contains_key(dels[at]));
    if at < dels.len() - 1 {
        assert(front[at] == x);
        lemma_deletion_lands(t, front, x, now);
        assert(!seq![last].contains(x)) by {
            assert(dels[at] != dels[dels.len() - 1]);
        }
        if low.inodes.contains_key(x) {
            assert(low.inodes[x].kind == InodeKind::File) by {
                lemma_kinds_stay(t, front, now, x);
            }
        }
    } else {
        assert(low.inodes[x] == t.inodes[x]);
        assert(tree::entry_ok(low, x));
        assert(tree::place_ok(low, x));
        if t.inodes[x].eviction.open_handles > 0 {
            let p = low.inodes[x].parent;
            let name = low.inodes[x].name;
            lemma_unlink_target(low, x);
            assert(low.inodes[p].kind == InodeKind::Directory);
            assert(low.edge_removed(p, name).inodes[x] == low.inodes[x]);
            assert(r.inodes[x].nlink == 0);
        }
    }
}

/// What a poll compares with: a row for each file.
pub open spec fn file_rows(t: TableModel, keys: Seq<u64>) -> Seq<SnapshotModel> {
    keys.map_values(|k: u64| t.inodes[k].snapshot())
}

/// The table after the poll that found what differs from these files.
pub open spec fn after_poll(
    t: TableModel,
    keys: Seq<u64>,
    es: Seq<TreeModel>,
    polled: Seq<Seq<char>>,
    now: Timestamp,
) -> TableModel {
    poll::polled_table(
        t,
        poll::found_updates(file_rows(t, keys), es, now),
        poll::found_deletions(file_rows(t, keys), es, polled),
        es,
        now,
    )
}

/// The row of a file says what it is.
proof fn lemma_row_of(t: TableModel, keys: Seq<u64>, x: u64) -> (i: int)
    requires
        tree::wf(t),
        model::enumerates(keys, t.files()),
        t.inodes.contains_key(x),
        t.inodes[x].kind == InodeKind::File,
    ensures
        0 <= i < keys.len(),
        keys[i] == x,
        file_rows(t, keys)[i] == (
            x,
            t.inodes[x].full_path,
            t.inodes[x].xet_hash,
            t.inodes[x].etag,
            t.inodes[x].size,
            t.inodes[x].dirty_generation > 0,
        ),
        forall|j: int| 0 <= j < keys.len() && (#[trigger] file_rows(t, keys)[j]).0 == x ==> j == i,
{
    assert(t.files().contains(x));
    assert(keys.to_set().contains(x));
    let i = choose|i: int| 0 <= i < keys.len() && keys[i] == x;
    let rows = file_rows(t, keys);
    assert(tree::entry_ok(t, x));
    assert forall|j: int| 0 <= j < keys.len() && (#[trigger] rows[j]).0 == x implies j == i by {
        assert(keys.to_set().contains(keys[j]));
        assert(t.files().contains(keys[j]));
        assert(tree::entry_ok(t, keys[j]));
    }
    i
}

/// After a poll every file without local changes that was listed has the hash and the size it was
/// listed with, and the OID too where it was listed without a hash. What was listed otherwise than
/// it was on record is not read from a staging file any more.
pub proof fn law_polled_files_are_as_listed(
    t: TableModel,
    keys: Seq<u64>,
    es: Seq<TreeModel>,
    polled: Seq<Seq<char>>,
    now: Timestamp,
    x: u64,
    k: int,
)
    requires
        tree::wf(t),
        model::enumerates(keys, t.files()),
        laws::proper_deletions(t, poll::found_deletions(file_rows(t, keys), es, polled)),
        t.inodes.contains_key(x),
        t.inodes[x].kind == InodeKind::File,
        t.inodes[x].dirty_generation == 0,
        lists_file(es, k, t.inodes[x].full_path),
    ensures
        ({
            let r = after_poll(t, keys, es, polled, now);
            &&& r.inodes.contains_key(x)
            &&& r.inodes[x].xet_hash == es[k].xet_hash
            &&& r.inodes[x].size == listed_size(es[k])
            &&& es[k].xet_hash is None ==> r.inodes[x].etag == es[k].oid
            &&& t.inodes[x].xet_hash != es[k].xet_hash ==> !r.inodes[x].staging_is_current
            &&& r.inodes[x].dirty_generation == 0
            &&& r.inodes[x].full_path == t.inodes[x].full_path
            &&& r.inodes[x].nlink == t.inodes[x].nlink
        }),
{
    let rows = file_rows(t, keys);
    let us = poll::found_updates(rows, es, now);
    let dels = poll::found_deletions(rows, es, polled);
    let at = lemma_row_of(t, keys, x);
    let like = UpdateModel {
        ino: x,
        hash: es[k].xet_hash,
        etag: es[k].oid,
        size: listed_size(es[k]),
        mtime: match es[k].mtime {
            Some(text) => hub_api::mtime_of(hub_api::rfc3339_seconds(text)),
            None => now,
        },
    };
    lemma_listed(es, k, t.inodes[x].full_path);
    let up = |row: SnapshotModel| poll::update_of(row, es, now);
    assert forall|m: int| 0 <= m < us.len() && (#[trigger] us[m]).ino == x implies us[m]
        == like by {
        assert(us.contains(us[m]));
        rows.lemma_filter_map_contains(up, us[m]);
        let row = choose|row: SnapshotModel| #[trigger] rows.contains(row) && up(row) == Some(us[m]);
        let j = choose|j: int| 0 <= j < rows.len() && rows[j] == row;
        assert(rows[j].0 == x);
    }
    lemma_update_lands(t, us, x, like);
    if es[k].xet_hash != t.inodes[x].xet_hash || (es[k].xet_hash is None && es[k].oid
        != t.inodes[x].etag) || listed_size(es[k]) != t.inodes[x].size {
        law_poll_notices_changes(rows, es, now, at, k);
    }
    let updated = poll::updates_applied(t, us);
    laws::lemma_updates_in_place(t, us);
    lemma_still_proper(t, us, dels);
    assert(!dels.contains(x)) by {
        if dels.contains(x) {
            law_poll_notices_deletions(rows, es, polled, x);
            let i = choose|i: int|
                #![trigger rows[i]]
                0 <= i < rows.len() && rows[i].0 == x && !rows[i].5 && lists_no_file(es, rows[i].1);
            assert(rows[i].0 == x);
            assert(es[k].path == rows[i].1);
        }
    }
    laws::lemma_deletions(updated, dels, now);
    let changed = poll::deletions_applied(updated, dels, now);
    assert(updated.inodes.contains_key(x));
    assert(changed.inodes.contains_key(x) && changed.inodes[x] == updated.inodes[x]);
    laws::lemma_refreshed_in_place(changed, poll::dir_inos(poll::dirs_to_refresh(changed, es)));
}

/// Updates leave the deletions proper.
proof fn lemma_still_proper(t: TableModel, us: Seq<UpdateModel>, dels: Seq<u64>)
    requires
        tree::wf(t),
        laws::proper_deletions(t, dels),
    ensures
        laws::proper_deletions(poll::updates_applied(t, us), dels),
{
    let updated = poll::updates_applied(t, us);
    laws::lemma_updates_in_place(t, us);
    assert forall|i: int|
        0 <= i < dels.len() && updated.inodes.contains_key(
            #[trigger] dels[i],
        ) implies updated.inodes[dels[i]].kind == InodeKind::File && updated.inodes[dels[i]].nlink
        > 0 by {
        assert(t.inodes.contains_key(dels[i]));
    }
}

/// A file without local changes that was not listed is gone after the poll if its directory was
/// polled: from the table, or from its directory while a handle is open on it. It is as it was if
/// its directory was not polled.
pub proof fn law_poll_drops_what_is_gone(
    t: TableModel,
    keys: Seq<u64>,
    es: Seq<TreeModel>,
    polled: Seq<Seq<char>>,
    now: Timestamp,
    x: u64,
    dir: Seq<char>,
)
    requires
        tree::wf(t),
        model::enumerates(keys, t.files()),
        laws::proper_deletions(t, poll::found_deletions(file_rows(t, keys), es, polled)),
        t.inodes.contains_key(x),
        t.inodes[x].kind == InodeKind::File,
        t.inodes[x].dirty_generation == 0,
        lists_no_file(es, t.inodes[x].full_path),
        is_in(dir, t.inodes[x].full_path),
    ensures
        ({
            let r = after_poll(t, keys, es, polled, now);
            &&& polled.contains(dir) ==> (r.inodes.contains_key(x)
                <==> t.inodes[x].eviction.open_handles > 0)
            &&& polled.contains(dir) && r.inodes.contains_key(x) ==> r.inodes[x].nlink == 0
            &&& !polled.contains(dir) ==> r.inodes.contains_key(x) && (EntryModel {
                children_loaded: t.inodes[x].children_loaded,
                ..r.inodes[x]
            }) == t.inodes[x]
        }),
{
    let rows = file_rows(t, keys);
    let us = poll::found_updates(rows, es, now);
    let dels = poll::found_deletions(rows, es, polled);
    let at = lemma_row_of(t, keys, x);
    let up = |row: SnapshotModel| poll::update_of(row, es, now);
    lemma_not_listed(es, t.inodes[x].full_path);
    assert forall|m: int| 0 <= m < us.len() implies (#[trigger] us[m]).ino != x by {
        assert(us.contains(us[m]));
        rows.lemma_filter_map_contains(up, us[m]);
        let row = choose|row: SnapshotModel| #[trigger] rows.contains(row) && up(row) == Some(us[m]);
        let j = choose|j: int| 0 <= j < rows.len() && rows[j] == row;
        assert(rows[j].0 == row.0);
    }
    let like = UpdateModel { ino: x, hash: None, etag: None, size: 0, mtime: now };
    lemma_update_lands(t, us, x, like);
    let updated = poll::updates_applied(t, us);
    laws::lemma_updates_in_place(t, us);
    lemma_still_proper(t, us, dels);
    laws::lemma_deletions(updated, dels, now);
    let changed = poll::deletions_applied(updated, dels, now);
    assert(updated.inodes.contains_key(x));
    laws::lemma_refreshed_in_place(changed, poll::dir_inos(poll::dirs_to_refresh(changed, es)));
    law_poll_notices_deletions(rows, es, polled, x);
    assert(rows[at].0 == x);
    if polled.contains(dir) {
        assert(dels.contains(x));
        lemma_deletion_lands(updated, dels, x, now);
    } else {
        assert(!dels.contains(x)) by {
            if dels.contains(x) {
                let i = choose|i: int|
                    #![trigger rows[i]]
                    0 <= i < rows.len() && rows[i].0 == x && !rows[i].5 && lists_no_file(
                        es,
                        rows[i].1,
                    ) && exists|d: Seq<char>| #[trigger]
                        polled.contains(d) && is_in(d, rows[i].1);
                assert(rows[i].0 == x);
                let d = choose|d: Seq<char>| #[trigger]
                    polled.contains(d) && is_in(d, rows[i].1);
                lemma_dir_of(d, rows[i].1);
                lemma_dir_of(dir, rows[i].1);
            }
        }
        assert(changed.inodes[x] == updated.inodes[x]);
    }
}

/// The directory that a new entry is in is among those to list again.
proof fn lemma_refresh_is_due(t: TableModel, es: Seq<TreeModel>, i: int)
    requires
        0 <= i < es.len(),
        !t.paths.contains_key(es[i].path),
        t.inodes.contains_key(poll::nearest_dir(t, es[i].path).0),
        t.inodes[poll::nearest_dir(t, es[i].path).0].children_loaded,
    ensures
        poll::has_ino(poll::dirs_to_refresh(t, es), poll::nearest_dir(t, es[i].path).0),
    decreases es.len(),
{
    let d = poll::nearest_dir(t, es[i].path);
    let low = poll::dirs_to_refresh(t, es.drop_last());
    let all = poll::dirs_to_refresh(t, es);
    if i < es.len() - 1 {
        assert(es.drop_last()[i] == es[i]);
        lemma_refresh_is_due(t, es.drop_last(), i);
    }
    if poll::has_ino(low, d.0) {
        let j = choose|j: int| 0 <= j < low.len() && (#[trigger] low[j]).0 == d.0;
        assert(all[j].0 == d.0);
    } else {
        assert(all[low.len() as int] == d);
    }
}

/// What is refreshed is to be listed again, and nothing that was to be listed is not any more.
proof fn lemma_refreshed(t: TableModel, dirs: Seq<u64>, x: u64)
    requires
        t.inodes.contains_key(x),
    ensures
        poll::refreshed(t, dirs).paths == t.paths,
        poll::refreshed(t, dirs).inodes.contains_key(x),
        poll::refreshed(t, dirs).inodes[x].children_loaded <==> t.inodes[x].children_loaded
            && !dirs.contains(x),
    decreases dirs.len(),
{
    if dirs.len() > 0 {
        let front = dirs.drop_last();
        lemma_refreshed(t, front, x);
        assert(dirs[dirs.len() - 1] == dirs.last());
        assert(dirs.contains(x) <==> front.contains(x) || dirs.last() == x) by {
            if dirs.contains(x) {
                let i = choose|i: int| 0 <= i < dirs.len() && dirs[i] == x;
                if i < front.len() {
                    assert(front[i] == x);
                }
            }
            if front.contains(x) {
                let i = choose|i: int| 0 <= i < front.len() && front[i] == x;
                assert(dirs[i] == x);
            }
        }
    }
}

/// After a poll every listed entry is known, or the directory it is in will be listed again.
pub proof fn law_poll_finds_new_entries(
    t: TableModel,
    us: Seq<UpdateModel>,
    dels: Seq<u64>,
    es: Seq<TreeModel>,
    now: Timestamp,
    i: int,
    d: u64,
)
    requires
        tree::wf(t),
        laws::proper_deletions(t, dels),
        0 <= i < es.len(),
        poll::polled_table(t, us, dels, es, now).inodes.contains_key(d),
        poll::polled_table(t, us, dels, es, now).inodes[d].kind == InodeKind::Directory,
        is_in(poll::polled_table(t, us, dels, es, now).inodes[d].full_path, es[i].path),
        !poll::polled_table(t, us, dels, es, now).paths.contains_key(es[i].path),
    ensures
        !poll::polled_table(t, us, dels, es, now).inodes[d].children_loaded,
{
    let updated = poll::updates_applied(t, us);
    laws::lemma_updates_in_place(t, us);
    lemma_still_proper(t, us, dels);
    laws::lemma_deletions(updated, dels, now);
    let changed = poll::deletions_applied(updated, dels, now);
    let due = poll::dirs_to_refresh(changed, es);
    let inos = poll::dir_inos(due);
    laws::lemma_refreshed_in_place(changed, inos);
    lemma_refreshed(changed, inos, d);
    lemma_dir_of(changed.inodes[d].full_path, es[i].path);
    assert(tree::entry_ok(changed, d));
    if d != ROOT_INODE {
        assert(tree::place_ok(changed, d));
    }
    assert(poll::nearest_dir(changed, es[i].path).0 == d);
    if changed.inodes[d].children_loaded {
        lemma_refresh_is_due(changed, es, i);
        let j = choose|j: int| 0 <= j < due.len() && (#[trigger] due[j]).0 == d;
        assert(inos[j] == d);
    }
}

/// The kernel is told to drop what a poll changed: every updated inode, every deleted one, and
/// every directory that is to be listed again.
pub proof fn law_kernel_drops_what_a_poll_changed(
    t: TableModel,
    us: Seq<UpdateModel>,
    dels: Seq<u64>,
    es: Seq<TreeModel>,
    now: Timestamp,
    x: u64,
)
    requires
        tree::wf(t),
        laws::proper_deletions(t, dels),
        t.inodes.contains_key(x),
        poll::polled_table(t, us, dels, es, now).inodes.contains_key(x) ==> {
            let e = poll::polled_table(t, us, dels, es, now).inodes[x];
            ||| e.xet_hash != t.inodes[x].xet_hash
            ||| e.size != t.inodes[x].size
            ||| e.kind == InodeKind::File && e.nlink != t.inodes[x].nlink
        },
    ensures
        poll::polled_invalidations(t, us, dels, es, now).contains(x),
{
    let updated = poll::updates_applied(t, us);
    laws::lemma_updates_in_place(t, us);
    lemma_still_proper(t, us, dels);
    laws::lemma_deletions(updated, dels, now);
    let changed = poll::deletions_applied(updated, dels, now);
    let due = poll::dir_inos(poll::dirs_to_refresh(changed, es));
    laws::lemma_refreshed_in_place(changed, due);
    let first = us.map_values(|u: UpdateModel| u.ino);
    let second = poll::deletions_invalidated(updated, dels, now);
    let all = poll::polled_invalidations(t, us, dels, es, now);
    assert(updated.inodes.contains_key(x));
    if exists|m: int| 0 <= m < us.len() && (#[trigger] us[m]).ino == x {
        let m = choose|m: int| 0 <= m < us.len() && (#[trigger] us[m]).ino == x;
        assert(all[m] == x);
    } else {
        lemma_not_updated(t, us, x);
        lemma_deletion_is_told(updated, dels, now, x);
        let m = choose|m: int| 0 <= m < second.len() && second[m] == x;
        assert(all[first.len() + m] == x);
    }
}

proof fn lemma_not_updated(t: TableModel, us: Seq<UpdateModel>, x: u64)
    requires
        t.inodes.contains_key(x),
        forall|m: int| 0 <= m < us.len() ==> (#[trigger] us[m]).ino != x,
    ensures
        poll::updates_applied(t, us).inodes.contains_key(x),
        poll::updates_applied(t, us).inodes[x] == t.inodes[x],
    decreases us.len(),
{
    if us.len() > 0 {
        let front = us.drop_last();
        assert forall|m: int| 0 <= m < front.len() implies (#[trigger] front[m]).ino != x by {
            assert(front[m] == us[m]);
        }
        lemma_not_updated(t, front, x);
        assert(us[us.len() - 1] == us.last());
    }
}

/// What deletions take away or unlink is told.
proof fn lemma_deletion_is_told(t: TableModel, dels: Seq<u64>, now: Timestamp, x: u64)
    requires
        tree::wf(t),
        laws::proper_deletions(t, dels),
        t.inodes.contains_key(x),
        poll::deletions_applied(t, dels, now).inodes.contains_key(x) ==> {
            let e = poll::deletions_applied(t, dels, now).inodes[x];
            ||| e.xet_hash != t.inodes[x].xet_hash
            ||| e.size != t.inodes[x].size
            ||| e.kind == InodeKind::File && e.nlink != t.inodes[x].nlink
        },
    ensures
        poll::deletions_invalidated(t, dels, now).contains(x),
    decreases dels.len(),
{
    if dels.len() > 0 {
        let front = dels.drop_last();
        let last = dels.last();
        assert(dels[dels.len() - 1] == last);
        assert(laws::proper_deletions(t, front)) by {
            assert forall|i: int|
                0 <= i < front.len() && t.inodes.contains_key(
                    #[trigger] front[i],
                ) implies t.inodes[front[i]].kind == InodeKind::File && t.inodes[front[i]].nlink
                > 0 by {
                assert(front[i] == dels[i]);
            }
        }
        laws::lemma_deletions(t, front, now);
        let low = poll::deletions_applied(t, front, now);
        let r = poll::deletions_applied(t, dels, now);
        let told = poll::deletions_invalidated(t, front, now);
        let all = poll::deletions_invalidated(t, dels, now);
        if x == last && poll::deletable(low, last) {
            assert(all[told.len() + 1int] == x);
        } else {
            assert(!front.contains(last)) by {
                if front.contains(last) {
                    let i = choose|i: int| 0 <= i < front.len() && front[i] == last;
                    assert(dels[i] == dels[dels.len() - 1]);
                }
            }
            if low.inodes.contains_key(last) {
                assert(t.inodes.contains_key(dels[dels.len() - 1]));
                assert(low.inodes[last] == t.inodes[last]);
            }
            laws::lemma_deletion(low, last, now);
            lemma_deletion_elsewhere(low, last, now, x);
            lemma_deletion_is_told(t, front, now, x);
            let m = choose|m: int| 0 <= m < told.len() && told[m] == x;
            assert(all[m] == x);
        }
    }
}

/// A deletion changes neither the content nor, of a file, the links of anything else.
proof fn lemma_deletion_elsewhere(t: TableModel, ino: u64, now: Timestamp, x: u64)
    requires
        tree::wf(t),
        t.inodes.contains_key(ino) ==> t.inodes[ino].kind == InodeKind::File && t.inodes[ino].nlink
            > 0,
        x != ino || !poll::deletable(t, ino),
    ensures
        poll::deletion_applied(t, ino, now).inodes.contains_key(x) <==> t.inodes.contains_key(x),
        t.inodes.contains_key(x) ==> {
            let e = poll::deletion_applied(t, ino, now).inodes[x];
            &&& e.kind == t.inodes[x].kind
            &&& e.xet_hash == t.inodes[x].xet_hash
            &&& e.size == t.inodes[x].size
            &&& e.kind == InodeKind::File ==> e.nlink == t.inodes[x].nlink
        },
{
    laws::lemma_deletion(t, ino, now);
    if poll::deletable(t, ino) {
        assert(!seq![ino].contains(x));
        assert(tree::entry_ok(t, ino));
        assert(tree::place_ok(t, ino));
        let starts = model::child_inos(t.inodes[ino].children);
        let rest = t.without(ino).detached(
            t.inodes[ino].parent,
            ino,
            t.inodes[ino].kind,
            false,
        );
        assert forall|z: u64| !(#[trigger] t.descendants(ino).contains(z)) by {
            if t.descendants(ino).contains(z) {
                let walk = choose|walk: Seq<u64>| #[trigger]
                    model::is_walk(rest.inodes, walk) && starts.contains(walk[0]) && walk.last()
                        == z;
                assert(starts.contains(walk[0]));
            }
        }
        lemma_unlink_target(t, ino);
    }
}

/// Unlinking the name of a file arrives at the file.
proof fn lemma_unlink_target(t: TableModel, x: u64)
    requires
        tree::wf(t),
        t.inodes.contains_key(x),
        t.inodes[x].kind == InodeKind::File,
        t.inodes[x].nlink > 0,
    ensures
        t.unlink_target(t.inodes[x].parent, t.inodes[x].name) == Some(x),
        t.inodes[t.inodes[x].parent].kind == InodeKind::Directory,
{
    let p = t.inodes[x].parent;
    let name = t.inodes[x].name;
    assert(tree::place_ok(t, x));
    let c = t.inodes[p].children;
    tree::lemma_first_named(c, name);
    let i = choose|i: int| 0 <= i < c.len() && #[trigger] c[i].ino == x;
    assert(tree::edge_ok(t, p, t.inodes[p].children[i]));
    assert(c[i].name == name);
    let j = model::first_named(c, name)->Some_0;
    assert(tree::edge_ok(t, p, t.inodes[p].children[j]));
    assert(tree::place_ok(t, c[j].ino));
}

/// Where a name is looked for: a clean file is checked against the remote, one with local changes
/// is trusted, and so is whatever a listed directory shows. A name that a listed directory does not
/// have does not exist. For everything else the remote is asked.
pub proof fn law_lookups_trust_or_ask(t: TableModel, parent: u64, name: Seq<char>)
    ensures
        ({
            let plan = lookup::lookup_plan(t, parent, name);
            let dir = t.inodes[parent];
            let path = entries::path_in(dir.full_path, name);
            if !t.inodes.contains_key(parent) {
                plan == LookupPlan::Refused(Errno::ENOENT)
            } else if dir.kind != InodeKind::Directory {
                plan == LookupPlan::Refused(Errno::ENOTDIR)
            } else {
                match t.child_named(parent, name) {
                    None => {
                        &&& dir.children_loaded ==> plan == LookupPlan::Absent(path)
                        &&& !dir.children_loaded ==> plan == LookupPlan::Ask(path)
                    },
                    Some(x) => {
                        let e = t.inodes[x];
                        let file = e.kind == InodeKind::File;
                        let changed = e.dirty_generation > 0;
                        &&& file && !changed ==> plan == LookupPlan::Revalidate(x)
                        &&& file && changed ==> plan == LookupPlan::Found(x)
                        &&& !file && dir.children_loaded ==> plan == LookupPlan::Found(x)
                        &&& !file && !dir.children_loaded ==> plan == LookupPlan::Ask(path)
                    },
                }
            }
        }),
{
}

/// A file that the remote does not have any more is gone after a check. Of a file without local
/// changes, other content is taken over, with its hash, its ETag and its size, and the staging file
/// is no copy of it any more. A file with local changes keeps its content, and so does one of which
/// the remote says nothing new.
pub proof fn law_checked_files_are_as_the_remote_says(
    t: TableModel,
    x: u64,
    remote: Option<HeadFileInfo>,
    now: Timestamp,
    checked: Instant,
)
    requires
        tree::wf(t),
        t.inodes.contains_key(x),
        t.inodes[x].kind == InodeKind::File,
        t.inodes[x].nlink > 0,
    ensures
        ({
            let e = t.inodes[x];
            let r = lookup::rechecked(t, x, e.xet_hash, e.etag, remote, now, checked);
            let dropped = lookup::recheck_invalidates(t, x, e.xet_hash, e.etag, remote);
            match remote {
                None => {
                    &&& !r.inodes.contains_key(x)
                    &&& !r.paths.contains_key(e.full_path)
                    &&& dropped.contains(x)
                    &&& dropped.contains(e.parent)
                },
                Some(head) => {
                    let hash = text::opt_text(head.xet_hash);
                    let tag = text::opt_text(head.etag);
                    let other = hash != e.xet_hash || (hash is None && tag != e.etag);
                    let changed = e.dirty_generation > 0;
                    let f = r.inodes[x];
                    &&& r.inodes.contains_key(x)
                    &&& entries::rest_kept(t, r, x, x)
                    &&& other && head.size is Some && !changed ==> {
                        &&& f.xet_hash == hash
                        &&& f.etag == tag
                        &&& f.size == head.size->Some_0
                        &&& !f.staging_is_current
                        &&& f.last_revalidated == Some(checked)
                        &&& head.last_modified is None ==> f.mtime == now
                        &&& head.last_modified matches Some(text) ==> f.mtime == hub_api::mtime_of(
                            hub_api::rfc2822_seconds(text@),
                        )
                        &&& dropped.contains(x)
                    }
                    &&& changed || !other || head.size is None ==> {
                        &&& f.xet_hash == e.xet_hash
                        &&& f.size == e.size
                        &&& f.mtime == e.mtime
                        &&& f.dirty_generation == e.dirty_generation
                        &&& f.staging_is_current == e.staging_is_current
                    }
                    &&& !other ==> f.last_revalidated == Some(checked) && dropped.len() == 0
                    &&& !other && tag is Some ==> f.etag == tag
                    &&& !other && tag is None ==> f.etag == e.etag
                    &&& other && head.size is None ==> r == t
                    &&& f.full_path == e.full_path && f.nlink == e.nlink && f.eviction == e.eviction
                },
            }
        }),
{
    let e = t.inodes[x];
    let dropped = lookup::recheck_invalidates(t, x, e.xet_hash, e.etag, remote);
    if remote is None {
        assert(dropped[0] == e.parent && dropped[1] == x);
    } else if dropped.len() > 0 {
        assert(dropped[0] == x);
    }
    assert(tree::place_ok(t, x));
}

/// A file that the remote was asked for is put in the table with the hash, the ETag and the size
/// that the remote gives, owned by the mount, under the name that was asked for.
pub proof fn law_found_files_are_as_the_remote_says(
    fs: VirtualFs,
    after: VirtualFs,
    parent: u64,
    name: Seq<char>,
    path: Seq<char>,
    head: HeadFileInfo,
    now: Timestamp,
    checked: Instant,
    r: VirtualFsResult<VirtualFsAttr>,
)
    requires
        fs.head_outcome(after, parent, name, path, head, now, checked, r),
        tree::wf(fs.inodes@),
        tree::good_name(name),
        fs.inodes@.inodes.contains_key(parent),
        fs.inodes@.inodes[parent].kind == InodeKind::Directory,
        path == entries::path_in(fs.inodes@.inodes[parent].full_path, name),
        fs.inodes@.child_named(parent, name) is None,
        fs.inodes@.next_inode < u64::MAX,
    ensures
        ({
            let x = fs.inodes@.next_inode;
            let e = after.inodes@.inodes[x];
            &&& after.inodes@.child_named(parent, name) == Some(x)
            &&& e.kind == InodeKind::File
            &&& e.xet_hash == text::opt_text(head.xet_hash)
            &&& e.etag == text::opt_text(head.etag)
            &&& e.size == if head.size is Some {
                head.size->Some_0
            } else {
                0
            }
            &&& e.full_path == path
            &&& e.mode == 0o644
            &&& e.uid == fs.config.uid
            &&& e.gid == fs.config.gid
            &&& e.dirty_generation == 0
            &&& e.last_revalidated == Some(checked)
            &&& head.last_modified is None ==> e.mtime == fs.default_mtime
            &&& head.last_modified matches Some(text) ==> e.mtime == hub_api::mtime_of(
                hub_api::rfc2822_seconds(text@),
            )
            &&& r is Ok
            &&& r->Ok_0.ino == x
            &&& r->Ok_0.size == e.size
            &&& entries::rest_kept(fs.inodes@, after.inodes@, x, parent)
            &&& after.inodes@.inodes[parent].children_loaded
                == fs.inodes@.inodes[parent].children_loaded
        }),
{
    let t = fs.inodes@;
    let new = NewInode {
        parent,
        name,
        full_path: path,
        kind: InodeKind::File,
        size: match head.size {
            Some(size) => size,
            None => 0,
        },
        mtime: lookup::head_mtime(head, fs.default_mtime),
        xet_hash: text::opt_text(head.xet_hash),
        mode: 0o644,
        uid: fs.config.uid,
        gid: fs.config.gid,
    };
    laws::law_found_file_keeps_wf(t, new, text::opt_text(head.etag), now, checked);
    tree::law_names_and_paths_agree(t, parent, name);
    assert(!t.inodes.contains_key(t.next_inode)) by {
        if t.inodes.contains_key(t.next_inode) {
            assert(tree::entry_ok(t, t.next_inode));
        }
    }
}

/// What is known under the name of a file that the remote has stays if it is a file, or a directory
/// in which something is dirty or open. Otherwise it gives way to the file.
pub proof fn law_local_changes_keep_their_name(t: TableModel, parent: u64, name: Seq<char>, x: u64)
    requires
        tree::wf(t),
        t.child_named(parent, name) == Some(x),
    ensures
        ({
            let plan = lookup::head_plan(t, parent, name);
            let busy = exists|y: u64| #[trigger]
                model::reachable(t.inodes, set![x]).contains(y) && (t.inodes[y].dirty_generation
                    > 0 || t.inodes[y].eviction.open_handles > 0);
            &&& t.inodes[x].kind == InodeKind::File || busy ==> plan == HeadPlan::Keep(x)
            &&& t.inodes[x].kind != InodeKind::File && !busy ==> plan == HeadPlan::Insert(Some(x))
        }),
{
    entries::lemma_child(t, parent, name, x);
    if t.subtree_busy(x) {
        let y = choose|y: u64| #[trigger]
            model::reachable(t.inodes, set![x]).contains(y) && t.inodes[y].busy();
        assert(model::reachable(t.inodes, set![x]).contains(y));
    }
}

/// Metadata is checked again unless lookups are served from the cache and the last check is younger
/// than the metadata may be.
pub proof fn law_old_metadata_is_checked(fs: VirtualFs, ino: u64, age: Duration, older: Duration)
    requires
        age.nanos <= older.nanos,
    ensures
        fs.is_due(ino, age) ==> fs.is_due(ino, older),
        !fs.config.serve_lookup_from_cache ==> fs.is_due(ino, age),
        age.nanos >= fs.config.metadata_ttl.nanos ==> fs.is_due(ino, age),
        !fs.inodes@.inodes.contains_key(ino) || fs.inodes@.inodes[ino].last_revalidated is None
            ==> fs.is_due(ino, age),
        fs.config.serve_lookup_from_cache && fs.inodes@.inodes.contains_key(ino)
            && fs.inodes@.inodes[ino].last_revalidated is Some && age.nanos
            < fs.config.metadata_ttl.nanos ==> !fs.is_due(ino, age),
{
}

/// What is in a directory counts as known if it was listed; if listing it failed, only if nothing
/// shows it and what is in its own directory counts as known: then it is gone. A directory that was
/// not asked for never counts.
pub proof fn law_what_counts_as_polled(ls: Seq<ListingModel>, p: Seq<char>, dir: Seq<char>)
    requires
        p.len() > 0,
        is_in(dir, p),
    ensures
        ({
            let listed = exists|i: int| 0 <= i < ls.len() && (#[trigger] ls[i]).0 == p && ls[i].1
                is Some;
            let failed = exists|i: int| 0 <= i < ls.len() && (#[trigger] ls[i]).0 == p && ls[i].1
                is None;
            let shown = exists|i: int|
                0 <= i < poll::all_entries(ls).len() && (#[trigger] poll::all_entries(
                    ls,
                )[i]).entry_type == "directory"@ && poll::all_entries(ls)[i].path == p;
            &&& listed ==> poll::counts_as_polled(ls, p)
            &&& !listed && !failed ==> !poll::counts_as_polled(ls, p)
            &&& !listed && shown ==> !poll::counts_as_polled(ls, p)
            &&& !listed && failed && !shown ==> (poll::counts_as_polled(ls, p)
                <==> poll::counts_as_polled(ls, dir))
        }),
{
    lemma_dir_of(dir, p);
}

/// The entries of a round of listings are those of each listing that did not fail.
pub proof fn law_all_entries_are_read(ls: Seq<ListingModel>, e: TreeModel)
    ensures
        poll::all_entries(ls).contains(e) <==> exists|i: int|
            0 <= i < ls.len() && (#[trigger] ls[i]).1 is Some && ls[i].1->Some_0.contains(e),
    decreases ls.len(),
{
    if ls.len() > 0 {
        let front = ls.drop_last();
        law_all_entries_are_read(front, e);
        let low = poll::all_entries(front);
        let last = ls[ls.len() - 1];
        assert(last == ls.last());
        let own = match last.1 {
            Some(es) => es,
            None => Seq::empty(),
        };
        let all = poll::all_entries(ls);
        assert(all == low + own);
        assert(all.contains(e) <==> low.contains(e) || own.contains(e)) by {
            if low.contains(e) {
                let i = choose|i: int| 0 <= i < low.len() && low[i] == e;
                assert(all[i] == e);
            }
            if own.contains(e) {
                let i = choose|i: int| 0 <= i < own.len() && own[i] == e;
                assert(all[low.len() + i] == e);
            }
            if all.contains(e) {
                let i = choose|i: int| 0 <= i < all.len() && all[i] == e;
                if i < low.len() {
                    assert(low[i] == e);
                } else {
                    assert(own[i - low.len()] == e);
                }
            }
        }
        if exists|i: int|
            0 <= i < front.len() && (#[trigger] front[i]).1 is Some && front[i].1->Some_0.contains(
                e,
            ) {
            let i = choose|i: int|
                0 <= i < front.len() && (#[trigger] front[i]).1 is Some
                    && front[i].1->Some_0.contains(e);
            assert(ls[i] == front[i]);
        }
        if exists|i: int|
            0 <= i < ls.len() && (#[trigger] ls[i]).1 is Some && ls[i].1->Some_0.contains(e) {
            let i = choose|i: int|
                0 <= i < ls.len() && (#[trigger] ls[i]).1 is Some && ls[i].1->Some_0.contains(e);
            if i < front.len() {
                assert(front[i] == ls[i]);
            }
        }
    }
}

/// The nearest directory above a path is known, the path is below it, and no directory between the
/// two is known.
pub proof fn law_nearest_directory_is_nearest(t: TableModel, path: Seq<char>, between: Seq<char>)
    requires
        tree::wf(t),
        (between + seq!['/']).is_prefix_of(path) || between.len() == 0,
    ensures
        ({
            let (ino, dir) = poll::nearest_dir(t, path);
            &&& t.inodes.contains_key(ino)
            &&& t.inodes[ino].kind == InodeKind::Directory
            &&& t.inodes[ino].full_path == dir
            &&& dir.len() == 0 || (dir + seq!['/']).is_prefix_of(path)
            &&& t.paths.contains_key(between) && t.inodes[t.paths[between]].kind
                == InodeKind::Directory ==> between.len() <= dir.len()
        }),
    decreases path.len(),
{
    text::lemma_split_last(path, '/');
    let up = text::spec_parent_path(path);
    match text::split_last(path, '/') {
        Some((a, b)) => {
            assert(up == a);
            assert((up + seq!['/']).is_prefix_of(path)) by {
                assert(path.subrange(0, up.len() as int + 1) =~= up + seq!['/']);
            }
            if between.len() > 0 {
                lemma_prefix_is_shorter(between, a, b, path);
            }
        },
        None => {
            if between.len() > 0 {
                let longer = between + seq!['/'];
                assert(path.subrange(0, longer.len() as int)[between.len() as int] == '/');
                assert(path[between.len() as int] == '/');
                assert(path.contains('/'));
            }
        },
    }
    if t.paths.contains_key(up) {
        assert(tree::path_ok(t, up));
        assert(tree::entry_ok(t, t.paths[up]));
    }
    if t.dir_at(up) is None && up.len() > 0 {
        if between.len() > 0 && between != up {
            law_nearest_directory_is_nearest(t, up, between);
        } else {
            law_nearest_directory_is_nearest(t, up, Seq::empty());
        }
        let (ino, dir) = poll::nearest_dir(t, up);
        if dir.len() > 0 {
            let d = dir + seq!['/'];
            assert(path.subrange(0, d.len() as int) =~= up.subrange(0, d.len() as int));
        }
        if between == up && t.paths.contains_key(up) {
            assert(t.inodes[t.paths[up]].kind != InodeKind::Directory);
        }
    }
}

/// What a path is below is its directory part, or above that.
proof fn lemma_prefix_is_shorter(
    between: Seq<char>,
    a: Seq<char>,
    b: Seq<char>,
    path: Seq<char>,
)
    requires
        path == a + seq!['/'] + b,
        !b.contains('/'),
        (between + seq!['/']).is_prefix_of(path),
    ensures
        between == a || (between + seq!['/']).is_prefix_of(a),
{
    let longer = between + seq!['/'];
    let n = between.len() as int;
    assert(path.subrange(0, n + 1) == longer);
    assert(path[n] == '/') by {
        assert(path.subrange(0, n + 1)[n] == path[n]);
    }
    assert(n <= a.len()) by {
        if n > a.len() {
            assert(path[n] == b[n - a.len() - 1]);
            assert(b.contains(b[n - a.len() - 1]));
        }
    }
    if n == a.len() {
        assert(between =~= a) by {
            assert forall|i: int| 0 <= i < n implies between[i] == a[i] by {
                assert(path.subrange(0, n + 1)[i] == path[i]);
            }
        }
    } else {
        assert(a.subrange(0, n + 1) =~= longer) by {
            assert forall|i: int| 0 <= i < n + 1 implies a.subrange(0, n + 1)[i] == longer[i] by {
                assert(path.subrange(0, n + 1)[i] == path[i]);
            }
        }
    }
}

/// A new entry makes the nearest directory above it be listed again.
pub proof fn law_poll_lists_nearest_directories(
    t: TableModel,
    us: Seq<UpdateModel>,
    dels: Seq<u64>,
    es: Seq<TreeModel>,
    now: Timestamp,
    i: int,
)
    requires
        tree::wf(t),
        laws::proper_deletions(t, dels),
        0 <= i < es.len(),
        !poll::polled_table(t, us, dels, es, now).paths.contains_key(es[i].path),
    ensures
        ({
            let r = poll::polled_table(t, us, dels, es, now);
            let d = poll::nearest_dir(r, es[i].path).0;
            r.inodes.contains_key(d) && !r.inodes[d].children_loaded
        }),
{
    let updated = poll::updates_applied(t, us);
    laws::lemma_updates_in_place(t, us);
    lemma_still_proper(t, us, dels);
    laws::lemma_deletions(updated, dels, now);
    let changed = poll::deletions_applied(updated, dels, now);
    let due = poll::dirs_to_refresh(changed, es);
    let inos = poll::dir_inos(due);
    let r = poll::polled_table(t, us, dels, es, now);
    laws::lemma_refreshed_in_place(changed, inos);
    lemma_refreshed(changed, inos, ROOT_INODE);
    lemma_same_nearest(changed, r, es[i].path);
    law_nearest_directory_is_nearest(changed, es[i].path, Seq::empty());
    let d = poll::nearest_dir(changed, es[i].path).0;
    lemma_refreshed(changed, inos, d);
    if changed.inodes[d].children_loaded {
        lemma_refresh_is_due(changed, es, i);
        let j = choose|j: int| 0 <= j < due.len() && (#[trigger] due[j]).0 == d;
        assert(inos[j] == d);
    }
}

/// Two tables with the same directories at the same paths have the same nearest directories.
proof fn lemma_same_nearest(a: TableModel, b: TableModel, path: Seq<char>)
    requires
        a.paths == b.paths,
        forall|x: u64| #[trigger] b.inodes.contains_key(x) <==> a.inodes.contains_key(x),
        forall|x: u64| #[trigger]
            a.inodes.contains_key(x) ==> (EntryModel {
                children_loaded: a.inodes[x].children_loaded,
                ..b.inodes[x]
            }) == a.inodes[x],
    ensures
        poll::nearest_dir(a, path) == poll::nearest_dir(b, path),
    decreases path.len(),
{
    let up = text::spec_parent_path(path);
    text::lemma_split_last(path, '/');
    assert(a.dir_at(up) == b.dir_at(up)) by {
        if a.paths.contains_key(up) {
            let x = a.paths[up];
            assert(a.inodes.contains_key(x) <==> b.inodes.contains_key(x));
        }
    }
    if a.dir_at(up) is None && up.len() > 0 {
        lemma_same_nearest(a, b, up);
    }
}

/// A lookup answers with what is there: a file without local changes is to be checked, with what is on
/// record of it; a file with local changes is shown as it is. A name that a listed directory does not
/// have is refused, and noted as missing. A path that was noted as missing is not asked for while the
/// note holds.
pub proof fn law_lookups_answer_with_what_is_there(
    fs: VirtualFs,
    after: VirtualFs,
    parent: u64,
    name: Seq<char>,
    age: Duration,
    r: VirtualFsResult<LookupStep>,
)
    requires
        tree::wf(fs.inodes@),
        fs.looked_up(after, parent, name, age, r),
        fs.inodes@.inodes.contains_key(parent),
        fs.inodes@.inodes[parent].kind == InodeKind::Directory,
    ensures
        ({
            let t = fs.inodes@;
            let loaded = t.inodes[parent].children_loaded;
            let path = entries::path_in(t.inodes[parent].full_path, name);
            let missing = negative_cache::has_key(fs.negative@, path) && age.nanos < 30_000_000_000;
            match t.child_named(parent, name) {
                Some(x) => {
                    let e = t.inodes[x];
                    let file = e.kind == InodeKind::File;
                    let changed = e.dirty_generation > 0;
                    &&& file && !changed ==> {
                        &&& r matches Ok(LookupStep::Revalidate { ino, full_path, hash, etag })
                        &&& ino == x
                        &&& full_path@ == e.full_path
                        &&& text::opt_text(hash) == e.xet_hash
                        &&& text::opt_text(etag) == e.etag
                    }
                    &&& (file && changed) || (!file && loaded) ==> {
                        &&& r matches Ok(LookupStep::Found(a))
                        &&& a.ino == x
                        &&& a.size == e.size
                        &&& a.kind == e.kind
                    }
                    &&& !file && !loaded && !missing ==> (r matches Ok(LookupStep::Ask(p)) && p@
                        == path)
                },
                None => {
                    &&& loaded ==> (r matches Err(err) && err == Errno::ENOENT)
                        && negative_cache::has_key(after.negative@, path)
                    &&& !loaded && missing ==> (r matches Err(err) && err == Errno::ENOENT)
                    &&& !loaded && !missing ==> (r matches Ok(LookupStep::Ask(p)) && p@ == path)
                },
            }
        }),
{
    let t = fs.inodes@;
    let path = entries::path_in(t.inodes[parent].full_path, name);
    if let Some(x) = t.child_named(parent, name) {
        entries::lemma_child(t, parent, name, x);
    } else if t.inodes[parent].children_loaded {
        negative_cache::law_last_note_is_kept(fs.negative@, after.negative@, path);
    }
}

} // verus!
