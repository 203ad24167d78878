//! The inode table: every file, directory and symlink known to the mount, by number and by path.
use crate::text;
use crate::text::{clone_opt, clone_texts, str_eq};
use crate::time::{instant_now, Timestamp};
use crate::virtual_fs::model;
use crate::virtual_fs::model::{NewInode, TableModel};
use std::collections::hash_map::Entry;
use std::collections::{HashMap, HashSet};
use std::time::Instant;
use vstd::hash_map::StringHashMap;
use vstd::prelude::*;
use vstd::string::*;

verus! {

broadcast use {
    vstd::std_specs::hash::group_hash_axioms,
    vstd::hash_map::group_hash_map_axioms,
    vstd::string::group_string_axioms,
};

pub const ROOT_INODE: u64 = 1;

/// The path of a child called `name` under a directory at `parent_path`. The root has the empty
/// path and adds no separator.
pub open spec fn spec_child_path(parent_path: Seq<char>, name: Seq<char>) -> Seq<char> {
    if parent_path.len() == 0 {
        name
    } else {
        parent_path + seq!['/'] + name
    }
}

/// Build a child's full path given the parent's full path and the child's name.
pub fn child_path(parent_path: &str, name: &str) -> (r: String)
    ensures
        r@ == spec_child_path(parent_path@, name@),
{
    if parent_path.is_empty() {
        name.to_owned()
    } else {
        let mut path = parent_path.to_owned();
        proof {
            reveal_strlit("/");
        }
        path.append("/");
        path.append(name);
        assert("/"@ =~= seq!['/']);
        path
    }
}

#[derive(Debug, Clone, Copy, PartialEq, Eq, Structural)]
pub enum InodeKind {
    File,
    Directory,
    Symlink,
}

/// A directory child entry: the name on the edge from parent to child.
#[derive(Debug)]
pub struct DirChild {
    pub ino: u64,
    pub name: String,
}

/// What a `DirChild` holds.
pub struct ChildModel {
    pub ino: u64,
    pub name: Seq<char>,
}

impl View for DirChild {
    type V = ChildModel;

    open spec fn view(&self) -> ChildModel {
        ChildModel { ino: self.ino, name: self.name@ }
    }
}

impl Clone for DirChild {
    fn clone(&self) -> (r: Self)
        ensures
            r@ == self@,
    {
        DirChild { ino: self.ino, name: self.name.clone() }
    }
}

/// Eviction bookkeeping of one inode.
#[derive(Debug, Clone, Copy, PartialEq, Eq, Structural)]
pub struct EvictionState {
    /// Kernel lookup reference count. Raised on every reply that hands the inode to the kernel,
    /// lowered by the count the kernel passes to `forget`.
    pub nlookup: u64,
    /// The table's touch counter at the last lookup; the oldest values are evicted first.
    pub last_touched: u64,
    /// Set when `forget` wanted to evict and an open handle prevented it.
    pub evict_pending: bool,
    /// Number of live file handles on this inode.
    pub open_handles: u32,
}

impl Default for EvictionState {
    fn default() -> (r: Self)
        ensures
            r == (EvictionState {
                nlookup: 0,
                last_touched: 0,
                evict_pending: false,
                open_handles: 0,
            }),
    {
        EvictionState { nlookup: 0, last_touched: 0, evict_pending: false, open_handles: 0 }
    }
}

impl EvictionState {
    /// Raise the kernel lookup count. The counter wraps, as an atomic addition does.
    pub fn bump_nlookup(&mut self)
        ensures
            *final(self) == (EvictionState {
                nlookup: old(self).nlookup.wrapping_add(1),
                ..*old(self)
            }),
    {
        self.nlookup = self.nlookup.wrapping_add(1);
    }

    /// Lower the kernel lookup count by `n`, stopping at 0. Returns true if it reached 0.
    pub fn drop_nlookup(&mut self, n: u64) -> (r: bool)
        ensures
            *final(self) == (EvictionState {
                nlookup: lowered(old(self).nlookup, n),
                ..*old(self)
            }),
            r == (final(self).nlookup == 0),
    {
        self.nlookup = self.nlookup.saturating_sub(n);
        self.nlookup == 0
    }
}

/// `a - n`, or 0 where `n` is larger.
pub open spec fn lowered(a: u64, n: u64) -> u64 {
    if a >= n {
        (a - n) as u64
    } else {
        0
    }
}

#[derive(Debug)]
pub struct InodeEntry {
    pub inode: u64,
    pub parent: u64,
    pub name: String,
    /// Full path from the mount root.
    pub full_path: String,
    pub kind: InodeKind,
    pub size: u64,
    pub mtime: Timestamp,
    pub mode: u16,
    pub uid: u32,
    pub gid: u32,
    pub atime: Timestamp,
    pub ctime: Timestamp,
    pub nlink: u32,
    pub symlink_target: Option<String>,
    pub xet_hash: Option<String>,
    /// True when the staging file on disk is known to match the remote at `xet_hash`.
    pub staging_is_current: bool,
    /// ETag from the last HEAD revalidation (for files that are not stored in xet).
    pub etag: Option<String>,
    /// 0 = clean. Each mutation increments the counter; a flush remembers the value it uploaded
    /// and clears it only if no writer has advanced it since.
    pub dirty_generation: u64,
    pub children_loaded: bool,
    pub children: Vec<DirChild>,
    /// Old remote paths to delete on the next flush (set by renaming a dirty file).
    pub pending_deletes: Vec<String>,
    /// When the metadata was last validated against the remote.
    pub last_revalidated: Option<Instant>,
    pub eviction: EvictionState,
}

/// What an `InodeEntry` holds.
#[verifier::ext_equal]
pub struct EntryModel {
    pub inode: u64,
    pub parent: u64,
    pub name: Seq<char>,
    pub full_path: Seq<char>,
    pub kind: InodeKind,
    pub size: u64,
    pub mtime: Timestamp,
    pub mode: u16,
    pub uid: u32,
    pub gid: u32,
    pub atime: Timestamp,
    pub ctime: Timestamp,
    pub nlink: u32,
    pub symlink_target: Option<Seq<char>>,
    pub xet_hash: Option<Seq<char>>,
    pub staging_is_current: bool,
    pub etag: Option<Seq<char>>,
    pub dirty_generation: u64,
    pub children_loaded: bool,
    pub children: Seq<ChildModel>,
    pub pending_deletes: Seq<Seq<char>>,
    pub last_revalidated: Option<Instant>,
    pub eviction: EvictionState,
}

impl View for InodeEntry {
    type V = EntryModel;

    open spec fn view(&self) -> EntryModel {
        EntryModel {
            inode: self.inode,
            parent: self.parent,
            name: self.name@,
            full_path: self.full_path@,
            kind: self.kind,
            size: self.size,
            mtime: self.mtime,
            mode: self.mode,
            uid: self.uid,
            gid: self.gid,
            atime: self.atime,
            ctime: self.ctime,
            nlink: self.nlink,
            symlink_target: text::opt_text(self.symlink_target),
            xet_hash: text::opt_text(self.xet_hash),
            staging_is_current: self.staging_is_current,
            etag: text::opt_text(self.etag),
            dirty_generation: self.dirty_generation,
            children_loaded: self.children_loaded,
            children: child_models(self.children@),
            pending_deletes: text::texts(self.pending_deletes@),
            last_revalidated: self.last_revalidated,
            eviction: self.eviction,
        }
    }
}

/// What a list of children holds.
pub open spec fn child_models(v: Seq<DirChild>) -> Seq<ChildModel> {
    v.map_values(|c: DirChild| c@)
}

impl EntryModel {
    /// The inode has changes that have not been committed.
    pub open spec fn dirty(self) -> bool {
        self.dirty_generation > 0
    }

    /// The row that `file_snapshot` gives of this entry.
    pub open spec fn snapshot(self) -> SnapshotModel {
        (self.inode, self.full_path, self.xet_hash, self.etag, self.size, self.dirty())
    }

    /// Dropping the inode would lose local state: it is dirty, or a handle is open on it.
    pub open spec fn busy(self) -> bool {
        self.dirty() || self.eviction.open_handles > 0
    }

    /// After a commit of generation `generation` uploaded as `hash` with `size` bytes, stamped at
    /// wall-clock time `now` and instant `checked`.
    pub open spec fn committed(
        self,
        hash: Seq<char>,
        size: u64,
        generation: u64,
        now: Timestamp,
        checked: Instant,
    ) -> EntryModel {
        let stamped = EntryModel {
            mtime: now,
            ctime: now,
            last_revalidated: Some(checked),
            ..self
        };
        if self.dirty_generation == generation {
            EntryModel {
                dirty_generation: 0,
                xet_hash: Some(hash),
                staging_is_current: true,
                size,
                pending_deletes: Seq::empty(),
                ..stamped
            }
        } else {
            stamped
        }
    }
}

fn clone_children(v: &Vec<DirChild>) -> (r: Vec<DirChild>)
    ensures
        child_models(r@) == child_models(v@),
{
    let mut out: Vec<DirChild> = Vec::new();
    let mut i: usize = 0;
    while i < v.len()
        invariant
            i <= v.len(),
            out@.len() == i,
            forall|j: int| 0 <= j < i ==> out@[j]@ == v@[j]@,
        decreases v.len() - i,
    {
        out.push(v[i].clone());
        i += 1;
    }
    assert(child_models(out@) =~= child_models(v@));
    out
}

impl Clone for InodeEntry {
    fn clone(&self) -> (r: Self)
        ensures
            r@ == self@,
    {
        InodeEntry {
            inode: self.inode,
            parent: self.parent,
            name: self.name.clone(),
            full_path: self.full_path.clone(),
            kind: self.kind,
            size: self.size,
            mtime: self.mtime,
            mode: self.mode,
            uid: self.uid,
            gid: self.gid,
            atime: self.atime,
            ctime: self.ctime,
            nlink: self.nlink,
            symlink_target: clone_opt(&self.symlink_target),
            xet_hash: clone_opt(&self.xet_hash),
            staging_is_current: self.staging_is_current,
            etag: clone_opt(&self.etag),
            dirty_generation: self.dirty_generation,
            children_loaded: self.children_loaded,
            children: clone_children(&self.children),
            pending_deletes: clone_texts(&self.pending_deletes),
            last_revalidated: self.last_revalidated,
            eviction: self.eviction,
        }
    }
}

impl InodeEntry {
    /// Returns true if this inode has uncommitted changes.
    pub fn is_dirty(&self) -> (r: bool)
        ensures
            r == self@.dirty(),
    {
        self.dirty_generation > 0
    }

    /// Mark the inode as dirty: the generation counter goes up by one and stays at its maximum.
    pub fn set_dirty(&mut self)
        ensures
            final(self)@ == (EntryModel {
                dirty_generation: next_generation(old(self).dirty_generation),
                ..old(self)@
            }),
    {
        self.dirty_generation = self.dirty_generation.saturating_add(1);
    }

    /// Clear the dirty flag, but only if the generation matches the snapshot taken before the
    /// flush. Returns true if cleared.
    pub fn clear_dirty_if(&mut self, snapshot_generation: u64) -> (r: bool)
        ensures
            r == (old(self).dirty_generation == snapshot_generation),
            final(self)@ == (EntryModel {
                dirty_generation: if r {
                    0
                } else {
                    old(self).dirty_generation
                },
                ..old(self)@
            }),
    {
        if self.dirty_generation == snapshot_generation {
            self.dirty_generation = 0;
            true
        } else {
            false
        }
    }

    /// Apply a successful commit. Hash, size and pending deletes change only if the generation
    /// still matches: a writer that advanced it has newer content in progress. The timestamps and
    /// the revalidation stamp change either way.
    pub fn apply_commit(&mut self, hash: &str, size: u64, dirty_generation: u64)
        ensures
            exists|now: Timestamp, checked: Instant|
                final(self)@ == #[trigger] old(self)@.committed(
                    hash@,
                    size,
                    dirty_generation,
                    now,
                    checked,
                ),
    {
        let now = Timestamp::now();
        let checked = instant_now();
        self.apply_commit_at(hash, size, dirty_generation, now, checked);
    }

    /// `apply_commit` at a given time.
    pub fn apply_commit_at(
        &mut self,
        hash: &str,
        size: u64,
        dirty_generation: u64,
        now: Timestamp,
        checked: Instant,
    )
        ensures
            final(self)@ == old(self)@.committed(hash@, size, dirty_generation, now, checked),
    {
        if self.clear_dirty_if(dirty_generation) {
            self.xet_hash = Some(hash.to_owned());
            self.staging_is_current = true;
            self.size = size;
            self.pending_deletes.clear();
            assert(text::texts(self.pending_deletes@) =~= Seq::empty());
        }
        self.mtime = now;
        self.ctime = now;
        self.last_revalidated = Some(checked);
    }
}

/// The generation after one more mutation.
pub open spec fn next_generation(generation: u64) -> u64 {
    if generation == u64::MAX {
        generation
    } else {
        (generation + 1) as u64
    }
}

/// What a map of entries holds.
pub open spec fn entry_models(m: Map<u64, InodeEntry>) -> Map<u64, EntryModel> {
    m.map_values(|e: InodeEntry| e@)
}

broadcast proof fn lemma_entry_models_insert(m: Map<u64, InodeEntry>, k: u64, v: InodeEntry)
    ensures
        #[trigger] entry_models(m.insert(k, v)) == entry_models(m).insert(k, v@),
{
    assert(entry_models(m.insert(k, v)) =~= entry_models(m).insert(k, v@));
}

broadcast proof fn lemma_entry_models_remove(m: Map<u64, InodeEntry>, k: u64)
    ensures
        #[trigger] entry_models(m.remove(k)) == entry_models(m).remove(k),
{
    assert(entry_models(m.remove(k)) =~= entry_models(m).remove(k));
}

/// The inode table.
pub struct InodeTable {
    inodes: HashMap<u64, InodeEntry>,
    path_to_inode: StringHashMap<u64>,
    next_inode: u64,
    touch_counter: u64,
    soft_limit: usize,
}

impl View for InodeTable {
    type V = TableModel;

    closed spec fn view(&self) -> TableModel {
        TableModel {
            inodes: entry_models(self.inodes@),
            paths: self.path_to_inode@,
            next_inode: self.next_inode,
            touch_counter: self.touch_counter,
            soft_limit: self.soft_limit,
        }
    }
}

impl Default for InodeTable {
    fn default() -> (r: Self)
        ensures
            r@ == TableModel::fresh(0),
    {
        InodeTable::new(0)
    }
}

impl InodeTable {
    /// A table that holds the root directory. `soft_limit` is the target size of the eviction
    /// sweep, 0 to disable it.
    pub fn new(soft_limit: usize) -> (r: Self)
        ensures
            r@ == TableModel::fresh(soft_limit),
    {
        let root = InodeEntry {
            inode: ROOT_INODE,
            parent: ROOT_INODE,
            name: String::new(),
            full_path: String::new(),
            kind: InodeKind::Directory,
            size: 0,
            mtime: Timestamp::unix_epoch(),
            mode: 0o755,
            uid: 0,
            gid: 0,
            atime: Timestamp::unix_epoch(),
            ctime: Timestamp::unix_epoch(),
            nlink: 2,
            symlink_target: None,
            xet_hash: None,
            staging_is_current: false,
            etag: None,
            dirty_generation: 0,
            children_loaded: false,
            children: Vec::new(),
            pending_deletes: Vec::new(),
            last_revalidated: None,
            eviction: EvictionState::default(),
        };
        let mut table = InodeTable {
            inodes: HashMap::new(),
            path_to_inode: StringHashMap::new(),
            next_inode: 2,
            touch_counter: 0,
            soft_limit,
        };
        assert(root@ =~= model::root_entry());
        table.inodes.insert(ROOT_INODE, root);
        table.path_to_inode.insert(String::new(), ROOT_INODE);
        assert(table@ =~= TableModel::fresh(soft_limit));
        table
    }

    pub fn get(&self, inode: u64) -> (r: Option<&InodeEntry>)
        ensures
            r is Some <==> self@.inodes.contains_key(inode),
            r matches Some(e) ==> e@ == self@.inodes[inode],
    {
        self.inodes.get(&inode)
    }

    pub fn get_mut(&mut self, inode: u64) -> (r: Option<&mut InodeEntry>)
        ensures
            r is Some <==> old(self)@.inodes.contains_key(inode),
            r is None ==> final(self)@ == old(self)@,
            r matches Some(e) ==> {
                &&& e@ == old(self)@.inodes[inode]
                &&& final(self)@ == (TableModel {
                    inodes: old(self)@.inodes.insert(inode, final(e)@),
                    ..old(self)@
                })
            },
    {
        broadcast use lemma_entry_models_insert;

        proof {
            assert(!self.inodes@.contains_key(inode) ==> self.inodes@.remove(inode)
                =~= self.inodes@);
        }
        match self.inodes.entry(inode) {
            Entry::Occupied(slot) => Some(slot.into_mut()),
            Entry::Vacant(_) => None,
        }
    }

    /// Raise the kernel lookup count of `inode`. Nothing happens to an unknown inode.
    pub fn bump_nlookup(&mut self, inode: u64)
        ensures
            final(self)@ == old(self)@.with_eviction(
                inode,
                |v: EvictionState| EvictionState { nlookup: v.nlookup.wrapping_add(1), ..v },
            ),
    {
        if let Some(entry) = self.get_mut(inode) {
            entry.eviction.bump_nlookup();
        }
    }

    /// Lower the kernel lookup count of `inode` by `n`. Returns true if it reached 0; false if it
    /// is still held or the inode is unknown.
    pub fn drop_nlookup(&mut self, inode: u64, n: u64) -> (r: bool)
        ensures
            final(self)@ == old(self)@.with_eviction(
                inode,
                |v: EvictionState| EvictionState { nlookup: lowered(v.nlookup, n), ..v },
            ),
            r == (old(self)@.inodes.contains_key(inode)
                && old(self)@.inodes[inode].eviction.nlookup <= n),
    {
        if let Some(entry) = self.get_mut(inode) {
            entry.eviction.drop_nlookup(n)
        } else {
            false
        }
    }

    /// Count one more live file handle on `ino`.
    pub fn bump_open_handles(&mut self, ino: u64)
        ensures
            final(self)@ == old(self)@.with_eviction(
                ino,
                |v: EvictionState|
                    EvictionState { open_handles: v.open_handles.wrapping_add(1), ..v },
            ),
    {
        if let Some(entry) = self.get_mut(ino) {
            entry.eviction.open_handles = entry.eviction.open_handles.wrapping_add(1);
        }
    }

    /// Count one live file handle less on `ino`.
    pub fn drop_open_handles(&mut self, ino: u64)
        ensures
            final(self)@ == old(self)@.with_eviction(
                ino,
                |v: EvictionState|
                    EvictionState { open_handles: v.open_handles.wrapping_sub(1), ..v },
            ),
    {
        if let Some(entry) = self.get_mut(ino) {
            entry.eviction.open_handles = entry.eviction.open_handles.wrapping_sub(1);
        }
    }

    /// Is there at least one live file handle on this inode?
    pub fn has_open_handles(&self, ino: u64) -> (r: bool)
        ensures
            r == (self@.inodes.contains_key(ino) && self@.inodes[ino].eviction.open_handles > 0),
    {
        match self.get(ino) {
            Some(entry) => entry.eviction.open_handles > 0,
            None => false,
        }
    }

    pub fn len(&self) -> (r: usize)
        ensures
            r == self@.inodes.len(),
    {
        assert(entry_models(self.inodes@).dom() =~= self.inodes@.dom());
        self.inodes.len()
    }

    pub fn is_empty(&self) -> (r: bool)
        ensures
            r == (self@.inodes.len() == 0),
    {
        assert(entry_models(self.inodes@).dom() =~= self.inodes@.dom());
        self.inodes.len() == 0
    }

    /// Stamp `inode` with a fresh value of the touch counter. Nothing happens while the eviction
    /// sweep is disabled.
    pub fn touch(&mut self, inode: u64)
        ensures
            final(self)@ == old(self)@.touched(inode),
    {
        if self.soft_limit == 0 {
            return;
        }
        let seq: u64 = self.touch_counter;
        if let Some(entry) = self.get_mut(inode) {
            entry.eviction.last_touched = seq;
            self.touch_counter = seq.wrapping_add(1);
        }
    }

    /// Remember that `ino` could not be evicted yet, for the last handle to finish the job.
    pub fn mark_evict_pending(&mut self, ino: u64)
        ensures
            final(self)@ == old(self)@.with_eviction(
                ino,
                |v: EvictionState| EvictionState { evict_pending: true, ..v },
            ),
    {
        if let Some(entry) = self.get_mut(ino) {
            entry.eviction.evict_pending = true;
        }
    }

    /// Test and clear the flag. Returns true if the caller now owns the deferred eviction.
    pub fn take_evict_pending(&mut self, ino: u64) -> (r: bool)
        ensures
            final(self)@ == old(self)@.with_eviction(
                ino,
                |v: EvictionState| EvictionState { evict_pending: false, ..v },
            ),
            r == (old(self)@.inodes.contains_key(ino)
                && old(self)@.inodes[ino].eviction.evict_pending),
    {
        if let Some(entry) = self.get_mut(ino) {
            let pending = entry.eviction.evict_pending;
            entry.eviction.evict_pending = false;
            pending
        } else {
            false
        }
    }

    pub fn get_by_path(&self, path: &str) -> (r: Option<&InodeEntry>)
        ensures
            r is Some <==> self@.paths.contains_key(path@) && self@.inodes.contains_key(
                self@.paths[path@],
            ),
            r matches Some(e) ==> e@ == self@.inodes[self@.paths[path@]],
    {
        match self.path_to_inode.get(path) {
            Some(ino) => self.get(*ino),
            None => None,
        }
    }

    /// Remove a path to inode mapping.
    pub fn remove_path(&mut self, path: &str)
        ensures
            final(self)@ == (TableModel {
                paths: old(self)@.paths.remove(path@),
                ..old(self)@
            }),
    {
        self.path_to_inode.remove(path);
    }

    /// Insert a path to inode mapping.
    pub fn insert_path(&mut self, path: String, inode: u64)
        ensures
            final(self)@ == (TableModel {
                paths: old(self)@.paths.insert(path@, inode),
                ..old(self)@
            }),
    {
        self.path_to_inode.insert(path, inode);
    }

    /// Update remote file metadata, unless the inode is dirty. Returns true if updated.
    pub fn update_remote_file(
        &mut self,
        ino: u64,
        new_hash: Option<String>,
        new_etag: Option<String>,
        new_size: u64,
        new_mtime: Timestamp,
    ) -> (r: bool)
        ensures
            r == (old(self)@.inodes.contains_key(ino) && !old(self)@.inodes[ino].dirty()),
            final(self)@ == if r {
                old(self)@.remote_updated(
                    ino,
                    text::opt_text(new_hash),
                    text::opt_text(new_etag),
                    new_size,
                    new_mtime,
                )
            } else {
                old(self)@
            },
    {
        if let Some(entry) = self.get_mut(ino) {
            if entry.is_dirty() {
                proof {
                    assert(old(self)@.inodes.insert(ino, old(self)@.inodes[ino])
                        =~= old(self)@.inodes);
                }
                return false;
            }
            entry.xet_hash = new_hash;
            entry.etag = new_etag;
            entry.size = new_size;
            entry.mtime = new_mtime;
            entry.staging_is_current = false;
            true
        } else {
            false
        }
    }

    /// Make the next readdir or lookup list the directory again.
    pub fn invalidate_children(&mut self, ino: u64)
        ensures
            final(self)@ == old(self)@.updated(
                ino,
                |e: EntryModel| EntryModel { children_loaded: false, ..e },
            ),
    {
        if let Some(entry) = self.get_mut(ino) {
            entry.children_loaded = false;
        }
    }

    /// Check whether a directory's children have been listed.
    pub fn is_children_loaded(&self, ino: u64) -> (r: bool)
        ensures
            r == (self@.inodes.contains_key(ino) && self@.inodes[ino].children_loaded),
    {
        match self.get(ino) {
            Some(entry) => entry.children_loaded,
            None => false,
        }
    }

    /// Get directory inode by path.
    pub fn get_dir_ino(&self, path: &str) -> (r: Option<u64>)
        ensures
            r == self@.dir_at(path@),
    {
        match self.get_by_path(path) {
            Some(entry) => if entry.kind == InodeKind::Directory {
                Some(entry.inode)
            } else {
                None
            },
            None => None,
        }
    }

    /// Update mtime and ctime of a directory that was modified.
    pub fn touch_parent(&mut self, parent: u64, now: Timestamp)
        ensures
            final(self)@ == old(self)@.updated(
                parent,
                |e: EntryModel| EntryModel { mtime: now, ctime: now, ..e },
            ),
    {
        if let Some(entry) = self.get_mut(parent) {
            entry.mtime = now;
            entry.ctime = now;
        }
    }

    /// A table holds finitely many inodes.
    pub proof fn lemma_finite(&self)
        ensures
            self@.inodes.dom().finite(),
    {
        assert(entry_models(self.inodes@).dom() =~= self.inodes@.dom());
    }

    /// Takes an entry out of the number index.
    fn take(&mut self, ino: u64) -> (r: Option<InodeEntry>)
        ensures
            r is Some <==> old(self)@.inodes.contains_key(ino),
            r matches Some(e) ==> e@ == old(self)@.inodes[ino],
            final(self)@ == (TableModel {
                inodes: old(self)@.inodes.remove(ino),
                ..old(self)@
            }),
    {
        broadcast use lemma_entry_models_remove;

        self.inodes.remove(&ino)
    }

    /// Remove an inode whose last link is gone. Returns true if an entry was removed.
    pub fn remove_orphan(&mut self, ino: u64) -> (r: bool)
        ensures
            r == (old(self)@.inodes.contains_key(ino) && old(self)@.inodes[ino].nlink == 0),
            final(self)@ == if r {
                old(self)@.without(ino)
            } else {
                old(self)@
            },
    {
        let orphan = match self.get(ino) {
            Some(entry) => entry.nlink == 0,
            None => false,
        };
        if orphan {
            if let Some(entry) = self.take(ino) {
                self.path_to_inode.remove(entry.full_path.as_str());
            }
        }
        orphan
    }

    /// Find a child of `parent` by name. Edges to inodes that are gone are passed over.
    pub fn lookup_child(&self, parent: u64, name: &str) -> (r: Option<&InodeEntry>)
        ensures
            r is Some <==> self@.child_named(parent, name@) is Some,
            r matches Some(e) ==> e@ == self@.inodes[self@.child_named(parent, name@)->Some_0],
    {
        let parent_entry = match self.get(parent) {
            Some(e) => e,
            None => return None,
        };
        let ghost models = parent_entry@.children;
        let mut i: usize = 0;
        while i < parent_entry.children.len()
            invariant
                i <= parent_entry.children.len(),
                models == child_models(parent_entry.children@),
                self@.inodes.contains_key(parent),
                self@.inodes[parent].children == models,
                model::first_live(self@.inodes, models.take(i as int), name@) is None,
            decreases parent_entry.children.len() - i,
        {
            proof {
                assert(models.take(i + 1).drop_last() =~= models.take(i as int));
                assert(models.take(i + 1).last() == parent_entry.children@[i as int]@);
            }
            if str_eq(parent_entry.children[i].name.as_str(), name) {
                if let Some(entry) = self.get(parent_entry.children[i].ino) {
                    proof {
                        model::lemma_first_live_prefix(self@.inodes, models, i + 1, name@);
                    }
                    return Some(entry);
                }
            }
            i += 1;
        }
        assert(models.take(i as int) =~= models);
        None
    }

    /// Insert a new inode, returning its inode number. A path that is known already keeps its
    /// inode, which has to be of the same kind and is stamped as validated just now; a new one needs
    /// a parent.
    pub fn insert(
        &mut self,
        parent: u64,
        name: String,
        full_path: String,
        kind: InodeKind,
        size: u64,
        mtime: Timestamp,
        xet_hash: Option<String>,
        mode: u16,
        uid: u32,
        gid: u32,
    ) -> (r: u64)
        requires
            old(self)@.can_put(parent, full_path@, kind),
        ensures
            r == old(self)@.insert_ino(full_path@),
            exists|now: Timestamp, checked: Instant|
                final(self)@ == #[trigger] old(self)@.put(
                    NewInode {
                        parent,
                        name: name@,
                        full_path: full_path@,
                        kind,
                        size,
                        mtime,
                        xet_hash: text::opt_text(xet_hash),
                        mode,
                        uid,
                        gid,
                    },
                    now,
                    checked,
                ),
    {
        let now = Timestamp::now();
        let checked = instant_now();
        self.insert_at(
            parent,
            name,
            full_path,
            kind,
            size,
            mtime,
            xet_hash,
            mode,
            uid,
            gid,
            now,
            checked,
        )
    }

    /// `insert` at a given time.
    pub fn insert_at(
        &mut self,
        parent: u64,
        name: String,
        full_path: String,
        kind: InodeKind,
        size: u64,
        mtime: Timestamp,
        xet_hash: Option<String>,
        mode: u16,
        uid: u32,
        gid: u32,
        now: Timestamp,
        checked: Instant,
    ) -> (r: u64)
        requires
            old(self)@.can_put(parent, full_path@, kind),
        ensures
            r == old(self)@.insert_ino(full_path@),
            final(self)@ == old(self)@.put(
                NewInode {
                    parent,
                    name: name@,
                    full_path: full_path@,
                    kind,
                    size,
                    mtime,
                    xet_hash: text::opt_text(xet_hash),
                    mode,
                    uid,
                    gid,
                },
                now,
                checked,
            ),
    {
        self.insert_or_keep(
            parent,
            name,
            full_path,
            kind,
            size,
            mtime,
            xet_hash,
            mode,
            uid,
            gid,
            now,
            checked,
        )
    }

    /// `insert_at` whatever the table holds: a known path keeps its inode even if that is of
    /// another kind, and what has no known parent is found by its path alone.
    pub(crate) fn insert_or_keep(
        &mut self,
        parent: u64,
        name: String,
        full_path: String,
        kind: InodeKind,
        size: u64,
        mtime: Timestamp,
        xet_hash: Option<String>,
        mode: u16,
        uid: u32,
        gid: u32,
        now: Timestamp,
        checked: Instant,
    ) -> (r: u64)
        ensures
            r == old(self)@.insert_ino(full_path@),
            final(self)@ == old(self)@.put(
                NewInode {
                    parent,
                    name: name@,
                    full_path: full_path@,
                    kind,
                    size,
                    mtime,
                    xet_hash: text::opt_text(xet_hash),
                    mode,
                    uid,
                    gid,
                },
                now,
                checked,
            ),
    {
        if let Some(existing) = self.path_to_inode.get(full_path.as_str()) {
            let ino: u64 = *existing;
            if let Some(entry) = self.get_mut(ino) {
                entry.last_revalidated = Some(checked);
            }
            return ino;
        }
        let nlink: u32 = if kind == InodeKind::Directory {
            2
        } else {
            1
        };
        let inode: u64 = self.next_inode;
        let touch_seq: u64 = self.touch_counter;
        let entry = InodeEntry {
            inode,
            parent,
            name: name.clone(),
            full_path: full_path.clone(),
            kind,
            size,
            mtime,
            mode,
            uid,
            gid,
            atime: mtime,
            ctime: now,
            nlink,
            symlink_target: None,
            xet_hash,
            staging_is_current: false,
            etag: None,
            dirty_generation: 0,
            children_loaded: kind != InodeKind::Directory,
            children: Vec::new(),
            pending_deletes: Vec::new(),
            last_revalidated: Some(checked),
            eviction: EvictionState {
                nlookup: 0,
                last_touched: touch_seq,
                evict_pending: false,
                open_handles: 0,
            },
        };
        let ghost model = old(self)@.new_entry(
            NewInode {
                parent,
                name: name@,
                full_path: full_path@,
                kind,
                size,
                mtime,
                xet_hash: text::opt_text(xet_hash),
                mode,
                uid,
                gid,
            },
            now,
            checked,
        );
        assert(entry@ =~= model);
        self.next_inode = inode.wrapping_add(1);
        self.touch_counter = touch_seq.wrapping_add(1);
        broadcast use lemma_entry_models_insert;

        self.inodes.insert(inode, entry);
        self.path_to_inode.insert(full_path, inode);
        if let Some(parent_entry) = self.get_mut(parent) {
            let ghost listed = parent_entry@.children;
            parent_entry.children.push(DirChild { ino: inode, name });
            assert(parent_entry@.children =~= listed.push(ChildModel { ino: inode, name: name@ }));
            if kind == InodeKind::Directory {
                parent_entry.nlink = parent_entry.nlink.wrapping_add(1);
            }
        }
        assert(self@ == old(self)@.inserted(model));
        inode
    }

    /// Take `child_ino` off the children list of `parent_ino`. If `invalidate_children_loaded`,
    /// the parent lists its children again on the next readdir.
    fn detach_from_parent(
        &mut self,
        parent_ino: u64,
        child_ino: u64,
        child_kind: InodeKind,
        invalidate_children_loaded: bool,
    )
        ensures
            final(self)@ == old(self)@.detached(
                parent_ino,
                child_ino,
                child_kind,
                invalidate_children_loaded,
            ),
    {
        if let Some(parent) = self.get_mut(parent_ino) {
            drop_child(&mut parent.children, child_ino);
            if invalidate_children_loaded {
                parent.children_loaded = false;
            }
            if child_kind == InodeKind::Directory {
                parent.nlink = parent.nlink.saturating_sub(1);
            }
        }
    }

    /// Evict a file inode if that is safe: the kernel has let go of it, it is clean and it has no
    /// deletes pending. Returns true if evicted. The parent lists its children again on the next
    /// access.
    pub fn evict_if_safe(&mut self, ino: u64) -> (r: bool)
        ensures
            r == (old(self)@.inodes.contains_key(ino) && model::evictable(
                old(self)@.inodes[ino],
            )),
            final(self)@ == if r {
                old(self)@.evicted(ino)
            } else {
                old(self)@
            },
    {
        let should_evict = match self.get(ino) {
            Some(e) => e.kind == InodeKind::File && e.eviction.nlookup == 0 && !e.is_dirty()
                && e.pending_deletes.len() == 0 && e.nlink > 0,
            None => false,
        };
        if !should_evict {
            return false;
        }
        if let Some(entry) = self.take(ino) {
            self.path_to_inode.remove(entry.full_path.as_str());
            self.detach_from_parent(entry.parent, ino, InodeKind::File, true);
        }
        true
    }
}

/// Takes every edge to `ino` off a list of children.
fn drop_child(children: &mut Vec<DirChild>, ino: u64)
    ensures
        child_models(final(children)@) == model::without_child(child_models(old(children)@), ino),
{
    let ghost models = child_models(children@);
    let ghost keep = |c: ChildModel| c.ino != ino;
    let mut kept: Vec<DirChild> = Vec::new();
    let mut i: usize = 0;
    while i < children.len()
        invariant
            i <= children.len(),
            models == child_models(children@),
            keep == (|c: ChildModel| c.ino != ino),
            child_models(kept@) == models.take(i as int).filter(keep),
        decreases children.len() - i,
    {
        proof {
            reveal(Seq::filter);
            assert(models.take(i + 1).drop_last() =~= models.take(i as int));
            assert(models.take(i + 1).last() == children@[i as int]@);
        }
        if children[i].ino != ino {
            let ghost before = kept@;
            kept.push(children[i].clone());
            assert(child_models(kept@) =~= child_models(before).push(models[i as int]));
        }
        i += 1;
    }
    assert(models.take(i as int) =~= models);
    *children = kept;
}

impl InodeTable {
    /// Remove an inode, its edge from the parent, and all its descendants.
    pub fn remove(&mut self, inode: u64) -> (r: Option<InodeEntry>)
        ensures
            r is Some <==> old(self)@.inodes.contains_key(inode),
            r matches Some(e) ==> e@ == old(self)@.inodes[inode],
            final(self)@ == if r is Some {
                old(self)@.removed(inode)
            } else {
                old(self)@
            },
    {
        let entry = match self.take(inode) {
            Some(entry) => entry,
            None => {
                assert(old(self)@.inodes.remove(inode) =~= old(self)@.inodes);
                return None;
            },
        };
        self.path_to_inode.remove(entry.full_path.as_str());
        self.detach_from_parent(entry.parent, inode, entry.kind, false);
        let ghost rest = self@;
        let ghost starts = model::child_inos(entry@.children);
        let ghost mut gone: Set<u64> = Set::empty();
        let mut stack: Vec<u64> = Vec::new();
        push_children(&mut stack, &entry.children);
        proof {
            self.lemma_finite();
            model::lemma_sweep_start(rest, entry@.children);
            assert(stack@ =~= entry@.children.map_values(|c: ChildModel| c.ino));
            assert(rest.inodes.remove_keys(gone) =~= rest.inodes);
            assert(rest.paths.remove_keys(model::paths_of(rest.inodes, gone)) =~= rest.paths);
        }
        while stack.len() > 0
            invariant
                model::sweep_state(rest, starts, gone, stack@),
                self@ == (TableModel {
                    inodes: rest.inodes.remove_keys(gone),
                    paths: rest.paths.remove_keys(model::paths_of(rest.inodes, gone)),
                    ..rest
                }),
                rest.inodes.dom().finite(),
            decreases rest.inodes.dom().difference(gone).len(), stack.len(),
        {
            let ghost before = stack@;
            let top: Option<u64> = stack.pop();
            if let Some(child_ino) = top {
                if let Some(child) = self.take(child_ino) {
                    self.path_to_inode.remove(child.full_path.as_str());
                    let ghost popped = stack@;
                    push_children(&mut stack, &child.children);
                    proof {
                        model::lemma_sweep_visit(rest, starts, gone, before, stack@);
                        let next = gone.insert(child_ino);
                        assert(rest.inodes.remove_keys(next) =~= rest.inodes.remove_keys(
                            gone,
                        ).remove(child_ino));
                        model::lemma_paths_of_insert(rest.inodes, gone, child_ino);
                        assert(rest.paths.remove_keys(model::paths_of(rest.inodes, next))
                            =~= rest.paths.remove_keys(model::paths_of(rest.inodes, gone)).remove(
                            child@.full_path,
                        ));
                        assert(rest.inodes.dom().difference(next)
                            =~= rest.inodes.dom().difference(gone).remove(child_ino));
                        gone = next;
                    }
                } else {
                    proof {
                        model::lemma_sweep_skip(rest, starts, gone, before);
                        assert(rest.inodes.remove_keys(gone).remove(child_ino)
                            =~= rest.inodes.remove_keys(gone));
                    }
                }
            }
        }
        proof {
            model::lemma_sweep_done(rest, starts, gone);
        }
        Some(entry)
    }
}

/// Puts the inode numbers of a list of children on a stack.
fn push_children(stack: &mut Vec<u64>, children: &Vec<DirChild>)
    ensures
        final(stack)@ == old(stack)@ + child_models(children@).map_values(
            |c: ChildModel| c.ino,
        ),
{
    let ghost inos = child_models(children@).map_values(|c: ChildModel| c.ino);
    let mut i: usize = 0;
    while i < children.len()
        invariant
            i <= children.len(),
            inos == child_models(children@).map_values(|c: ChildModel| c.ino),
            stack@ == old(stack)@ + inos.take(i as int),
        decreases children.len() - i,
    {
        stack.push(children[i].ino);
        assert(inos.take(i + 1) =~= inos.take(i as int).push(inos[i as int]));
        i += 1;
    }
    assert(inos.take(i as int) =~= inos);
}

impl InodeTable {
    /// Remove one directory entry by name from `parent` and lower the link count of its inode.
    /// Returns whether the last link is gone, with a snapshot of the inode. The inode itself
    /// stays. An edge to an inode that is gone is removed and nothing is returned.
    pub fn unlink_one(&mut self, parent: u64, name: &str) -> (r: Option<(bool, InodeEntry)>)
        ensures
            r is Some <==> old(self)@.unlink_reaches(parent, name@),
            r matches Some((gone, snapshot)) ==> {
                &&& gone == (snapshot.nlink == 0)
                &&& snapshot@ == final(self)@.inodes[old(self)@.unlink_target(
                    parent,
                    name@,
                )->Some_0]
            },
            exists|now: Timestamp|
                final(self)@ == #[trigger] old(self)@.unlinked(parent, name@, now),
    {
        let now = Timestamp::now();
        self.unlink_one_at(parent, name, now)
    }

    /// `unlink_one` at a given time.
    pub fn unlink_one_at(&mut self, parent: u64, name: &str, now: Timestamp) -> (r: Option<
        (bool, InodeEntry),
    >)
        ensures
            r is Some <==> old(self)@.unlink_reaches(parent, name@),
            r matches Some((gone, snapshot)) ==> {
                &&& gone == (snapshot.nlink == 0)
                &&& snapshot@ == final(self)@.inodes[old(self)@.unlink_target(
                    parent,
                    name@,
                )->Some_0]
            },
            final(self)@ == old(self)@.unlinked(parent, name@, now),
    {
        let (pos, child_ino, full_path) = match self.get(parent) {
            Some(entry) => match position_named(&entry.children, name) {
                Some(pos) => (
                    pos,
                    entry.children[pos].ino,
                    child_path(entry.full_path.as_str(), name),
                ),
                None => return None,
            },
            None => return None,
        };
        if let Some(entry) = self.get_mut(parent) {
            let ghost listed = entry@.children;
            let _ = entry.children.remove(pos);
            assert(entry@.children =~= listed.remove(pos as int));
        }
        self.path_to_inode.remove(full_path.as_str());
        assert(self@ == old(self)@.edge_removed(parent, name@));
        if let Some(entry) = self.get_mut(child_ino) {
            entry.nlink = entry.nlink.saturating_sub(1);
            entry.ctime = now;
            let snapshot = entry.clone();
            Some((snapshot.nlink == 0, snapshot))
        } else {
            None
        }
    }

    fn take_edge(&mut self, ino: u64, parent: u64, name: &str, crosses: bool)
        ensures
            final(self)@ == old(self)@.edge_taken(ino, parent, name@, crosses),
    {
        if let Some(entry) = self.get_mut(parent) {
            if let Some(pos) = position_edge(&entry.children, ino, name) {
                let ghost listed = entry@.children;
                let _ = entry.children.remove(pos);
                assert(entry@.children =~= listed.remove(pos as int));
            }
            if crosses {
                entry.nlink = entry.nlink.saturating_sub(1);
            }
        }
    }

    fn add_edge(&mut self, ino: u64, parent: u64, name: &str, crosses: bool)
        ensures
            final(self)@ == old(self)@.edge_added(ino, parent, name@, crosses),
    {
        if let Some(entry) = self.get_mut(parent) {
            let ghost listed = entry@.children;
            entry.children.push(DirChild { ino, name: name.to_owned() });
            assert(entry@.children =~= listed.push(ChildModel { ino, name: name@ }));
            if crosses {
                entry.nlink = entry.nlink.wrapping_add(1);
            }
        }
    }

    /// Move a child from one parent to another, or rename it within one parent. Link counts of
    /// the parents follow a directory. Paths are left to `update_subtree_paths`.
    pub fn move_child(
        &mut self,
        ino: u64,
        old_parent: u64,
        old_name: &str,
        new_parent: u64,
        new_name: &str,
    )
        ensures
            final(self)@ == old(self)@.moved(ino, old_parent, old_name@, new_parent, new_name@),
    {
        let is_dir = match self.get(ino) {
            Some(entry) => entry.kind == InodeKind::Directory,
            None => false,
        };
        let crosses = is_dir && old_parent != new_parent;
        self.take_edge(ino, old_parent, old_name, crosses);
        self.add_edge(ino, new_parent, new_name, crosses);
        if let Some(entry) = self.get_mut(ino) {
            entry.parent = new_parent;
            entry.name = new_name.to_owned();
        }
    }
}

/// The position of the first child called `name`.
fn position_named(children: &Vec<DirChild>, name: &str) -> (r: Option<usize>)
    ensures
        r is Some <==> model::first_named(child_models(children@), name@) is Some,
        r matches Some(i) ==> {
            &&& i < children.len()
            &&& model::first_named(child_models(children@), name@) == Some(i as int)
        },
{
    let ghost models = child_models(children@);
    let mut i: usize = 0;
    while i < children.len()
        invariant
            i <= children.len(),
            models == child_models(children@),
            model::first_named(models.take(i as int), name@) is None,
        decreases children.len() - i,
    {
        proof {
            assert(models.take(i + 1).drop_last() =~= models.take(i as int));
            assert(models.take(i + 1).last() == children@[i as int]@);
        }
        if str_eq(children[i].name.as_str(), name) {
            proof {
                model::lemma_first_named_prefix(models, i + 1, name@);
            }
            return Some(i);
        }
        i += 1;
    }
    assert(models.take(i as int) =~= models);
    None
}

/// The position of the first child that is `ino` under the name `name`.
fn position_edge(children: &Vec<DirChild>, ino: u64, name: &str) -> (r: Option<usize>)
    ensures
        r is Some <==> model::first_edge(child_models(children@), ino, name@) is Some,
        r matches Some(i) ==> {
            &&& i < children.len()
            &&& model::first_edge(child_models(children@), ino, name@) == Some(i as int)
        },
{
    let ghost models = child_models(children@);
    let mut i: usize = 0;
    while i < children.len()
        invariant
            i <= children.len(),
            models == child_models(children@),
            model::first_edge(models.take(i as int), ino, name@) is None,
        decreases children.len() - i,
    {
        proof {
            assert(models.take(i + 1).drop_last() =~= models.take(i as int));
            assert(models.take(i + 1).last() == children@[i as int]@);
        }
        if children[i].ino == ino && str_eq(children[i].name.as_str(), name) {
            proof {
                model::lemma_first_edge_prefix(models, i + 1, ino, name@);
            }
            return Some(i);
        }
        i += 1;
    }
    assert(models.take(i as int) =~= models);
    None
}

impl InodeTable {
    /// True if the inode or any descendant is dirty or has an open file handle, so that evicting
    /// the subtree would drop local state.
    pub fn has_dirty_or_open_descendants(&self, ino: u64) -> (r: bool)
        ensures
            r == self@.subtree_busy(ino),
    {
        let ghost starts = set![ino];
        let mut visited: HashSet<u64> = HashSet::new();
        let mut stack: Vec<u64> = Vec::new();
        stack.push(ino);
        proof {
            self.lemma_finite();
            assert(stack@[0] == ino);
        }
        while stack.len() > 0
            invariant
                model::sweep_state(self@, starts, visited@, stack@),
                starts == set![ino],
                forall|x: u64| #[trigger] visited@.contains(x) ==> !self@.inodes[x].busy(),
                self@.inodes.dom().finite(),
                visited@.finite(),
            decreases self@.inodes.dom().difference(visited@).len(), stack.len(),
        {
            let ghost before = stack@;
            let top: Option<u64> = stack.pop();
            if let Some(current) = top {
                let seen = visited.contains(&current);
                if !seen {
                    if let Some(entry) = self.get(current) {
                        let ghost was = visited@;
                        push_children(&mut stack, &entry.children);
                        let _ = visited.insert(current);
                        proof {
                            model::lemma_sweep_visit(self@, starts, was, before, stack@);
                            assert(self@.inodes.dom().difference(visited@)
                                =~= self@.inodes.dom().difference(was).remove(current));
                        }
                        if entry.is_dirty() || entry.eviction.open_handles > 0 {
                            proof {
                                assert(visited@.contains(current));
                                assert(self@.inodes[current].busy());
                            }
                            return true;
                        }
                    } else {
                        proof {
                            model::lemma_sweep_skip(self@, starts, visited@, before);
                        }
                    }
                } else {
                    proof {
                        model::lemma_sweep_skip(self@, starts, visited@, before);
                    }
                }
            }
        }
        proof {
            assert(stack@ =~= Seq::empty());
            model::lemma_sweep_done(self@, starts, visited@);
        }
        false
    }
}

impl InodeTable {
    /// Rewrite the full path of an inode and of what lies below it, and the path index with it.
    /// Used after a rename. A hard link whose own path is not the one its place gives belongs
    /// elsewhere and is left as it is. Nothing happens for an unknown inode.
    pub fn update_subtree_paths(&mut self, inode: u64, new_full_path: String)
        requires
            model::bounded_height(old(self)@.inodes, inode),
        ensures
            final(self)@ == old(self)@.subtree_repathed(inode, new_full_path@),
    {
        let ghost height = model::height_of(old(self)@.inodes, inode);
        self.repath(inode, new_full_path, Ghost(height));
    }

    /// Whether an inode is known and has this path.
    fn is_placed(&self, inode: u64, path: &str) -> (r: bool)
        ensures
            r == (self@.inodes.contains_key(inode) && self@.inodes[inode].full_path == path@),
    {
        match self.get(inode) {
            Some(entry) => str_eq(entry.full_path.as_str(), path),
            None => false,
        }
    }

    fn repath(&mut self, inode: u64, new_full_path: String, Ghost(height): Ghost<nat>)
        requires
            model::height_within(old(self)@.inodes, inode, height),
        ensures
            final(self)@ == old(self)@.repathed(inode, new_full_path@, height),
        decreases height,
    {
        let old_path = match self.get(inode) {
            Some(entry) => entry.full_path.clone(),
            None => return,
        };
        self.path_to_inode.remove(old_path.as_str());
        let mut children: Vec<DirChild> = Vec::new();
        if let Some(entry) = self.get_mut(inode) {
            entry.full_path = new_full_path.clone();
            children = clone_children(&entry.children);
        }
        self.path_to_inode.insert(new_full_path.clone(), inode);
        let ghost models = child_models(children@);
        let ghost start = self@;
        let ghost below = (height - 1) as nat;
        assert(start =~= old(self)@.path_set(inode, new_full_path@));
        let mut i: usize = 0;
        assert(models.take(0) =~= Seq::empty());
        assert(model::same_shape(old(self)@.inodes, start.inodes));
        while i < children.len()
            invariant
                i <= children.len(),
                models == child_models(children@),
                below < height,
                self@ == start.children_repathed(
                    models.take(i as int),
                    old_path@,
                    new_full_path@,
                    below,
                ),
                model::same_shape(old(self)@.inodes, start.inodes),
                forall|j: int|
                    0 <= j < models.len() ==> model::height_within(
                        old(self)@.inodes,
                        (#[trigger] models[j]).ino,
                        below,
                    ),
            decreases children.len() - i,
        {
            let old_place = child_path(old_path.as_str(), children[i].name.as_str());
            let path = child_path(new_full_path.as_str(), children[i].name.as_str());
            proof {
                start.lemma_children_repathed_shape(
                    models.take(i as int),
                    old_path@,
                    new_full_path@,
                    below,
                );
                assert(models[i as int] == children@[i as int]@);
                model::lemma_height_shape(
                    old(self)@.inodes,
                    self@.inodes,
                    models[i as int].ino,
                    below,
                );
                assert(models.take(i + 1).drop_last() =~= models.take(i as int));
                assert(models.take(i + 1).last() == models[i as int]);
            }
            if self.is_placed(children[i].ino, old_place.as_str()) {
                self.repath(children[i].ino, path, Ghost(below));
            }
            i += 1;
        }
        assert(models.take(i as int) =~= models);
    }
}

impl InodeTable {
    /// The inode numbers in the table, each once, in no particular order.
    fn known(&self) -> (r: Vec<u64>)
        ensures
            model::enumerates(r@, self@.inodes.dom()),
    {
        assert(entry_models(self.inodes@).dom() =~= self.inodes@.dom());
        let mut out: Vec<u64> = Vec::new();
        for k in it: self.inodes.keys()
            invariant
                it.seq().unref().to_set() == self.inodes@.dom(),
                it.seq().no_duplicates(),
                out@ == it.seq().unref().take(it.index()),
                it.index() == it.seq().len() ==> out@ == it.seq().unref(),
        {
            out.push(*k);
            proof {
                let keys = it.seq().unref();
                assert(keys.take(it.index() + 1) =~= keys.take(it.index()).push(*k));
                assert(keys.take(keys.len() as int) =~= keys);
            }
        }
        out
    }

    /// The inodes of all dirty files that still have a link (a symlink has nothing to flush), in
    /// no particular order.
    pub fn dirty_inos(&self) -> (r: Vec<u64>)
        ensures
            exists|keys: Seq<u64>| #[trigger]
                model::enumerates(keys, self@.dirty_files()) && r@ == keys.map_values(
                    |k: u64| self@.inodes[k].inode,
                ),
    {
        let all = self.known();
        let mut out: Vec<u64> = Vec::new();
        let ghost mut keys: Seq<u64> = Seq::empty();
        let ghost pick = |k: u64| self@.inodes[k].inode;
        let mut i: usize = 0;
        proof {
            model::lemma_picks_start(all@, self@.dirty_files());
        }
        while i < all.len()
            invariant
                i <= all.len(),
                model::enumerates(all@, self@.inodes.dom()),
                model::picks(keys, all@.take(i as int), self@.dirty_files()),
                pick == (|k: u64| self@.inodes[k].inode),
                out@ == keys.map_values(pick),
            decreases all.len() - i,
        {
            proof {
                model::lemma_picks_step(keys, all@, i as int, self@.dirty_files());
            }
            if let Some(e) = self.get(all[i]) {
                if e.kind == InodeKind::File && e.is_dirty() && e.nlink > 0 {
                    out.push(e.inode);
                    proof {
                        assert(keys.push(all@[i as int]).map_values(pick) =~= keys.map_values(
                            pick,
                        ).push(e.inode));
                        keys = keys.push(all@[i as int]);
                    }
                }
            }
            i += 1;
        }
        proof {
            model::lemma_picks_done(keys, all@, self@.inodes.dom(), self@.dirty_files());
        }
        out
    }

    /// Snapshot of all file entries: (ino, full_path, xet_hash, etag, size, is_dirty), in no
    /// particular order.
    pub fn file_snapshot(&self) -> (r: Vec<
        (u64, String, Option<String>, Option<String>, u64, bool),
    >)
        ensures
            exists|keys: Seq<u64>| #[trigger]
                model::enumerates(keys, self@.files()) && snapshot_models(r@) == keys.map_values(
                    |k: u64| self@.inodes[k].snapshot(),
                ),
    {
        let all = self.known();
        let mut out: Vec<(u64, String, Option<String>, Option<String>, u64, bool)> = Vec::new();
        let ghost mut keys: Seq<u64> = Seq::empty();
        let ghost pick = |k: u64| self@.inodes[k].snapshot();
        let mut i: usize = 0;
        assert(snapshot_models(out@) =~= keys.map_values(pick));
        proof {
            model::lemma_picks_start(all@, self@.files());
        }
        while i < all.len()
            invariant
                i <= all.len(),
                model::enumerates(all@, self@.inodes.dom()),
                model::picks(keys, all@.take(i as int), self@.files()),
                pick == (|k: u64| self@.inodes[k].snapshot()),
                snapshot_models(out@) == keys.map_values(pick),
            decreases all.len() - i,
        {
            proof {
                model::lemma_picks_step(keys, all@, i as int, self@.files());
            }
            if let Some(e) = self.get(all[i]) {
                if e.kind == InodeKind::File {
                    let ghost before = out@;
                    let row = (
                        e.inode,
                        e.full_path.clone(),
                        clone_opt(&e.xet_hash),
                        clone_opt(&e.etag),
                        e.size,
                        e.is_dirty(),
                    );
                    out.push(row);
                    proof {
                        assert(snapshot_models(out@) =~= snapshot_models(before).push(
                            snapshot_model(row),
                        ));
                        assert(keys.push(all@[i as int]).map_values(pick) =~= keys.map_values(
                            pick,
                        ).push(e@.snapshot()));
                        keys = keys.push(all@[i as int]);
                    }
                }
            }
            i += 1;
        }
        proof {
            model::lemma_picks_done(keys, all@, self@.inodes.dom(), self@.files());
        }
        out
    }

    /// The full path of every directory whose children have been listed, in no particular order.
    /// Only these have to be listed again when looking for remote changes.
    pub fn loaded_dir_prefixes(&self) -> (r: Vec<String>)
        ensures
            exists|keys: Seq<u64>| #[trigger]
                model::enumerates(keys, self@.loaded_dirs()) && text::texts(r@) == keys.map_values(
                    |k: u64| self@.inodes[k].full_path,
                ),
    {
        let all = self.known();
        let mut out: Vec<String> = Vec::new();
        let ghost mut keys: Seq<u64> = Seq::empty();
        let ghost pick = |k: u64| self@.inodes[k].full_path;
        let mut i: usize = 0;
        assert(text::texts(out@) =~= keys.map_values(pick));
        proof {
            model::lemma_picks_start(all@, self@.loaded_dirs());
        }
        while i < all.len()
            invariant
                i <= all.len(),
                model::enumerates(all@, self@.inodes.dom()),
                model::picks(keys, all@.take(i as int), self@.loaded_dirs()),
                pick == (|k: u64| self@.inodes[k].full_path),
                text::texts(out@) == keys.map_values(pick),
            decreases all.len() - i,
        {
            proof {
                model::lemma_picks_step(keys, all@, i as int, self@.loaded_dirs());
            }
            if let Some(e) = self.get(all[i]) {
                if e.kind == InodeKind::Directory && e.children_loaded {
                    let ghost before = out@;
                    out.push(e.full_path.clone());
                    proof {
                        assert(text::texts(out@) =~= text::texts(before).push(e@.full_path));
                        assert(keys.push(all@[i as int]).map_values(pick) =~= keys.map_values(
                            pick,
                        ).push(e@.full_path));
                        keys = keys.push(all@[i as int]);
                    }
                }
            }
            i += 1;
        }
        proof {
            model::lemma_picks_done(keys, all@, self@.inodes.dom(), self@.loaded_dirs());
        }
        out
    }
}

/// What a row of `file_snapshot` holds.
pub type SnapshotModel = (u64, Seq<char>, Option<Seq<char>>, Option<Seq<char>>, u64, bool);

/// What a row of `file_snapshot` holds.
pub open spec fn snapshot_model(
    row: (u64, String, Option<String>, Option<String>, u64, bool),
) -> SnapshotModel {
    (row.0, row.1@, text::opt_text(row.2), text::opt_text(row.3), row.4, row.5)
}

/// What the rows of `file_snapshot` hold.
pub open spec fn snapshot_models(
    rows: Seq<(u64, String, Option<String>, Option<String>, u64, bool)>,
) -> Seq<SnapshotModel> {
    rows.map_values(
        |row: (u64, String, Option<String>, Option<String>, u64, bool)| snapshot_model(row),
    )
}

/// What a row of `lru_candidates` holds.
pub open spec fn candidate_models(rows: Seq<(u64, u64, String)>) -> Seq<(u64, u64, Seq<char>)> {
    rows.map_values(|row: (u64, u64, String)| (row.0, row.1, row.2@))
}

impl InodeTable {
    /// Up to `max` file inodes that the sweep may ask the kernel to let go of (linked, clean, no
    /// pending deletes, no open handles), those touched longest ago, oldest first, each with its
    /// parent and name.
    pub fn lru_candidates(&self, max: usize) -> (r: Vec<(u64, u64, String)>)
        ensures
            exists|picked: Seq<u64>| #[trigger]
                self@.oldest(picked, max as nat, self@.sweepable_files()) && candidate_models(r@)
                    == picked.map_values(
                    |k: u64| (k, self@.inodes[k].parent, self@.inodes[k].name),
                ),
    {
        let ghost eligible = self@.sweepable_files();
        let mut picks: Vec<u64> = Vec::new();
        if max > 0 {
            let all = self.known();
            let mut i: usize = 0;
            proof {
                assert(self@.oldest(
                    picks@,
                    max as nat,
                    eligible.intersect(all@.take(0).to_set()),
                ));
            }
            while i < all.len()
                invariant
                    i <= all.len(),
                    max > 0,
                    eligible == self@.sweepable_files(),
                    model::enumerates(all@, self@.inodes.dom()),
                    self@.oldest(
                        picks@,
                        max as nat,
                        eligible.intersect(all@.take(i as int).to_set()),
                    ),
                decreases all.len() - i,
            {
                let ghost seen = eligible.intersect(all@.take(i as int).to_set());
                let ghost next = eligible.intersect(all@.take(i + 1).to_set());
                let ino: u64 = all[i];
                proof {
                    model::lemma_take_set(all@, i as int);
                    assert(all@.contains(ino));
                    assert(all@.to_set().contains(ino));
                }
                if let Some(e) = self.get(ino) {
                    if e.kind == InodeKind::File && e.nlink > 0 && !e.is_dirty()
                        && e.pending_deletes.len() == 0 && e.eviction.open_handles == 0 {
                        assert(next =~= seen.insert(ino));
                        self.keep_oldest(&mut picks, max, ino, Ghost(seen));
                    } else {
                        assert(next =~= seen);
                    }
                }
                i += 1;
            }
            assert(all@.take(i as int) =~= all@);
            assert(eligible.intersect(all@.to_set()) =~= eligible);
        } else {
            assert(self@.oldest(picks@, max as nat, eligible));
        }
        let mut out: Vec<(u64, u64, String)> = Vec::new();
        let ghost row_of = |k: u64| (k, self@.inodes[k].parent, self@.inodes[k].name);
        let mut j: usize = 0;
        assert(candidate_models(out@) =~= picks@.take(0).map_values(row_of));
        while j < picks.len()
            invariant
                j <= picks.len(),
                eligible == self@.sweepable_files(),
                self@.oldest(picks@, max as nat, eligible),
                row_of == (|k: u64| (k, self@.inodes[k].parent, self@.inodes[k].name)),
                candidate_models(out@) == picks@.take(j as int).map_values(row_of),
            decreases picks.len() - j,
        {
            assert(eligible.contains(picks@[j as int]));
            if let Some(e) = self.get(picks[j]) {
                let ghost before = out@;
                let row = (picks[j], e.parent, e.name.clone());
                out.push(row);
                assert(candidate_models(out@) =~= candidate_models(before).push(
                    row_of(picks@[j as int]),
                ));
                assert(picks@.take(j + 1).map_values(row_of) =~= picks@.take(
                    j as int,
                ).map_values(row_of).push(row_of(picks@[j as int])));
            }
            j += 1;
        }
        assert(picks@.take(j as int) =~= picks@);
        out
    }

    /// Adds `ino` to a list of the `max` inodes touched longest ago.
    fn keep_oldest(&self, picks: &mut Vec<u64>, max: usize, ino: u64, Ghost(seen): Ghost<Set<u64>>)
        requires
            max > 0,
            self@.inodes.contains_key(ino),
            seen.subset_of(self@.inodes.dom()),
            !seen.contains(ino),
            self@.oldest(old(picks)@, max as nat, seen),
        ensures
            self@.oldest(final(picks)@, max as nat, seen.insert(ino)),
    {
        let mut pos: usize = 0;
        while pos < picks.len() && self.touched_before(picks[pos], ino)
            invariant
                pos <= picks.len(),
                self@.inodes.contains_key(ino),
                seen.subset_of(self@.inodes.dom()),
                self@.oldest(picks@, max as nat, seen),
                forall|j: int| 0 <= j < pos ==> self@.before(#[trigger] picks@[j], ino),
                !seen.contains(ino),
            ensures
                forall|j: int| 0 <= j < pos ==> self@.before(#[trigger] picks@[j], ino),
                pos <= picks.len(),
                pos < picks.len() ==> !self@.before(picks@[pos as int], ino),
            decreases picks.len() - pos,
        {
            pos += 1;
        }
        let ghost was = picks@;
        picks.insert(pos, ino);
        proof {
            self@.lemma_oldest_insert(was, max as nat, seen, ino, pos as int);
        }
        if picks.len() > max {
            let _ = picks.pop();
        }
    }

    fn touched_before(&self, a: u64, b: u64) -> (r: bool)
        requires
            self@.inodes.contains_key(a),
            self@.inodes.contains_key(b),
        ensures
            r == self@.before(a, b),
    {
        match (self.get(a), self.get(b)) {
            (Some(x), Some(y)) => x.eviction.last_touched < y.eviction.last_touched || (
            x.eviction.last_touched == y.eviction.last_touched && a < b),
            _ => false,
        }
    }
}

impl InodeTable {
    /// Evict those of `inos` for which it is safe, checked anew: a handle may have been opened
    /// since they were picked. Returns the inodes evicted, each once, in no particular order, and
    /// makes their parents list their children again.
    pub fn evict_batch_if_safe(&mut self, inos: &[u64]) -> (r: Vec<u64>)
        ensures
            model::enumerates(r@, old(self)@.batch(inos@)),
            final(self)@ == old(self)@.batch_evicted(old(self)@.batch(inos@)),
    {
        let ghost start = self@;
        let mut gone: HashMap<u64, u64> = HashMap::new();
        let mut evicted: Vec<u64> = Vec::new();
        let mut seen: HashSet<u64> = HashSet::new();
        let mut parents: Vec<u64> = Vec::new();
        let mut i: usize = 0;
        assert(evicted@.to_set() =~= gone@.dom());
        assert(parents@.to_set() =~= seen@);
        while i < inos.len()
            invariant
                i <= inos.len(),
                self@ == start,
                forall|x: u64| #[trigger]
                    gone@.contains_key(x) <==> start.batch(inos@.take(i as int)).contains(x),
                forall|x: u64| #[trigger]
                    gone@.contains_key(x) ==> gone@[x] == start.inodes[x].parent && seen@.contains(
                        start.inodes[x].parent,
                    ),
                forall|p: u64| #[trigger]
                    seen@.contains(p) ==> exists|x: u64| #[trigger]
                        gone@.contains_key(x) && start.inodes[x].parent == p,
                model::enumerates(evicted@, gone@.dom()),
                model::enumerates(parents@, seen@),
            decreases inos.len() - i,
        {
            let ino: u64 = inos[i];
            let ghost before = inos@.take(i as int);
            let ghost after = inos@.take(i + 1);
            proof {
                assert(after =~= before.push(ino));
                assert forall|x: u64| #[trigger] after.contains(x) <==> before.contains(x) || x
                    == ino by {
                    if before.contains(x) {
                        let j = choose|j: int| 0 <= j < before.len() && before[j] == x;
                        assert(after[j] == x);
                    }
                    assert(after[i as int] == ino);
                }
            }
            let parent: Option<u64> = match self.get(ino) {
                Some(e) => if e.kind == InodeKind::File && e.eviction.nlookup == 0
                    && e.eviction.open_handles == 0 && !e.is_dirty() && e.pending_deletes.len() == 0
                    && e.nlink > 0 {
                    Some(e.parent)
                } else {
                    None
                },
                None => None,
            };
            if let Some(p) = parent {
                let known = gone.contains_key(&ino);
                if !known {
                    let ghost was = gone@;
                    let ghost listed = evicted@;
                    gone.insert(ino, p);
                    evicted.push(ino);
                    proof {
                        model::lemma_enumerates_push(listed, was.dom(), ino);
                        assert(gone@.dom() =~= was.dom().insert(ino));
                    }
                    let known_parent = seen.contains(&p);
                    if !known_parent {
                        let ghost ps = parents@;
                        let ghost pset = seen@;
                        parents.push(p);
                        let _ = seen.insert(p);
                        proof {
                            model::lemma_enumerates_push(ps, pset, p);
                        }
                    }
                    proof {
                        assert(gone@.contains_key(ino));
                        assert forall|q: u64| #[trigger] seen@.contains(q) implies exists|x: u64|
                            #[trigger] gone@.contains_key(x) && start.inodes[x].parent == q by {
                            if q != p {
                                let x = choose|x: u64| #[trigger]
                                    was.contains_key(x) && start.inodes[x].parent == q;
                                assert(gone@.contains_key(x));
                            }
                        }
                    }
                }
            }
            i += 1;
        }
        let ghost set = start.batch(inos@);
        proof {
            assert(inos@.take(i as int) =~= inos@);
            assert(gone@.dom() =~= set);
            assert(start.inodes.remove_keys(evicted@.take(0).to_set()) =~= start.inodes);
            assert(start.paths.remove_keys(model::paths_of(start.inodes, evicted@.take(0).to_set()))
                =~= start.paths);
        }
        let mut j: usize = 0;
        while j < evicted.len()
            invariant
                j <= evicted.len(),
                model::enumerates(evicted@, set),
                forall|x: u64| #[trigger] set.contains(x) ==> start.inodes.contains_key(x),
                self@ == (TableModel {
                    inodes: start.inodes.remove_keys(evicted@.take(j as int).to_set()),
                    paths: start.paths.remove_keys(
                        model::paths_of(start.inodes, evicted@.take(j as int).to_set()),
                    ),
                    ..start
                }),
            decreases evicted.len() - j,
        {
            let ghost low = evicted@.take(j as int).to_set();
            let ino: u64 = evicted[j];
            proof {
                model::lemma_take_set(evicted@, j as int);
                model::lemma_paths_of_insert(start.inodes, low, ino);
                assert(evicted@.contains(ino));
                assert(evicted@.to_set().contains(ino));
                assert(start.inodes.remove_keys(low.insert(ino)) =~= start.inodes.remove_keys(
                    low,
                ).remove(ino));
                assert(start.paths.remove_keys(model::paths_of(start.inodes, low.insert(ino)))
                    =~= start.paths.remove_keys(model::paths_of(start.inodes, low)).remove(
                    start.inodes[ino].full_path,
                ));
            }
            if let Some(entry) = self.take(ino) {
                self.path_to_inode.remove(entry.full_path.as_str());
            }
            j += 1;
        }
        proof {
            assert(evicted@.take(j as int) =~= evicted@);
        }
        let mut k: usize = 0;
        while k < parents.len()
            invariant
                k <= parents.len(),
                gone@.dom() == set,
                forall|x: u64| #[trigger]
                    gone@.contains_key(x) ==> gone@[x] == start.inodes[x].parent,
                forall|p: u64| #[trigger]
                    seen@.contains(p) ==> exists|x: u64| #[trigger]
                        gone@.contains_key(x) && start.inodes[x].parent == p,
                model::enumerates(parents@, seen@),
                self@ == (TableModel {
                    inodes: self@.inodes,
                    paths: start.paths.remove_keys(model::paths_of(start.inodes, set)),
                    ..start
                }),
                forall|p: u64| #[trigger]
                    self@.inodes.contains_key(p) <==> start.inodes.contains_key(p)
                        && !set.contains(p),
                forall|p: u64| #[trigger]
                    self@.inodes.contains_key(p) ==> self@.inodes[p] == if parents@.take(
                        k as int,
                    ).to_set().contains(p) {
                        start.pruned(p, set)
                    } else {
                        start.inodes[p]
                    },
            decreases parents.len() - k,
        {
            let p: u64 = parents[k];
            proof {
                model::lemma_take_set(parents@, k as int);
                assert(parents@.contains(p));
                assert(parents@.to_set().contains(p));
                let x = choose|x: u64| #[trigger]
                    gone@.contains_key(x) && start.inodes[x].parent == p;
                assert(set.contains(x) && start.inodes[x].parent == p);
            }
            if let Some(entry) = self.get_mut(p) {
                let ghost listed = entry@.children;
                drop_children_of(&mut entry.children, &gone, p);
                entry.children_loaded = false;
                proof {
                    let f = |c: ChildModel| !(gone@.contains_key(c.ino) && gone@[c.ino] == p);
                    let g = |c: ChildModel|
                        !(set.contains(c.ino) && start.inodes[c.ino].parent == p);
                    assert forall|c: ChildModel| #[trigger] f(c) == g(c) by {
                        assert(gone@.dom().contains(c.ino) == set.contains(c.ino));
                    }
                    assert(f =~= g);
                    assert(entry@ =~= start.pruned(p, set));
                }
            }
            k += 1;
        }
        proof {
            assert(parents@.take(k as int) =~= parents@);
            assert forall|p: u64| #[trigger] self@.inodes.contains_key(p) implies self@.inodes[p]
                == start.pruned(p, set) by {
                if !seen@.contains(p) {
                    assert forall|x: u64| set.contains(x) implies start.inodes[x].parent != p by {
                        assert(gone@.contains_key(x));
                    }
                }
            }
            assert(self@ =~= start.batch_evicted(set));
        }
        evicted
    }
}

/// Takes off a list of children those that `gone` maps to `parent`.
fn drop_children_of(children: &mut Vec<DirChild>, gone: &HashMap<u64, u64>, parent: u64)
    ensures
        child_models(final(children)@) == child_models(old(children)@).filter(
            |c: ChildModel| !(gone@.contains_key(c.ino) && gone@[c.ino] == parent),
        ),
{
    let ghost models = child_models(children@);
    let ghost keep = |c: ChildModel| !(gone@.contains_key(c.ino) && gone@[c.ino] == parent);
    let mut kept: Vec<DirChild> = Vec::new();
    let mut i: usize = 0;
    proof {
        reveal(Seq::filter);
        assert(models.take(0) =~= Seq::empty());
        assert(child_models(kept@) =~= models.take(0).filter(keep));
    }
    while i < children.len()
        invariant
            i <= children.len(),
            models == child_models(children@),
            keep == (|c: ChildModel| !(gone@.contains_key(c.ino) && gone@[c.ino] == parent)),
            child_models(kept@) == models.take(i as int).filter(keep),
        decreases children.len() - i,
    {
        proof {
            reveal(Seq::filter);
            assert(models.take(i + 1).drop_last() =~= models.take(i as int));
            assert(models.take(i + 1).last() == children@[i as int]@);
        }
        let dropped = match gone.get(&children[i].ino) {
            Some(p) => *p == parent,
            None => false,
        };
        if !dropped {
            let ghost before = kept@;
            kept.push(children[i].clone());
            assert(child_models(kept@) =~= child_models(before).push(models[i as int]));
        }
        i += 1;
    }
    assert(models.take(i as int) =~= models);
    *children = kept;
}

} // verus!
