//! Loading the children of a directory from a remote listing.
use crate::hub_api;
use crate::hub_api::{mtime_from_str, TreeEntry, TreeModel};
use crate::text;
use crate::text::{split_at_first, str_eq, strip_prefix};
use crate::time::Timestamp;
use crate::virtual_fs::inode;
use crate::virtual_fs::inode::{child_path, ChildModel, EntryModel, InodeKind, InodeTable};
use crate::virtual_fs::model::{NewInode, TableModel};
use crate::virtual_fs::{Errno, VirtualFs, VirtualFsDirEntry, VirtualFsResult};
use std::time::Instant;
use vstd::hash_map::StringHashMap;
use vstd::prelude::*;
use vstd::string::*;

verus! {

broadcast use {
    vstd::std_specs::hash::group_hash_axioms,
    vstd::hash_map::group_hash_map_axioms,
    vstd::string::group_string_axioms,
};

/// What has to be known to turn a listing into inodes.
pub struct ListingContext {
    /// The path of the directory.
    pub prefix: String,
    pub default_mtime: Timestamp,
    pub uid: u32,
    pub gid: u32,
    pub now: Timestamp,
    pub checked: Instant,
}

/// What a `ListingContext` holds.
pub struct ContextModel {
    pub prefix: Seq<char>,
    pub default_mtime: Timestamp,
    pub uid: u32,
    pub gid: u32,
    pub now: Timestamp,
    pub checked: Instant,
}

impl View for ListingContext {
    type V = ContextModel;

    open spec fn view(&self) -> ContextModel {
        ContextModel {
            prefix: self.prefix@,
            default_mtime: self.default_mtime,
            uid: self.uid,
            gid: self.gid,
            now: self.now,
            checked: self.checked,
        }
    }
}

/// A listed path as seen from the directory at `prefix`.
pub open spec fn relative(prefix: Seq<char>, path: Seq<char>) -> Seq<char> {
    if prefix.len() == 0 {
        path
    } else {
        match text::stripped(path, prefix) {
            Some(rest) => match text::stripped(rest, "/"@) {
                Some(rel) => rel,
                None => path,
            },
            None => path,
        }
    }
}

/// The state of taking in a listing: the table, and the names seen so far.
pub struct Intake {
    pub table: TableModel,
    pub dirs: Set<Seq<char>>,
    pub names: Set<Seq<char>>,
}

/// The inode that a direct entry of the listing asks for.
pub open spec fn entry_inode(
    parent: u64,
    rel: Seq<char>,
    e: TreeModel,
    c: ContextModel,
) -> NewInode {
    let is_dir = e.entry_type == "directory"@;
    NewInode {
        parent,
        name: rel,
        full_path: e.path,
        kind: if is_dir {
            InodeKind::Directory
        } else {
            InodeKind::File
        },
        size: match e.size {
            Some(size) => size,
            None => 0,
        },
        mtime: match e.mtime {
            Some(s) => hub_api::mtime_of(hub_api::rfc3339_seconds(s)),
            None => c.default_mtime,
        },
        xet_hash: e.xet_hash,
        mode: if is_dir {
            0o755
        } else {
            0o644
        },
        uid: c.uid,
        gid: c.gid,
    }
}

/// The inode for a subdirectory that the listing only shows through what is below it.
pub open spec fn subdir_inode(parent: u64, name: Seq<char>, c: ContextModel) -> NewInode {
    NewInode {
        parent,
        name,
        full_path: inode::spec_child_path(c.prefix, name),
        kind: InodeKind::Directory,
        size: 0,
        mtime: c.default_mtime,
        xet_hash: None,
        mode: 0o755,
        uid: c.uid,
        gid: c.gid,
    }
}

/// Taking in one entry: a nested path stands for its first directory, any other path for itself.
pub open spec fn taken_in(s: Intake, parent: u64, e: TreeModel, c: ContextModel) -> Intake {
    let rel = relative(c.prefix, e.path);
    match text::split_first(rel, '/') {
        Some((dir, _)) => if s.dirs.contains(dir) {
            s
        } else {
            Intake {
                table: s.table.put(subdir_inode(parent, dir, c), c.now, c.checked),
                dirs: s.dirs.insert(dir),
                ..s
            }
        },
        None => {
            let put = s.table.put(entry_inode(parent, rel, e, c), c.now, c.checked);
            Intake {
                table: match e.oid {
                    Some(oid) => put.updated(
                        s.table.insert_ino(e.path),
                        |x: EntryModel| EntryModel { etag: Some(oid), ..x },
                    ),
                    None => put,
                },
                names: s.names.insert(rel),
                ..s
            }
        },
    }
}

/// Taking in a whole listing.
pub open spec fn all_taken_in(
    t: TableModel,
    parent: u64,
    es: Seq<TreeModel>,
    c: ContextModel,
) -> Intake
    decreases es.len(),
{
    if es.len() == 0 {
        Intake { table: t, dirs: Set::empty(), names: Set::empty() }
    } else {
        taken_in(all_taken_in(t, parent, es.drop_last(), c), parent, es.last(), c)
    }
}

/// A child that the listing no longer shows and that is known and clean.
pub open spec fn is_stale(s: Intake, child: ChildModel) -> bool {
    &&& !s.names.contains(child.name)
    &&& !s.dirs.contains(child.name)
    &&& s.table.inodes.contains_key(child.ino)
    &&& !s.table.inodes[child.ino].dirty()
}

/// The children of `parent` that the listing no longer shows.
pub open spec fn stale_children(s: Intake, parent: u64) -> Seq<u64> {
    if s.table.inodes.contains_key(parent) {
        s.table.inodes[parent].children.filter(|c: ChildModel| is_stale(s, c)).map_values(
            |c: ChildModel| c.ino,
        )
    } else {
        Seq::empty()
    }
}

/// The table without these subtrees, except those in which something is dirty or open.
pub open spec fn idle_removed(t: TableModel, inos: Seq<u64>) -> TableModel
    decreases inos.len(),
{
    if inos.len() == 0 {
        t
    } else {
        let low = idle_removed(t, inos.drop_last());
        if low.inodes.contains_key(inos.last()) && !low.subtree_busy(inos.last()) {
            low.removed(inos.last())
        } else {
            low
        }
    }
}

/// The table after the listing of `parent` is taken in: entries added, stale children removed, and
/// the directory marked as listed.
pub open spec fn listed(
    t: TableModel,
    parent: u64,
    es: Seq<TreeModel>,
    c: ContextModel,
) -> TableModel {
    let s = all_taken_in(t, parent, es, c);
    idle_removed(s.table, stale_children(s, parent)).updated(
        parent,
        |e: EntryModel| EntryModel { children_loaded: true, ..e },
    )
}

/// A listed path as seen from the directory at `prefix`.
fn relative_path<'a>(prefix: &str, path: &'a str) -> (r: &'a str)
    ensures
        r@ == relative(prefix@, path@),
{
    if prefix.is_empty() {
        return path;
    }
    match strip_prefix(path, prefix) {
        Some(rest) => match strip_prefix(rest, "/") {
            Some(rel) => rel,
            None => path,
        },
        None => path,
    }
}

/// Take in one entry of a listing.
fn take_in(
    inodes: &mut InodeTable,
    seen_dirs: &mut StringHashMap<bool>,
    seen_names: &mut StringHashMap<bool>,
    parent: u64,
    entry: &TreeEntry,
    c: &ListingContext,
)
    ensures
        ({
            let s = taken_in(
                Intake {
                    table: old(inodes)@,
                    dirs: old(seen_dirs)@.dom(),
                    names: old(seen_names)@.dom(),
                },
                parent,
                entry@,
                c@,
            );
            &&& final(inodes)@ == s.table
            &&& final(seen_dirs)@.dom() == s.dirs
            &&& final(seen_names)@.dom() == s.names
        }),
{
    let rel = relative_path(c.prefix.as_str(), entry.path.as_str());
    match split_at_first(rel, '/') {
        Some((dir, _)) => {
            if !seen_dirs.contains_key(dir) {
                let ghost before = seen_dirs@;
                seen_dirs.insert(dir.to_owned(), true);
                assert(seen_dirs@.dom() =~= before.dom().insert(dir@));
                let path = child_path(c.prefix.as_str(), dir);
                let _ = inodes.insert_or_keep(
                    parent,
                    dir.to_owned(),
                    path,
                    InodeKind::Directory,
                    0,
                    c.default_mtime,
                    None,
                    0o755,
                    c.uid,
                    c.gid,
                    c.now,
                    c.checked,
                );
            }
        },
        None => {
            let is_dir = str_eq(entry.entry_type.as_str(), "directory");
            let kind = if is_dir {
                InodeKind::Directory
            } else {
                InodeKind::File
            };
            let size: u64 = match entry.size {
                Some(size) => size,
                None => 0,
            };
            let mtime = match &entry.mtime {
                Some(s) => mtime_from_str(s.as_str()),
                None => c.default_mtime,
            };
            let mode: u16 = if is_dir {
                0o755
            } else {
                0o644
            };
            let ino: u64 = inodes.insert_or_keep(
                parent,
                rel.to_owned(),
                entry.path.clone(),
                kind,
                size,
                mtime,
                text::clone_opt(&entry.xet_hash),
                mode,
                c.uid,
                c.gid,
                c.now,
                c.checked,
            );
            let ghost before = seen_names@;
            seen_names.insert(rel.to_owned(), true);
            assert(seen_names@.dom() =~= before.dom().insert(rel@));
            if let Some(oid) = &entry.oid {
                if let Some(e) = inodes.get_mut(ino) {
                    e.etag = Some(oid.clone());
                }
            }
        },
    }
}

/// The children of `parent` that the listing no longer shows.
fn find_stale(
    inodes: &InodeTable,
    seen_dirs: &StringHashMap<bool>,
    seen_names: &StringHashMap<bool>,
    parent: u64,
) -> (r: Vec<u64>)
    ensures
        r@ == stale_children(
            Intake { table: inodes@, dirs: seen_dirs@.dom(), names: seen_names@.dom() },
            parent,
        ),
{
    let ghost s = Intake { table: inodes@, dirs: seen_dirs@.dom(), names: seen_names@.dom() };
    let ghost keep = |c: ChildModel| is_stale(s, c);
    let ghost num = |c: ChildModel| c.ino;
    let mut out: Vec<u64> = Vec::new();
    if let Some(entry) = inodes.get(parent) {
        let ghost models = entry@.children;
        let mut i: usize = 0;
        proof {
            reveal(Seq::filter);
            assert(models.take(0) =~= Seq::empty());
            assert(out@ =~= models.take(0).filter(keep).map_values(num));
        }
        while i < entry.children.len()
            invariant
                i <= entry.children.len(),
                models == inode::child_models(entry.children@),
                s == (Intake {
                    table: inodes@,
                    dirs: seen_dirs@.dom(),
                    names: seen_names@.dom(),
                }),
                keep == (|c: ChildModel| is_stale(s, c)),
                num == (|c: ChildModel| c.ino),
                out@ == models.take(i as int).filter(keep).map_values(num),
            decreases entry.children.len() - i,
        {
            let child = &entry.children[i];
            let ghost kept = models.take(i as int).filter(keep);
            proof {
                reveal(Seq::filter);
                assert(models.take(i + 1).drop_last() =~= models.take(i as int));
                assert(models.take(i + 1).last() == child@);
                assert(kept.push(child@).map_values(num) =~= kept.map_values(num).push(child.ino));
            }
            if !seen_names.contains_key(child.name.as_str()) && !seen_dirs.contains_key(
                child.name.as_str(),
            ) {
                if let Some(e) = inodes.get(child.ino) {
                    if !e.is_dirty() {
                        out.push(child.ino);
                    }
                }
            }
            i += 1;
        }
        assert(models.take(i as int) =~= models);
    }
    out
}

/// Remove subtrees in which nothing is dirty or open.
fn remove_idle(inodes: &mut InodeTable, inos: &Vec<u64>)
    ensures
        final(inodes)@ == idle_removed(old(inodes)@, inos@),
{
    let ghost start = inodes@;
    let mut i: usize = 0;
    assert(inos@.take(0) =~= Seq::empty());
    while i < inos.len()
        invariant
            i <= inos.len(),
            inodes@ == idle_removed(start, inos@.take(i as int)),
        decreases inos.len() - i,
    {
        assert(inos@.take(i + 1).drop_last() =~= inos@.take(i as int));
        assert(inos@.take(i + 1).last() == inos@[i as int]);
        if !inodes.has_dirty_or_open_descendants(inos[i]) {
            let _ = inodes.remove(inos[i]);
        }
        i += 1;
    }
    assert(inos@.take(i as int) =~= inos@);
}

/// What loading the children of a directory calls for.
pub open spec fn load_status(t: TableModel, ino: u64) -> VirtualFsResult<Option<Seq<char>>> {
    if !t.inodes.contains_key(ino) {
        Err(Errno::ENOENT)
    } else if t.inodes[ino].kind != InodeKind::Directory {
        Err(Errno::ENOTDIR)
    } else if t.inodes[ino].children_loaded {
        Ok(None)
    } else {
        Ok(Some(t.inodes[ino].full_path))
    }
}

/// Taking in a listing has an effect: the directory is known and not listed yet.
pub open spec fn wants_listing(t: TableModel, ino: u64) -> bool {
    t.inodes.contains_key(ino) && !t.inodes[ino].children_loaded && t.inodes[ino].kind
        == InodeKind::Directory
}

impl VirtualFs {
    /// The path of the directory that has to be listed before the children of `ino` are known,
    /// `None` if they are.
    pub fn listing_needed(&self, ino: u64) -> (r: VirtualFsResult<Option<String>>)
        ensures
            match (r, load_status(self.inodes@, ino)) {
                (Ok(Some(path)), Ok(Some(p))) => path@ == p,
                (Ok(None), Ok(None)) => true,
                (Err(a), Err(b)) => a == b,
                _ => false,
            },
    {
        match self.inodes.get(ino) {
            Some(e) => if e.kind != InodeKind::Directory {
                Err(Errno::ENOTDIR)
            } else if e.children_loaded {
                Ok(None)
            } else {
                Ok(Some(e.full_path.clone()))
            },
            None => Err(Errno::ENOENT),
        }
    }

    /// Take in the listing of the directory `parent_ino`, unless another one came first. Entries
    /// are added, and children that are no longer listed go, except where something is dirty or
    /// open.
    pub fn apply_listing(
        &mut self,
        parent_ino: u64,
        prefix: String,
        entries: &Vec<TreeEntry>,
        now: Timestamp,
        checked: Instant,
    ) -> (r: VirtualFsResult<()>)
        ensures
            r == if !old(self).inodes@.inodes.contains_key(parent_ino) {
                Err::<(), Errno>(Errno::ENOENT)
            } else if !old(self).inodes@.inodes[parent_ino].children_loaded && old(
                self,
            ).inodes@.inodes[parent_ino].kind != InodeKind::Directory {
                Err(Errno::ENOTDIR)
            } else {
                Ok(())
            },
            final(self).inodes@ == if wants_listing(old(self).inodes@, parent_ino) {
                listed(
                    old(self).inodes@,
                    parent_ino,
                    hub_api::tree_models(entries@),
                    (ContextModel {
                        prefix: prefix@,
                        default_mtime: old(self).default_mtime,
                        uid: old(self).config.uid,
                        gid: old(self).config.gid,
                        now,
                        checked,
                    }),
                )
            } else {
                old(self).inodes@
            },
            old(self).only_inodes(*final(self)),
    {
        match self.inodes.get(parent_ino) {
            Some(e) => {
                if e.children_loaded {
                    return Ok(());
                }
                if e.kind != InodeKind::Directory {
                    return Err(Errno::ENOTDIR);
                }
            },
            None => return Err(Errno::ENOENT),
        }
        let context = ListingContext {
            prefix,
            default_mtime: self.default_mtime,
            uid: self.config.uid,
            gid: self.config.gid,
            now,
            checked,
        };
        let ghost start = self.inodes@;
        let ghost es = hub_api::tree_models(entries@);
        let mut seen_dirs: StringHashMap<bool> = StringHashMap::new();
        let mut seen_names: StringHashMap<bool> = StringHashMap::new();
        let mut i: usize = 0;
        proof {
            assert(es.take(0) =~= Seq::empty());
            assert(seen_dirs@.dom() =~= Set::empty());
            assert(seen_names@.dom() =~= Set::empty());
        }
        while i < entries.len()
            invariant
                i <= entries.len(),
                es == hub_api::tree_models(entries@),
                ({
                    let s = all_taken_in(start, parent_ino, es.take(i as int), context@);
                    &&& self.inodes@ == s.table
                    &&& seen_dirs@.dom() == s.dirs
                    &&& seen_names@.dom() == s.names
                }),
                old(self).only_inodes(*self),
            decreases entries.len() - i,
        {
            assert(es.take(i + 1).drop_last() =~= es.take(i as int));
            assert(es.take(i + 1).last() == entries@[i as int]@);
            take_in(
                &mut self.inodes,
                &mut seen_dirs,
                &mut seen_names,
                parent_ino,
                &entries[i],
                &context,
            );
            i += 1;
        }
        assert(es.take(i as int) =~= es);
        let stale = find_stale(&self.inodes, &seen_dirs, &seen_names, parent_ino);
        remove_idle(&mut self.inodes, &stale);
        if let Some(parent) = self.inodes.get_mut(parent_ino) {
            parent.children_loaded = true;
        }
        Ok(())
    }
}

/// What a directory entry holds.
pub type DirEntryModel = (u64, InodeKind, Seq<char>);

/// What a list of directory entries holds.
pub open spec fn dir_entry_models(v: Seq<VirtualFsDirEntry>) -> Seq<DirEntryModel> {
    v.map_values(|e: VirtualFsDirEntry| (e.ino, e.kind, e.name@))
}

/// The entry shown for a child, unless its inode is gone.
pub open spec fn shown_child(t: TableModel, c: ChildModel) -> Option<DirEntryModel> {
    if t.inodes.contains_key(c.ino) {
        Some((t.inodes[c.ino].inode, t.inodes[c.ino].kind, c.name))
    } else {
        None
    }
}

/// What a directory shows: itself, its parent, and its children.
pub open spec fn shown(t: TableModel, ino: u64) -> Seq<DirEntryModel> {
    seq![(ino, InodeKind::Directory, "."@), (t.inodes[ino].parent, InodeKind::Directory, ".."@)]
        + t.inodes[ino].children.filter_map(|c: ChildModel| shown_child(t, c))
}

/// The children of a directory that are directories.
pub open spec fn subdirs(t: TableModel, ino: u64) -> Seq<u64> {
    if t.inodes.contains_key(ino) {
        t.inodes[ino].children.filter(
            |c: ChildModel|
                t.inodes.contains_key(c.ino) && t.inodes[c.ino].kind == InodeKind::Directory,
        ).map_values(|c: ChildModel| c.ino)
    } else {
        Seq::empty()
    }
}

impl VirtualFs {
    /// What a directory shows, once its children are known.
    pub fn readdir(&self, ino: u64) -> (r: VirtualFsResult<Vec<VirtualFsDirEntry>>)
        ensures
            r is Err <==> !self.inodes@.inodes.contains_key(ino),
            r matches Err(e) ==> e == Errno::ENOENT,
            r matches Ok(v) ==> dir_entry_models(v@) == shown(self.inodes@, ino),
    {
        let entry = match self.inodes.get(ino) {
            Some(e) => e,
            None => return Err(Errno::ENOENT),
        };
        let ghost t = self.inodes@;
        let ghost models = entry@.children;
        let ghost show = |c: ChildModel| shown_child(t, c);
        let mut out: Vec<VirtualFsDirEntry> = Vec::new();
        out.push(VirtualFsDirEntry { ino, kind: InodeKind::Directory, name: ".".to_owned() });
        out.push(
            VirtualFsDirEntry { ino: entry.parent, kind: InodeKind::Directory, name: "..".to_owned() },
        );
        let ghost head: Seq<DirEntryModel> = seq![
            (ino, InodeKind::Directory, "."@),
            (entry.parent, InodeKind::Directory, ".."@),
        ];
        let mut i: usize = 0;
        proof {
            reveal(Seq::filter_map);
            assert(models.take(0) =~= Seq::empty());
            assert(dir_entry_models(out@) =~= head + models.take(0).filter_map(show));
        }
        while i < entry.children.len()
            invariant
                i <= entry.children.len(),
                t == self.inodes@,
                models == inode::child_models(entry.children@),
                show == (|c: ChildModel| shown_child(t, c)),
                dir_entry_models(out@) == head + models.take(i as int).filter_map(show),
            decreases entry.children.len() - i,
        {
            let child = &entry.children[i];
            proof {
                models.lemma_filter_map_take_succ(show, i as int);
                assert(models[i as int] == child@);
            }
            if let Some(e) = self.inodes.get(child.ino) {
                let ghost before = out@;
                let ghost low = models.take(i as int).filter_map(show);
                out.push(
                    VirtualFsDirEntry { ino: e.inode, kind: e.kind, name: child.name.clone() },
                );
                proof {
                    let m = (e.inode, e.kind, child.name@);
                    assert(dir_entry_models(out@) =~= dir_entry_models(before).push(m));
                    assert(head + low.push(m) =~= (head + low).push(m));
                }
            }
            i += 1;
        }
        assert(models.take(i as int) =~= models);
        Ok(out)
    }

    /// The children of a directory that are directories, to load a whole subtree.
    pub fn child_dirs(&self, ino: u64) -> (r: Vec<u64>)
        ensures
            r@ == subdirs(self.inodes@, ino),
    {
        let ghost t = self.inodes@;
        let ghost keep = |c: ChildModel|
            t.inodes.contains_key(c.ino) && t.inodes[c.ino].kind == InodeKind::Directory;
        let ghost num = |c: ChildModel| c.ino;
        let mut out: Vec<u64> = Vec::new();
        if let Some(entry) = self.inodes.get(ino) {
            let ghost models = entry@.children;
            let mut i: usize = 0;
            proof {
                reveal(Seq::filter);
                assert(models.take(0) =~= Seq::empty());
                assert(out@ =~= models.take(0).filter(keep).map_values(num));
            }
            while i < entry.children.len()
                invariant
                    i <= entry.children.len(),
                    t == self.inodes@,
                    models == inode::child_models(entry.children@),
                    keep == (|c: ChildModel|
                        t.inodes.contains_key(c.ino) && t.inodes[c.ino].kind
                            == InodeKind::Directory),
                    num == (|c: ChildModel| c.ino),
                    out@ == models.take(i as int).filter(keep).map_values(num),
                decreases entry.children.len() - i,
            {
                let child = &entry.children[i];
                let ghost kept = models.take(i as int).filter(keep);
                proof {
                    reveal(Seq::filter);
                    assert(models.take(i + 1).drop_last() =~= models.take(i as int));
                    assert(models.take(i + 1).last() == child@);
                    assert(kept.push(child@).map_values(num) =~= kept.map_values(num).push(
                        child.ino,
                    ));
                }
                if let Some(e) = self.inodes.get(child.ino) {
                    if e.kind == InodeKind::Directory {
                        out.push(child.ino);
                    }
                }
                i += 1;
            }
            assert(models.take(i as int) =~= models);
        }
        out
    }
}

} // verus!
