//! The mathematical model of the inode table, and what each table operation does to it.
use crate::time::Timestamp;
use crate::virtual_fs::inode;
use crate::virtual_fs::inode::{ChildModel, EntryModel, EvictionState, InodeKind, ROOT_INODE};
use std::time::Instant;
use vstd::prelude::*;

verus! {

/// What an inode table holds.
#[verifier::ext_equal]
pub struct TableModel {
    pub inodes: Map<u64, EntryModel>,
    pub paths: Map<Seq<char>, u64>,
    pub next_inode: u64,
    pub touch_counter: u64,
    pub soft_limit: usize,
}

/// What an insertion asks for.
pub struct NewInode {
    pub parent: u64,
    pub name: Seq<char>,
    pub full_path: Seq<char>,
    pub kind: InodeKind,
    pub size: u64,
    pub mtime: Timestamp,
    pub xet_hash: Option<Seq<char>>,
    pub mode: u16,
    pub uid: u32,
    pub gid: u32,
}

/// The children of a list that are not `ino`.
pub open spec fn without_child(children: Seq<ChildModel>, ino: u64) -> Seq<ChildModel> {
    children.filter(|c: ChildModel| c.ino != ino)
}

/// The position of the first child called `name`.
pub open spec fn first_named(children: Seq<ChildModel>, name: Seq<char>) -> Option<int>
    decreases children.len(),
{
    if children.len() == 0 {
        None
    } else {
        match first_named(children.drop_last(), name) {
            Some(i) => Some(i),
            None => if children.last().name == name {
                Some(children.len() - 1)
            } else {
                None
            },
        }
    }
}

/// The position of the first child that is `ino` under the name `name`.
pub open spec fn first_edge(children: Seq<ChildModel>, ino: u64, name: Seq<char>) -> Option<int>
    decreases children.len(),
{
    if children.len() == 0 {
        None
    } else {
        match first_edge(children.drop_last(), ino, name) {
            Some(i) => Some(i),
            None => if children.last().ino == ino && children.last().name == name {
                Some(children.len() - 1)
            } else {
                None
            },
        }
    }
}

/// The inode of the first child called `name` that is still in the table.
pub open spec fn first_live(
    inodes: Map<u64, EntryModel>,
    children: Seq<ChildModel>,
    name: Seq<char>,
) -> Option<u64>
    decreases children.len(),
{
    if children.len() == 0 {
        None
    } else {
        match first_live(inodes, children.drop_last(), name) {
            Some(i) => Some(i),
            None => if children.last().name == name && inodes.contains_key(children.last().ino) {
                Some(children.last().ino)
            } else {
                None
            },
        }
    }
}

/// `b` is listed among the children of `a`.
pub open spec fn is_child(inodes: Map<u64, EntryModel>, a: u64, b: u64) -> bool {
    inodes.contains_key(a) && exists|i: int|
        0 <= i < inodes[a].children.len() && #[trigger] inodes[a].children[i].ino == b
}

/// A walk down the tree through inodes that are all in the table.
pub open spec fn is_walk(inodes: Map<u64, EntryModel>, walk: Seq<u64>) -> bool {
    &&& walk.len() > 0
    &&& forall|i: int| 0 <= i < walk.len() ==> inodes.contains_key(#[trigger] walk[i])
    &&& forall|i: int|
        #![trigger walk[i]]
        0 <= i < walk.len() - 1 ==> is_child(inodes, walk[i], walk[i + 1])
}

/// The inodes in the table that a walk from one of `starts` arrives at, `starts` included.
pub open spec fn reachable(inodes: Map<u64, EntryModel>, starts: Set<u64>) -> Set<u64> {
    Set::new(
        |x: u64|
            exists|walk: Seq<u64>| #[trigger]
                is_walk(inodes, walk) && starts.contains(walk[0]) && walk.last() == x,
    )
}

/// The inode numbers that a list of children names.
pub open spec fn child_inos(children: Seq<ChildModel>) -> Set<u64> {
    Set::new(
        |x: u64| exists|i: int| 0 <= i < children.len() && #[trigger] children[i].ino == x,
    )
}

/// The full paths of a set of inodes.
pub open spec fn paths_of(inodes: Map<u64, EntryModel>, set: Set<u64>) -> Set<Seq<char>> {
    Set::new(
        |p: Seq<char>| exists|x: u64| #[trigger] set.contains(x) && inodes[x].full_path == p,
    )
}

/// A file that the kernel has let go of and that holds nothing the remote lacks.
pub open spec fn evictable(e: EntryModel) -> bool {
    &&& e.kind == InodeKind::File
    &&& e.eviction.nlookup == 0
    &&& !e.dirty()
    &&& e.pending_deletes.len() == 0
    &&& e.nlink > 0
}

/// A file that the periodic sweep may ask the kernel to let go of.
pub open spec fn sweepable(e: EntryModel) -> bool {
    &&& e.kind == InodeKind::File
    &&& e.nlink > 0
    &&& !e.dirty()
    &&& e.pending_deletes.len() == 0
    &&& e.eviction.open_handles == 0
}

/// A subtree whose walks from `ino` have fewer than `height` steps.
pub open spec fn height_within(inodes: Map<u64, EntryModel>, ino: u64, height: nat) -> bool
    decreases height,
{
    inodes.contains_key(ino) ==> {
        &&& height > 0
        &&& forall|i: int|
            0 <= i < inodes[ino].children.len() ==> height_within(
                inodes,
                (#[trigger] inodes[ino].children[i]).ino,
                (height - 1) as nat,
            )
    }
}

impl TableModel {
    /// The table with one entry replaced, if that inode is known.
    pub open spec fn updated(self, ino: u64, f: spec_fn(EntryModel) -> EntryModel) -> TableModel {
        if self.inodes.contains_key(ino) {
            TableModel { inodes: self.inodes.insert(ino, f(self.inodes[ino])), ..self }
        } else {
            self
        }
    }

    /// The table with the eviction bookkeeping of one inode replaced, if that inode is known.
    pub open spec fn with_eviction(
        self,
        ino: u64,
        f: spec_fn(EvictionState) -> EvictionState,
    ) -> TableModel {
        self.updated(ino, |e: EntryModel| EntryModel { eviction: f(e.eviction), ..e })
    }

    /// The table after a use of `ino` is noted for the eviction sweep.
    pub open spec fn touched(self, ino: u64) -> TableModel {
        if self.soft_limit == 0 || !self.inodes.contains_key(ino) {
            self
        } else {
            TableModel { touch_counter: self.touch_counter.wrapping_add(1), ..self }.with_eviction(
                ino,
                |v: EvictionState| EvictionState { last_touched: self.touch_counter, ..v },
            )
        }
    }

    /// The table after the remote content of `ino` is seen to have changed.
    pub open spec fn remote_updated(
        self,
        ino: u64,
        hash: Option<Seq<char>>,
        etag: Option<Seq<char>>,
        size: u64,
        mtime: Timestamp,
    ) -> TableModel {
        self.updated(
            ino,
            |e: EntryModel|
                EntryModel {
                    xet_hash: hash,
                    etag,
                    size,
                    mtime,
                    staging_is_current: false,
                    ..e
                },
        )
    }

    /// The directory that the path leads to.
    pub open spec fn dir_at(self, path: Seq<char>) -> Option<u64> {
        if self.paths.contains_key(path) && self.inodes.contains_key(self.paths[path])
            && self.inodes[self.paths[path]].kind == InodeKind::Directory {
            Some(self.inodes[self.paths[path]].inode)
        } else {
            None
        }
    }

    /// The inode that an insertion at `path` returns.
    pub open spec fn insert_ino(self, path: Seq<char>) -> u64 {
        if self.paths.contains_key(path) {
            self.paths[path]
        } else {
            self.next_inode
        }
    }

    /// The table with `ino`, if known, stamped as validated at `checked`.
    pub open spec fn stamped(self, ino: u64, checked: Instant) -> TableModel {
        self.updated(ino, |e: EntryModel| EntryModel { last_revalidated: Some(checked), ..e })
    }

    /// The table of a fresh mount: the root directory alone.
    pub open spec fn fresh(soft_limit: usize) -> TableModel {
        TableModel {
            inodes: Map::empty().insert(ROOT_INODE, root_entry()),
            paths: Map::empty().insert(Seq::empty(), ROOT_INODE),
            next_inode: 2,
            touch_counter: 0,
            soft_limit,
        }
    }

    /// The entry that a new inode gets.
    pub open spec fn new_entry(self, new: NewInode, now: Timestamp, checked: Instant) -> EntryModel {
        EntryModel {
            inode: self.next_inode,
            parent: new.parent,
            name: new.name,
            full_path: new.full_path,
            kind: new.kind,
            size: new.size,
            mtime: new.mtime,
            mode: new.mode,
            uid: new.uid,
            gid: new.gid,
            atime: new.mtime,
            ctime: now,
            nlink: if new.kind == InodeKind::Directory {
                2
            } else {
                1
            },
            symlink_target: None,
            xet_hash: new.xet_hash,
            staging_is_current: false,
            etag: None,
            dirty_generation: 0,
            children_loaded: new.kind != InodeKind::Directory,
            children: Seq::empty(),
            pending_deletes: Seq::empty(),
            last_revalidated: Some(checked),
            eviction: EvictionState {
                nlookup: 0,
                last_touched: self.touch_counter,
                evict_pending: false,
                open_handles: 0,
            },
        }
    }

    /// Something can be put in the table: a known path leads to an inode of the same kind, and a
    /// new one has a known parent.
    pub open spec fn can_put(self, parent: u64, path: Seq<char>, kind: InodeKind) -> bool {
        if self.paths.contains_key(path) {
            self.inodes.contains_key(self.paths[path]) && self.inodes[self.paths[path]].kind
                == kind
        } else {
            self.inodes.contains_key(parent)
        }
    }

    /// The table after an insertion: a path that is known keeps its inode, stamped as validated.
    pub open spec fn put(self, new: NewInode, now: Timestamp, checked: Instant) -> TableModel {
        if self.paths.contains_key(new.full_path) {
            self.stamped(self.paths[new.full_path], checked)
        } else {
            self.inserted(self.new_entry(new, now, checked))
        }
    }

    /// The table with `entry` recorded as the next inode under its parent. A new directory adds
    /// its ".." link to the parent.
    pub open spec fn inserted(self, entry: EntryModel) -> TableModel {
        let ino = self.next_inode;
        TableModel {
            inodes: self.inodes.insert(ino, entry),
            paths: self.paths.insert(entry.full_path, ino),
            next_inode: ino.wrapping_add(1),
            touch_counter: self.touch_counter.wrapping_add(1),
            ..self
        }.updated(
            entry.parent,
            |p: EntryModel|
                EntryModel {
                    children: p.children.push(ChildModel { ino, name: entry.name }),
                    nlink: if entry.kind == InodeKind::Directory {
                        p.nlink.wrapping_add(1)
                    } else {
                        p.nlink
                    },
                    ..p
                },
        )
    }

    /// The table with `child` taken off the list of `parent`.
    pub open spec fn detached(
        self,
        parent: u64,
        child: u64,
        child_kind: InodeKind,
        invalidate: bool,
    ) -> TableModel {
        self.updated(
            parent,
            |p: EntryModel|
                EntryModel {
                    children: without_child(p.children, child),
                    children_loaded: p.children_loaded && !invalidate,
                    nlink: if child_kind == InodeKind::Directory && p.nlink > 0 {
                        (p.nlink - 1) as u32
                    } else {
                        p.nlink
                    },
                    ..p
                },
        )
    }

    /// The inodes that go when `ino` is removed, besides `ino` itself: its descendants.
    pub open spec fn descendants(self, ino: u64) -> Set<u64> {
        let rest = self.without(ino).detached(
            self.inodes[ino].parent,
            ino,
            self.inodes[ino].kind,
            false,
        );
        reachable(rest.inodes, child_inos(self.inodes[ino].children))
    }

    /// The table without one inode and without its path.
    pub open spec fn without(self, ino: u64) -> TableModel {
        TableModel {
            inodes: self.inodes.remove(ino),
            paths: self.paths.remove(self.inodes[ino].full_path),
            ..self
        }
    }

    /// The table without `ino` and all its descendants.
    pub open spec fn removed(self, ino: u64) -> TableModel {
        let gone = self.descendants(ino);
        let rest = self.without(ino).detached(
            self.inodes[ino].parent,
            ino,
            self.inodes[ino].kind,
            false,
        );
        TableModel {
            inodes: rest.inodes.remove_keys(gone),
            paths: rest.paths.remove_keys(paths_of(rest.inodes, gone)),
            ..rest
        }
    }

    /// The table after one file inode is evicted: its parent has to list its children anew.
    pub open spec fn evicted(self, ino: u64) -> TableModel {
        self.without(ino).detached(self.inodes[ino].parent, ino, InodeKind::File, true)
    }

    /// The inodes of a batch that may be evicted.
    pub open spec fn batch(self, inos: Seq<u64>) -> Set<u64> {
        Set::new(
            |i: u64|
                inos.contains(i) && self.inodes.contains_key(i) && evictable(self.inodes[i])
                    && self.inodes[i].eviction.open_handles == 0,
        )
    }

    /// What is left of the entry of `p` once the inodes of `gone` have been evicted.
    pub open spec fn pruned(self, p: u64, gone: Set<u64>) -> EntryModel {
        let e = self.inodes[p];
        if exists|i: u64| #[trigger] gone.contains(i) && self.inodes[i].parent == p {
            EntryModel {
                children: e.children.filter(
                    |c: ChildModel| !(gone.contains(c.ino) && self.inodes[c.ino].parent == p),
                ),
                children_loaded: false,
                ..e
            }
        } else {
            e
        }
    }

    /// The table after the inodes of `gone` are evicted together.
    pub open spec fn batch_evicted(self, gone: Set<u64>) -> TableModel {
        TableModel {
            inodes: Map::new(
                |p: u64| self.inodes.contains_key(p) && !gone.contains(p),
                |p: u64| self.pruned(p, gone),
            ),
            paths: self.paths.remove_keys(paths_of(self.inodes, gone)),
            ..self
        }
    }

    /// The inode that unlinking `name` from `parent` is about: that of the first edge so named,
    /// whether or not the inode is still in the table.
    pub open spec fn unlink_target(self, parent: u64, name: Seq<char>) -> Option<u64> {
        if self.inodes.contains_key(parent) {
            match first_named(self.inodes[parent].children, name) {
                Some(i) => Some(self.inodes[parent].children[i].ino),
                None => None,
            }
        } else {
            None
        }
    }

    /// The table without the first edge called `name` under `parent`, and without its path.
    pub open spec fn edge_removed(self, parent: u64, name: Seq<char>) -> TableModel {
        let path = inode::spec_child_path(self.inodes[parent].full_path, name);
        TableModel { paths: self.paths.remove(path), ..self }.updated(
            parent,
            |p: EntryModel|
                EntryModel {
                    children: p.children.remove(first_named(p.children, name)->Some_0),
                    ..p
                },
        )
    }

    /// The table after a link to `ino` is dropped at time `now`.
    pub open spec fn link_dropped(self, ino: u64, now: Timestamp) -> TableModel {
        self.updated(
            ino,
            |e: EntryModel|
                EntryModel {
                    nlink: if e.nlink > 0 {
                        (e.nlink - 1) as u32
                    } else {
                        0
                    },
                    ctime: now,
                    ..e
                },
        )
    }

    /// Unlinking `name` from `parent` arrives at an inode that is in the table.
    pub open spec fn unlink_reaches(self, parent: u64, name: Seq<char>) -> bool {
        self.unlink_target(parent, name) is Some && self.inodes.contains_key(
            self.unlink_target(parent, name)->Some_0,
        )
    }

    /// The table after `name` is unlinked from `parent` at time `now`.
    pub open spec fn unlinked(self, parent: u64, name: Seq<char>, now: Timestamp) -> TableModel {
        match self.unlink_target(parent, name) {
            Some(ino) => self.edge_removed(parent, name).link_dropped(ino, now),
            None => self,
        }
    }

    /// The table without the first edge from `parent` to `ino` called `name`, if there is one. A
    /// directory that `crosses` to another parent takes its ".." link along.
    pub open spec fn edge_taken(
        self,
        ino: u64,
        parent: u64,
        name: Seq<char>,
        crosses: bool,
    ) -> TableModel {
        self.updated(
            parent,
            |p: EntryModel|
                EntryModel {
                    children: match first_edge(p.children, ino, name) {
                        Some(i) => p.children.remove(i),
                        None => p.children,
                    },
                    nlink: if crosses && p.nlink > 0 {
                        (p.nlink - 1) as u32
                    } else {
                        p.nlink
                    },
                    ..p
                },
        )
    }

    /// The table with an edge from `parent` to `ino` called `name` added. A directory that
    /// `crosses` from another parent brings its ".." link along.
    pub open spec fn edge_added(
        self,
        ino: u64,
        parent: u64,
        name: Seq<char>,
        crosses: bool,
    ) -> TableModel {
        self.updated(
            parent,
            |p: EntryModel|
                EntryModel {
                    children: p.children.push(ChildModel { ino, name }),
                    nlink: if crosses {
                        p.nlink.wrapping_add(1)
                    } else {
                        p.nlink
                    },
                    ..p
                },
        )
    }

    /// The table after `ino` moves from `old_parent` to `new_parent` under a new name.
    pub open spec fn moved(
        self,
        ino: u64,
        old_parent: u64,
        old_name: Seq<char>,
        new_parent: u64,
        new_name: Seq<char>,
    ) -> TableModel {
        let is_dir = self.inodes.contains_key(ino) && self.inodes[ino].kind
            == InodeKind::Directory;
        let crosses = is_dir && old_parent != new_parent;
        self.edge_taken(ino, old_parent, old_name, crosses).edge_added(
            ino,
            new_parent,
            new_name,
            crosses,
        ).updated(ino, |e: EntryModel| EntryModel { parent: new_parent, name: new_name, ..e })
    }

    /// The table with the path of one known inode replaced, in its entry and in the index.
    pub open spec fn path_set(self, ino: u64, path: Seq<char>) -> TableModel {
        TableModel {
            inodes: self.inodes.insert(ino, EntryModel { full_path: path, ..self.inodes[ino] }),
            paths: self.paths.remove(self.inodes[ino].full_path).insert(path, ino),
            ..self
        }
    }

    /// The table with `ino` put at `path` and what lies below it put under `path`, going down at
    /// most `height` levels.
    pub open spec fn repathed(self, ino: u64, path: Seq<char>, height: nat) -> TableModel
        decreases height, 0nat,
    {
        if height == 0 || !self.inodes.contains_key(ino) {
            self
        } else {
            self.path_set(ino, path).children_repathed(
                self.inodes[ino].children,
                self.inodes[ino].full_path,
                path,
                (height - 1) as nat,
            )
        }
    }

    /// The child is in the directory whose path is `dir`, by its own path too. The canonical path
    /// of a hard link made elsewhere is another.
    pub open spec fn is_placed(self, child: ChildModel, dir: Seq<char>) -> bool {
        self.inodes.contains_key(child.ino) && self.inodes[child.ino].full_path
            == inode::spec_child_path(dir, child.name)
    }

    /// The table with each of `children` that is placed in the directory at `from` put under the
    /// directory path `path`, in order.
    pub open spec fn children_repathed(
        self,
        children: Seq<ChildModel>,
        from: Seq<char>,
        path: Seq<char>,
        height: nat,
    ) -> TableModel
        decreases height, children.len(),
    {
        if children.len() == 0 {
            self
        } else {
            let rest = self.children_repathed(children.drop_last(), from, path, height);
            if rest.is_placed(children.last(), from) {
                rest.repathed(
                    children.last().ino,
                    inode::spec_child_path(path, children.last().name),
                    height,
                )
            } else {
                rest
            }
        }
    }

    /// The table with `ino` put at `path` and what lies below it put under `path`.
    pub open spec fn subtree_repathed(self, ino: u64, path: Seq<char>) -> TableModel {
        self.repathed(ino, path, height_of(self.inodes, ino))
    }

    /// Rewriting paths changes no edge and gives out no number.
    pub proof fn lemma_repathed_shape(self, ino: u64, path: Seq<char>, height: nat)
        ensures
            self.repathed(ino, path, height).next_inode == self.next_inode,
            same_shape(self.inodes, self.repathed(ino, path, height).inodes),
        decreases height, 0nat,
    {
        if height > 0 && self.inodes.contains_key(ino) {
            self.path_set(ino, path).lemma_children_repathed_shape(
                self.inodes[ino].children,
                self.inodes[ino].full_path,
                path,
                (height - 1) as nat,
            );
        }
    }

    /// Rewriting paths changes no edge and gives out no number.
    pub proof fn lemma_children_repathed_shape(
        self,
        children: Seq<ChildModel>,
        from: Seq<char>,
        path: Seq<char>,
        height: nat,
    )
        ensures
            self.children_repathed(children, from, path, height).next_inode == self.next_inode,
            same_shape(self.inodes, self.children_repathed(children, from, path, height).inodes),
        decreases height, children.len(),
    {
        if children.len() > 0 {
            self.lemma_children_repathed_shape(children.drop_last(), from, path, height);
            self.children_repathed(children.drop_last(), from, path, height).lemma_repathed_shape(
                children.last().ino,
                inode::spec_child_path(path, children.last().name),
                height,
            );
        }
    }

    /// Some inode of the subtree at `ino` is dirty or open.
    pub open spec fn subtree_busy(self, ino: u64) -> bool {
        exists|x: u64| #[trigger]
            reachable(self.inodes, set![ino]).contains(x) && self.inodes[x].busy()
    }

    /// The dirty files that still have a link.
    pub open spec fn dirty_files(self) -> Set<u64> {
        Set::new(
            |k: u64|
                self.inodes.contains_key(k) && self.inodes[k].kind == InodeKind::File
                    && self.inodes[k].dirty() && self.inodes[k].nlink > 0,
        )
    }

    /// The files.
    pub open spec fn files(self) -> Set<u64> {
        Set::new(|k: u64| self.inodes.contains_key(k) && self.inodes[k].kind == InodeKind::File)
    }

    /// The directories whose children have been listed.
    pub open spec fn loaded_dirs(self) -> Set<u64> {
        Set::new(
            |k: u64|
                self.inodes.contains_key(k) && self.inodes[k].kind == InodeKind::Directory
                    && self.inodes[k].children_loaded,
        )
    }

    /// The files that the periodic sweep may ask the kernel to let go of.
    pub open spec fn sweepable_files(self) -> Set<u64> {
        Set::new(|k: u64| self.inodes.contains_key(k) && sweepable(self.inodes[k]))
    }

    /// `a` was touched before `b`; of two touched at once, the lower number counts as earlier.
    pub open spec fn before(self, a: u64, b: u64) -> bool {
        let x = self.inodes[a].eviction.last_touched;
        let y = self.inodes[b].eviction.last_touched;
        x < y || (x == y && a < b)
    }

    /// `picked` lists the `max` inodes of `set` that were touched longest ago, in order, or all of
    /// them if there are fewer.
    pub open spec fn oldest(self, picked: Seq<u64>, max: nat, set: Set<u64>) -> bool {
        &&& picked.len() <= max
        &&& forall|i: int| 0 <= i < picked.len() ==> set.contains(#[trigger] picked[i])
        &&& forall|i: int, j: int|
            0 <= i < j < picked.len() ==> self.before(#[trigger] picked[i], #[trigger] picked[j])
        &&& forall|x: u64| #[trigger]
            set.contains(x) && !picked.contains(x) ==> picked.len() == max && forall|i: int|
                0 <= i < picked.len() ==> self.before(#[trigger] picked[i], x)
    }

    /// Putting one more inode in its place keeps a list of the oldest, once it is cut to size.
    pub proof fn lemma_oldest_insert(
        self,
        picked: Seq<u64>,
        max: nat,
        set: Set<u64>,
        ino: u64,
        pos: int,
    )
        requires
            max > 0,
            self.oldest(picked, max, set),
            !set.contains(ino),
            0 <= pos <= picked.len(),
            forall|j: int| 0 <= j < pos ==> self.before(#[trigger] picked[j], ino),
            pos < picked.len() ==> !self.before(picked[pos], ino),
        ensures
            ({
                let longer = picked.insert(pos, ino);
                let kept = if longer.len() > max {
                    longer.drop_last()
                } else {
                    longer
                };
                self.oldest(kept, max, set.insert(ino))
            }),
    {
        let longer = picked.insert(pos, ino);
        let kept = if longer.len() > max {
            longer.drop_last()
        } else {
            longer
        };
        assert(pos < picked.len() ==> set.contains(picked[pos]));
        assert forall|j: int| pos <= j < picked.len() implies self.before(
            ino,
            #[trigger] picked[j],
        ) by {
            if j > pos {
                assert(self.before(picked[pos], picked[j]));
            }
        }
        assert forall|i: int, j: int| 0 <= i < j < longer.len() implies self.before(
            #[trigger] longer[i],
            #[trigger] longer[j],
        ) by {
            if i < pos {
                assert(longer[i] == picked[i]);
            } else if i > pos {
                assert(longer[i] == picked[i - 1]);
            }
            if j < pos {
                assert(longer[j] == picked[j]);
            } else if j > pos {
                assert(longer[j] == picked[j - 1]);
            }
        }
        assert forall|i: int| 0 <= i < kept.len() implies set.insert(ino).contains(
            #[trigger] kept[i],
        ) by {
            if i < pos {
                assert(longer[i] == picked[i]);
            } else if i > pos {
                assert(longer[i] == picked[i - 1]);
            }
        }
        assert forall|x: u64| #[trigger] set.insert(ino).contains(x) && !kept.contains(
            x,
        ) implies kept.len() == max && forall|i: int|
            0 <= i < kept.len() ==> self.before(#[trigger] kept[i], x) by {
            if longer.contains(x) {
                let j = choose|j: int| 0 <= j < longer.len() && longer[j] == x;
                if j < kept.len() {
                    assert(kept[j] == x);
                }
                assert(j == longer.len() - 1);
            } else {
                if x == ino {
                    assert(longer[pos] == x);
                }
                if picked.contains(x) {
                    let j = choose|j: int| 0 <= j < picked.len() && picked[j] == x;
                    assert(longer[if j < pos {
                        j
                    } else {
                        j + 1
                    }] == x);
                }
                assert(set.contains(x) && !picked.contains(x));
                assert(picked.len() == max);
                assert forall|i: int| 0 <= i < kept.len() implies self.before(
                    #[trigger] kept[i],
                    x,
                ) by {
                    if i < pos {
                        assert(kept[i] == picked[i]);
                    } else {
                        assert(self.before(picked[i], x));
                        if i > pos {
                            assert(kept[i] == picked[i - 1]);
                        }
                    }
                }
            }
        }
    }

    /// The inode found under `name` in directory `parent`.
    pub open spec fn child_named(self, parent: u64, name: Seq<char>) -> Option<u64> {
        if self.inodes.contains_key(parent) {
            first_live(self.inodes, self.inodes[parent].children, name)
        } else {
            None
        }
    }
}

/// The entry of the root directory on a fresh mount.
pub open spec fn root_entry() -> EntryModel {
    EntryModel {
        inode: ROOT_INODE,
        parent: ROOT_INODE,
        name: Seq::empty(),
        full_path: Seq::empty(),
        kind: InodeKind::Directory,
        size: 0,
        mtime: Timestamp::unix_epoch(),
        mode: 0o755,
        uid: 0,
        gid: 0,
        atime: Timestamp::unix_epoch(),
        ctime: Timestamp::unix_epoch(),
        nlink: 2,
        symlink_target: None,
        xet_hash: None,
        staging_is_current: false,
        etag: None,
        dirty_generation: 0,
        children_loaded: false,
        children: Seq::empty(),
        pending_deletes: Seq::empty(),
        last_revalidated: None,
        eviction: EvictionState {
            nlookup: 0,
            last_touched: 0,
            evict_pending: false,
            open_handles: 0,
        },
    }
}

/// A child found in the first part of a list is the one found in the whole list.
pub proof fn lemma_first_live_prefix(
    inodes: Map<u64, EntryModel>,
    children: Seq<ChildModel>,
    n: int,
    name: Seq<char>,
)
    requires
        0 <= n <= children.len(),
        first_live(inodes, children.take(n), name) is Some,
    ensures
        first_live(inodes, children, name) == first_live(inodes, children.take(n), name),
    decreases children.len(),
{
    if n == children.len() {
        assert(children.take(n) =~= children);
    } else {
        assert(children.drop_last().take(n) =~= children.take(n));
        lemma_first_live_prefix(inodes, children.drop_last(), n, name);
    }
}

/// The state of a depth-first sweep that takes `gone` out of `rest`, with `stack` to be visited:
/// everything listed by a start or by a visited inode has been visited, is still to be visited, or
/// is unknown.
pub open spec fn sweep_state(
    rest: TableModel,
    starts: Set<u64>,
    gone: Set<u64>,
    stack: Seq<u64>,
) -> bool {
    &&& forall|x: u64| #[trigger]
        gone.contains(x) ==> rest.inodes.contains_key(x) && reachable(
            rest.inodes,
            starts,
        ).contains(x)
    &&& forall|i: int|
        0 <= i < stack.len() ==> starts.contains(#[trigger] stack[i]) || exists|a: u64|
            #[trigger] gone.contains(a) && is_child(rest.inodes, a, stack[i])
    &&& forall|x: u64|
        #![trigger rest.inodes.contains_key(x)]
        rest.inodes.contains_key(x) && starts.contains(x) ==> gone.contains(x) || stack.contains(x)
    &&& forall|a: u64, x: u64|
        #![trigger is_child(rest.inodes, a, x)]
        gone.contains(a) && is_child(rest.inodes, a, x) && rest.inodes.contains_key(x)
            ==> gone.contains(x) || stack.contains(x)
}

/// One inode further down a walk is reachable too.
pub proof fn lemma_reachable_step(
    inodes: Map<u64, EntryModel>,
    starts: Set<u64>,
    a: u64,
    x: u64,
)
    requires
        reachable(inodes, starts).contains(a),
        is_child(inodes, a, x),
        inodes.contains_key(x),
    ensures
        reachable(inodes, starts).contains(x),
{
    let walk = choose|walk: Seq<u64>| #[trigger]
        is_walk(inodes, walk) && starts.contains(walk[0]) && walk.last() == a;
    let longer = walk.push(x);
    assert forall|i: int| 0 <= i < longer.len() - 1 implies is_child(
        inodes,
        #[trigger] longer[i],
        longer[i + 1],
    ) by {
        if i < walk.len() - 1 {
            assert(longer[i] == walk[i] && longer[i + 1] == walk[i + 1]);
        }
    }
    assert(is_walk(inodes, longer));
    assert(longer[0] == walk[0] && longer.last() == x);
}

/// An inode is reachable from itself.
pub proof fn lemma_reachable_start(inodes: Map<u64, EntryModel>, starts: Set<u64>, x: u64)
    requires
        starts.contains(x),
        inodes.contains_key(x),
    ensures
        reachable(inodes, starts).contains(x),
{
    assert(is_walk(inodes, seq![x]));
    assert(seq![x].last() == x && seq![x][0] == x);
}

/// Visiting the top of the stack.
pub proof fn lemma_sweep_visit(
    rest: TableModel,
    starts: Set<u64>,
    gone: Set<u64>,
    before: Seq<u64>,
    after: Seq<u64>,
)
    requires
        sweep_state(rest, starts, gone, before),
        before.len() > 0,
        rest.inodes.contains_key(before.last()),
        !gone.contains(before.last()),
        after == before.drop_last() + rest.inodes[before.last()].children.map_values(
            |c: ChildModel| c.ino,
        ),
    ensures
        sweep_state(rest, starts, gone.insert(before.last()), after),
{
    let x = before.last();
    let next = gone.insert(x);
    let kids = rest.inodes[x].children.map_values(|c: ChildModel| c.ino);
    let low = before.drop_last();
    assert(before[before.len() - 1] == x);
    if starts.contains(x) {
        lemma_reachable_start(rest.inodes, starts, x);
    } else {
        let a = choose|a: u64| #[trigger] gone.contains(a) && is_child(rest.inodes, a, x);
        lemma_reachable_step(rest.inodes, starts, a, x);
    }
    assert forall|i: int| 0 <= i < after.len() implies starts.contains(#[trigger] after[i])
        || exists|a: u64| #[trigger] next.contains(a) && is_child(rest.inodes, a, after[i]) by {
        if i < low.len() {
            assert(after[i] == before[i]);
            if !starts.contains(before[i]) {
                let a = choose|a: u64| #[trigger]
                    gone.contains(a) && is_child(rest.inodes, a, before[i]);
                assert(next.contains(a) && is_child(rest.inodes, a, after[i]));
            }
        } else {
            assert(rest.inodes[x].children[i - low.len()].ino == after[i]);
            assert(next.contains(x) && is_child(rest.inodes, x, after[i]));
        }
    }
    assert forall|y: u64| before.contains(y) && y != x implies #[trigger] after.contains(y) by {
        let i = choose|i: int| 0 <= i < before.len() && before[i] == y;
        assert(after[i] == y);
    }
    assert forall|a: u64, y: u64|
        #![trigger is_child(rest.inodes, a, y)]
        next.contains(a) && is_child(rest.inodes, a, y) && rest.inodes.contains_key(
            y,
        ) implies next.contains(y) || after.contains(y) by {
        if a == x {
            let i = choose|i: int|
                0 <= i < rest.inodes[x].children.len() && #[trigger] rest.inodes[x].children[i].ino
                    == y;
            assert(after[low.len() + i] == y);
        }
    }
}

/// Skipping a stacked inode that is unknown or has been visited.
pub proof fn lemma_sweep_skip(rest: TableModel, starts: Set<u64>, gone: Set<u64>, before: Seq<u64>)
    requires
        sweep_state(rest, starts, gone, before),
        before.len() > 0,
        !rest.inodes.contains_key(before.last()) || gone.contains(before.last()),
    ensures
        sweep_state(rest, starts, gone, before.drop_last()),
{
    let after = before.drop_last();
    let x = before.last();
    assert forall|i: int| 0 <= i < after.len() implies starts.contains(#[trigger] after[i])
        || exists|a: u64| #[trigger] gone.contains(a) && is_child(rest.inodes, a, after[i]) by {
        assert(after[i] == before[i]);
    }
    assert forall|y: u64| before.contains(y) && y != x implies #[trigger] after.contains(y) by {
        let i = choose|i: int| 0 <= i < before.len() && before[i] == y;
        assert(after[i] == y);
    }
}

/// Once nothing is left to visit, exactly the reachable inodes have been visited.
pub proof fn lemma_sweep_done(rest: TableModel, starts: Set<u64>, gone: Set<u64>)
    requires
        sweep_state(rest, starts, gone, Seq::empty()),
    ensures
        gone == reachable(rest.inodes, starts),
{
    assert forall|x: u64| reachable(rest.inodes, starts).contains(x) implies gone.contains(x) by {
        let walk = choose|walk: Seq<u64>| #[trigger]
            is_walk(rest.inodes, walk) && starts.contains(walk[0]) && walk.last() == x;
        lemma_walk_visited(rest, starts, gone, walk, walk.len() - 1);
    }
    assert(gone =~= reachable(rest.inodes, starts));
}

proof fn lemma_walk_visited(
    rest: TableModel,
    starts: Set<u64>,
    gone: Set<u64>,
    walk: Seq<u64>,
    n: int,
)
    requires
        sweep_state(rest, starts, gone, Seq::empty()),
        is_walk(rest.inodes, walk),
        starts.contains(walk[0]),
        0 <= n < walk.len(),
    ensures
        gone.contains(walk[n]),
    decreases n,
{
    assert(rest.inodes.contains_key(walk[n]));
    if n > 0 {
        lemma_walk_visited(rest, starts, gone, walk, n - 1);
        assert(is_child(rest.inodes, walk[n - 1], walk[n - 1 + 1]));
    }
}

/// A sweep begins with the children of the removed inode on its stack.
pub proof fn lemma_sweep_start(rest: TableModel, children: Seq<ChildModel>)
    ensures
        sweep_state(
            rest,
            child_inos(children),
            Set::empty(),
            children.map_values(|c: ChildModel| c.ino),
        ),
{
    let stack = children.map_values(|c: ChildModel| c.ino);
    assert forall|i: int| 0 <= i < stack.len() implies child_inos(children).contains(
        #[trigger] stack[i],
    ) by {
        assert(children[i].ino == stack[i]);
    }
    assert forall|x: u64| #[trigger] child_inos(children).contains(x) implies stack.contains(
        x,
    ) by {
        let i = choose|i: int| 0 <= i < children.len() && #[trigger] children[i].ino == x;
        assert(stack[i] == x);
    }
}

/// The paths of a set with one more inode.
pub proof fn lemma_paths_of_insert(inodes: Map<u64, EntryModel>, set: Set<u64>, x: u64)
    ensures
        paths_of(inodes, set.insert(x)) == paths_of(inodes, set).insert(inodes[x].full_path),
{
    let a = paths_of(inodes, set.insert(x));
    let b = paths_of(inodes, set).insert(inodes[x].full_path);
    assert forall|p: Seq<char>| b.contains(p) implies a.contains(p) by {
        if p == inodes[x].full_path {
            assert(set.insert(x).contains(x));
        } else {
            let y = choose|y: u64| #[trigger] set.contains(y) && inodes[y].full_path == p;
            assert(set.insert(x).contains(y));
        }
    }
    assert forall|p: Seq<char>| a.contains(p) implies b.contains(p) by {
        let y = choose|y: u64| #[trigger]
            set.insert(x).contains(y) && inodes[y].full_path == p;
        if y != x {
            assert(set.contains(y));
        }
    }
    assert(a =~= b);
}

/// A name found in the first part of a list is the one found in the whole list.
pub proof fn lemma_first_named_prefix(children: Seq<ChildModel>, n: int, name: Seq<char>)
    requires
        0 <= n <= children.len(),
        first_named(children.take(n), name) is Some,
    ensures
        first_named(children, name) == first_named(children.take(n), name),
    decreases children.len(),
{
    if n == children.len() {
        assert(children.take(n) =~= children);
    } else {
        assert(children.drop_last().take(n) =~= children.take(n));
        lemma_first_named_prefix(children.drop_last(), n, name);
    }
}

/// An edge found in the first part of a list is the one found in the whole list.
pub proof fn lemma_first_edge_prefix(children: Seq<ChildModel>, n: int, ino: u64, name: Seq<char>)
    requires
        0 <= n <= children.len(),
        first_edge(children.take(n), ino, name) is Some,
    ensures
        first_edge(children, ino, name) == first_edge(children.take(n), ino, name),
    decreases children.len(),
{
    if n == children.len() {
        assert(children.take(n) =~= children);
    } else {
        assert(children.drop_last().take(n) =~= children.take(n));
        lemma_first_edge_prefix(children.drop_last(), n, ino, name);
    }
}

/// Two tables hold the same inodes with the same children.
pub open spec fn same_shape(a: Map<u64, EntryModel>, b: Map<u64, EntryModel>) -> bool {
    &&& forall|x: u64| #[trigger] b.contains_key(x) <==> a.contains_key(x)
    &&& forall|x: u64| #[trigger] b.contains_key(x) ==> a[x].children == b[x].children
}

/// Walks down from `ino` have a greatest length: there is no cycle below it.
pub open spec fn bounded_height(inodes: Map<u64, EntryModel>, ino: u64) -> bool {
    exists|height: nat| height_within(inodes, ino, height)
}

/// A height that bounds the subtree at `ino`.
pub open spec fn height_of(inodes: Map<u64, EntryModel>, ino: u64) -> nat {
    choose|height: nat| height_within(inodes, ino, height)
}

/// Height depends on the edges alone.
pub proof fn lemma_height_shape(
    a: Map<u64, EntryModel>,
    b: Map<u64, EntryModel>,
    ino: u64,
    height: nat,
)
    requires
        same_shape(a, b),
        height_within(a, ino, height),
    ensures
        height_within(b, ino, height),
    decreases height,
{
    if b.contains_key(ino) {
        assert forall|i: int| 0 <= i < b[ino].children.len() implies height_within(
            b,
            (#[trigger] b[ino].children[i]).ino,
            (height - 1) as nat,
        ) by {
            assert(a[ino].children[i] == b[ino].children[i]);
            lemma_height_shape(a, b, b[ino].children[i].ino, (height - 1) as nat);
        }
    }
}

/// What a filter picks for an element is in what it picks.
pub proof fn lemma_picked<A, B>(s: Seq<A>, f: spec_fn(A) -> Option<B>, i: int)
    requires
        0 <= i < s.len(),
        f(s[i]) is Some,
    ensures
        s.filter_map(f).contains(f(s[i])->Some_0),
    decreases s.len(),
{
    let n = s.len() - 1;
    s.lemma_filter_map_take_succ(f, n);
    assert(s.take(n + 1) =~= s);
    let low = s.take(n).filter_map(f);
    let all = s.filter_map(f);
    if i == n {
        assert(all[low.len() as int] == f(s[i])->Some_0);
    } else {
        lemma_picked(s.take(n), f, i);
        let k = choose|k: int| 0 <= k < low.len() && low[k] == f(s[i])->Some_0;
        assert(all[k] == f(s[i])->Some_0);
    }
}

/// A list that holds each element of a set once.
pub open spec fn enumerates(list: Seq<u64>, set: Set<u64>) -> bool {
    list.no_duplicates() && list.to_set() == set
}

/// The elements of `list` that are in `set`, in the order of the list.
pub open spec fn picks(picked: Seq<u64>, list: Seq<u64>, set: Set<u64>) -> bool {
    picked == list.filter(|k: u64| set.contains(k))
}

/// Looking at one more element of a list.
pub proof fn lemma_picks_step(picked: Seq<u64>, list: Seq<u64>, i: int, set: Set<u64>)
    requires
        0 <= i < list.len(),
        picks(picked, list.take(i), set),
    ensures
        set.contains(list[i]) ==> picks(picked.push(list[i]), list.take(i + 1), set),
        !set.contains(list[i]) ==> picks(picked, list.take(i + 1), set),
        list.to_set().contains(list[i]),
{
    reveal(Seq::filter);
    assert(list.take(i + 1).drop_last() =~= list.take(i));
    assert(list.contains(list[i]));
}

/// The picked elements of an enumeration enumerate the picked set.
pub proof fn lemma_picks_done(picked: Seq<u64>, list: Seq<u64>, all: Set<u64>, set: Set<u64>)
    requires
        enumerates(list, all),
        set.subset_of(all),
        picks(picked, list.take(list.len() as int), set),
    ensures
        enumerates(picked, set),
{
    broadcast use vstd::seq_lib::group_filter_ensures;

    let keep = |k: u64| set.contains(k);
    assert(list.take(list.len() as int) =~= list);
    assert forall|k: u64| picked.contains(k) <==> set.contains(k) by {
        if picked.contains(k) {
            list.lemma_filter_contains_rev(keep, k);
            let j = choose|j: int| 0 <= j < picked.len() && picked[j] == k;
            assert(keep(picked[j]));
        }
        if set.contains(k) {
            assert(all.contains(k));
            assert(list.contains(k));
            let j = choose|j: int| 0 <= j < list.len() && list[j] == k;
            assert(keep(list[j]));
        }
    }
    assert(picked.to_set() =~= set);
    lemma_filter_no_duplicates(list, keep);
}

proof fn lemma_filter_no_duplicates(list: Seq<u64>, keep: spec_fn(u64) -> bool)
    requires
        list.no_duplicates(),
    ensures
        list.filter(keep).no_duplicates(),
    decreases list.len(),
{
    reveal(Seq::filter);
    if list.len() > 0 {
        let low = list.drop_last();
        lemma_filter_no_duplicates(low, keep);
        assert forall|j: int| 0 <= j < low.filter(keep).len() implies #[trigger] low.filter(keep)[j]
            != list.last() by {
            assert(low.filter(keep).contains(low.filter(keep)[j]));
            low.lemma_filter_contains_rev(keep, low.filter(keep)[j]);
            let k = choose|k: int| 0 <= k < low.len() && low[k] == low.filter(keep)[j];
            assert(list[k] == low[k]);
        }
    }
}

/// Nothing is picked from an empty list.
pub proof fn lemma_picks_start(list: Seq<u64>, set: Set<u64>)
    ensures
        picks(Seq::empty(), list.take(0), set),
{
    reveal(Seq::filter);
    assert(list.take(0) =~= Seq::empty());
}

/// The elements of the first part of a list, and one more.
pub proof fn lemma_take_set(list: Seq<u64>, i: int)
    requires
        0 <= i < list.len(),
        list.no_duplicates(),
    ensures
        list.take(i + 1).to_set() == list.take(i).to_set().insert(list[i]),
        !list.take(i).to_set().contains(list[i]),
{
    let low = list.take(i);
    let high = list.take(i + 1);
    assert forall|x: u64| high.contains(x) <==> low.contains(x) || x == list[i] by {
        if high.contains(x) {
            let j = choose|j: int| 0 <= j < high.len() && high[j] == x;
            if j < i {
                assert(low[j] == x);
            }
        }
        if low.contains(x) {
            let j = choose|j: int| 0 <= j < low.len() && low[j] == x;
            assert(high[j] == x);
        }
        assert(high[i] == list[i]);
    }
    assert(list.take(i + 1).to_set() =~= list.take(i).to_set().insert(list[i]));
}

/// Adding a new element to an enumeration.
pub proof fn lemma_enumerates_push(list: Seq<u64>, set: Set<u64>, x: u64)
    requires
        enumerates(list, set),
        !set.contains(x),
    ensures
        enumerates(list.push(x), set.insert(x)),
{
    let longer = list.push(x);
    assert forall|y: u64| longer.contains(y) <==> set.insert(x).contains(y) by {
        if longer.contains(y) {
            let j = choose|j: int| 0 <= j < longer.len() && longer[j] == y;
            if j < list.len() {
                assert(list[j] == y);
                assert(list.to_set().contains(y));
            }
        }
        if set.contains(y) {
            assert(list.to_set().contains(y));
            let j = choose|j: int| 0 <= j < list.len() && list[j] == y;
            assert(longer[j] == y);
        }
        assert(longer[list.len() as int] == x);
    }
    assert(longer.to_set() =~= set.insert(x));
    assert forall|i: int, j: int| 0 <= i < j < longer.len() implies longer[i] != longer[j] by {
        if j == list.len() {
            assert(list.to_set().contains(list[i]));
        }
    }
}

} // verus!
