//! Finding a name in a directory, and keeping what is known of a file fresh.
use crate::hub_api;
use crate::hub_api::{mtime_from_http_date, HeadFileInfo};
use crate::text;
use crate::text::clone_opt;
use crate::time::{elapsed_since, Duration, Timestamp};
use crate::virtual_fs;
use crate::virtual_fs::inode;
use crate::virtual_fs::inode::{child_path, EntryModel, InodeKind};
use crate::virtual_fs::model::{NewInode, TableModel};
use crate::virtual_fs::negative_cache;
use crate::virtual_fs::poll;
use crate::virtual_fs::poll::is_changed;
use crate::virtual_fs::{Errno, VirtualFs, VirtualFsAttr, VirtualFsResult};
use std::time::Instant;
use vstd::prelude::*;
use vstd::string::*;

verus! {

broadcast use vstd::string::group_string_axioms;

/// What a lookup calls for.
#[derive(Debug)]
pub enum LookupStep {
    /// The name was found.
    Found(VirtualFsAttr),
    /// The name was found; its metadata has to be checked against the remote first.
    Revalidate { ino: u64, full_path: String, hash: Option<String>, etag: Option<String> },
    /// The remote has to be asked for this path.
    Ask(String),
}

/// How a lookup comes out, as far as the table decides it.
pub enum LookupPlan {
    Refused(Errno),
    Found(u64),
    Revalidate(u64),
    Absent(Seq<char>),
    Ask(Seq<char>),
}

/// How a lookup comes out. A clean file is checked against the remote. Any other entry is trusted
/// if it is a file with local changes or its directory has been listed. A name that a listed
/// directory does not have does not exist.
pub open spec fn lookup_plan(t: TableModel, parent: u64, name: Seq<char>) -> LookupPlan {
    if !t.inodes.contains_key(parent) {
        LookupPlan::Refused(Errno::ENOENT)
    } else if t.inodes[parent].kind != InodeKind::Directory {
        LookupPlan::Refused(Errno::ENOTDIR)
    } else {
        let dir = t.inodes[parent];
        let path = inode::spec_child_path(dir.full_path, name);
        match t.child_named(parent, name) {
            Some(x) => {
                let e = t.inodes[x];
                if e.kind == InodeKind::File && !e.dirty() {
                    LookupPlan::Revalidate(x)
                } else if e.kind == InodeKind::File || dir.children_loaded {
                    LookupPlan::Found(x)
                } else {
                    LookupPlan::Ask(path)
                }
            },
            None => if dir.children_loaded {
                LookupPlan::Absent(path)
            } else {
                LookupPlan::Ask(path)
            },
        }
    }
}

/// Metadata of this age need not be checked again.
pub fn is_recent(age: Duration, ttl: Duration) -> (r: bool)
    ensures
        r == (age.nanos < ttl.nanos),
{
    age.nanos < ttl.nanos
}

/// The content on record differs from what the remote says.
pub open spec fn head_changed(
    hash: Option<Seq<char>>,
    etag: Option<Seq<char>>,
    head: HeadFileInfo,
) -> bool {
    poll::content_changed(hash, etag, text::opt_text(head.xet_hash), text::opt_text(head.etag))
}

/// The modification time that the remote gives, or a default.
pub open spec fn head_mtime(head: HeadFileInfo, default: Timestamp) -> Timestamp {
    match text::opt_text(head.last_modified) {
        Some(s) => hub_api::mtime_of(hub_api::rfc2822_seconds(s)),
        None => default,
    }
}

/// The table after a file is checked against the remote. A file that is gone is removed. Changed
/// content is taken over unless its size is missing or the file is dirty.
pub open spec fn rechecked(
    t: TableModel,
    ino: u64,
    hash: Option<Seq<char>>,
    etag: Option<Seq<char>>,
    remote: Option<HeadFileInfo>,
    now: Timestamp,
    checked: Instant,
) -> TableModel {
    match remote {
        None => if t.inodes.contains_key(ino) {
            t.removed(ino)
        } else {
            t
        },
        Some(head) => if head_changed(hash, etag, head) {
            match head.size {
                None => t,
                Some(size) => poll::update_applied(
                    t,
                    poll::UpdateModel {
                        ino,
                        hash: text::opt_text(head.xet_hash),
                        etag: text::opt_text(head.etag),
                        size,
                        mtime: head_mtime(head, now),
                    },
                ).stamped(ino, checked),
            }
        } else {
            t.updated(
                ino,
                |e: EntryModel|
                    EntryModel {
                        etag: if head.etag is Some {
                            text::opt_text(head.etag)
                        } else {
                            e.etag
                        },
                        ..e
                    },
            ).stamped(ino, checked)
        },
    }
}

/// The inodes that the kernel has to drop from its cache after a file is checked.
pub open spec fn recheck_invalidates(
    t: TableModel,
    ino: u64,
    hash: Option<Seq<char>>,
    etag: Option<Seq<char>>,
    remote: Option<HeadFileInfo>,
) -> Seq<u64> {
    match remote {
        None => if t.inodes.contains_key(ino) {
            seq![t.inodes[ino].parent, ino]
        } else {
            Seq::empty()
        },
        Some(head) => if head_changed(hash, etag, head) && head.size is Some {
            seq![ino]
        } else {
            Seq::empty()
        },
    }
}

/// How a file that the remote was asked for is put in the table.
pub enum HeadPlan {
    Refused(Errno),
    /// Serve what is there.
    Keep(u64),
    /// Insert, in the place of a directory if there is one.
    Insert(Option<u64>),
}

/// How a file that the remote was asked for is put in the table. A directory that has become a
/// file gives way, unless something in it is dirty or open.
pub open spec fn head_plan(t: TableModel, parent: u64, name: Seq<char>) -> HeadPlan {
    if !t.inodes.contains_key(parent) {
        HeadPlan::Refused(Errno::ENOENT)
    } else if t.inodes[parent].kind != InodeKind::Directory {
        HeadPlan::Refused(Errno::ENOTDIR)
    } else {
        match t.child_named(parent, name) {
            Some(x) => if t.inodes[x].kind == InodeKind::File || t.subtree_busy(t.inodes[x].inode) {
                HeadPlan::Keep(x)
            } else {
                HeadPlan::Insert(Some(t.inodes[x].inode))
            },
            None => HeadPlan::Insert(None),
        }
    }
}

/// The table with a directory that has become a file removed.
pub open spec fn made_way(t: TableModel, stale: Option<u64>) -> TableModel {
    match stale {
        Some(ino) => if t.inodes.contains_key(ino) {
            t.removed(ino)
        } else {
            t
        },
        None => t,
    }
}

/// The table with a file added that the remote was asked for.
pub open spec fn head_inserted(
    t: TableModel,
    new: NewInode,
    etag: Option<Seq<char>>,
    now: Timestamp,
    checked: Instant,
) -> TableModel {
    let put = t.put(new, now, checked);
    match etag {
        Some(tag) => put.updated(
            t.insert_ino(new.full_path),
            |e: EntryModel| EntryModel { etag: Some(tag), ..e },
        ),
        None => put,
    }
}

impl VirtualFs {
    /// Only the negative cache differs.
    pub open spec fn only_negative(self, after: VirtualFs) -> bool {
        &&& after.config == self.config
        &&& after.inodes == self.inodes
        &&& after.files == self.files
        &&& after.channels == self.channels
        &&& after.next_file_handle == self.next_file_handle
        &&& after.default_mtime == self.default_mtime
    }

    /// What starting a lookup comes to when the entry of its path in the negative cache, if there is
    /// one, is of this age.
    pub open spec fn looked_up(
        self,
        after: VirtualFs,
        parent: u64,
        name: Seq<char>,
        age: Duration,
        r: VirtualFsResult<LookupStep>,
    ) -> bool {
        match lookup_plan(self.inodes@, parent, name) {
            LookupPlan::Refused(e) => r matches Err(x) && x == e && after.negative@
                == self.negative@,
            LookupPlan::Found(ino) => r matches Ok(LookupStep::Found(a)) && a
                == virtual_fs::attr_of(self.config.read_only, self.inodes@.inodes[ino])
                && after.negative@ == self.negative@,
            LookupPlan::Revalidate(x) => {
                &&& r matches Ok(LookupStep::Revalidate { ino, full_path, hash, etag })
                &&& ino == self.inodes@.inodes[x].inode
                &&& full_path@ == self.inodes@.inodes[x].full_path
                &&& text::opt_text(hash) == self.inodes@.inodes[x].xet_hash
                &&& text::opt_text(etag) == self.inodes@.inodes[x].etag
                &&& after.negative@ == self.negative@
            },
            LookupPlan::Absent(path) => r matches Err(x) && x == Errno::ENOENT
                && negative_cache::noted(self.negative@, after.negative@, path),
            LookupPlan::Ask(path) => {
                &&& after.negative@ == self.negative@
                &&& if negative_cache::known_missing(self.negative@, path, age) {
                    r matches Err(x) && x == Errno::ENOENT
                } else {
                    r matches Ok(LookupStep::Ask(p)) && p@ == path
                }
            },
        }
    }

    /// Start a lookup. A name that does not exist is noted in the negative cache; a path that has
    /// to be asked for is refused if the negative cache has an entry for it that holds at this age.
    pub fn lookup_at_age(&mut self, parent: u64, name: &str, age: Duration) -> (r: VirtualFsResult<
        LookupStep,
    >)
        requires
            old(self).negative.wf(),
        ensures
            final(self).negative.wf(),
            old(self).only_negative(*final(self)),
            old(self).looked_up(*final(self), parent, name@, age, r),
    {
        let dir = match self.inodes.get(parent) {
            Some(e) => e,
            None => return Err(Errno::ENOENT),
        };
        if dir.kind != InodeKind::Directory {
            return Err(Errno::ENOTDIR);
        }
        let full_path = child_path(dir.full_path.as_str(), name);
        let loaded = dir.children_loaded;
        match self.inodes.lookup_child(parent, name) {
            Some(entry) => {
                if entry.kind == InodeKind::File && !entry.is_dirty() {
                    return Ok(
                        LookupStep::Revalidate {
                            ino: entry.inode,
                            full_path: entry.full_path.clone(),
                            hash: clone_opt(&entry.xet_hash),
                            etag: clone_opt(&entry.etag),
                        },
                    );
                }
                if entry.kind == InodeKind::File || loaded {
                    return Ok(LookupStep::Found(self.make_vfs_attr(entry)));
                }
            },
            None => {
                if loaded {
                    self.negative.insert(full_path);
                    return Err(Errno::ENOENT);
                }
            },
        }
        if self.negative.check_at_age(full_path.as_str(), age) {
            return Err(Errno::ENOENT);
        }
        Ok(LookupStep::Ask(full_path))
    }

    /// Start a lookup now. It comes to what `lookup_at_age` does for the age that the clock gives
    /// the entry of the path in the negative cache.
    pub fn lookup(&mut self, parent: u64, name: &str) -> (r: VirtualFsResult<LookupStep>)
        requires
            old(self).negative.wf(),
        ensures
            final(self).negative.wf(),
            old(self).only_negative(*final(self)),
            exists|age: Duration| #[trigger]
                old(self).looked_up(*final(self), parent, name@, age, r),
    {
        let mut age = Duration::from_secs(0);
        if let Some(dir) = self.inodes.get(parent) {
            if !dir.children_loaded {
                let full_path = child_path(dir.full_path.as_str(), name);
                if let Some(at) = self.negative.found_at(full_path.as_str()) {
                    age = elapsed_since(&at);
                }
            }
        }
        self.lookup_at_age(parent, name, age)
    }

    /// Finish a lookup that asked the remote for `full_path`, which says it is the file `head`, or
    /// nothing of use. Without a size the directory has to be listed, and `None` is returned.
    pub fn lookup_asked(
        &mut self,
        parent: u64,
        name: &str,
        full_path: String,
        head: Option<HeadFileInfo>,
        now: Timestamp,
        checked: Instant,
    ) -> (r: Option<VirtualFsResult<VirtualFsAttr>>)
        ensures
            r is None <==> head is None || head->Some_0.size is None,
            r is None ==> *final(self) == *old(self),
            r is Some ==> old(self).head_outcome(
                *final(self),
                parent,
                name@,
                full_path@,
                head->Some_0,
                now,
                checked,
                r->Some_0,
            ),
    {
        match head {
            Some(h) => if h.size.is_some() {
                Some(self.insert_file_from_head(parent, name, full_path, h, now, checked))
            } else {
                None
            },
            None => None,
        }
    }

    /// How putting a file in the table comes out that the remote was asked for.
    pub open spec fn head_outcome(
        self,
        after: VirtualFs,
        parent: u64,
        name: Seq<char>,
        full_path: Seq<char>,
        head: HeadFileInfo,
        now: Timestamp,
        checked: Instant,
        r: VirtualFsResult<VirtualFsAttr>,
    ) -> bool {
        let t = self.inodes@;
        &&& self.only_inodes(after)
        &&& match head_plan(t, parent, name) {
            HeadPlan::Refused(e) => r == Err::<VirtualFsAttr, Errno>(e) && after.inodes@ == t,
            HeadPlan::Keep(x) => r == Ok::<VirtualFsAttr, Errno>(
                virtual_fs::attr_of(self.config.read_only, t.inodes[x]),
            ) && after.inodes@ == t,
            HeadPlan::Insert(stale) => {
                let before = made_way(t, stale);
                let new = NewInode {
                    parent,
                    name,
                    full_path,
                    kind: InodeKind::File,
                    size: match head.size {
                        Some(size) => size,
                        None => 0,
                    },
                    mtime: head_mtime(head, self.default_mtime),
                    xet_hash: text::opt_text(head.xet_hash),
                    mode: 0o644,
                    uid: self.config.uid,
                    gid: self.config.gid,
                };
                let ino = before.insert_ino(full_path);
                &&& after.inodes@ == head_inserted(
                    before,
                    new,
                    text::opt_text(head.etag),
                    now,
                    checked,
                )
                &&& r == if after.inodes@.inodes.contains_key(ino) {
                    Ok::<VirtualFsAttr, Errno>(
                        virtual_fs::attr_of(self.config.read_only, after.inodes@.inodes[ino]),
                    )
                } else {
                    Err(Errno::EIO)
                }
            },
        }
    }

    /// Put one file in the table, without touching its siblings. The directory still counts as not
    /// listed.
    pub fn insert_file_from_head(
        &mut self,
        parent: u64,
        name: &str,
        full_path: String,
        head: HeadFileInfo,
        now: Timestamp,
        checked: Instant,
    ) -> (r: VirtualFsResult<VirtualFsAttr>)
        ensures
            old(self).head_outcome(
                *final(self),
                parent,
                name@,
                full_path@,
                head,
                now,
                checked,
                r,
            ),
    {
        let size: u64 = match head.size {
            Some(size) => size,
            None => 0,
        };
        let mtime = match &head.last_modified {
            Some(s) => mtime_from_http_date(s.as_str()),
            None => self.default_mtime,
        };
        match self.inodes.get(parent) {
            None => return Err(Errno::ENOENT),
            Some(e) => if e.kind != InodeKind::Directory {
                return Err(Errno::ENOTDIR);
            },
        }
        let mut stale: Option<u64> = None;
        if let Some(existing) = self.inodes.lookup_child(parent, name) {
            if existing.kind == InodeKind::File {
                return Ok(self.make_vfs_attr(existing));
            }
            if self.inodes.has_dirty_or_open_descendants(existing.inode) {
                return Ok(self.make_vfs_attr(existing));
            }
            stale = Some(existing.inode);
        }
        if let Some(stale_ino) = stale {
            let _ = self.inodes.remove(stale_ino);
        }
        let ino: u64 = self.inodes.insert_or_keep(
            parent,
            name.to_owned(),
            full_path,
            InodeKind::File,
            size,
            mtime,
            head.xet_hash,
            0o644,
            self.config.uid,
            self.config.gid,
            now,
            checked,
        );
        if let Some(etag) = head.etag {
            if let Some(entry) = self.inodes.get_mut(ino) {
                entry.etag = Some(etag);
            }
        }
        match self.inodes.get(ino) {
            Some(entry) => Ok(self.make_vfs_attr(entry)),
            None => Err(Errno::EIO),
        }
    }

    /// Finish a lookup whose directory has been listed. A name that is not there is noted in the
    /// negative cache.
    pub fn lookup_listed(&mut self, parent: u64, name: &str, full_path: String) -> (r:
        VirtualFsResult<VirtualFsAttr>)
        requires
            old(self).negative.wf(),
        ensures
            final(self).negative.wf(),
            old(self).only_negative(*final(self)),
            match old(self).inodes@.child_named(parent, name@) {
                Some(x) => r == Ok::<VirtualFsAttr, Errno>(
                    virtual_fs::attr_of(old(self).config.read_only, old(self).inodes@.inodes[x]),
                ) && final(self).negative@ == old(self).negative@,
                None => r == Err::<VirtualFsAttr, Errno>(Errno::ENOENT)
                    && negative_cache::noted(
                    old(self).negative@,
                    final(self).negative@,
                    full_path@,
                ),
            },
    {
        match self.inodes.lookup_child(parent, name) {
            Some(entry) => Ok(self.make_vfs_attr(entry)),
            None => {
                self.negative.insert(full_path);
                Err(Errno::ENOENT)
            },
        }
    }

    /// `ino` has to be checked against the remote when the last check is of this age.
    pub open spec fn is_due(&self, ino: u64, age: Duration) -> bool {
        !(self.config.serve_lookup_from_cache && self.inodes@.inodes.contains_key(ino)
            && self.inodes@.inodes[ino].last_revalidated is Some && age.nanos
            < self.config.metadata_ttl.nanos)
    }

    /// Whether `ino` has to be checked against the remote when the last check is of this age. It
    /// always has to if lookups are not served from the cache, or it never was checked.
    pub fn due_at_age(&self, ino: u64, age: Duration) -> (r: bool)
        ensures
            r == self.is_due(ino, age),
    {
        if self.config.serve_lookup_from_cache {
            if let Some(entry) = self.inodes.get(ino) {
                return !(entry.last_revalidated.is_some() && is_recent(
                    age,
                    self.config.metadata_ttl,
                ));
            }
        }
        true
    }

    /// Whether `ino` has to be checked against the remote now. It always has to if lookups are not
    /// served from the cache, if it never was, or if no check may be of any age; else the age of
    /// the last check, which the clock gives, decides.
    pub fn revalidation_due(&self, ino: u64) -> (r: bool)
        ensures
            exists|age: Duration| r == #[trigger] self.is_due(ino, age),
            !self.config.serve_lookup_from_cache ==> r,
            !self.inodes@.inodes.contains_key(ino) ==> r,
            self.inodes@.inodes.contains_key(ino) && self.inodes@.inodes[ino].last_revalidated
                is None ==> r,
            self.config.metadata_ttl.nanos == 0 ==> r,
    {
        if let Some(entry) = self.inodes.get(ino) {
            if let Some(last) = &entry.last_revalidated {
                return self.due_at_age(ino, elapsed_since(last));
            }
        }
        assert(self.is_due(ino, self.config.metadata_ttl));
        true
    }

    /// Take in what the remote says of the file `ino`, on record with this hash and ETag: its
    /// metadata, or `None` if it is gone. Returns the inodes that the kernel has to drop from its
    /// cache.
    pub fn revalidate_file(
        &mut self,
        ino: u64,
        current_hash: &Option<String>,
        current_etag: &Option<String>,
        remote: Option<HeadFileInfo>,
        now: Timestamp,
        checked: Instant,
    ) -> (r: Vec<u64>)
        ensures
            final(self).inodes@ == rechecked(
                old(self).inodes@,
                ino,
                text::opt_text(*current_hash),
                text::opt_text(*current_etag),
                remote,
                now,
                checked,
            ),
            r@ == recheck_invalidates(
                old(self).inodes@,
                ino,
                text::opt_text(*current_hash),
                text::opt_text(*current_etag),
                remote,
            ),
            old(self).only_inodes(*final(self)),
    {
        let mut stale: Vec<u64> = Vec::new();
        match remote {
            None => {
                if let Some(entry) = self.inodes.get(ino) {
                    stale.push(entry.parent);
                    stale.push(ino);
                }
                let _ = self.inodes.remove(ino);
                assert(stale@ =~= recheck_invalidates(
                    old(self).inodes@,
                    ino,
                    text::opt_text(*current_hash),
                    text::opt_text(*current_etag),
                    remote,
                ));
            },
            Some(head) => {
                if is_changed(current_hash, current_etag, &head.xet_hash, &head.etag) {
                    let size: u64 = match head.size {
                        Some(size) => size,
                        None => return stale,
                    };
                    let mtime = match &head.last_modified {
                        Some(s) => mtime_from_http_date(s.as_str()),
                        None => now,
                    };
                    let _ = self.inodes.update_remote_file(
                        ino,
                        head.xet_hash,
                        head.etag,
                        size,
                        mtime,
                    );
                    stale.push(ino);
                    assert(stale@ =~= seq![ino]);
                } else {
                    if let Some(entry) = self.inodes.get_mut(ino) {
                        if let Some(etag) = head.etag {
                            entry.etag = Some(etag);
                        }
                    }
                }
                if let Some(entry) = self.inodes.get_mut(ino) {
                    entry.last_revalidated = Some(checked);
                }
            },
        }
        stale
    }
}

} // verus!
