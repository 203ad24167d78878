//! Whether a walk down from an inode ends, which a rename depends on.
use crate::time::Timestamp;
use crate::virtual_fs::inode;
use crate::virtual_fs::inode::{ChildModel, EntryModel, InodeKind, InodeTable};
use crate::virtual_fs::model;
use crate::virtual_fs::model::TableModel;
use crate::virtual_fs::relocation;
use crate::virtual_fs::rename;
use crate::virtual_fs::rename::{RenameInfo, RenameModel};
use crate::virtual_fs::VirtualFs;
use vstd::prelude::*;

verus! {

/// Walks down from `ino` have fewer than `height` steps, and none comes by `avoid`.
pub open spec fn clear_within(
    inodes: Map<u64, EntryModel>,
    ino: u64,
    avoid: Option<u64>,
    height: nat,
) -> bool
    decreases height,
{
    &&& avoid != Some(ino)
    &&& inodes.contains_key(ino) ==> {
        &&& height > 0
        &&& forall|i: int|
            0 <= i < inodes[ino].children.len() ==> clear_within(
                inodes,
                (#[trigger] inodes[ino].children[i]).ino,
                avoid,
                (height - 1) as nat,
            )
    }
}

/// Walks down from `ino` end, and none comes by `avoid`.
pub open spec fn clear(inodes: Map<u64, EntryModel>, ino: u64, avoid: Option<u64>) -> bool {
    exists|height: nat| clear_within(inodes, ino, avoid, height)
}

proof fn lemma_clear_is_bounded(
    inodes: Map<u64, EntryModel>,
    ino: u64,
    avoid: Option<u64>,
    height: nat,
)
    ensures
        clear_within(inodes, ino, avoid, height) ==> model::height_within(inodes, ino, height),
        avoid is None ==> clear_within(inodes, ino, avoid, height) == model::height_within(
            inodes,
            ino,
            height,
        ),
    decreases height,
{
    if height > 0 && inodes.contains_key(ino) {
        assert forall|i: int| 0 <= i < inodes[ino].children.len() implies (clear_within(
            inodes,
            (#[trigger] inodes[ino].children[i]).ino,
            avoid,
            (height - 1) as nat,
        ) ==> model::height_within(inodes, inodes[ino].children[i].ino, (height - 1) as nat)) && (
        avoid is None ==> clear_within(
            inodes,
            inodes[ino].children[i].ino,
            avoid,
            (height - 1) as nat,
        ) == model::height_within(inodes, inodes[ino].children[i].ino, (height - 1) as nat)) by {
            lemma_clear_is_bounded(
                inodes,
                inodes[ino].children[i].ino,
                avoid,
                (height - 1) as nat,
            );
        }
    }
}

proof fn lemma_clear_at_height(
    inodes: Map<u64, EntryModel>,
    ino: u64,
    avoid: Option<u64>,
    some: nat,
    height: nat,
)
    requires
        clear_within(inodes, ino, avoid, some),
        model::height_within(inodes, ino, height),
    ensures
        clear_within(inodes, ino, avoid, height),
    decreases height,
{
    if inodes.contains_key(ino) {
        assert forall|i: int| 0 <= i < inodes[ino].children.len() implies clear_within(
            inodes,
            (#[trigger] inodes[ino].children[i]).ino,
            avoid,
            (height - 1) as nat,
        ) by {
            lemma_clear_at_height(
                inodes,
                inodes[ino].children[i].ino,
                avoid,
                (some - 1) as nat,
                (height - 1) as nat,
            );
        }
    }
}

proof fn lemma_height_grows(inodes: Map<u64, EntryModel>, ino: u64, height: nat, more: nat)
    requires
        model::height_within(inodes, ino, height),
        height <= more,
    ensures
        model::height_within(inodes, ino, more),
    decreases height,
{
    if inodes.contains_key(ino) {
        assert forall|i: int| 0 <= i < inodes[ino].children.len() implies model::height_within(
            inodes,
            (#[trigger] inodes[ino].children[i]).ino,
            (more - 1) as nat,
        ) by {
            lemma_height_grows(
                inodes,
                inodes[ino].children[i].ino,
                (height - 1) as nat,
                (more - 1) as nat,
            );
        }
    }
}

/// An inode of some least height has others below it of each lesser height, so that there are at
/// least as many inodes as that.
proof fn lemma_least_height(inodes: Map<u64, EntryModel>, ino: u64, height: nat, low: Set<u64>)
    requires
        low.finite(),
        height > 0,
        model::height_within(inodes, ino, height),
        !model::height_within(inodes, ino, (height - 1) as nat),
        forall|x: u64|
            inodes.contains_key(x) && #[trigger] model::height_within(inodes, x, height)
                ==> low.contains(x),
    ensures
        height <= low.len(),
    decreases height,
{
    let less = (height - 1) as nat;
    assert(inodes.contains_key(ino));
    assert(low.contains(ino));
    if height > 1 {
        let i = choose|i: int|
            0 <= i < inodes[ino].children.len() && !model::height_within(
                inodes,
                (#[trigger] inodes[ino].children[i]).ino,
                (less - 1) as nat,
            );
        let c = inodes[ino].children[i].ino;
        let rest = low.remove(ino);
        assert forall|x: u64|
            inodes.contains_key(x) && #[trigger] model::height_within(
                inodes,
                x,
                less,
            ) implies rest.contains(x) by {
            lemma_height_grows(inodes, x, less, height);
        }
        lemma_least_height(inodes, c, less, rest);
    }
}

/// Walks that end are no longer than there are inodes.
proof fn lemma_height_fits(inodes: Map<u64, EntryModel>, ino: u64, height: nat)
    requires
        inodes.dom().finite(),
        model::height_within(inodes, ino, height),
    ensures
        model::height_within(inodes, ino, inodes.len()),
    decreases height,
{
    if height <= inodes.len() {
        lemma_height_grows(inodes, ino, height, inodes.len());
    } else if model::height_within(inodes, ino, (height - 1) as nat) {
        lemma_height_fits(inodes, ino, (height - 1) as nat);
    } else {
        lemma_least_height(inodes, ino, height, inodes.dom());
    }
}

proof fn lemma_clear_fits(inodes: Map<u64, EntryModel>, ino: u64, avoid: Option<u64>)
    requires
        inodes.dom().finite(),
        clear(inodes, ino, avoid),
    ensures
        clear_within(inodes, ino, avoid, inodes.len()),
{
    let height = choose|height: nat| clear_within(inodes, ino, avoid, height);
    lemma_clear_is_bounded(inodes, ino, avoid, height);
    lemma_height_fits(inodes, ino, height);
    lemma_clear_at_height(inodes, ino, avoid, height, inodes.len());
}

/// `b` has no inode and no edge that `a` lacks, but for edges from `avoid`.
spec fn shrinks(a: TableModel, b: TableModel, avoid: u64) -> bool {
    &&& forall|x: u64| #[trigger] b.inodes.contains_key(x) ==> a.inodes.contains_key(x)
    &&& forall|x: u64|
        x != avoid && #[trigger] b.inodes.contains_key(x) ==> among(
            b.inodes[x].children,
            a.inodes[x].children,
        )
}

spec fn among(some: Seq<ChildModel>, all: Seq<ChildModel>) -> bool {
    forall|i: int| 0 <= i < some.len() ==> all.contains(#[trigger] some[i])
}

proof fn lemma_filter_among(s: Seq<ChildModel>, keep: spec_fn(ChildModel) -> bool)
    ensures
        among(s.filter(keep), s),
    decreases s.len(),
{
    reveal(Seq::filter);
    if s.len() > 0 {
        let front = s.drop_last();
        lemma_filter_among(front, keep);
        assert forall|i: int| 0 <= i < s.filter(keep).len() implies s.contains(
            #[trigger] s.filter(keep)[i],
        ) by {
            if i < front.filter(keep).len() {
                assert(s.filter(keep)[i] == front.filter(keep)[i]);
                assert(front.contains(front.filter(keep)[i]));
                let j = choose|j: int| 0 <= j < front.len() && front[j] == front.filter(keep)[i];
                assert(s[j] == s.filter(keep)[i]);
            } else {
                assert(s[s.len() - 1] == s.filter(keep)[i]);
            }
        }
    }
}

proof fn lemma_remove_among(s: Seq<ChildModel>, k: int)
    requires
        0 <= k < s.len(),
    ensures
        among(s.remove(k), s),
{
    assert forall|i: int| 0 <= i < s.remove(k).len() implies s.contains(
        #[trigger] s.remove(k)[i],
    ) by {
        if i < k {
            assert(s[i] == s.remove(k)[i]);
        } else {
            assert(s[i + 1] == s.remove(k)[i]);
        }
    }
}

proof fn lemma_shrinks_twice(a: TableModel, b: TableModel, c: TableModel, avoid: u64)
    requires
        shrinks(a, b, avoid),
        shrinks(b, c, avoid),
    ensures
        shrinks(a, c, avoid),
{
    assert forall|x: u64| x != avoid && #[trigger] c.inodes.contains_key(x) implies among(
        c.inodes[x].children,
        a.inodes[x].children,
    ) by {
        assert(b.inodes.contains_key(x));
        assert forall|i: int| 0 <= i < c.inodes[x].children.len() implies a.inodes[x].children
            .contains(#[trigger] c.inodes[x].children[i]) by {
            assert(b.inodes[x].children.contains(c.inodes[x].children[i]));
        }
    }
}

proof fn lemma_same_shape_shrinks(a: TableModel, b: TableModel, avoid: u64)
    requires
        model::same_shape(a.inodes, b.inodes),
    ensures
        shrinks(a, b, avoid),
{
}

/// A walk in what a table shrinks to is one in the table.
proof fn lemma_shrunk_height(a: TableModel, b: TableModel, ino: u64, avoid: u64, height: nat)
    requires
        shrinks(a, b, avoid),
        clear_within(a.inodes, ino, Some(avoid), height),
    ensures
        model::height_within(b.inodes, ino, height),
    decreases height,
{
    if b.inodes.contains_key(ino) {
        let all = a.inodes[ino].children;
        assert(among(b.inodes[ino].children, all));
        assert forall|i: int| 0 <= i < b.inodes[ino].children.len() implies model::height_within(
            b.inodes,
            (#[trigger] b.inodes[ino].children[i]).ino,
            (height - 1) as nat,
        ) by {
            let c = b.inodes[ino].children[i];
            assert(all.contains(c));
            let j = choose|j: int| 0 <= j < all.len() && all[j] == c;
            assert(clear_within(a.inodes, all[j].ino, Some(avoid), (height - 1) as nat));
            lemma_shrunk_height(a, b, c.ino, avoid, (height - 1) as nat);
        }
    }
}

proof fn lemma_target_shrinks(
    t: TableModel,
    target: Option<u64>,
    newparent: u64,
    newname: Seq<char>,
    now: Timestamp,
)
    ensures
        shrinks(t, rename::target_removed(t, target, newparent, newname, now), newparent),
{
    let r = rename::target_removed(t, target, newparent, newname, now);
    if let Some(y) = target {
        let x = t.inodes[y].inode;
        if t.inodes[y].kind == InodeKind::Directory {
            if t.inodes.contains_key(x) {
                assert forall|z: u64|
                    z != newparent && #[trigger] r.inodes.contains_key(z) implies among(
                    r.inodes[z].children,
                    t.inodes[z].children,
                ) by {
                    lemma_filter_among(t.inodes[z].children, |c: ChildModel| c.ino != x);
                }
            }
        } else {
            let u = t.unlinked(newparent, newname, now);
            assert(shrinks(t, u, newparent));
            assert(shrinks(u, u.without(x), newparent));
            lemma_shrinks_twice(t, u, u.without(x), newparent);
        }
    }
}

proof fn lemma_moved_shrinks(
    t: TableModel,
    ino: u64,
    parent: u64,
    oldname: Seq<char>,
    newparent: u64,
    newname: Seq<char>,
)
    ensures
        shrinks(t, t.moved(ino, parent, oldname, newparent, newname), newparent),
{
    let r = t.moved(ino, parent, oldname, newparent, newname);
    assert forall|z: u64| z != newparent && #[trigger] r.inodes.contains_key(z) implies among(
        r.inodes[z].children,
        t.inodes[z].children,
    ) by {
        let s = t.inodes[z].children;
        relocation::lemma_first_edge(s, ino, oldname);
        if let Some(k) = model::first_edge(s, ino, oldname) {
            lemma_remove_among(s, k);
        }
    }
}

/// A rename ends if the walks down from what is renamed do and none comes by its new parent.
proof fn lemma_clear_terminates(
    t: TableModel,
    info: RenameModel,
    target: Option<u64>,
    parent: u64,
    oldname: Seq<char>,
    newparent: u64,
    newname: Seq<char>,
    now: Timestamp,
)
    requires
        clear(t.inodes, info.ino, Some(newparent)),
    ensures
        rename::rename_terminates(t, info, target, parent, oldname, newparent, newname, now),
{
    let height = choose|height: nat| clear_within(t.inodes, info.ino, Some(newparent), height);
    let cleared = rename::target_removed(t, target, newparent, newname, now);
    let base = rename::rename_base(t, info, target, newparent, newname, now);
    lemma_target_shrinks(t, target, newparent, newname, now);
    lemma_same_shape_shrinks(cleared, base, newparent);
    lemma_shrinks_twice(t, cleared, base, newparent);
    lemma_shrunk_height(t, base, info.ino, newparent, height);
    let noted = if info.kind == InodeKind::Directory {
        rename::below_noted(base, info.ino, model::height_of(base.inodes, info.ino))
    } else {
        base
    };
    rename::lemma_below_noted_shape(base, info.ino, model::height_of(base.inodes, info.ino));
    let unlisted = TableModel { paths: noted.paths.remove(info.old_path), ..noted };
    lemma_same_shape_shrinks(base, unlisted, newparent);
    lemma_shrinks_twice(t, base, unlisted, newparent);
    let relinked = unlisted.moved(info.ino, parent, oldname, newparent, newname);
    lemma_moved_shrinks(unlisted, info.ino, parent, oldname, newparent, newname);
    lemma_shrinks_twice(t, unlisted, relinked, newparent);
    lemma_shrunk_height(t, relinked, info.ino, newparent, height);
}

impl InodeTable {
    /// Whether walks down from `ino` end, and none comes by `avoid`.
    pub fn is_clear(&self, ino: u64, avoid: Option<u64>) -> (r: bool)
        ensures
            r == clear(self@.inodes, ino, avoid),
    {
        proof {
            self.lemma_finite();
            if clear(self@.inodes, ino, avoid) {
                lemma_clear_fits(self@.inodes, ino, avoid);
            }
        }
        self.is_clear_within(ino, avoid, self.len())
    }

    fn is_clear_within(&self, ino: u64, avoid: Option<u64>, height: usize) -> (r: bool)
        ensures
            r == clear_within(self@.inodes, ino, avoid, height as nat),
        decreases height,
    {
        if let Some(other) = avoid {
            if other == ino {
                return false;
            }
        }
        let entry = match self.get(ino) {
            Some(entry) => entry,
            None => return true,
        };
        if height == 0 {
            return false;
        }
        let ghost children = self@.inodes[ino].children;
        let mut i: usize = 0;
        while i < entry.children.len()
            invariant
                i <= entry.children.len(),
                height > 0,
                children == inode::child_models(entry.children@),
                children == self@.inodes[ino].children,
                self@.inodes.contains_key(ino),
                forall|j: int|
                    0 <= j < i ==> clear_within(
                        self@.inodes,
                        (#[trigger] children[j]).ino,
                        avoid,
                        (height - 1) as nat,
                    ),
            decreases entry.children.len() - i,
        {
            assert(children[i as int] == entry.children@[i as int]@);
            if !self.is_clear_within(entry.children[i].ino, avoid, height - 1) {
                return false;
            }
            i += 1;
        }
        assert(children.len() == entry.children@.len());
        true
    }
}

impl VirtualFs {
    /// Whether a rename of `name` in `parent` can be checked: what is below it has no cycle.
    pub fn rename_can_start(&self, parent: u64, name: &str) -> (r: bool)
        ensures
            r == (self.inodes@.child_named(parent, name@) matches Some(x) ==> model::bounded_height(
                self.inodes@.inodes,
                self.inodes@.inodes[x].inode,
            )),
    {
        match self.inodes.lookup_child(parent, name) {
            Some(entry) => {
                proof {
                    let t = self.inodes@.inodes;
                    let ino = entry.inode;
                    assert forall|h: nat| #[trigger]
                        clear_within(t, ino, None, h) == model::height_within(t, ino, h) by {
                        lemma_clear_is_bounded(t, ino, None, h);
                    }
                    if model::bounded_height(t, ino) {
                        let h = choose|h: nat| model::height_within(t, ino, h);
                        assert(clear_within(t, ino, None, h));
                    }
                }
                self.inodes.is_clear(entry.inode, None)
            },
            None => true,
        }
    }

    /// Whether a rename can be carried out in the table as it is now: what is below the renamed
    /// inode has no cycle and does not hold the new parent. It ends then, whatever else it is about.
    pub fn rename_can_finish(&self, info: &RenameInfo, newparent: u64) -> (r: bool)
        ensures
            r == clear(self.inodes@.inodes, info.ino, Some(newparent)),
            r ==> forall|
                target: Option<u64>,
                parent: u64,
                oldname: Seq<char>,
                newname: Seq<char>,
                now: Timestamp,
            | #[trigger]
                rename::rename_terminates(
                    self.inodes@,
                    info@,
                    target,
                    parent,
                    oldname,
                    newparent,
                    newname,
                    now,
                ),
    {
        proof {
            if clear(self.inodes@.inodes, info.ino, Some(newparent)) {
                assert forall|
                    target: Option<u64>,
                    parent: u64,
                    oldname: Seq<char>,
                    newname: Seq<char>,
                    now: Timestamp,
                | #[trigger]
                    rename::rename_terminates(
                        self.inodes@,
                        info@,
                        target,
                        parent,
                        oldname,
                        newparent,
                        newname,
                        now,
                    ) by {
                    lemma_clear_terminates(
                        self.inodes@,
                        info@,
                        target,
                        parent,
                        oldname,
                        newparent,
                        newname,
                        now,
                    );
                }
            }
        }
        self.inodes.is_clear(info.ino, Some(newparent))
    }
}

} // verus!
