//! The storage engine: the registry mapping canonical absolute paths to
//! storage slots, the file handles that read and write them, and the
//! abstract model both are specified against.
//!
//! A slot is either a growable byte buffer (a regular file) or a directory
//! marker. The registry owns every live slot; a handle refers to a slot by
//! identifier, without owning it, and expires passively when the entry that
//! owned its slot is replaced.

use vstd::prelude::*;

use crate::path::{path_wf, CanonPath};
use crate::EntryKind;
use crate::FsError;

verus! {

/// The mathematical content of one slot.
pub enum SlotModel {
    Bytes(Seq<u8>),
    Dir,
}

/// The listing kind of a slot.
pub open spec fn kind_of(s: SlotModel) -> EntryKind {
    match s {
        SlotModel::Bytes(_) => EntryKind::File,
        SlotModel::Dir => EntryKind::Dir,
    }
}

/// Content of a regular file after a write at cursor `pos`: everything at
/// or past the cursor is discarded, then `data` is appended.
pub open spec fn write_bytes(content: Seq<u8>, pos: int, data: Seq<u8>) -> Seq<u8> {
    if pos <= content.len() {
        content.take(pos) + data
    } else {
        content + data
    }
}

/// Bytes a read at cursor `pos` into a destination of length `cap` yields:
/// a window of `min(cap, content.len() - pos)` bytes starting at the
/// cursor, clamped to empty when the cursor is at or past the end.
pub open spec fn read_window(content: Seq<u8>, pos: int, cap: int) -> Seq<u8> {
    if pos >= content.len() {
        Seq::empty()
    } else if cap <= content.len() - pos {
        content.subrange(pos, pos + cap)
    } else {
        content.subrange(pos, content.len() as int)
    }
}

/// The abstract state of a registry: a table from canonical paths to slot
/// identifiers, the contents of the live slots, and the next fresh
/// identifier. Identifiers are never reused, so a handle that names a dead
/// identifier can never see a later slot.
#[verifier::ext_equal]
pub struct RegModel {
    pub table: Map<Seq<Seq<char>>, int>,
    pub slots: Map<int, SlotModel>,
    pub next: int,
}

impl RegModel {
    /// The empty registry: no entries, no live slots.
    pub open spec fn empty() -> RegModel {
        RegModel { table: Map::empty(), slots: Map::empty(), next: 0 }
    }

    /// Model invariant: table keys are nonempty canonical paths; every
    /// entry names a live slot below `next`; no two entries share a slot;
    /// and every live slot is owned by exactly one entry.
    pub open spec fn inv(self) -> bool {
        &&& 0 <= self.next
        &&& forall|p: Seq<Seq<char>>| #[trigger]
            self.table.dom().contains(p) ==> path_wf(p) && p.len() > 0 && 0 <= self.table[p]
                < self.next && self.slots.dom().contains(self.table[p])
        &&& forall|p: Seq<Seq<char>>, q: Seq<Seq<char>>|
            self.table.dom().contains(p) && self.table.dom().contains(q) && p != q ==> #[trigger] self.table[p]
                != #[trigger] self.table[q]
        &&& forall|id: int| #[trigger]
            self.slots.dom().contains(id) ==> 0 <= id < self.next && exists|p: Seq<Seq<char>>| #[trigger]
                self.table.dom().contains(p) && self.table[p] == id
    }

    /// The slot stored at a path, if any.
    pub open spec fn lookup(self, p: Seq<Seq<char>>) -> Option<SlotModel> {
        if self.table.dom().contains(p) {
            Some(self.slots[self.table[p]])
        } else {
            None
        }
    }

    /// Whether a slot identifier is still live.
    pub open spec fn live(self, id: int) -> bool {
        self.slots.dom().contains(id)
    }

    /// Whether a path denotes an existing directory: the root always does;
    /// any other path must hold a directory slot.
    pub open spec fn is_dir(self, p: Seq<Seq<char>>) -> bool {
        p.len() == 0 || self.lookup(p) == Some(SlotModel::Dir)
    }

    /// Install a fresh slot at `p`, replacing any entry already there; the
    /// replaced entry's slot dies (the registry was its only owner).
    pub open spec fn upsert(self, p: Seq<Seq<char>>, s: SlotModel) -> RegModel {
        RegModel {
            table: self.table.insert(p, self.next),
            slots: (if self.table.dom().contains(p) {
                self.slots.remove(self.table[p])
            } else {
                self.slots
            }).insert(self.next, s),
            next: self.next + 1,
        }
    }

    /// Create a brand-new empty regular file at `p`.
    pub open spec fn create_file(self, p: Seq<Seq<char>>) -> RegModel {
        self.upsert(p, SlotModel::Bytes(Seq::empty()))
    }

    /// Create a directory marker at `p`.
    pub open spec fn create_dir(self, p: Seq<Seq<char>>) -> RegModel {
        self.upsert(p, SlotModel::Dir)
    }

    /// Overwrite the content of live file slot `id` as a write at cursor
    /// `pos` does.
    pub open spec fn write_at(self, id: int, pos: int, data: Seq<u8>) -> RegModel {
        RegModel {
            table: self.table,
            slots: self.slots.insert(id, SlotModel::Bytes(write_bytes(self.slots[id]->Bytes_0, pos, data))),
            next: self.next,
        }
    }

    /// The children of directory path `p`: each is a segment name plus the
    /// kind of the slot stored at `p` extended by that name.
    pub open spec fn child_set(self, p: Seq<Seq<char>>) -> Set<(Seq<char>, EntryKind)> {
        Set::new(
            |c: (Seq<char>, EntryKind)|
                {
                    &&& self.table.dom().contains(p.push(c.0))
                    &&& kind_of(self.slots[self.table[p.push(c.0)]]) == c.1
                },
        )
    }
}

/// One stored content unit: a regular file's bytes or a directory marker.
/// The variant of a slot never changes after creation.
pub(crate) enum Slot {
    RegularFile(Vec<u8>),
    Directory,
}

impl View for Slot {
    type V = SlotModel;

    closed spec fn view(&self) -> SlotModel {
        match self {
            Slot::RegularFile(v) => SlotModel::Bytes(v@),
            Slot::Directory => SlotModel::Dir,
        }
    }
}

/// One registry entry: a canonical path and the slot it owns.
pub(crate) struct PathEntry {
    pub(crate) path: CanonPath,
    pub(crate) slot: usize,
}

/// The table a sequence of entries denotes; later entries shadow earlier
/// ones, though a well-formed registry never has two entries for one path.
pub(crate) open spec fn table_of(s: Seq<PathEntry>) -> Map<Seq<Seq<char>>, int>
    decreases s.len(),
{
    if s.len() == 0 {
        Map::empty()
    } else {
        table_of(s.drop_last()).insert(s.last().path@, s.last().slot as int)
    }
}

/// The live-slot map a slot arena denotes.
pub(crate) open spec fn slots_of(s: Seq<Option<Slot>>) -> Map<int, SlotModel> {
    Map::new(|i: int| 0 <= i < s.len() && s[i] is Some, |i: int| s[i]->Some_0@)
}

/// The registry: entries pair a canonical path with the index of the slot
/// they own inside a grow-only arena; a replaced slot's cell is cleared,
/// and its index is never handed out again.
pub struct Registry {
    pub(crate) entries: Vec<PathEntry>,
    pub(crate) slots: Vec<Option<Slot>>,
}

impl View for Registry {
    type V = RegModel;

    closed spec fn view(&self) -> RegModel {
        RegModel {
            table: table_of(self.entries@),
            slots: slots_of(self.slots@),
            next: self.slots@.len() as int,
        }
    }
}

proof fn lemma_table_of_index(s: Seq<PathEntry>, i: int)
    requires
        0 <= i < s.len(),
        forall|a: int, b: int| 0 <= a < b < s.len() ==> (#[trigger] s[a]).path@ != (#[trigger] s[b]).path@,
    ensures
        table_of(s).dom().contains(s[i].path@),
        table_of(s)[s[i].path@] == s[i].slot as int,
    decreases s.len(),
{
    if i == s.len() - 1 {
    } else {
        lemma_table_of_index(s.drop_last(), i);
        assert(s[i].path@ != s.last().path@);
    }
}

proof fn lemma_table_of_dom(s: Seq<PathEntry>, p: Seq<Seq<char>>)
    ensures
        table_of(s).dom().contains(p) <==> exists|i: int|
            0 <= i < s.len() && (#[trigger] s[i]).path@ == p,
    decreases s.len(),
{
    if s.len() == 0 {
    } else {
        lemma_table_of_dom(s.drop_last(), p);
        if p == s.last().path@ {
            assert(s[s.len() - 1].path@ == p);
        } else {
            if table_of(s).dom().contains(p) {
                let i = choose|i: int| 0 <= i < s.drop_last().len() && (#[trigger] s.drop_last()[i]).path@ == p;
                assert(s[i].path@ == p);
            }
            if exists|i: int| 0 <= i < s.len() && (#[trigger] s[i]).path@ == p {
                let i = choose|i: int| 0 <= i < s.len() && (#[trigger] s[i]).path@ == p;
                assert(i < s.len() - 1);
                assert(s.drop_last()[i].path@ == p);
            }
        }
    }
}

proof fn lemma_table_of_update(s: Seq<PathEntry>, i: int, e2: PathEntry)
    requires
        0 <= i < s.len(),
        e2.path@ == s[i].path@,
        forall|a: int, b: int| 0 <= a < b < s.len() ==> (#[trigger] s[a]).path@ != (#[trigger] s[b]).path@,
    ensures
        table_of(s.update(i, e2)) =~= table_of(s).insert(s[i].path@, e2.slot as int),
    decreases s.len(),
{
    let t = s.update(i, e2);
    assert(t.len() == s.len());
    if i == s.len() - 1 {
        assert(t.drop_last() =~= s.drop_last());
        assert(t.last() == e2);
    } else {
        assert(t.drop_last() =~= s.drop_last().update(i, e2));
        assert(t.last() == s.last());
        lemma_table_of_update(s.drop_last(), i, e2);
        assert(s[i].path@ != s.last().path@);
    }
}

impl Registry {
    /// Representation invariant: entry paths are distinct, nonempty and
    /// canonical; each entry's slot index is in bounds and holds a live
    /// slot; no two entries share a slot; and every live slot is owned.
    pub closed spec fn wf(&self) -> bool {
        &&& forall|i: int| 0 <= i < self.entries@.len() ==> {
            let e = #[trigger] self.entries@[i];
            &&& e.path.wf()
            &&& e.path@.len() > 0
            &&& e.slot < self.slots@.len()
            &&& self.slots@[e.slot as int] is Some
        }
        &&& forall|i: int, j: int|
            0 <= i < j < self.entries@.len() ==> (#[trigger] self.entries@[i]).path@
                != (#[trigger] self.entries@[j]).path@ && self.entries@[i].slot != self.entries@[j].slot
        &&& forall|k: int|
            0 <= k < self.slots@.len() && (#[trigger] self.slots@[k]) is Some ==> exists|i: int|
                0 <= i < self.entries@.len() && (#[trigger] self.entries@[i]).slot as int == k
    }

    /// Every entry is reflected in the model table, and conversely.
    proof fn lemma_view_table(&self)
        requires
            self.wf(),
        ensures
            forall|i: int|
                0 <= i < self.entries@.len() ==> {
                    let e = #[trigger] self.entries@[i];
                    self@.table.dom().contains(e.path@) && self@.table[e.path@] == e.slot as int
                },
            forall|p: Seq<Seq<char>>| #[trigger]
                self@.table.dom().contains(p) ==> exists|i: int|
                    0 <= i < self.entries@.len() && (#[trigger] self.entries@[i]).path@ == p,
    {
        assert forall|i: int| 0 <= i < self.entries@.len() implies {
            let e = #[trigger] self.entries@[i];
            self@.table.dom().contains(e.path@) && self@.table[e.path@] == e.slot as int
        } by {
            lemma_table_of_index(self.entries@, i);
        }
        assert forall|p: Seq<Seq<char>>| #[trigger]
            self@.table.dom().contains(p) implies exists|i: int|
            0 <= i < self.entries@.len() && (#[trigger] self.entries@[i]).path@ == p by {
            lemma_table_of_dom(self.entries@, p);
        }
    }

    /// A well-formed registry's model satisfies the model invariant.
    pub proof fn lemma_view_inv(&self)
        requires
            self.wf(),
        ensures
            self@.inv(),
    {
        self.lemma_view_table();
        assert forall|p: Seq<Seq<char>>| #[trigger]
            self@.table.dom().contains(p) implies path_wf(p) && p.len() > 0 && 0 <= self@.table[p]
            < self@.next && self@.slots.dom().contains(self@.table[p]) by {
            let i = choose|i: int| 0 <= i < self.entries@.len() && (#[trigger] self.entries@[i]).path@ == p;
        }
        assert forall|p: Seq<Seq<char>>, q: Seq<Seq<char>>|
            self@.table.dom().contains(p) && self@.table.dom().contains(q) && p != q implies #[trigger] self@.table[p]
            != #[trigger] self@.table[q] by {
            let i = choose|i: int| 0 <= i < self.entries@.len() && (#[trigger] self.entries@[i]).path@ == p;
            let j = choose|j: int| 0 <= j < self.entries@.len() && (#[trigger] self.entries@[j]).path@ == q;
            assert(i != j);
        }
        assert forall|id: int| #[trigger]
            self@.slots.dom().contains(id) implies 0 <= id < self@.next && exists|p: Seq<Seq<char>>| #[trigger]
            self@.table.dom().contains(p) && self@.table[p] == id by {
            let i = choose|i: int|
                0 <= i < self.entries@.len() && (#[trigger] self.entries@[i]).slot as int == id;
            assert(self@.table.dom().contains(self.entries@[i].path@) && self@.table[self.entries@[i].path@]
                == id);
        }
    }

    /// A fresh, empty registry.
    pub fn new() -> (r: Registry)
        ensures
            r.wf(),
            r@ == RegModel::empty(),
    {
        let r = Registry { entries: Vec::new(), slots: Vec::new() };
        proof {
            assert(r@ =~= RegModel::empty());
        }
        r
    }

    /// Index of the entry at `path`, if one exists.
    pub(crate) fn find_entry(&self, path: &CanonPath) -> (r: Option<usize>)
        requires
            self.wf(),
        ensures
            match r {
                Some(i) => i < self.entries@.len() && self.entries@[i as int].path@ == path@
                    && self@.table.dom().contains(path@) && self@.table[path@]
                    == self.entries@[i as int].slot as int,
                None => !self@.table.dom().contains(path@),
            },
    {
        let mut i: usize = 0;
        while i < self.entries.len()
            invariant
                self.wf(),
                i <= self.entries@.len(),
                forall|k: int| 0 <= k < i ==> (#[trigger] self.entries@[k]).path@ != path@,
            decreases self.entries@.len() - i,
        {
            if self.entries[i].path.eq(path) {
                proof {
                    self.lemma_view_table();
                }
                return Some(i);
            }
            i += 1;
        }
        proof {
            lemma_table_of_dom(self.entries@, path@);
        }
        None
    }

    /// Install slot `s` at `path`, replacing any entry already there. The
    /// replaced entry's slot is cleared: the registry held its only strong
    /// reference, so handles that named it expire. Returns the fresh slot
    /// identifier.
    pub(crate) fn upsert_slot(&mut self, path: &CanonPath, s: Slot) -> (id: usize)
        requires
            old(self).wf(),
            path.wf(),
            path@.len() > 0,
        ensures
            final(self).wf(),
            final(self)@ =~= old(self)@.upsert(path@, s@),
            id == old(self)@.next,
    {
        proof {
            self.lemma_view_table();
        }
        let found = self.find_entry(path);
        let new_id = self.slots.len();
        self.slots.push(Some(s));
        match found {
            Some(i) => {
                let old_slot = self.entries[i].slot;
                self.slots[old_slot] = None;
                self.entries[i].slot = new_id;
                proof {
                    let oe = old(self).entries@;
                    let e2 = self.entries@[i as int];
                    assert(self.entries@ =~= oe.update(i as int, e2));
                    lemma_table_of_update(oe, i as int, e2);
                    assert(self@.table =~= old(self)@.table.insert(path@, new_id as int));
                    assert(self@.slots =~= old(self)@.slots.remove(old_slot as int).insert(
                        new_id as int,
                        s@,
                    ));
                    assert(self@ =~= old(self)@.upsert(path@, s@));
                    // well-formedness is preserved
                    assert forall|k: int|
                        0 <= k < self.slots@.len() && (#[trigger] self.slots@[k]) is Some implies exists|j: int|
                        0 <= j < self.entries@.len() && (#[trigger] self.entries@[j]).slot as int
                            == k by {
                        if k == new_id as int {
                            assert(self.entries@[i as int].slot as int == k);
                        } else {
                            let j = choose|j: int|
                                0 <= j < oe.len() && (#[trigger] oe[j]).slot as int == k;
                            assert(self.entries@[j].slot as int == k);
                        }
                    }
                }
                new_id
            },
            None => {
                self.entries.push(PathEntry { path: path.duplicate(), slot: new_id });
                proof {
                    let oe = old(self).entries@;
                    assert(self.entries@.drop_last() =~= oe);
                    assert(self@.table =~= old(self)@.table.insert(path@, new_id as int));
                    assert(self@.slots =~= old(self)@.slots.insert(new_id as int, s@));
                    assert(self@ =~= old(self)@.upsert(path@, s@));
                    assert forall|k: int|
                        0 <= k < self.slots@.len() && (#[trigger] self.slots@[k]) is Some implies exists|j: int|
                        0 <= j < self.entries@.len() && (#[trigger] self.entries@[j]).slot as int
                            == k by {
                        if k == new_id as int {
                            assert(self.entries@[self.entries@.len() - 1].slot as int == k);
                        } else {
                            let j = choose|j: int|
                                0 <= j < oe.len() && (#[trigger] oe[j]).slot as int == k;
                            assert(self.entries@[j].slot as int == k);
                        }
                    }
                }
                new_id
            },
        }
    }

    /// Whether `path` denotes an existing directory: true for the root and
    /// for any path holding a directory slot; false otherwise, including
    /// paths that do not exist or hold a regular file.
    pub fn is_directory(&self, path: &CanonPath) -> (r: bool)
        requires
            self.wf(),
        ensures
            r == self@.is_dir(path@),
    {
        if path.is_root() {
            return true;
        }
        match self.find_entry(path) {
            Some(i) => {
                let idx = self.entries[i].slot;
                match &self.slots[idx] {
                    Some(Slot::Directory) => true,
                    _ => false,
                }
            },
            None => false,
        }
    }
}

impl Registry {
    /// Whether entry `t` is an immediate child of `parent`.
    spec fn entry_is_child(&self, parent: Seq<Seq<char>>, t: int) -> bool {
        &&& 0 <= t < self.entries@.len()
        &&& self.entries@[t].path@.len() == parent.len() + 1
        &&& self.entries@[t].path@.drop_last() == parent
    }

    /// The listing kind of the slot entry `t` owns.
    spec fn entry_kind(&self, t: int) -> EntryKind {
        kind_of(self.slots@[self.entries@[t].slot as int]->Some_0@)
    }

    /// List the immediate children of `parent`: one `(name, kind)` item for
    /// each entry whose path is `parent` extended by one segment. The items
    /// are exactly the model's child set, with no name repeated; their
    /// order is unspecified, and callers must not depend on it.
    #[verifier::rlimit(100)]
    pub fn list_children(&self, parent: &CanonPath) -> (r: Vec<(String, EntryKind)>)
        requires
            self.wf(),
        ensures
            forall|k: int|
                0 <= k < r@.len() ==> self@.child_set(parent@).contains(
                    ((#[trigger] r@[k]).0@, r@[k].1),
                ),
            forall|c: (Seq<char>, EntryKind)| #[trigger]
                self@.child_set(parent@).contains(c) ==> exists|k: int|
                    0 <= k < r@.len() && (#[trigger] r@[k]).0@ == c.0 && r@[k].1 == c.1,
            forall|k1: int, k2: int|
                0 <= k1 < k2 < r@.len() ==> (#[trigger] r@[k1]).0@ != (#[trigger] r@[k2]).0@,
    {
        let mut r: Vec<(String, EntryKind)> = Vec::new();
        let mut i: usize = 0;
        // `srcs[k]` records which entry produced listing item `k`
        let ghost mut srcs: Seq<int> = Seq::empty();
        while i < self.entries.len()
            invariant
                self.wf(),
                i <= self.entries@.len(),
                srcs.len() == r@.len(),
                forall|k: int|
                    0 <= k < r@.len() ==> {
                        let t = #[trigger] srcs[k];
                        &&& self.entry_is_child(parent@, t)
                        &&& t < i
                        &&& r@[k].0@ == self.entries@[t].path@.last()
                        &&& r@[k].1 == self.entry_kind(t)
                    },
                forall|k1: int, k2: int| 0 <= k1 < k2 < r@.len() ==> #[trigger] srcs[k1]
                    < #[trigger] srcs[k2],
                forall|t: int|
                    0 <= t < i && self.entry_is_child(parent@, t) ==> exists|k: int|
                        0 <= k < r@.len() && (#[trigger] r@[k]).0@ == self.entries@[t].path@.last()
                            && r@[k].1 == self.entry_kind(t),
            decreases self.entries@.len() - i,
        {
            let e = &self.entries[i];
            if e.path.is_child_of(parent) {
                let name = e.path.last_name();
                let kind = match &self.slots[e.slot] {
                    Some(Slot::Directory) => EntryKind::Dir,
                    _ => EntryKind::File,
                };
                let ghost prev = r@;
                r.push((name, kind));
                proof {
                    srcs = srcs.push(i as int);
                    assert(self.entry_is_child(parent@, i as int));
                    assert(r@[r@.len() - 1].0@ == self.entries@[i as int].path@.last());
                    assert(r@[r@.len() - 1].1 == self.entry_kind(i as int));
                    assert forall|t: int|
                        0 <= t < i + 1 && self.entry_is_child(parent@, t) implies exists|k: int|
                        0 <= k < r@.len() && (#[trigger] r@[k]).0@ == self.entries@[t].path@.last()
                            && r@[k].1 == self.entry_kind(t) by {
                        if t < i as int {
                            let k = choose|k: int|
                                0 <= k < prev.len() && (#[trigger] prev[k]).0@
                                    == self.entries@[t].path@.last() && prev[k].1
                                    == self.entry_kind(t);
                            assert(r@[k].0@ == self.entries@[t].path@.last() && r@[k].1
                                == self.entry_kind(t));
                        } else {
                            let k = r@.len() - 1;
                            assert(r@[k].0@ == self.entries@[t].path@.last() && r@[k].1
                                == self.entry_kind(t));
                        }
                    }
                }
            }
            i += 1;
        }
        proof {
            self.lemma_view_table();
            // every listed item is a genuine child, and no name repeats
            assert forall|k: int| 0 <= k < r@.len() implies self@.child_set(parent@).contains(
                ((#[trigger] r@[k]).0@, r@[k].1),
            ) by {
                let t = srcs[k];
                let q = self.entries@[t].path@;
                assert(q =~= parent@.push(r@[k].0@));
                assert(self@.table.dom().contains(q) && self@.table[q]
                    == self.entries@[t].slot as int);
            }
            assert forall|k1: int, k2: int| 0 <= k1 < k2 < r@.len() implies (#[trigger] r@[k1]).0@
                != (#[trigger] r@[k2]).0@ by {
                let t1 = srcs[k1];
                let t2 = srcs[k2];
                assert(self.entries@[t1].path@ =~= parent@.push(r@[k1].0@));
                assert(self.entries@[t2].path@ =~= parent@.push(r@[k2].0@));
                assert(self.entries@[t1].path@ != self.entries@[t2].path@);
            }
            assert forall|c: (Seq<char>, EntryKind)| #[trigger]
                self@.child_set(parent@).contains(c) implies exists|k: int|
                0 <= k < r@.len() && (#[trigger] r@[k]).0@ == c.0 && r@[k].1 == c.1 by {
                let q = parent@.push(c.0);
                assert(self@.table.dom().contains(q));
                let t = choose|t: int|
                    0 <= t < self.entries@.len() && (#[trigger] self.entries@[t]).path@ == q;
                assert(q.drop_last() =~= parent@);
                assert(self.entry_is_child(parent@, t));
                assert(self@.table[q] == self.entries@[t].slot as int);
                assert(self.entry_kind(t) == c.1);
                assert(self.entries@[t].path@.last() == c.0);
            }
        }
        r
    }
}

/// Create a directory marker at `path`, replacing any existing entry.
pub fn create_dir(reg: &mut Registry, path: &CanonPath)
    requires
        old(reg).wf(),
        path.wf(),
        path@.len() > 0,
    ensures
        final(reg).wf(),
        final(reg)@ == old(reg)@.create_dir(path@),
{
    reg.upsert_slot(path, Slot::Directory);
}

/// The abstract state of a handle: its cursor and the identifier of the
/// slot it refers to.
pub struct FileModel {
    pub pos: int,
    pub id: int,
}

/// A handle to a registry slot: a byte cursor and a non-owning slot
/// reference. Dropping a handle never affects the registry.
pub struct File {
    pos: usize,
    id: usize,
}

impl View for File {
    type V = FileModel;

    closed spec fn view(&self) -> FileModel {
        FileModel { pos: self.pos as int, id: self.id as int }
    }
}

impl File {
    /// Open the slot stored at `path`: returns an active handle at cursor 0
    /// on success, and fails with `NotFound` exactly when the registry has
    /// no entry at `path`.
    pub fn open(reg: &Registry, path: &CanonPath) -> (r: Result<File, FsError>)
        requires
            reg.wf(),
        ensures
            match r {
                Ok(h) => reg@.lookup(path@) is Some && h@.pos == 0 && h@.id == reg@.table[path@],
                Err(e) => reg@.lookup(path@) is None && e == FsError::NotFound,
            },
    {
        match reg.find_entry(path) {
            Some(i) => Ok(File { pos: 0, id: reg.entries[i].slot }),
            None => Err(FsError::NotFound),
        }
    }

    /// Create a brand-new empty regular file at `path`, replacing any entry
    /// already there, and return an active handle to it at cursor 0. Never
    /// fails.
    pub fn create(reg: &mut Registry, path: &CanonPath) -> (r: File)
        requires
            old(reg).wf(),
            path.wf(),
            path@.len() > 0,
        ensures
            final(reg).wf(),
            final(reg)@ == old(reg)@.create_file(path@),
            r@.pos == 0,
            r@.id == old(reg)@.next,
            final(reg)@.live(r@.id),
            final(reg)@.slots[r@.id] == SlotModel::Bytes(Seq::<u8>::empty()),
    {
        let id = reg.upsert_slot(path, Slot::RegularFile(Vec::new()));
        File { pos: 0, id }
    }

    /// Read from the slot at the cursor into `buf`: copies
    /// `min(buf.len(), content.len() - cursor)` bytes (zero when the cursor
    /// is at or past the end) into the front of `buf`, leaving the rest of
    /// `buf` unchanged, and returns the count. Fails with `NotFound` on an
    /// expired handle and `PermissionDenied` on a directory slot, leaving
    /// `buf` unchanged.
    pub fn read(&mut self, reg: &Registry, buf: &mut Vec<u8>) -> (r: Result<usize, FsError>)
        requires
            reg.wf(),
        ensures
            *final(self) == *old(self),
            final(buf)@.len() == old(buf)@.len(),
            !reg@.live(old(self)@.id) ==> r == Err::<usize, FsError>(FsError::NotFound)
                && final(buf)@ == old(buf)@,
            reg@.live(old(self)@.id) && reg@.slots[old(self)@.id] is Dir ==> r == Err::<
                usize,
                FsError,
            >(FsError::PermissionDenied) && final(buf)@ == old(buf)@,
            reg@.live(old(self)@.id) && reg@.slots[old(self)@.id] is Bytes ==> ({
                let content = reg@.slots[old(self)@.id]->Bytes_0;
                let w = read_window(content, old(self)@.pos, old(buf)@.len() as int);
                r == Ok::<usize, FsError>(w.len() as usize) && final(buf)@ == w + old(buf)@.skip(
                    w.len() as int,
                )
            }),
    {
        if self.id >= reg.slots.len() {
            return Err(FsError::NotFound);
        }
        match &reg.slots[self.id] {
            None => Err(FsError::NotFound),
            Some(Slot::Directory) => Err(FsError::PermissionDenied),
            Some(Slot::RegularFile(content)) => {
                let n: usize = if self.pos >= content.len() {
                    0
                } else if buf.len() <= content.len() - self.pos {
                    buf.len()
                } else {
                    content.len() - self.pos
                };
                let mut j: usize = 0;
                while j < n
                    invariant
                        j <= n,
                        n <= buf@.len(),
                        n == 0 || self.pos + n <= content@.len(),
                        content@.len() <= usize::MAX,
                        buf@.len() == old(buf)@.len(),
                        forall|k: int| 0 <= k < j ==> buf@[k] == content@[self.pos + k],
                        forall|k: int| j <= k < buf@.len() ==> buf@[k] == old(buf)@[k],
                    decreases n - j,
                {
                    buf[j] = content[self.pos + j];
                    j += 1;
                }
                proof {
                    let w = read_window(content@, self.pos as int, old(buf)@.len() as int);
                    assert(w.len() == n);
                    assert(buf@ =~= w + old(buf)@.skip(n as int));
                }
                Ok(n)
            },
        }
    }

    /// Write `data` at the cursor: the content is truncated to the cursor
    /// position, then `data` is appended, and the count accepted (always
    /// all of `data`) is returned. The cursor is not moved. Fails with
    /// `NotFound` on an expired handle and `PermissionDenied` on a
    /// directory slot, leaving the registry unchanged.
    pub fn write(&mut self, reg: &mut Registry, data: &Vec<u8>) -> (r: Result<usize, FsError>)
        requires
            old(reg).wf(),
        ensures
            *final(self) == *old(self),
            final(reg).wf(),
            !old(reg)@.live(old(self)@.id) ==> r == Err::<usize, FsError>(FsError::NotFound)
                && final(reg)@ == old(reg)@,
            old(reg)@.live(old(self)@.id) && old(reg)@.slots[old(self)@.id] is Dir ==> r == Err::<
                usize,
                FsError,
            >(FsError::PermissionDenied) && final(reg)@ == old(reg)@,
            old(reg)@.live(old(self)@.id) && old(reg)@.slots[old(self)@.id] is Bytes ==> r == Ok::<
                usize,
                FsError,
            >(data.len()) && final(reg)@ == old(reg)@.write_at(
                old(self)@.id,
                old(self)@.pos,
                data@,
            ),
    {
        if self.id >= reg.slots.len() {
            return Err(FsError::NotFound);
        }
        let r = match &mut reg.slots[self.id] {
            None => Err(FsError::NotFound),
            Some(Slot::Directory) => Err(FsError::PermissionDenied),
            Some(Slot::RegularFile(content)) => {
                content.truncate(self.pos);
                content.extend_from_slice(data.as_slice());
                Ok(data.len())
            },
        };
        proof {
            let id = self@.id;
            let os = old(reg).slots@;
            if os[id] is None {
                assert(reg.slots@ =~= os);
                assert(reg@ =~= old(reg)@);
            } else if os[id]->Some_0@ is Dir {
                assert(reg.slots@ =~= os);
                assert(reg@ =~= old(reg)@);
            } else {
                let content0 = os[id]->Some_0@->Bytes_0;
                assert(reg.slots@[id]->Some_0@->Bytes_0 =~= write_bytes(
                    content0,
                    self@.pos,
                    data@,
                ));
                assert(reg@.slots =~= old(reg)@.slots.insert(
                    id,
                    SlotModel::Bytes(write_bytes(content0, self@.pos, data@)),
                ));
                assert(reg@ =~= old(reg)@.write_at(id, self@.pos, data@));
            }
        }
        r
    }

    /// Flushing is a no-op: all writes land in the in-memory slot at once.
    pub fn flush(&mut self) -> (r: Result<(), FsError>)
        ensures
            *final(self) == *old(self),
            r == Ok::<(), FsError>(()),
    {
        Ok(())
    }
}

} // verus!
