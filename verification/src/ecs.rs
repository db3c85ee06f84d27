//! The archetype-indexed entity/component store.
//!
//! A [`World`] keeps one liveness table per entity category: a sliding window
//! of byte-sized slot states plus an index offset.  Entities are named by
//! plain numeric handles ([`Entity`]); a slot byte of `0` marks a dead
//! entity, any nonzero byte a live one.  Despawning compacts the table at its
//! boundaries only, so the window spans exactly the range from the oldest to
//! the newest live entity.  Typed data rides in parallel columns
//! ([`ArchStorage`]) that lazily resynchronize with the table.

use vstd::prelude::*;

use crate::cell::BaseCell;
use crate::cell::RemoteCell;
use crate::cell::RemoteCellOwner;

verus! {

/// Marker trait for an entity category.  Each implementor names one category
/// of entities, identified by a numeric tag; distinct marker types are meant
/// to use distinct tags.
pub trait ArchMarker: Sized {
    /// The category tag at the specification level.
    spec fn cat_spec() -> u64;

    fn category() -> (c: u64)
        ensures
            c == Self::cat_spec(),
    ;
}

/// The mathematical state of one category's liveness table: an index offset
/// and the window of slot bytes.  Entity id `id` (ids are 1-based) occupies
/// slot `id - 1 - off` when that index is inside the window.
#[verifier::ext_equal]
pub ghost struct ArchView {
    pub off: nat,
    pub slots: Seq<u8>,
}

/// The number of dead (zero) slots at the front of `s`.
pub open spec fn leading_zeros(s: Seq<u8>) -> nat
    decreases s.len(),
{
    if s.len() == 0 || s[0] != 0 {
        0
    } else {
        1 + leading_zeros(s.skip(1))
    }
}

/// The number of dead (zero) slots at the back of `s`.
pub open spec fn trailing_zeros(s: Seq<u8>) -> nat
    decreases s.len(),
{
    if s.len() == 0 || s.last() != 0 {
        0
    } else {
        1 + trailing_zeros(s.drop_last())
    }
}

pub proof fn lemma_leading_zeros(s: Seq<u8>)
    ensures
        leading_zeros(s) <= s.len(),
        forall|j: int| 0 <= j < leading_zeros(s) ==> s[j] == 0,
        leading_zeros(s) < s.len() ==> s[leading_zeros(s) as int] != 0,
    decreases s.len(),
{
    if s.len() == 0 || s[0] != 0 {
    } else {
        lemma_leading_zeros(s.skip(1));
        assert forall|j: int| 0 <= j < leading_zeros(s) implies s[j] == 0 by {
            if j > 0 {
                assert(s.skip(1)[j - 1] == 0);
            }
        }
        if leading_zeros(s) < s.len() {
            assert(s[leading_zeros(s) as int] == s.skip(1)[leading_zeros(s.skip(1)) as int]);
        }
    }
}

pub proof fn lemma_trailing_zeros(s: Seq<u8>)
    ensures
        trailing_zeros(s) <= s.len(),
        forall|j: int| s.len() - trailing_zeros(s) <= j < s.len() ==> s[j] == 0,
        trailing_zeros(s) < s.len() ==> s[s.len() - 1 - trailing_zeros(s)] != 0,
    decreases s.len(),
{
    if s.len() == 0 || s.last() != 0 {
    } else {
        lemma_trailing_zeros(s.drop_last());
        let d = s.drop_last();
        assert forall|j: int| s.len() - trailing_zeros(s) <= j < s.len() implies s[j] == 0 by {
            if j < s.len() - 1 {
                assert(d[j] == 0);
            }
        }
        if trailing_zeros(s) < s.len() {
            assert(s[s.len() - 1 - trailing_zeros(s)] == d[d.len() - 1 - trailing_zeros(d)]);
        }
    }
}

impl ArchView {
    /// The table of a category that has never been used.
    pub open spec fn empty() -> ArchView {
        ArchView { off: 0, slots: Seq::empty() }
    }

    /// Table well-formedness: the window never begins or ends with a dead
    /// slot — dead runs touching a boundary are eagerly trimmed — and every
    /// id the window can name fits in a `u64`.
    pub open spec fn wf(self) -> bool {
        &&& self.slots.len() > 0 ==> self.slots[0] != 0 && self.slots[self.slots.len() - 1] != 0
        &&& self.off + self.slots.len() <= u64::MAX
    }

    /// The id the next spawn in this table will receive.
    pub open spec fn next_id(self) -> int {
        self.off + self.slots.len() + 1int
    }

    /// The slot index belonging to entity id `id`.
    pub open spec fn index_of(self, id: u64) -> int {
        id - 1 - self.off
    }

    /// Whether entity id `id` is live in this table.
    pub open spec fn live(self, id: u64) -> bool {
        &&& id >= 1
        &&& self.off <= id - 1
        &&& id - 1 - self.off < self.slots.len()
        &&& self.slots[self.index_of(id)] != 0
    }

    /// The table after a spawn: one live slot appended at the back.
    pub open spec fn spawned(self) -> ArchView {
        ArchView { off: self.off, slots: self.slots.push(1) }
    }

    /// The table after despawning live id `id`: the slot is zeroed, then any
    /// dead run touching the front is trimmed (advancing the offset) or any
    /// dead run touching the back is truncated.  Interior slots stay in
    /// place as holes.
    pub open spec fn despawned(self, id: u64) -> ArchView
        recommends
            self.live(id),
    {
        let i = self.index_of(id);
        let z = self.slots.update(i, 0u8);
        if i == 0 {
            let k = leading_zeros(z);
            ArchView { off: self.off + k, slots: z.skip(k as int) }
        } else if i == self.slots.len() - 1 {
            let t = trailing_zeros(z);
            ArchView { off: self.off, slots: z.take(z.len() - t) }
        } else {
            ArchView { off: self.off, slots: z }
        }
    }
}

/// In the table of a category never used, no id is live.
pub proof fn lemma_empty_not_live(id: u64)
    ensures
        !ArchView::empty().live(id),
{
}

/// A spawn makes exactly the fresh id live: that id was dead before, is
/// live after, and every other id keeps its liveness.  Together with
/// [`lemma_despawn_alive`] and [`lemma_empty_not_live`], by induction over
/// any sequence of spawns and despawns on one category, an id is live
/// exactly when it has been spawned and not since despawned.
pub proof fn lemma_spawn_alive(a: ArchView, id: u64)
    requires
        a.wf(),
        a.next_id() <= u64::MAX,
    ensures
        id == a.next_id() ==> a.spawned().live(id) && !a.live(id),
        id != a.next_id() ==> a.spawned().live(id) == a.live(id),
{
}

/// A despawn makes exactly the given id dead: every other id keeps its
/// liveness, and every id still live keeps its slot byte — index
/// recomputation stays correct under the offset shift of a front trim.
pub proof fn lemma_despawn_alive(a: ArchView, id: u64, other: u64)
    requires
        a.wf(),
        a.live(id),
    ensures
        !a.despawned(id).live(id),
        other != id ==> a.despawned(id).live(other) == a.live(other),
        a.despawned(id).live(other) ==> {
            &&& other != id
            &&& a.live(other)
            &&& a.despawned(id).slots[a.despawned(id).index_of(other)] == a.slots[a.index_of(
                other,
            )]
        },
{
    let i = a.index_of(id);
    let z = a.slots.update(i, 0u8);
    let d = a.despawned(id);
    if i == 0 {
        lemma_leading_zeros(z);
        let k = leading_zeros(z) as int;
        assert(d.off == a.off + k && d.slots == z.skip(k));
        assert(forall|j: int| 0 <= j < d.slots.len() ==> d.slots[j] == z[j + k]);
        if other != id {
            let oa = a.index_of(other);
            if a.live(other) {
                assert(z[oa] == a.slots[oa]);
                assert(oa >= k);
                assert(d.slots[oa - k] == z[oa]);
                assert(d.live(other));
            } else if d.live(other) {
                let od = d.index_of(other);
                assert(od == oa - k);
                assert(d.slots[od] == z[oa]);
                assert(a.slots[oa] == z[oa]);
                assert(a.live(other));
            }
        }
    } else if i == a.slots.len() - 1 {
        lemma_trailing_zeros(z);
        let t = trailing_zeros(z) as int;
        assert(d.off == a.off && d.slots == z.take(z.len() - t));
        assert(forall|j: int| 0 <= j < d.slots.len() ==> d.slots[j] == z[j]);
        if other != id {
            let oa = a.index_of(other);
            if a.live(other) {
                assert(z[oa] == a.slots[oa]);
                assert(oa < z.len() - t);
                assert(d.slots[oa] == z[oa]);
                assert(d.live(other));
            } else if d.live(other) {
                assert(d.slots[oa] == z[oa]);
                assert(a.slots[oa] == z[oa]);
                assert(a.live(other));
            }
        }
    } else {
    }
}

/// Despawning an entity at either boundary of the window strictly shrinks
/// the slot sequence, by exactly the size of the dead run the despawn
/// uncovers; a front trim advances the offset by the same amount.
pub proof fn lemma_boundary_despawn(a: ArchView, id: u64)
    requires
        a.wf(),
        a.live(id),
        a.index_of(id) == 0 || a.index_of(id) == a.slots.len() - 1,
    ensures
        a.despawned(id).slots.len() < a.slots.len(),
        a.index_of(id) == 0 ==> {
            let run = leading_zeros(a.slots.update(a.index_of(id), 0u8));
            &&& run >= 1
            &&& a.despawned(id).slots.len() == a.slots.len() - run
            &&& a.despawned(id).off == a.off + run
        },
        a.index_of(id) != 0 ==> {
            let run = trailing_zeros(a.slots.update(a.index_of(id), 0u8));
            &&& run >= 1
            &&& a.despawned(id).slots.len() == a.slots.len() - run
            &&& a.despawned(id).off == a.off
        },
{
    let i = a.index_of(id);
    let z = a.slots.update(i, 0u8);
    if i == 0 {
        lemma_leading_zeros(z);
    } else {
        lemma_trailing_zeros(z);
        assert(z.last() == 0);
        assert(trailing_zeros(z) >= 1);
        assert(z[0] == a.slots[0]);
        assert(trailing_zeros(z) < z.len()) by {
            if trailing_zeros(z) == z.len() {
                assert(z[0] == 0);
            }
        }
    }
}

/// Despawning an interior (non-boundary) entity does not shrink the slot
/// sequence and moves no slot: only that entity stops being live.
pub proof fn lemma_interior_despawn(a: ArchView, id: u64)
    requires
        a.wf(),
        a.live(id),
        0 < a.index_of(id) < a.slots.len() - 1,
    ensures
        a.despawned(id).slots.len() == a.slots.len(),
        a.despawned(id).off == a.off,
        !a.despawned(id).live(id),
{
}

/// One category's liveness table.
#[derive(Debug)]
pub(crate) struct Archetype {
    id_index_offset: u64,
    slots: Vec<u8>,
}

impl View for Archetype {
    type V = ArchView;

    closed spec fn view(&self) -> ArchView {
        ArchView { off: self.id_index_offset as nat, slots: self.slots@ }
    }
}

impl Archetype {
    pub(crate) fn new_empty() -> (a: Archetype)
        ensures
            a@ == ArchView::empty(),
    {
        let a = Archetype { id_index_offset: 0, slots: Vec::new() };
        proof {
            assert(a@ =~= ArchView::empty());
        }
        a
    }

    /// Map an entity id to its slot index, or `None` if the id lies outside
    /// the window or names a dead slot.
    pub(crate) fn locate_entity(&self, entity: u64) -> (r: Option<usize>)
        requires
            entity >= 1,
        ensures
            self@.live(entity) ==> r == Some((entity - 1 - self@.off) as usize),
            self@.live(entity) ==> (entity - 1 - self@.off) as usize == self@.index_of(entity),
            !self@.live(entity) ==> r is None,
    {
        if entity - 1 < self.id_index_offset {
            return None;
        }
        let index = (entity - 1) - self.id_index_offset;
        if index >= self.slots.len() as u64 {
            return None;
        }
        let index = index as usize;
        if self.slots[index] == 0 {
            return None;
        }
        Some(index)
    }

    /// Append a fresh live slot; the new slot's id is returned.
    pub(crate) fn spawn_slot(&mut self) -> (id: u64)
        requires
            old(self)@.wf(),
            old(self)@.next_id() <= u64::MAX,
        ensures
            final(self)@ == old(self)@.spawned(),
            final(self)@.wf(),
            id == old(self)@.off + old(self)@.slots.len() + 1,
            final(self)@.live(id),
    {
        self.slots.push(1);
        proof {
            assert(self@ =~= old(self)@.spawned());
        }
        self.id_index_offset + self.slots.len() as u64
    }

    /// Zero the slot of live id `entity`, then trim any dead run touching
    /// the window's front (advancing the offset) or back.
    pub(crate) fn despawn_slot(&mut self, entity: u64)
        requires
            old(self)@.wf(),
            old(self)@.live(entity),
        ensures
            final(self)@ == old(self)@.despawned(entity),
            final(self)@.wf(),
    {
        let ghost pre = self@;
        let index64 = (entity - 1) - self.id_index_offset;
        let slot_count = self.slots.len();
        proof {
            assert(index64 < slot_count);
        }
        let index = index64 as usize;
        self.slots[index] = 0;
        let ghost z = self.slots@;
        assert(z == pre.slots.update(pre.index_of(entity), 0u8));
        if index == 0 {
            // Trim the dead run at the front and advance the offset.
            let mut k: usize = 0;
            while k < self.slots.len() && self.slots[k] == 0
                invariant
                    self.slots@ == z,
                    self.id_index_offset == pre.off,
                    0 <= k <= z.len(),
                    forall|j: int| 0 <= j < k ==> z[j] == 0,
                decreases z.len() - k,
            {
                k = k + 1;
            }
            proof {
                lemma_leading_zeros(z);
                assert(k == leading_zeros(z)) by {
                    if k < leading_zeros(z) {
                        assert(z[k as int] == 0);
                    }
                    if k > leading_zeros(z) {
                        assert(z[leading_zeros(z) as int] == 0);
                    }
                }
            }
            let mut c: usize = 0;
            while c < k
                invariant
                    0 <= c <= k <= z.len(),
                    self.slots@ == z.skip(c as int),
                    self.id_index_offset == pre.off,
                decreases k - c,
            {
                let ghost before = self.slots@;
                self.slots.remove(0);
                proof {
                    assert(self.slots@ =~= z.skip(c + 1)) by {
                        assert(before.remove(0) =~= before.skip(1));
                        assert(before.skip(1) =~= z.skip(c + 1));
                    }
                }
                c = c + 1;
            }
            self.id_index_offset = self.id_index_offset + k as u64;
            proof {
                assert(self@ =~= pre.despawned(entity));
                lemma_leading_zeros(z);
                // Well-formedness of the trimmed window.
                if k < z.len() {
                    assert(self@.slots[0] == z[k as int]);
                    assert(self@.slots[self@.slots.len() - 1] == z[z.len() - 1]);
                }
            }
        } else if index == self.slots.len() - 1 {
            // Truncate the dead run at the back.
            let mut t: usize = 0;
            while t < self.slots.len() && self.slots[self.slots.len() - 1 - t] == 0
                invariant
                    self.slots@ == z,
                    self.id_index_offset == pre.off,
                    0 <= t <= z.len(),
                    forall|j: int| z.len() - t <= j < z.len() ==> z[j] == 0,
                decreases z.len() - t,
            {
                t = t + 1;
            }
            proof {
                lemma_trailing_zeros(z);
                assert(t == trailing_zeros(z)) by {
                    if t < trailing_zeros(z) {
                        assert(z[z.len() - 1 - t] == 0);
                    }
                    if t > trailing_zeros(z) {
                        assert(z[z.len() - 1 - trailing_zeros(z)] == 0);
                    }
                }
            }
            let newlen = self.slots.len() - t;
            self.slots.truncate(newlen);
            proof {
                assert(self@ =~= pre.despawned(entity));
                lemma_trailing_zeros(z);
                if t < z.len() {
                    assert(self@.slots[0] == z[0]);
                    assert(self@.slots[self@.slots.len() - 1] == z[z.len() - 1 - t]);
                }
            }
        } else {
            proof {
                assert(self@ =~= pre.despawned(entity));
            }
        }
    }
}

} // verus!

use std::marker::PhantomData;

verus! {

/// Error returned when an operation targets a dead or unknown entity.
#[derive(Debug, Clone, Copy, PartialEq, Eq, Structural)]
pub struct DeadEntityError;

impl DeadEntityError {
    /// A human-readable description of the failure.
    pub fn message(&self) -> (m: &'static str)
        ensures
            m@ == "specified entity is dead"@,
    {
        "specified entity is dead"
    }
}

/// Error returned when a live entity has no value attached in a column.
#[derive(Debug, Clone, Copy, PartialEq, Eq, Structural)]
pub struct MissingValueError;

impl MissingValueError {
    /// A human-readable description of the failure.
    pub fn message(&self) -> (m: &'static str)
        ensures
            m@ == "specified entity is missing"@,
    {
        "specified entity is missing"
    }
}

/// A typed entity handle: a category tag at the type level plus a nonzero
/// numeric id.  Handles are plain copyable values with no ownership of the
/// entity they name; validity must always be checked through the [`World`].
#[derive(Debug, PartialEq, Eq, Hash)]
pub struct Entity<A: ArchMarker> {
    _ty: PhantomData<A>,
    id: u64,
}

impl<A: ArchMarker> Clone for Entity<A> {
    fn clone(&self) -> (r: Self)
        ensures
            r == *self,
    {
        proof {
            use_type_invariant(self);
        }
        Entity { _ty: PhantomData, id: self.id }
    }
}

impl<A: ArchMarker> Copy for Entity<A> {}

impl<A: ArchMarker> Entity<A> {
    #[verifier::type_invariant]
    spec fn type_inv(self) -> bool {
        self.id >= 1
    }

    /// The numeric id of this handle.
    pub closed spec fn id_spec(&self) -> u64 {
        self.id
    }

    /// The numeric id as an executable value; always nonzero.
    pub fn id(&self) -> (r: u64)
        ensures
            r == self.id_spec(),
            r >= 1,
    {
        proof {
            use_type_invariant(self);
        }
        self.id
    }
}

/// The table `m` assigns to category `cat`: the recorded one, or the empty
/// table for a category never used.
pub open spec fn arch_at(m: Map<u64, ArchView>, cat: u64) -> ArchView {
    if m.contains_key(cat) {
        m[cat]
    } else {
        ArchView::empty()
    }
}

type ArchEntry = (u64, RemoteCell<Archetype>);

/// The category-to-table map described by a sequence of entries; later
/// entries win, though the [`World`] keeps keys unique.
spec fn entries_map(s: Seq<ArchEntry>) -> Map<u64, ArchView>
    decreases s.len(),
{
    if s.len() == 0 {
        Map::empty()
    } else {
        entries_map(s.drop_last()).insert(s.last().0, s.last().1.cell_value()@)
    }
}

/// Whether some entry of `s` carries category `cat`.
spec fn has_key(s: Seq<ArchEntry>, cat: u64) -> bool {
    exists|i: int| 0 <= i < s.len() && (#[trigger] s[i]).0 == cat
}

/// Whether the entries of `s` carry pairwise distinct categories.
spec fn unique_keys(s: Seq<ArchEntry>) -> bool {
    forall|i: int, j: int|
        0 <= i < j < s.len() ==> (#[trigger] s[i]).0 != (#[trigger] s[j]).0
}

proof fn lemma_entries_contains(s: Seq<ArchEntry>, cat: u64)
    ensures
        entries_map(s).contains_key(cat) <==> has_key(s, cat),
    decreases s.len(),
{
    if s.len() == 0 {
    } else {
        lemma_entries_contains(s.drop_last(), cat);
        let d = s.drop_last();
        if s.last().0 == cat {
            assert((s[s.len() - 1]).0 == cat);
        } else {
            if has_key(s, cat) {
                let i = choose|i: int| 0 <= i < s.len() && (#[trigger] s[i]).0 == cat;
                assert((d[i]).0 == cat);
            }
            if has_key(d, cat) {
                let i = choose|i: int| 0 <= i < d.len() && (#[trigger] d[i]).0 == cat;
                assert((s[i]).0 == cat);
            }
        }
    }
}

proof fn lemma_entries_value(s: Seq<ArchEntry>, i: int)
    requires
        unique_keys(s),
        0 <= i < s.len(),
    ensures
        entries_map(s).contains_key(s[i].0),
        entries_map(s)[s[i].0] == s[i].1.cell_value()@,
    decreases s.len(),
{
    if i == s.len() - 1 {
    } else {
        let d = s.drop_last();
        assert(d[i] == s[i]);
        lemma_entries_value(d, i);
    }
}

proof fn lemma_entries_update(s: Seq<ArchEntry>, i: int, p: ArchEntry)
    requires
        unique_keys(s),
        0 <= i < s.len(),
        p.0 == s[i].0,
    ensures
        entries_map(s.update(i, p)) == entries_map(s).insert(p.0, p.1.cell_value()@),
    decreases s.len(),
{
    let s2 = s.update(i, p);
    if i == s.len() - 1 {
        assert(s2.drop_last() =~= s.drop_last());
        assert(s2.last() == p);
        assert(entries_map(s.drop_last()).insert(s.last().0, s.last().1.cell_value()@).insert(
            p.0,
            p.1.cell_value()@,
        ) =~= entries_map(s.drop_last()).insert(p.0, p.1.cell_value()@));
    } else {
        let d = s.drop_last();
        assert(d[i] == s[i]);
        lemma_entries_update(d, i, p);
        assert(s2.drop_last() =~= d.update(i, p));
        assert(s2.last() == s.last());
        // The two inserts commute because the keys differ.
        assert(entries_map(d).insert(p.0, p.1.cell_value()@).insert(
            s.last().0,
            s.last().1.cell_value()@,
        ) =~= entries_map(d).insert(s.last().0, s.last().1.cell_value()@).insert(
            p.0,
            p.1.cell_value()@,
        ));
    }
}

/// The store: owns one capability token and, per category, a guarded cell
/// holding that category's liveness table.
#[derive(Debug)]
pub struct World {
    owner: RemoteCellOwner,
    archetypes: Vec<ArchEntry>,
}

impl Default for World {
    fn default() -> (w: World)
        ensures
            w.wf(),
            w@ == Map::<u64, ArchView>::empty(),
    {
        World::new()
    }
}

impl View for World {
    type V = Map<u64, ArchView>;

    /// The store seen as a map from category tag to table state.
    closed spec fn view(&self) -> Map<u64, ArchView> {
        entries_map(self.archetypes@)
    }
}

impl World {
    /// Internal consistency: every table cell is owned by this store's
    /// token, unborrowed between operations, and well formed; categories are
    /// recorded at most once.
    pub closed spec fn wf(self) -> bool {
        &&& forall|i: int|
            0 <= i < self.archetypes@.len() ==> {
                let p = #[trigger] self.archetypes@[i];
                &&& p.1.owner_id() == self.owner.id_spec()
                &&& p.1.borrow_count() == 0
                &&& p.1.cell_value()@.wf()
            }
        &&& unique_keys(self.archetypes@)
    }

    pub fn new() -> (w: World)
        ensures
            w.wf(),
            w@ == Map::<u64, ArchView>::empty(),
    {
        let mut generator: u64 = 0;
        let owner = RemoteCellOwner::new(&mut generator).unwrap();
        let w = World { owner, archetypes: Vec::new() };
        proof {
            assert(w@ =~= Map::<u64, ArchView>::empty());
        }
        w
    }

    /// The position of category `cat` among the recorded tables, if any.
    fn find_arch(&self, cat: u64) -> (r: Option<usize>)
        requires
            self.wf(),
        ensures
            match r {
                Some(i) => {
                    &&& i < self.archetypes@.len()
                    &&& self.archetypes@[i as int].0 == cat
                    &&& self@.contains_key(cat)
                    &&& self@[cat] == self.archetypes@[i as int].1.cell_value()@
                },
                None => !self@.contains_key(cat),
            },
    {
        let n = self.archetypes.len();
        let mut i: usize = 0;
        while i < n
            invariant
                n == self.archetypes@.len(),
                0 <= i <= n,
                forall|j: int| 0 <= j < i ==> (#[trigger] self.archetypes@[j]).0 != cat,
                self.wf(),
            decreases n - i,
        {
            if self.archetypes[i].0 == cat {
                proof {
                    lemma_entries_contains(self.archetypes@, cat);
                    lemma_entries_value(self.archetypes@, i as int);
                }
                return Some(i);
            }
            i = i + 1;
        }
        proof {
            lemma_entries_contains(self.archetypes@, cat);
        }
        None
    }

    /// Spawn a fresh entity of category `A`, lazily creating the category's
    /// table.  The new id is one past the largest id the table spans.
    pub fn spawn<A: ArchMarker>(&mut self) -> (e: Entity<A>)
        requires
            old(self).wf(),
            arch_at(old(self)@, A::cat_spec()).next_id() <= u64::MAX,
        ensures
            final(self).wf(),
            final(self)@ == old(self)@.insert(
                A::cat_spec(),
                arch_at(old(self)@, A::cat_spec()).spawned(),
            ),
            e.id_spec() == arch_at(old(self)@, A::cat_spec()).next_id(),
    {
        let cat = A::category();
        let ghost s = self.archetypes@;
        match self.find_arch(cat) {
            Some(i) => {
                let (key, mut cell) = self.archetypes.remove(i);
                let guard = cell.borrow_mut(&mut self.owner);
                let arch = cell.get_mut();
                let id = arch.spawn_slot();
                cell.release_mut(guard);
                self.archetypes.insert(i, (key, cell));
                proof {
                    assert(self.archetypes@ =~= s.update(i as int, self.archetypes@[i as int]));
                    lemma_entries_update(s, i as int, self.archetypes@[i as int]);
                    assert(self@ == old(self)@.insert(
                        A::cat_spec(),
                        arch_at(old(self)@, A::cat_spec()).spawned(),
                    ));
                    assert(self.wf()) by {
                        assert(forall|x: int, y: int|
                            0 <= x < y < self.archetypes@.len()
                                ==> (#[trigger] self.archetypes@[x]).0 != (
                            #[trigger] self.archetypes@[y]).0) by {
                            assert(forall|x: int|
                                0 <= x < s.len() ==> (#[trigger] self.archetypes@[x]).0 == s[x].0);
                        }
                    }
                }
                Entity { _ty: PhantomData, id }
            },
            None => {
                let mut arch = Archetype::new_empty();
                let id = arch.spawn_slot();
                let cell = RemoteCell::new(&self.owner, arch);
                self.archetypes.push((cat, cell));
                proof {
                    assert(self.archetypes@.drop_last() =~= s);
                    lemma_entries_contains(s, cat);
                    assert(self.wf()) by {
                        assert(forall|x: int|
                            0 <= x < s.len() ==> #[trigger] self.archetypes@[x] == s[x]);
                    }
                    assert(arch_at(old(self)@, A::cat_spec()).spawned().slots
                        =~= ArchView::empty().spawned().slots);
                }
                Entity { _ty: PhantomData, id }
            },
        }
    }

    /// Despawn `entity` if it is live: its slot is zeroed and any dead run
    /// at the table's boundary is compacted.  Reports a dead or unknown
    /// entity as an error and leaves the store unchanged.
    pub fn try_despawn<A: ArchMarker>(&mut self, entity: Entity<A>) -> (r: Result<
        (),
        DeadEntityError,
    >)
        requires
            old(self).wf(),
        ensures
            final(self).wf(),
            arch_at(old(self)@, A::cat_spec()).live(entity.id_spec()) ==> {
                &&& r is Ok
                &&& final(self)@ == old(self)@.insert(
                    A::cat_spec(),
                    arch_at(old(self)@, A::cat_spec()).despawned(entity.id_spec()),
                )
            },
            !arch_at(old(self)@, A::cat_spec()).live(entity.id_spec()) ==> {
                &&& r == Err::<(), DeadEntityError>(DeadEntityError)
                &&& final(self)@ == old(self)@
            },
    {
        proof {
            use_type_invariant(&entity);
        }
        let cat = A::category();
        let ghost s = self.archetypes@;
        match self.find_arch(cat) {
            Some(i) => {
                let (key, mut cell) = self.archetypes.remove(i);
                let guard = cell.borrow_mut(&mut self.owner);
                let arch = cell.get_mut();
                let located = arch.locate_entity(entity.id);
                let alive = located.is_some();
                if alive {
                    arch.despawn_slot(entity.id);
                }
                cell.release_mut(guard);
                self.archetypes.insert(i, (key, cell));
                proof {
                    assert(self.archetypes@ =~= s.update(i as int, self.archetypes@[i as int]));
                    lemma_entries_update(s, i as int, self.archetypes@[i as int]);
                    if !alive {
                        assert(old(self)@.insert(cat, s[i as int].1.cell_value()@) =~= old(
                            self,
                        )@);
                    }
                    assert(self.wf()) by {
                        assert(forall|x: int|
                            0 <= x < s.len() ==> (#[trigger] self.archetypes@[x]).0 == s[x].0);
                    }
                }
                if alive {
                    Ok(())
                } else {
                    Err(DeadEntityError)
                }
            },
            None => Err(DeadEntityError),
        }
    }

    /// Despawn `entity`, which the caller must know to be live; the checked
    /// variant is [`World::try_despawn`].
    pub fn despawn<A: ArchMarker>(&mut self, entity: Entity<A>)
        requires
            old(self).wf(),
            arch_at(old(self)@, A::cat_spec()).live(entity.id_spec()),
        ensures
            final(self).wf(),
            final(self)@ == old(self)@.insert(
                A::cat_spec(),
                arch_at(old(self)@, A::cat_spec()).despawned(entity.id_spec()),
            ),
    {
        let _ = self.try_despawn(entity);
    }

    /// Whether `entity` was spawned and has not since been despawned.
    pub fn is_alive<A: ArchMarker>(&self, entity: Entity<A>) -> (r: bool)
        requires
            self.wf(),
        ensures
            r == arch_at(self@, A::cat_spec()).live(entity.id_spec()),
    {
        proof {
            use_type_invariant(&entity);
        }
        let cat = A::category();
        match self.find_arch(cat) {
            Some(i) => {
                let cell = &self.archetypes[i].1;
                let arch = cell.get_ref(&self.owner);
                arch.locate_entity(entity.id).is_some()
            },
            None => false,
        }
    }

    /// The index offset of category `A`'s table; grows as dead runs are
    /// trimmed from the front.
    pub fn category_offset<A: ArchMarker>(&self) -> (r: u64)
        requires
            self.wf(),
        ensures
            r == arch_at(self@, A::cat_spec()).off,
    {
        match self.find_arch(A::category()) {
            Some(i) => {
                let cell = &self.archetypes[i].1;
                cell.get_ref(&self.owner).id_index_offset
            },
            None => 0,
        }
    }

    /// The number of slots category `A`'s table currently spans.
    pub fn category_slots<A: ArchMarker>(&self) -> (r: usize)
        requires
            self.wf(),
        ensures
            r == arch_at(self@, A::cat_spec()).slots.len(),
    {
        match self.find_arch(A::category()) {
            Some(i) => {
                let cell = &self.archetypes[i].1;
                cell.get_ref(&self.owner).slots.len()
            },
            None => 0,
        }
    }
}

} // verus!

verus! {

/// `vals` after a resync against table `a`, starting from window base
/// `lowest`: as many leading entries are dropped as the table's offset has
/// advanced, and trailing entries beyond the table's window are cut.
pub open spec fn cleaned<T>(vals: Seq<Option<T>>, lowest: int, a: ArchView) -> Seq<Option<T>>
    recommends
        lowest <= a.off,
{
    let n = a.off - lowest;
    let fronted = if n <= vals.len() {
        vals.skip(n)
    } else {
        Seq::empty()
    };
    if fronted.len() <= a.slots.len() {
        fronted
    } else {
        fronted.take(a.slots.len() as int)
    }
}

/// `vals` extended with empty entries to length at least `n`.
pub open spec fn padded<T>(vals: Seq<Option<T>>, n: int) -> Seq<Option<T>> {
    if vals.len() >= n {
        vals
    } else {
        vals + Seq::new((n - vals.len()) as nat, |i: int| None)
    }
}

/// `vals` with every entry whose table slot is dead nulled out.
pub open spec fn scrubbed<T>(vals: Seq<Option<T>>, slots: Seq<u8>) -> Seq<Option<T>>
    recommends
        vals.len() <= slots.len(),
{
    Seq::new(vals.len(), |i: int| if slots[i] == 0 { None } else { vals[i] })
}

/// A component column for category `A`: a window of optional `T` values,
/// index-aligned (after a resync) with the category's liveness table.
#[derive(Debug)]
pub struct ArchStorage<A: ArchMarker, T> {
    _ty: PhantomData<A>,
    lowest_id: u64,
    values: Vec<Option<T>>,
}

impl<A: ArchMarker, T> ArchStorage<A, T> {
    /// The id offset this column's window starts at.
    pub closed spec fn lowest(&self) -> u64 {
        self.lowest_id
    }

    /// The column's entries.
    pub closed spec fn vals(&self) -> Seq<Option<T>> {
        self.values@
    }

    /// A column never runs ahead of its table: its window base is at most
    /// the table's offset.  Holds whenever the column is used with the store
    /// it was created from.
    pub open spec fn lags(&self, a: ArchView) -> bool {
        self.lowest() <= a.off
    }

    /// The value this column currently holds for id `id`, if any.  The
    /// column alone cannot tell a dead entity from a live one without a
    /// value; both read as `None`.
    pub open spec fn lookup(&self, id: u64) -> Option<T> {
        if id >= 1 && self.lowest() <= id - 1 && id - 1 - self.lowest() < self.vals().len() {
            self.vals()[id - 1 - self.lowest()]
        } else {
            None
        }
    }

    /// Bind a new, empty column to category `A`'s table, creating the table
    /// if the category was never used.
    pub fn new(world: &mut World) -> (s: Self)
        requires
            old(world).wf(),
        ensures
            final(world).wf(),
            final(world)@ == old(world)@.insert(
                A::cat_spec(),
                arch_at(old(world)@, A::cat_spec()),
            ),
            s.lowest() == arch_at(old(world)@, A::cat_spec()).off,
            s.vals() == Seq::<Option<T>>::empty(),
    {
        let cat = A::category();
        match world.find_arch(cat) {
            Some(i) => {
                let cell = &world.archetypes[i].1;
                let off = cell.get_ref(&world.owner).id_index_offset;
                proof {
                    assert(old(world)@.insert(cat, arch_at(old(world)@, cat)) =~= old(world)@);
                }
                ArchStorage { _ty: PhantomData, lowest_id: off, values: Vec::new() }
            },
            None => {
                let ghost s = world.archetypes@;
                let arch = Archetype::new_empty();
                let cell = RemoteCell::new(&world.owner, arch);
                world.archetypes.push((cat, cell));
                proof {
                    assert(world.archetypes@.drop_last() =~= s);
                    lemma_entries_contains(s, cat);
                    assert(world.wf()) by {
                        assert(forall|x: int|
                            0 <= x < s.len() ==> #[trigger] world.archetypes@[x] == s[x]);
                    }
                    assert(ArchView::empty().slots =~= arch_at(old(world)@, A::cat_spec()).slots);
                }
                ArchStorage { _ty: PhantomData, lowest_id: 0, values: Vec::new() }
            },
        }
    }

    /// Resynchronize the column's window with the table: advance the base to
    /// the table's offset, dropping that many leading entries, and cut
    /// trailing entries beyond the table's window.  Must run before any
    /// indexed access whose correctness depends on alignment.
    pub fn cleanup_capacity(&mut self, world: &World)
        requires
            world.wf(),
            old(self).lags(arch_at(world@, A::cat_spec())),
        ensures
            final(self).lowest() == arch_at(world@, A::cat_spec()).off,
            final(self).vals() == cleaned(
                old(self).vals(),
                old(self).lowest() as int,
                arch_at(world@, A::cat_spec()),
            ),
            final(self).vals().len() <= arch_at(world@, A::cat_spec()).slots.len(),
    {
        let ghost a = arch_at(world@, A::cat_spec());
        let ghost vals0 = self.values@;
        let cat = A::category();
        match world.find_arch(cat) {
            None => {
                self.values.clear();
                proof {
                    assert(self.values@ =~= cleaned(vals0, old(self).lowest() as int, a));
                }
            },
            Some(i) => {
                let cell = &world.archetypes[i].1;
                let arch = cell.get_ref(&world.owner);
                let off = arch.id_index_offset;
                let n64 = off - self.lowest_id;
                if n64 >= self.values.len() as u64 {
                    self.values.clear();
                } else {
                    let n = n64 as usize;
                    let mut c: usize = 0;
                    while c < n
                        invariant
                            0 <= c <= n,
                            n < vals0.len(),
                            self.values@ == vals0.skip(c as int),
                        decreases n - c,
                    {
                        let ghost before = self.values@;
                        self.values.remove(0);
                        proof {
                            assert(self.values@ =~= vals0.skip(c + 1)) by {
                                assert(before.remove(0) =~= before.skip(1));
                                assert(before.skip(1) =~= vals0.skip(c + 1));
                            }
                        }
                        c = c + 1;
                    }
                }
                self.lowest_id = off;
                let cap = arch.slots.len();
                self.values.truncate(cap);
                proof {
                    assert(self.values@ =~= cleaned(vals0, old(self).lowest() as int, a));
                }
            },
        }
    }

    /// Resynchronize, then null out every entry whose table slot is dead:
    /// values of entities despawned without an explicit remove are
    /// reclaimed, values of live entities are preserved.
    pub fn full_cleanup(&mut self, world: &World)
        requires
            world.wf(),
            old(self).lags(arch_at(world@, A::cat_spec())),
        ensures
            final(self).lowest() == arch_at(world@, A::cat_spec()).off,
            final(self).vals() == scrubbed(
                cleaned(old(self).vals(), old(self).lowest() as int, arch_at(world@, A::cat_spec())),
                arch_at(world@, A::cat_spec()).slots,
            ),
    {
        self.cleanup_capacity(world);
        let ghost a = arch_at(world@, A::cat_spec());
        let ghost c0 = self.values@;
        let cat = A::category();
        match world.find_arch(cat) {
            None => {
                proof {
                    assert(self.values@ =~= scrubbed(c0, a.slots));
                }
            },
            Some(i) => {
                let cell = &world.archetypes[i].1;
                let arch = cell.get_ref(&world.owner);
                let n = self.values.len();
                let mut j: usize = 0;
                while j < n
                    invariant
                        0 <= j <= n,
                        n == self.values@.len(),
                        n == c0.len(),
                        c0.len() <= a.slots.len(),
                        arch@ == a,
                        forall|m: int| 0 <= m < j ==> self.values@[m] == scrubbed(c0, a.slots)[m],
                        forall|m: int| j <= m < n ==> self.values@[m] == c0[m],
                        self.lowest_id == a.off,
                    decreases n - j,
                {
                    if arch.slots[j] == 0 {
                        self.values[j] = None;
                    }
                    j = j + 1;
                }
                proof {
                    assert(self.values@ =~= scrubbed(c0, a.slots));
                }
            },
        }
    }

    /// Drop every entry of the column without consulting the table.
    pub fn clear(&mut self)
        ensures
            final(self).lowest() == old(self).lowest(),
            final(self).vals() == Seq::<Option<T>>::empty(),
    {
        self.values.clear();
    }

    /// Resynchronize, then store `value` for `target`, growing the window
    /// with empty entries as needed; any value previously held for `target`
    /// is returned.  A dead or unknown entity is reported as an error after
    /// the resync.
    pub fn try_insert(&mut self, world: &World, target: Entity<A>, value: T) -> (r: Result<
        Option<T>,
        DeadEntityError,
    >)
        requires
            world.wf(),
            old(self).lags(arch_at(world@, A::cat_spec())),
        ensures
            ({
                let a = arch_at(world@, A::cat_spec());
                let c = cleaned(old(self).vals(), old(self).lowest() as int, a);
                let i = a.index_of(target.id_spec());
                &&& final(self).lowest() == a.off
                &&& a.live(target.id_spec()) ==> {
                    &&& r is Ok
                    &&& final(self).vals() == padded(c, i + 1).update(i, Some(value))
                    &&& r->Ok_0 == (if i < c.len() {
                        c[i]
                    } else {
                        None::<T>
                    })
                    &&& final(self).lookup(target.id_spec()) == Some(value)
                }
                &&& !a.live(target.id_spec()) ==> {
                    &&& r == Err::<Option<T>, DeadEntityError>(DeadEntityError)
                    &&& final(self).vals() == c
                }
            }),
    {
        proof {
            use_type_invariant(&target);
        }
        self.cleanup_capacity(world);
        let ghost c = self.values@;
        let cat = A::category();
        match world.find_arch(cat) {
            None => Err(DeadEntityError),
            Some(w) => {
                let cell = &world.archetypes[w].1;
                let arch = cell.get_ref(&world.owner);
                match arch.locate_entity(target.id) {
                    None => Err(DeadEntityError),
                    Some(i) => {
                        let ghost low = self.lowest_id;
                        while self.values.len() <= i
                            invariant
                                self.values@ == padded(c, self.values@.len() as int),
                                self.values@.len() >= c.len(),
                                self.values@.len() <= c.len() || self.values@.len() <= i + 1,
                                self.lowest_id == low,
                            decreases i + 1 - self.values@.len(),
                        {
                            let ghost before = self.values@;
                            self.values.push(None);
                            proof {
                                assert(self.values@ =~= padded(c, before.len() + 1int));
                            }
                        }
                        let ghost grown = self.values@;
                        self.values.push(Some(value));
                        let prev = self.values.swap_remove(i);
                        proof {
                            assert(grown == padded(c, i + 1)) by {
                                if c.len() >= i + 1 {
                                    assert(grown =~= padded(c, i + 1));
                                } else {
                                    assert(grown.len() == i + 1);
                                }
                            }
                            assert(self.values@ =~= padded(c, i + 1).update(i as int, Some(value)));
                        }
                        Ok(prev)
                    },
                }
            },
        }
    }

    /// Store `value` for `target`, which the caller must know to be live;
    /// the checked variant is [`ArchStorage::try_insert`].
    pub fn insert(&mut self, world: &World, target: Entity<A>, value: T) -> (r: Option<T>)
        requires
            world.wf(),
            old(self).lags(arch_at(world@, A::cat_spec())),
            arch_at(world@, A::cat_spec()).live(target.id_spec()),
        ensures
            ({
                let a = arch_at(world@, A::cat_spec());
                let c = cleaned(old(self).vals(), old(self).lowest() as int, a);
                let i = a.index_of(target.id_spec());
                &&& final(self).lowest() == a.off
                &&& final(self).vals() == padded(c, i + 1).update(i, Some(value))
                &&& r == (if i < c.len() {
                    c[i]
                } else {
                    None::<T>
                })
                &&& final(self).lookup(target.id_spec()) == Some(value)
            }),
    {
        match self.try_insert(world, target, value) {
            Ok(prev) => prev,
            Err(_) => {
                proof {
                    assert(false);
                }
                None
            },
        }
    }

    /// Resynchronize, then take and return the value held for `target`, if
    /// any.  A dead or unknown entity is reported as an error after the
    /// resync.
    pub fn try_remove(&mut self, world: &World, target: Entity<A>) -> (r: Result<
        Option<T>,
        DeadEntityError,
    >)
        requires
            world.wf(),
            old(self).lags(arch_at(world@, A::cat_spec())),
        ensures
            ({
                let a = arch_at(world@, A::cat_spec());
                let c = cleaned(old(self).vals(), old(self).lowest() as int, a);
                let i = a.index_of(target.id_spec());
                &&& final(self).lowest() == a.off
                &&& a.live(target.id_spec()) ==> {
                    &&& r is Ok
                    &&& (i < c.len() ==> final(self).vals() == c.update(i, None::<T>)
                        && r->Ok_0 == c[i])
                    &&& (i >= c.len() ==> final(self).vals() == c && r->Ok_0 is None)
                    &&& final(self).lookup(target.id_spec()) is None
                }
                &&& !a.live(target.id_spec()) ==> {
                    &&& r == Err::<Option<T>, DeadEntityError>(DeadEntityError)
                    &&& final(self).vals() == c
                }
            }),
    {
        proof {
            use_type_invariant(&target);
        }
        self.cleanup_capacity(world);
        let ghost c = self.values@;
        let cat = A::category();
        match world.find_arch(cat) {
            None => Err(DeadEntityError),
            Some(w) => {
                let cell = &world.archetypes[w].1;
                let arch = cell.get_ref(&world.owner);
                match arch.locate_entity(target.id) {
                    None => Err(DeadEntityError),
                    Some(i) => {
                        if i >= self.values.len() {
                            Ok(None)
                        } else {
                            self.values.push(None);
                            let prev = self.values.swap_remove(i);
                            proof {
                                assert(self.values@ =~= c.update(i as int, None::<T>));
                            }
                            Ok(prev)
                        }
                    },
                }
            },
        }
    }

    /// Take and return the value held for `target`, which the caller must
    /// know to be live; the checked variant is [`ArchStorage::try_remove`].
    pub fn remove(&mut self, world: &World, target: Entity<A>) -> (r: Option<T>)
        requires
            world.wf(),
            old(self).lags(arch_at(world@, A::cat_spec())),
            arch_at(world@, A::cat_spec()).live(target.id_spec()),
        ensures
            ({
                let a = arch_at(world@, A::cat_spec());
                let c = cleaned(old(self).vals(), old(self).lowest() as int, a);
                let i = a.index_of(target.id_spec());
                &&& final(self).lowest() == a.off
                &&& (i < c.len() ==> final(self).vals() == c.update(i, None::<T>) && r == c[i])
                &&& (i >= c.len() ==> final(self).vals() == c && r is None)
                &&& final(self).lookup(target.id_spec()) is None
            }),
    {
        match self.try_remove(world, target) {
            Ok(prev) => prev,
            Err(_) => {
                proof {
                    assert(false);
                }
                None
            },
        }
    }

    /// Read the value this column holds for `target`.  A missing value is
    /// an error distinct from entity death: a live entity may simply have
    /// nothing attached in this column, and a stale value may linger for a
    /// dead one until a cleanup runs.
    pub fn try_get(&self, target: Entity<A>) -> (r: Result<&T, MissingValueError>)
        ensures
            match r {
                Ok(v) => self.lookup(target.id_spec()) == Some(*v),
                Err(e) => {
                    &&& self.lookup(target.id_spec()) is None
                    &&& e == MissingValueError
                },
            },
    {
        proof {
            use_type_invariant(&target);
        }
        let id = target.id;
        if id - 1 < self.lowest_id {
            return Err(MissingValueError);
        }
        let off64 = (id - 1) - self.lowest_id;
        if off64 >= self.values.len() as u64 {
            return Err(MissingValueError);
        }
        let i = off64 as usize;
        match &self.values[i] {
            Some(v) => Ok(v),
            None => Err(MissingValueError),
        }
    }

    /// Read the value this column holds for `target` through an exclusive
    /// reference, so the caller may update it in place.
    pub fn try_get_mut(&mut self, target: Entity<A>) -> (r: Result<&mut T, MissingValueError>)
        ensures
            ({
                let id = target.id_spec();
                match r {
                    Ok(v) => {
                        &&& old(self).lookup(id) == Some(*v)
                        &&& final(self).lowest() == old(self).lowest()
                        &&& final(self).vals() == old(self).vals().update(
                            id - 1 - old(self).lowest(),
                            Some(*final(v)),
                        )
                    },
                    Err(e) => {
                        &&& old(self).lookup(id) is None
                        &&& final(self).lowest() == old(self).lowest()
                        &&& final(self).vals() == old(self).vals()
                        &&& e == MissingValueError
                    },
                }
            }),
    {
        proof {
            use_type_invariant(&target);
        }
        let id = target.id;
        if id - 1 < self.lowest_id {
            return Err(MissingValueError);
        }
        let off64 = (id - 1) - self.lowest_id;
        if off64 >= self.values.len() as u64 {
            return Err(MissingValueError);
        }
        let i = off64 as usize;
        if self.values[i].is_none() {
            return Err(MissingValueError);
        }
        match &mut self.values[i] {
            Some(v) => Ok(v),
            None => {
                proof {
                    assert(false);
                }
                Err(MissingValueError)
            },
        }
    }
}

} // verus!

