//! Entities that are held in memory.

use vstd::prelude::*;

use super::spatial_index::Placed;
use crate::ecs::pending::{
    epoch_of, lemma_occurrences_distinct, occurrences, Epoch, Index, PointerData, StorageId,
};
use crate::ecs::pointer::Pointer;
use crate::ecs::storage::{lemma_all_released, Storage};
use crate::float::Float32;

verus! {

/// What is held of an entity in memory.
#[derive(Clone, Copy, Debug)]
pub struct EntityMeta {
    pub position: Option<(Float32, Float32)>,
    pub last_access: u64,
}

impl EntityMeta {
    /// Bytes that one entity counts for.
    pub const BYTES: usize = 24;
}

/// An entity that was loaded without a position and not accessed yet.
pub open spec fn blank_meta() -> EntityMeta {
    EntityMeta { position: None, last_access: 0 }
}

/// The entities by number, each loaded or not.
pub struct Roster {
    pub entities: Storage<EntityMeta>,
    pub entity_ptrs: Vec<Option<Pointer<EntityMeta>>>,
}

/// Number and last access of every loaded entity, by number.
pub open spec fn candidates_of(metas: Seq<Option<EntityMeta>>) -> Seq<(u32, u64)>
    decreases metas.len(),
{
    if metas.len() == 0 {
        Seq::empty()
    } else {
        let head = candidates_of(metas.drop_last());
        match metas.last() {
            Some(meta) => head.push(((metas.len() - 1) as u32, meta.last_access)),
            None => head,
        }
    }
}

/// Whether the picks are different loaded entities.
pub open spec fn pickable(metas: Seq<Option<EntityMeta>>, picks: Seq<(u32, u64)>) -> bool {
    &&& forall|k: int|
        0 <= k < picks.len() ==> (#[trigger] picks[k]).0 < metas.len() && metas[picks[k].0 as int]
            is Some
    &&& forall|a: int, b: int|
        0 <= a < b < picks.len() ==> (#[trigger] picks[a]).0 != (#[trigger] picks[b]).0
}

/// Whether an entity is among the picks.
pub open spec fn picked(picks: Seq<(u32, u64)>, i: int) -> bool {
    exists|k: int| 0 <= k < picks.len() && (#[trigger] picks[k]).0 == i
}

/// The entities after the picked ones were unloaded.
pub open spec fn without(
    metas: Seq<Option<EntityMeta>>,
    picks: Seq<(u32, u64)>,
) -> Seq<Option<EntityMeta>> {
    Seq::new(
        metas.len(),
        |i: int|
            if picked(picks, i) {
                None
            } else {
                metas[i]
            },
    )
}

/// Number of the entities that are not loaded.
pub open spec fn unloaded(metas: Seq<Option<EntityMeta>>) -> nat
    decreases metas.len(),
{
    if metas.len() == 0 {
        0
    } else {
        unloaded(metas.drop_last()) + if metas.last() is None {
            1nat
        } else {
            0nat
        }
    }
}

/// A change of one entity counts for one.
pub proof fn lemma_unloaded_update(metas: Seq<Option<EntityMeta>>, i: int)
    requires
        0 <= i < metas.len(),
    ensures
        forall|v: Option<EntityMeta>| #[trigger]
            unloaded(metas.update(i, v)) + if metas[i] is None {
                1nat
            } else {
                0nat
            } == unloaded(metas) + if v is None {
                1nat
            } else {
                0nat
            },
    decreases metas.len(),
{
    let head = metas.drop_last();
    if i < head.len() {
        lemma_unloaded_update(head, i);
    }
    assert forall|v: Option<EntityMeta>| #[trigger]
        unloaded(metas.update(i, v)) + if metas[i] is None {
            1nat
        } else {
            0nat
        } == unloaded(metas) + if v is None {
            1nat
        } else {
            0nat
        } by {
        if i < head.len() {
            assert(metas.update(i, v).drop_last() =~= head.update(i, v));
            assert(unloaded(head.update(i, v)) >= 0);
        } else {
            assert(metas.update(i, v).drop_last() =~= head);
        }
    }
}

/// Unloading entities adds as many to those that are not loaded.
pub proof fn lemma_unloaded_without(metas: Seq<Option<EntityMeta>>, picks: Seq<(u32, u64)>)
    requires
        pickable(metas, picks),
    ensures
        unloaded(without(metas, picks)) == unloaded(metas) + picks.len(),
    decreases picks.len(),
{
    if picks.len() == 0 {
        assert(without(metas, picks) =~= metas);
    } else {
        let rest = picks.drop_last();
        let i = picks.last().0 as int;
        let k = picks.len() - 1;
        assert(picks[k] == picks.last());
        assert(pickable(metas, rest)) by {
            assert forall|a: int| 0 <= a < rest.len() implies (#[trigger] rest[a]).0 < metas.len()
                && metas[rest[a].0 as int] is Some by {
                assert(rest[a] == picks[a]);
            }
            assert forall|a: int, b: int| 0 <= a < b < rest.len() implies (#[trigger] rest[a]).0
                != (#[trigger] rest[b]).0 by {
                assert(rest[a] == picks[a] && rest[b] == picks[b]);
            }
        }
        lemma_unloaded_without(metas, rest);
        let before = without(metas, rest);
        assert(!picked(rest, i)) by {
            if picked(rest, i) {
                let a = choose|a: int| 0 <= a < rest.len() && (#[trigger] rest[a]).0 == i;
                assert(picks[a].0 != picks[k].0);
            }
        }
        lemma_unloaded_update(before, i);
        assert forall|j: int| 0 <= j < metas.len() implies picked(picks, j) == (picked(rest, j) || j
            == i) by {
            if picked(rest, j) {
                let a = choose|a: int| 0 <= a < rest.len() && (#[trigger] rest[a]).0 == j;
                assert(picks[a].0 == j);
            }
            if picked(picks, j) && j != i {
                let a = choose|a: int| 0 <= a < picks.len() && (#[trigger] picks[a]).0 == j;
                assert(rest[a].0 == j);
            }
        }
        assert(without(metas, picks) =~= before.update(i, None));
        assert(unloaded(before.update(i, None)) >= 0);
    }
}

/// No more entities are unloaded than there are.
pub proof fn lemma_unloaded_bound(metas: Seq<Option<EntityMeta>>)
    ensures
        unloaded(metas) <= metas.len(),
    decreases metas.len(),
{
    if metas.len() > 0 {
        lemma_unloaded_bound(metas.drop_last());
    }
}

/// Of freshly loaded entities, placed or not, none is unloaded.
pub proof fn lemma_unloaded_fresh(count: nat, positions: Seq<Placed>)
    ensures
        unloaded(positioned(blanks(count), positions)) == 0,
        positioned(blanks(count), positions).len() == count,
    decreases positions.len() + count,
{
    if positions.len() > 0 {
        let before = positioned(blanks(count), positions.drop_last());
        let p = positions.last();
        lemma_unloaded_fresh(count, positions.drop_last());
        if p.0 < before.len() {
            lemma_unloaded_update(before, p.0 as int);
            let v = Some(EntityMeta { position: Some((p.1, p.2)), last_access: 0 });
            assert(unloaded(before.update(p.0 as int, v)) >= 0);
        }
    } else if count > 0 {
        let less = (count - 1) as nat;
        lemma_unloaded_fresh(less, positions);
        assert(blanks(count).drop_last() =~= blanks(less));
    }
}

/// The same slot at its next epoch.
pub open spec fn bumped(data: PointerData) -> PointerData {
    PointerData {
        index: data.index,
        epoch: (data.epoch + 1) as Epoch,
        storage_id: data.storage_id,
    }
}

impl Roster {
    /// The entities by number, with what is held of the loaded ones.
    pub open spec fn metas(self) -> Seq<Option<EntityMeta>> {
        Seq::new(
            self.entity_ptrs@.len(),
            |i: int|
                match self.entity_ptrs@[i] {
                    Some(p) => Some(self.entities.inner.data@[p.data.index as int]),
                    None => None,
                },
        )
    }

    /// Whether a pointer is the only reference to a slot of the storage.
    pub open spec fn owns(self, p: Pointer<EntityMeta>) -> bool {
        &&& p.data.storage_id == self.entities.id
        &&& p.data.index < self.entities.inner.meta@.len()
        &&& self.entities.inner.meta@[p.data.index as int] == 1
        &&& p.data.epoch == epoch_of(self.entities.pending.epoch@, p.data.index as int)
    }

    /// Whether no reference change is queued, and every pointer owns a slot of
    /// its own.
    pub open spec fn wf(self) -> bool {
        &&& self.entities.wf()
        &&& self.entities.pending.add_ref@.len() == 0
        &&& self.entities.pending.sub_ref@.len() == 0
        &&& self.entity_ptrs@.len() <= u32::MAX
        &&& forall|i: int|
            0 <= i < self.entity_ptrs@.len() && (#[trigger] self.entity_ptrs@[i]) is Some
                ==> self.owns(self.entity_ptrs@[i]->0)
        &&& forall|i: int, j: int|
            0 <= i < j < self.entity_ptrs@.len() && (#[trigger] self.entity_ptrs@[i]) is Some && (
            #[trigger] self.entity_ptrs@[j]) is Some ==> self.entity_ptrs@[i]->0.data.index
                != self.entity_ptrs@[j]->0.data.index
    }

    /// Whether an entity can be unloaded: its slot has an epoch left.
    pub open spec fn can_unload(self, i: int) -> bool {
        0 <= i < self.entity_ptrs@.len() && self.entity_ptrs@[i] is Some
            ==> self.entity_ptrs@[i]->0.data.epoch < Epoch::MAX
    }

    /// Whether every entity can be unloaded.
    pub open spec fn epochs_left(self) -> bool {
        forall|i: int| #[trigger] self.can_unload(i)
    }

    /// Whether no slot was vacated more than `times` times.
    pub open spec fn worn(self, times: int) -> bool {
        &&& forall|i: int|
            0 <= i < self.entity_ptrs@.len() && (#[trigger] self.entity_ptrs@[i]) is Some
                ==> self.entity_ptrs@[i]->0.data.epoch <= times
        &&& forall|k: int|
            0 <= k < self.entities.inner.free_list@.len() ==> (
            #[trigger] self.entities.inner.free_list@[k]).epoch <= times
    }

    /// Whether no entity was ever unloaded.
    pub open spec fn unused(self) -> bool {
        self.entities.inner.free_list@.len() == 0 && self.worn(0)
    }

    /// Whether the entities are in the same slots at the same epochs, and the
    /// same slots wait for reuse.
    pub open spec fn same_slots(self, other: Self) -> bool {
        &&& self.entity_ptrs == other.entity_ptrs
        &&& self.entities.inner.free_list == other.entities.inner.free_list
    }

    /// The pointers without those of the picked entities.
    pub open spec fn ptrs_without(self, picks: Seq<(u32, u64)>) -> Seq<
        Option<Pointer<EntityMeta>>,
    > {
        Seq::new(
            self.entity_ptrs@.len(),
            |j: int|
                if picked(picks, j) {
                    None
                } else {
                    self.entity_ptrs@[j]
                },
        )
    }

    /// What unloading does to the slots: those of the picked entities wait for
    /// reuse, each at its next epoch, and no other entity moves.
    pub open spec fn unloads(self, picks: Seq<(u32, u64)>, after: Self) -> bool {
        &&& after.entity_ptrs@ == self.ptrs_without(picks)
        &&& after.entities.inner.free_list@ == self.entities.inner.free_list@ + Seq::new(
            picks.len(),
            |k: int| bumped(self.entity_ptrs@[picks[k].0 as int]->0.data),
        )
    }

    /// What loading entity `i` anew does to the slots: a loaded entity stays in
    /// its slot at the next epoch, an unloaded one gets the slot vacated last
    /// or a new one, and no other entity moves.
    pub open spec fn reloads(self, i: int, after: Self) -> bool {
        let free = self.entities.inner.free_list@;
        &&& after.entity_ptrs@.len() == self.entity_ptrs@.len()
        &&& forall|j: int|
            0 <= j < self.entity_ptrs@.len() && j != i ==> #[trigger] after.entity_ptrs@[j]
                == self.entity_ptrs@[j]
        &&& after.entity_ptrs@[i] is Some
        &&& match self.entity_ptrs@[i] {
            Some(p) => {
                &&& after.entity_ptrs@[i]->0.data == bumped(p.data)
                &&& after.entities.inner.free_list@ == free
            },
            None => {
                &&& after.entity_ptrs@[i]->0.data == self.entities.next_slot()
                &&& after.entities.inner.free_list@ == if free.len() > 0 {
                    free.drop_last()
                } else {
                    free
                }
            },
        }
    }

    /// No entities.
    pub fn with_capacity(capacity: usize, id: StorageId) -> (r: Self)
        ensures
            r.wf(),
            r.unused(),
            r.metas() == Seq::<Option<EntityMeta>>::empty(),
    {
        let r = Roster {
            entities: Storage::with_capacity(capacity, id),
            entity_ptrs: Vec::with_capacity(capacity),
        };
        assert(r.metas() =~= Seq::<Option<EntityMeta>>::empty());
        r
    }

    /// Tests whether an entity can be unloaded.
    pub fn may_unload(&self, i: usize) -> (r: bool)
        ensures
            r == self.can_unload(i as int),
    {
        if i < self.entity_ptrs.len() {
            match &self.entity_ptrs[i] {
                Some(ptr) => ptr.data.epoch < 65535,
                None => true,
            }
        } else {
            true
        }
    }

    /// Tests whether every entity can be unloaded.
    pub fn has_epochs_left(&self) -> (r: bool)
        ensures
            r == self.epochs_left(),
    {
        let mut i: usize = 0;
        while i < self.entity_ptrs.len()
            invariant
                i <= self.entity_ptrs@.len(),
                forall|j: int| 0 <= j < i ==> #[trigger] self.can_unload(j),
            decreases self.entity_ptrs@.len() - i,
        {
            if !self.may_unload(i) {
                return false;
            }
            i = i + 1;
        }
        true
    }

    /// Adds an entity, loaded, under the next number.
    pub fn push(&mut self, meta: EntityMeta)
        requires
            old(self).wf(),
            old(self).entity_ptrs@.len() < u32::MAX,
        ensures
            final(self).wf(),
            final(self).metas() == old(self).metas().push(Some(meta)),
            old(self).unused() ==> final(self).unused(),
    {
        let ghost before = *self;
        let slots: usize = self.entities.inner.meta.len();
        proof {
            assert(slots == before.entities.inner.meta@.len());
            before.lemma_fresh_slot();
        }
        let ptr: Pointer<EntityMeta> = self.entities.create(meta);
        self.entity_ptrs.push(Some(ptr));
        proof {
            let slot = before.entities.next_slot().index;
            assert forall|i: int|
                0 <= i < before.entity_ptrs@.len() && (
                #[trigger] before.entity_ptrs@[i]) is Some implies {
                &&& before.entity_ptrs@[i]->0.data.index != slot
                &&& self.owns(before.entity_ptrs@[i]->0)
                &&& self.entities.inner.data@[before.entity_ptrs@[i]->0.data.index as int]
                    == before.entities.inner.data@[before.entity_ptrs@[i]->0.data.index as int]
            } by {
                assert(before.owns(before.entity_ptrs@[i]->0));
            }
            assert(self.metas() =~= before.metas().push(Some(meta)));
            if before.unused() {
                assert forall|i: int|
                    0 <= i < self.entity_ptrs@.len() && (
                    #[trigger] self.entity_ptrs@[i]) is Some implies self.entity_ptrs@[i]->0.data.epoch
                    <= 0 by {
                    if i < before.entity_ptrs@.len() {
                        assert(before.entity_ptrs@[i] == self.entity_ptrs@[i]);
                    } else {
                        assert(before.entities.next_slot().epoch == 0);
                    }
                }
            }
        }
    }

    /// The slot that the next entity gets belongs to no pointer.
    proof fn lemma_fresh_slot(self)
        requires
            self.wf(),
            self.entities.inner.meta@.len() <= usize::MAX,
        ensures
            ({
                let slot = self.entities.next_slot();
                &&& slot.storage_id == self.entities.id
                &&& slot.epoch == epoch_of(self.entities.pending.epoch@, slot.index as int)
                &&& forall|i: int|
                    0 <= i < self.entity_ptrs@.len() && (#[trigger] self.entity_ptrs@[i]) is Some
                        ==> self.entity_ptrs@[i]->0.data.index != slot.index
            }),
    {
        let free = self.entities.inner.free_list@;
        if free.len() > 0 {
            assert(self.entities.free_entry_wf(free[free.len() - 1]));
        }
        assert forall|i: int|
            0 <= i < self.entity_ptrs@.len() && (
            #[trigger] self.entity_ptrs@[i]) is Some implies self.entity_ptrs@[i]->0.data.index
            != self.entities.next_slot().index by {
            assert(self.owns(self.entity_ptrs@[i]->0));
        }
    }

    /// What is held of an entity, if it is loaded.
    pub fn get(&self, i: usize) -> (r: Option<&EntityMeta>)
        requires
            self.wf(),
        ensures
            match r {
                Some(meta) => i < self.metas().len() && self.metas()[i as int] == Some(*meta),
                None => i >= self.metas().len() || self.metas()[i as int] is None,
            },
    {
        if i < self.entity_ptrs.len() {
            match &self.entity_ptrs[i] {
                Some(ptr) => {
                    assert(self.owns(self.entity_ptrs@[i as int]->0));
                    Some(self.entities.index(ptr))
                },
                None => None,
            }
        } else {
            None
        }
    }

    /// What is held of an entity, for change, if it is loaded.
    pub fn get_mut(&mut self, i: usize) -> (r: Option<&mut EntityMeta>)
        requires
            old(self).wf(),
        ensures
            final(self).wf(),
            final(self).entity_ptrs == old(self).entity_ptrs,
            final(self).entities.inner.free_list == old(self).entities.inner.free_list,
            match r {
                Some(meta) => {
                    &&& i < old(self).metas().len()
                    &&& old(self).metas()[i as int] == Some(*meta)
                    &&& final(self).metas() == old(self).metas().update(
                        i as int,
                        Some(*final(meta)),
                    )
                },
                None => {
                    &&& i >= old(self).metas().len() || old(self).metas()[i as int] is None
                    &&& final(self).metas() == old(self).metas()
                },
            },
    {
        let ghost before = *self;
        if i < self.entity_ptrs.len() {
            if let Some(ptr) = &self.entity_ptrs[i] {
                proof {
                    assert(before.owns(before.entity_ptrs@[i as int]->0));
                }
                let meta: &mut EntityMeta = self.entities.index_mut(ptr);
                return Some(meta);
            }
        }
        None
    }

    /// Overwrites what is held of an entity, if it is loaded.
    pub fn set(&mut self, i: usize, meta: EntityMeta)
        requires
            old(self).wf(),
        ensures
            final(self).wf(),
            final(self).entity_ptrs == old(self).entity_ptrs,
            final(self).entities.inner.free_list == old(self).entities.inner.free_list,
            final(self).metas() == if i < old(self).metas().len() && old(self).metas()[i as int]
                is Some {
                old(self).metas().update(i as int, Some(meta))
            } else {
                old(self).metas()
            },
    {
        let ghost before = *self;
        if i < self.entity_ptrs.len() {
            if let Some(ptr) = &self.entity_ptrs[i] {
                proof {
                    assert(before.owns(before.entity_ptrs@[i as int]->0));
                }
                *self.entities.index_mut(ptr) = meta;
                proof {
                    assert(self.entities.wf()) by {
                        assert forall|k: int|
                            0 <= k < self.entities.inner.free_list@.len() implies
                            self.entities.free_entry_wf(
                            #[trigger] self.entities.inner.free_list@[k],
                        ) by {
                            assert(before.entities.free_entry_wf(
                                before.entities.inner.free_list@[k],
                            ));
                        }
                    }
                    assert forall|j: int|
                        0 <= j < self.entity_ptrs@.len() && (
                        #[trigger] self.entity_ptrs@[j]) is Some implies self.owns(
                        self.entity_ptrs@[j]->0,
                    ) by {
                        assert(before.owns(before.entity_ptrs@[j]->0));
                    }
                    assert(self.metas() =~= before.metas().update(i as int, Some(meta))) by {
                        assert forall|j: int|
                            0 <= j < self.entity_ptrs@.len() implies self.metas()[j]
                            == before.metas().update(i as int, Some(meta))[j] by {
                            if j != i && self.entity_ptrs@[j] is Some {
                                assert(before.owns(before.entity_ptrs@[j]->0));
                            }
                        }
                    }
                }
            }
        }
    }

    /// Whether the pointers of the picked entities, and no others, were given
    /// back since `before`.
    spec fn gave_back(self, before: Roster, picks: Seq<(u32, u64)>) -> bool {
        &&& self.entities.inner == before.entities.inner
        &&& self.entities.id == before.entities.id
        &&& self.entities.pending.add_ref@ == before.entities.pending.add_ref@
        &&& self.entities.pending.epoch@ == before.entities.pending.epoch@
        &&& self.entities.pending.sub_ref@ == before.slots_of(picks)
        &&& self.entity_ptrs@ == before.ptrs_without(picks)
    }

    /// Slots of the picked entities.
    spec fn slots_of(self, picks: Seq<(u32, u64)>) -> Seq<Index> {
        Seq::new(picks.len(), |k: int| self.entity_ptrs@[picks[k].0 as int]->0.data.index)
    }

    /// The slots of picked entities are different ones, each referenced once.
    proof fn lemma_slots(self, picks: Seq<(u32, u64)>)
        requires
            self.wf(),
            pickable(self.metas(), picks),
        ensures
            self.slots_of(picks).no_duplicates(),
            forall|k: int|
                0 <= k < picks.len() ==> (#[trigger] self.slots_of(picks)[k])
                    < self.entities.inner.meta@.len() && self.entities.inner.meta@[self.slots_of(
                    picks,
                )[k] as int] == 1,
    {
        let slots = self.slots_of(picks);
        assert forall|k: int| 0 <= k < picks.len() implies (#[trigger] slots[k])
            < self.entities.inner.meta@.len() && self.entities.inner.meta@[slots[k] as int] == 1 by {
            let i = picks[k].0 as int;
            assert(self.metas()[i] is Some);
            assert(self.owns(self.entity_ptrs@[i]->0));
        }
        assert forall|a: int, b: int| 0 <= a < b < slots.len() implies slots[a] != slots[b] by {
            let i = picks[a].0 as int;
            let j = picks[b].0 as int;
            assert(self.metas()[i] is Some && self.metas()[j] is Some);
            assert(i != j);
            assert(self.entity_ptrs@[i] is Some && self.entity_ptrs@[j] is Some);
        }
    }

    /// After pointers were given back, the storage can be synchronised.
    proof fn lemma_can_sync(self, before: Roster, picks: Seq<(u32, u64)>)
        requires
            before.wf(),
            forall|k: int| 0 <= k < picks.len() ==> before.can_unload((#[trigger] picks[k]).0 as int),
            pickable(before.metas(), picks),
            self.gave_back(before, picks),
        ensures
            self.entities.wf(),
            self.entities.can_sync(),
    {
        let subs = self.entities.pending.sub_ref@;
        before.lemma_slots(picks);
        assert forall|i: Index| #[trigger] occurrences(self.entities.pending.add_ref@, i) == 0 by {
            assert(self.entities.pending.add_ref@ =~= Seq::<Index>::empty());
        }
        assert forall|k: int| 0 <= k < self.entities.inner.free_list@.len() implies
            self.entities.free_entry_wf(#[trigger] self.entities.inner.free_list@[k]) by {
            let e = before.entities.inner.free_list@[k];
            assert(before.entities.free_entry_wf(e));
            lemma_occurrences_distinct(subs, e.index);
            if subs.contains(e.index) {
                let j = choose|j: int| 0 <= j < subs.len() && subs[j] == e.index;
                assert(before.slots_of(picks)[j] == e.index);
            }
        }
        assert forall|i: Index| i < self.entities.inner.meta@.len() implies {
            &&& #[trigger] self.entities.inner.meta@[i as int] + occurrences(
                self.entities.pending.add_ref@,
                i,
            ) <= u16::MAX
            &&& self.entities.balance(i) >= 0
            &&& occurrences(subs, i) > 0 && self.entities.balance(i) == 0 ==> epoch_of(
                self.entities.pending.epoch@,
                i as int,
            ) < Epoch::MAX
        } by {
            lemma_occurrences_distinct(subs, i);
            assert(occurrences(self.entities.pending.add_ref@, i) == 0);
            if subs.contains(i) {
                let j = choose|j: int| 0 <= j < subs.len() && subs[j] == i;
                assert(before.slots_of(picks)[j] == i);
                let e = picks[j].0 as int;
                assert(before.can_unload(picks[j].0 as int));
                assert(before.metas()[e] is Some);
                assert(before.owns(before.entity_ptrs@[e]->0));
            }
        }
    }

    /// After the synchronisation, the picked entities are unloaded and the
    /// others are as they were.
    proof fn lemma_synced(self, given: Roster, before: Roster, picks: Seq<(u32, u64)>)
        requires
            before.wf(),
            pickable(before.metas(), picks),
            given.gave_back(before, picks),
            self.entities.wf(),
            self.entity_ptrs == given.entity_ptrs,
            self.entities.id == given.entities.id,
            self.entities.inner.data == given.entities.inner.data,
            self.entities.inner.meta@.len() == given.entities.inner.meta@.len(),
            self.entities.pending.add_ref@.len() == 0,
            self.entities.pending.sub_ref@.len() == 0,
            self.entities.pending.epoch@.len() == given.entities.inner.meta@.len(),
            forall|i: Index|
                i < given.entities.inner.meta@.len() ==> #[trigger] self.entities.inner.meta@[i as int]
                    == given.entities.balance(i),
            forall|i: Index|
                i < given.entities.inner.meta@.len()
                    ==> #[trigger] self.entities.pending.epoch@[i as int]
                    == given.entities.synced_epoch(i),
        ensures
            self.wf(),
            self.metas() == without(before.metas(), picks),
    {
        let subs = given.entities.pending.sub_ref@;
        before.lemma_slots(picks);
        assert forall|j: int|
            0 <= j < self.entity_ptrs@.len() && (
            #[trigger] self.entity_ptrs@[j]) is Some implies self.owns(
            self.entity_ptrs@[j]->0,
        ) && self.entity_ptrs@[j] == before.entity_ptrs@[j] by {
            assert(!picked(picks, j));
            assert(self.entity_ptrs@[j] == before.entity_ptrs@[j]);
            assert(before.owns(before.entity_ptrs@[j]->0));
            let i = before.entity_ptrs@[j]->0.data.index;
            lemma_occurrences_distinct(subs, i);
            if subs.contains(i) {
                let k = choose|k: int| 0 <= k < subs.len() && subs[k] == i;
                let other = picks[k].0 as int;
                assert(before.metas()[other] is Some);
                assert(before.slots_of(picks)[k] == i);
                assert(other != j) by {
                    if other == j {
                        assert(picked(picks, j));
                    }
                }
                assert(before.entity_ptrs@[other] is Some);
                assert(before.entity_ptrs@[j] is Some);
            }
            assert(occurrences(given.entities.pending.add_ref@, i) == 0) by {
                assert(given.entities.pending.add_ref@ =~= Seq::<Index>::empty());
            }
            assert(self.entities.inner.meta@[i as int] == given.entities.balance(i));
            assert(self.entities.pending.epoch@[i as int] == given.entities.synced_epoch(i));
        }
        assert(self.metas() =~= without(before.metas(), picks));
    }

    /// The slots of the picked entities are released, each once and in order.
    proof fn lemma_unloads(self, given: Roster, before: Roster, picks: Seq<(u32, u64)>)
        requires
            before.wf(),
            forall|k: int| 0 <= k < picks.len() ==> before.can_unload((#[trigger] picks[k]).0 as int),
            pickable(before.metas(), picks),
            given.gave_back(before, picks),
            given.entities.syncs_to(self.entities),
            self.entity_ptrs == given.entity_ptrs,
        ensures
            before.unloads(picks, self),
    {
        let s = given.entities;
        let subs = s.pending.sub_ref@;
        before.lemma_slots(picks);
        assert(s.pending.add_ref@ =~= Seq::<Index>::empty());
        assert forall|k: int| 0 <= k < subs.len() implies (#[trigger] subs[k]) < s.raised().len()
            && s.raised()[subs[k] as int] == 1 by {
            assert(before.slots_of(picks)[k] == subs[k]);
        }
        lemma_all_released(s.raised(), subs);
        let entries = s.released().map_values(|i: Index| s.freed_entry(i));
        let bumps = Seq::new(
            picks.len(),
            |k: int| bumped(before.entity_ptrs@[picks[k].0 as int]->0.data),
        );
        assert forall|k: int| 0 <= k < picks.len() implies #[trigger] entries[k] == bumps[k] by {
            let e = picks[k].0 as int;
            assert(before.metas()[e] is Some);
            assert(before.owns(before.entity_ptrs@[e]->0));
            assert(before.can_unload(picks[k].0 as int));
            assert(before.slots_of(picks)[k] == subs[k]);
            lemma_occurrences_distinct(subs, subs[k]);
            assert(subs.contains(subs[k]));
        }
        assert(entries =~= bumps);
    }

    /// Unloads the picked entities and returns what was held of them.
    pub fn unload(&mut self, picks: &[(u32, u64)]) -> (r: Vec<EntityMeta>)
        requires
            old(self).wf(),
            forall|k: int|
                0 <= k < picks@.len() ==> old(self).can_unload((#[trigger] picks@[k]).0 as int),
            pickable(old(self).metas(), picks@),
        ensures
            final(self).wf(),
            old(self).unloads(picks@, *final(self)),
            final(self).entities.id == old(self).entities.id,
            final(self).entities.inner.meta@.len() == old(self).entities.inner.meta@.len(),
            final(self).metas() == without(old(self).metas(), picks@),
            r@.len() == picks@.len(),
            forall|k: int|
                0 <= k < picks@.len() ==> Some(#[trigger] r@[k])
                    == old(self).metas()[picks@[k].0 as int],
    {
        let ghost before = *self;
        let mut metas: Vec<EntityMeta> = Vec::with_capacity(picks.len());
        let mut k: usize = 0;
        assert(self.gave_back(before, picks@.take(0))) by {
            assert(picks@.take(0) =~= Seq::<(u32, u64)>::empty());
            assert(before.slots_of(picks@.take(0)) =~= Seq::<Index>::empty());
            assert(before.ptrs_without(picks@.take(0)) =~= before.entity_ptrs@);
            assert(self.entities.pending.sub_ref@ =~= Seq::<Index>::empty());
        }
        while k < picks.len()
            invariant
                k <= picks@.len(),
                before.wf(),
                forall|j: int|
                    0 <= j < picks@.len() ==> before.can_unload((#[trigger] picks@[j]).0 as int),
                pickable(before.metas(), picks@),
                self.gave_back(before, picks@.take(k as int)),
                metas@.len() == k,
                forall|j: int|
                    0 <= j < k ==> Some(#[trigger] metas@[j]) == before.metas()[picks@[j].0 as int],
            decreases picks@.len() - k,
        {
            let i: usize = picks[k].0 as usize;
            let ghost done = picks@.take(k as int);
            let ghost more = picks@.take(k + 1);
            let mut slot: Option<Pointer<EntityMeta>> = None;
            proof {
                assert(before.metas()[picks@[k as int].0 as int] is Some);
                assert(!picked(done, i as int)) by {
                    if picked(done, i as int) {
                        let a = choose|a: int| 0 <= a < done.len() && (#[trigger] done[a]).0 == i;
                        assert(picks@[a].0 == picks@[k as int].0);
                    }
                }
                assert(self.entity_ptrs@[i as int] == before.entity_ptrs@[i as int]);
                assert(before.owns(before.entity_ptrs@[i as int]->0));
            }
            core::mem::swap(&mut slot, &mut self.entity_ptrs[i]);
            if let Some(ptr) = slot {
                metas.push(*self.entities.index(&ptr));
                ptr.release(&mut self.entities.pending);
            }
            proof {
                assert(more =~= done.push(picks@[k as int]));
                assert(self.entities.pending.sub_ref@ =~= before.slots_of(more));
                assert(self.entity_ptrs@ =~= before.ptrs_without(more)) by {
                    assert forall|j: int| 0 <= j < before.entity_ptrs@.len() implies picked(more, j)
                        == (picked(done, j) || j == i) by {
                        if picked(done, j) {
                            let a = choose|a: int| 0 <= a < done.len() && (#[trigger] done[a]).0 == j;
                            assert(more[a].0 == j);
                        }
                        if picked(more, j) && j != i {
                            let a = choose|a: int| 0 <= a < more.len() && (#[trigger] more[a]).0 == j;
                            assert(done[a].0 == j);
                        }
                        assert(more[k as int].0 == i);
                    }
                }
            }
            k = k + 1;
        }
        assert(picks@.take(k as int) =~= picks@);
        proof {
            self.lemma_can_sync(before, picks@);
        }
        let ghost given = *self;
        self.entities.sync_pending();
        proof {
            self.lemma_synced(given, before, picks@);
            self.lemma_unloads(given, before, picks@);
        }
        metas
    }

    /// Loads an entity anew, in place of what was held of it before.
    pub fn put(&mut self, i: usize, meta: EntityMeta)
        requires
            old(self).wf(),
            old(self).can_unload(i as int),
            i < old(self).metas().len(),
        ensures
            final(self).wf(),
            old(self).reloads(i as int, *final(self)),
            final(self).metas() == old(self).metas().update(i as int, Some(meta)),
    {
        let ghost start = *self;
        let mut picks: Vec<(u32, u64)> = Vec::new();
        if self.entity_ptrs[i].is_some() {
            picks.push((i as u32, 0));
        }
        self.unload(picks.as_slice());
        let ghost before = *self;
        proof {
            assert forall|j: int| 0 <= j < start.metas().len() && j != i implies before.metas()[j]
                == start.metas()[j] by {
                assert(!picked(picks@, j));
            }
            assert(before.metas()[i as int] is None) by {
                if picks@.len() > 0 {
                    assert(picks@[0].0 == i);
                    assert(picked(picks@, i as int));
                }
            }
            assert(before.metas().len() == start.metas().len());
            assert(before.entity_ptrs@[i as int] is None);
        }
        let slots: usize = self.entities.inner.meta.len();
        proof {
            assert(slots == before.entities.inner.meta@.len());
            before.lemma_fresh_slot();
        }
        let ptr: Pointer<EntityMeta> = self.entities.create(meta);
        self.entity_ptrs.set(i, Some(ptr));
        proof {
            let slot = before.entities.next_slot().index;
            assert forall|j: int|
                0 <= j < before.entity_ptrs@.len() && (
                #[trigger] before.entity_ptrs@[j]) is Some implies {
                &&& before.entity_ptrs@[j]->0.data.index != slot
                &&& self.owns(before.entity_ptrs@[j]->0)
                &&& self.entities.inner.data@[before.entity_ptrs@[j]->0.data.index as int]
                    == before.entities.inner.data@[before.entity_ptrs@[j]->0.data.index as int]
            } by {
                assert(before.owns(before.entity_ptrs@[j]->0));
            }
            assert forall|j: int|
                0 <= j < self.entity_ptrs@.len() && j != i implies self.entity_ptrs@[j]
                == before.entity_ptrs@[j] by {}
            assert(self.metas() =~= start.metas().update(i as int, Some(meta)));
            assert forall|j: int| 0 <= j < start.entity_ptrs@.len() && j != i implies
                #[trigger] self.entity_ptrs@[j] == start.entity_ptrs@[j] by {
                assert(!picked(picks@, j));
                assert(before.entity_ptrs@[j] == start.ptrs_without(picks@)[j]);
            }
            let free = start.entities.inner.free_list@;
            if picks@.len() > 0 {
                assert(before.entities.inner.free_list@.drop_last() =~= free);
            } else {
                assert(before.entities.inner.free_list@ =~= free);
            }
            assert(start.reloads(i as int, *self));
        }
    }

    /// Number and last access of every loaded entity.
    pub fn candidates(&self) -> (r: Vec<(u32, u64)>)
        requires
            self.wf(),
        ensures
            r@ == candidates_of(self.metas()),
    {
        let mut list: Vec<(u32, u64)> = Vec::new();
        let mut i: usize = 0;
        assert(self.metas().take(0) =~= Seq::<Option<EntityMeta>>::empty());
        while i < self.entity_ptrs.len()
            invariant
                self.wf(),
                i <= self.entity_ptrs@.len(),
                list@ == candidates_of(self.metas().take(i as int)),
            decreases self.entity_ptrs@.len() - i,
        {
            assert(self.metas().take(i + 1).drop_last() =~= self.metas().take(i as int));
            if let Some(meta) = self.get(i) {
                list.push((i as u32, meta.last_access));
            }
            i = i + 1;
        }
        assert(self.metas().take(i as int) =~= self.metas());
        list
    }
}

/// Freshly loaded entities.
pub open spec fn blanks(count: nat) -> Seq<Option<EntityMeta>> {
    Seq::new(count, |i: int| Some(blank_meta()))
}

/// The entities after the loaded ones among them were given positions.
pub open spec fn positioned(
    metas: Seq<Option<EntityMeta>>,
    positions: Seq<Placed>,
) -> Seq<Option<EntityMeta>>
    decreases positions.len(),
{
    if positions.len() == 0 {
        metas
    } else {
        let before = positioned(metas, positions.drop_last());
        let p = positions.last();
        if p.0 < before.len() && before[p.0 as int] is Some {
            before.update(
                p.0 as int,
                Some(EntityMeta { position: Some((p.1, p.2)), last_access: 0 }),
            )
        } else {
            before
        }
    }
}

impl Roster {
    /// Adds `count` entities without positions.
    pub fn add_blanks(&mut self, count: usize)
        requires
            old(self).wf(),
            old(self).metas().len() + count <= u32::MAX,
        ensures
            final(self).wf(),
            final(self).metas() == old(self).metas() + blanks(count as nat),
            old(self).unused() ==> final(self).unused(),
    {
        let ghost before = *self;
        let mut i: usize = 0;
        assert(before.metas() + blanks(0) =~= before.metas());
        while i < count
            invariant
                i <= count,
                before.metas().len() + count <= u32::MAX,
                self.wf(),
                self.metas() == before.metas() + blanks(i as nat),
                before.unused() ==> self.unused(),
            decreases count - i,
        {
            assert(self.entity_ptrs@.len() == self.metas().len());
            self.push(EntityMeta { position: None, last_access: 0 });
            i = i + 1;
            assert(before.metas() + blanks(i as nat) =~= (before.metas() + blanks(
                (i - 1) as nat,
            )).push(Some(blank_meta())));
        }
    }

    /// Gives positions to loaded entities.
    pub fn place(&mut self, positions: &[Placed])
        requires
            old(self).wf(),
        ensures
            final(self).wf(),
            final(self).entity_ptrs == old(self).entity_ptrs,
            final(self).entities.inner.free_list == old(self).entities.inner.free_list,
            old(self).unused() ==> final(self).unused(),
            final(self).metas() == positioned(old(self).metas(), positions@),
            final(self).metas().len() == old(self).metas().len(),
    {
        let ghost before = *self;
        let mut k: usize = 0;
        assert(positions@.take(0) =~= Seq::<Placed>::empty());
        while k < positions.len()
            invariant
                k <= positions@.len(),
                self.wf(),
                self.entity_ptrs == before.entity_ptrs,
                self.entities.inner.free_list == before.entities.inner.free_list,
                self.metas() == positioned(before.metas(), positions@.take(k as int)),
                self.metas().len() == before.metas().len(),
            decreases positions@.len() - k,
        {
            let p: Placed = positions[k];
            assert(positions@.take(k + 1).drop_last() =~= positions@.take(k as int));
            self.set(
                p.0 as usize,
                EntityMeta { position: Some((p.1, p.2)), last_access: 0 },
            );
            k = k + 1;
        }
        assert(positions@.take(k as int) =~= positions@);
    }
}

/// Whether the list holds the loaded entities, the longest unused first.
pub open spec fn oldest_first(list: Seq<(u32, u64)>, metas: Seq<Option<EntityMeta>>) -> bool {
    &&& list.to_multiset() == candidates_of(metas).to_multiset()
    &&& forall|a: int, b: int|
        0 <= a <= b < list.len() ==> (#[trigger] list[a]).1 <= (#[trigger] list[b]).1
}

/// `slice::sort_unstable_by_key`, with the last access as key: the vector then
/// holds the same items as before, ordered by last access. Items with the same
/// last access come in any order.
#[verifier::external_body]
fn sort_by_access(list: &mut Vec<(u32, u64)>)
    ensures
        final(list)@.to_multiset() == old(list)@.to_multiset(),
        forall|a: int, b: int|
            0 <= a <= b < final(list)@.len() ==> (#[trigger] final(list)@[a]).1 <= (
            #[trigger] final(list)@[b]).1,
{
    list.sort_unstable_by_key(|item| item.1);
}

/// A list of the loaded entities in another order can be unloaded too.
pub proof fn lemma_oldest_first(list: Seq<(u32, u64)>, metas: Seq<Option<EntityMeta>>)
    requires
        metas.len() <= u32::MAX,
        oldest_first(list, metas),
    ensures
        pickable(metas, list),
        list.len() == candidates_of(metas).len(),
        forall|k: int|
            0 <= k < list.len() ==> (#[trigger] list[k]).1
                == metas[list[k].0 as int]->0.last_access,
        forall|i: int|
            0 <= i < metas.len() ==> (#[trigger] metas[i] is Some <==> picked(list, i)),
{
    broadcast use vstd::seq_lib::group_to_multiset_ensures;

    let all = candidates_of(metas);
    lemma_candidates(metas);
    assert(list.len() == list.to_multiset().len());
    assert(all.len() == all.to_multiset().len());
    assert forall|k: int| 0 <= k < list.len() implies all.contains(#[trigger] list[k]) by {
        assert(list.contains(list[k]));
        assert(list.to_multiset().count(list[k]) > 0);
    }
    assert forall|k: int| 0 <= k < all.len() implies list.contains(#[trigger] all[k]) by {
        assert(all.contains(all[k]));
        assert(all.to_multiset().count(all[k]) > 0);
    }
    assert forall|k: int| 0 <= k < list.len() implies (#[trigger] list[k]).0 < metas.len()
        && metas[list[k].0 as int] is Some && list[k].1
        == metas[list[k].0 as int]->0.last_access by {
        assert(all.contains(list[k]));
        let j = choose|j: int| 0 <= j < all.len() && all[j] == list[k];
        assert(all[j].0 < metas.len());
    }
    assert(all.no_duplicates()) by {
        assert forall|a: int, b: int| 0 <= a < b < all.len() implies all[a] != all[b] by {
            assert(all[a].0 != all[b].0);
        }
    }
    all.lemma_multiset_has_no_duplicates();
    assert forall|x: (u32, u64)| list.to_multiset().contains(x) implies list.to_multiset().count(x)
        == 1 by {
        assert(all.to_multiset().contains(x));
    }
    list.lemma_multiset_has_no_duplicates_conv();
    assert forall|a: int, b: int| 0 <= a < b < list.len() implies (#[trigger] list[a]).0 != (
    #[trigger] list[b]).0 by {
        if list[a].0 == list[b].0 {
            assert(list[a] == list[b]);
        }
    }
    assert forall|i: int| 0 <= i < metas.len() implies (#[trigger] metas[i] is Some <==> picked(
        list,
        i,
    )) by {
        if metas[i] is Some {
            let j = choose|j: int| 0 <= j < all.len() && (#[trigger] all[j]).0 == i;
            assert(list.contains(all[j]));
            let k = choose|k: int| 0 <= k < list.len() && list[k] == all[j];
            assert(list[k].0 == i);
        }
        if picked(list, i) {
            let k = choose|k: int| 0 <= k < list.len() && (#[trigger] list[k]).0 == i;
            assert(metas[list[k].0 as int] is Some);
        }
    }
}

/// What the longest unused entities are, in the order in which they go.
pub open spec fn evictions(
    list: Seq<(u32, u64)>,
    count: int,
) -> Seq<(u32, u64)> {
    if count < list.len() {
        list.take(count)
    } else {
        list
    }
}

/// Whether `gone` lists what was held of the unloaded entities.
pub open spec fn held_of(
    gone: Seq<(u32, EntityMeta)>,
    metas: Seq<Option<EntityMeta>>,
    picks: Seq<(u32, u64)>,
) -> bool {
    &&& gone.len() == picks.len()
    &&& forall|k: int|
        0 <= k < gone.len() ==> (#[trigger] gone[k]).0 == picks[k].0 && metas[picks[k].0 as int]
            == Some(gone[k].1)
}

/// Unloading the longest unused entities leaves only entities that were used
/// no earlier, and unloads as many as asked for or all.
pub proof fn law_evicts_oldest(
    metas: Seq<Option<EntityMeta>>,
    list: Seq<(u32, u64)>,
    count: int,
    gone: int,
    kept: int,
)
    requires
        metas.len() <= u32::MAX,
        oldest_first(list, metas),
        0 <= count,
    ensures
        evictions(list, count).len() == if count < candidates_of(metas).len() {
            count
        } else {
            candidates_of(metas).len() as int
        },
        0 <= gone < metas.len() && 0 <= kept < metas.len() && metas[gone] is Some && metas[kept]
            is Some && picked(evictions(list, count), gone) && !picked(
            evictions(list, count),
            kept,
        ) ==> metas[gone]->0.last_access <= metas[kept]->0.last_access,
{
    lemma_oldest_first(list, metas);
    let picks = evictions(list, count);
    if 0 <= gone < metas.len() && 0 <= kept < metas.len() && metas[gone] is Some && metas[kept]
        is Some && picked(picks, gone) && !picked(picks, kept) {
        let a = choose|a: int| 0 <= a < picks.len() && (#[trigger] picks[a]).0 == gone;
        assert(picked(list, kept));
        let b = choose|b: int| 0 <= b < list.len() && (#[trigger] list[b]).0 == kept;
        assert(list[a] == picks[a]);
        if b < picks.len() {
            assert(picks[b].0 == kept);
        }
        assert(list[a].1 <= list[b].1);
    }
}

impl Roster {
    /// Unloads the `count` longest unused entities, or all if there are fewer.
    pub fn evict_oldest(&mut self, count: usize) -> (r: Vec<(u32, EntityMeta)>)
        requires
            old(self).wf(),
            old(self).epochs_left(),
        ensures
            final(self).wf(),
            final(self).epochs_left(),
            exists|list: Seq<(u32, u64)>|
                {
                    &&& #[trigger] oldest_first(list, old(self).metas())
                    &&& old(self).unloads(evictions(list, count as int), *final(self))
                    &&& final(self).metas() == without(
                        old(self).metas(),
                        evictions(list, count as int),
                    )
                    &&& held_of(r@, old(self).metas(), evictions(list, count as int))
                },
    {
        let ghost before = *self;
        let mut list: Vec<(u32, u64)> = self.candidates();
        sort_by_access(&mut list);
        let ghost order = list@;
        proof {
            lemma_oldest_first(order, before.metas());
        }
        if count < list.len() {
            list.truncate(count);
        }
        assert(list@ =~= evictions(order, count as int));
        assert(pickable(before.metas(), list@));
        let metas: Vec<EntityMeta> = self.unload(list.as_slice());
        assert(self.epochs_left()) by {
            assert forall|i: int| #[trigger] self.can_unload(i) by {
                assert(before.can_unload(i));
            }
        }
        let mut gone: Vec<(u32, EntityMeta)> = Vec::with_capacity(list.len());
        let mut k: usize = 0;
        while k < list.len()
            invariant
                k <= list@.len() == metas@.len(),
                gone@.len() == k,
                forall|j: int|
                    0 <= j < k ==> (#[trigger] gone@[j]).0 == list@[j].0 && gone@[j].1 == metas@[j],
            decreases list@.len() - k,
        {
            gone.push((list[k].0, metas[k]));
            k = k + 1;
        }
        assert forall|j: int| 0 <= j < gone@.len() implies (#[trigger] gone@[j]).0 == list@[j].0
            && before.metas()[list@[j].0 as int] == Some(gone@[j].1) by {
            assert(Some(metas@[j]) == before.metas()[list@[j].0 as int]);
        }
        assert(held_of(gone@, before.metas(), evictions(order, count as int)));
        assert(oldest_first(order, before.metas()));
        gone
    }
}

/// As long as no slot was vacated more often than epochs can count, every
/// entity can be unloaded.
pub proof fn law_little_wear_leaves_epochs(roster: Roster, times: int)
    requires
        roster.worn(times),
        times < Epoch::MAX,
    ensures
        roster.epochs_left(),
{
}

/// Unloading entities wears slots by one at most.
pub proof fn law_unloading_wears_once(
    before: Roster,
    picks: Seq<(u32, u64)>,
    after: Roster,
    times: int,
)
    requires
        pickable(before.metas(), picks),
        before.worn(times),
        0 <= times < Epoch::MAX,
        before.unloads(picks, after),
    ensures
        after.worn(times + 1),
{
    let free0 = before.entities.inner.free_list@;
    let free1 = after.entities.inner.free_list@;
    assert forall|k: int| 0 <= k < free1.len() implies (#[trigger] free1[k]).epoch <= times + 1 by {
        if k < free0.len() {
            assert(free1[k] == free0[k]);
        } else {
            let i = picks[k - free0.len()].0 as int;
            assert(before.metas()[i] is Some);
            assert(before.entity_ptrs@[i] is Some);
        }
    }
    assert forall|i: int|
        0 <= i < after.entity_ptrs@.len() && (
        #[trigger] after.entity_ptrs@[i]) is Some implies after.entity_ptrs@[i]->0.data.epoch
        <= times + 1 by {
        assert(before.entity_ptrs@[i] == after.entity_ptrs@[i]);
    }
}

/// Loading an entity anew wears its slot by one if it is loaded, and none if it
/// is not.
pub proof fn law_reloading_wears_once(before: Roster, i: int, after: Roster, times: int)
    requires
        0 <= i < before.entity_ptrs@.len(),
        before.worn(times),
        0 <= times < Epoch::MAX,
        before.reloads(i, after),
    ensures
        after.worn(times + 1),
        before.entity_ptrs@[i] is None ==> after.worn(times),
{
    let free0 = before.entities.inner.free_list@;
    let free1 = after.entities.inner.free_list@;
    let more = if before.entity_ptrs@[i] is None {
        times
    } else {
        times + 1
    };
    assert forall|k: int| 0 <= k < free1.len() implies (#[trigger] free1[k]).epoch <= times by {
        assert(free1[k] == free0[k]);
    }
    if before.entity_ptrs@[i] is None && free0.len() > 0 {
        assert(free0[free0.len() - 1].epoch <= times);
    }
    assert forall|j: int|
        0 <= j < after.entity_ptrs@.len() && (
        #[trigger] after.entity_ptrs@[j]) is Some implies after.entity_ptrs@[j]->0.data.epoch
        <= more by {
        if j != i {
            assert(before.entity_ptrs@[j] == after.entity_ptrs@[j]);
        }
    }
}

/// The candidates are the loaded entities, each once.
pub proof fn lemma_candidates(metas: Seq<Option<EntityMeta>>)
    requires
        metas.len() <= u32::MAX,
    ensures
        pickable(metas, candidates_of(metas)),
        forall|k: int|
            #![trigger candidates_of(metas)[k]]
            0 <= k < candidates_of(metas).len() ==> candidates_of(metas)[k].1
                == metas[candidates_of(metas)[k].0 as int]->0.last_access,
        forall|i: int|
            0 <= i < metas.len() ==> (#[trigger] metas[i] is Some <==> picked(
                candidates_of(metas),
                i,
            )),
        candidates_of(metas).len() <= metas.len(),
    decreases metas.len(),
{
    if metas.len() > 0 {
        let head = metas.drop_last();
        lemma_candidates(head);
        let before = candidates_of(head);
        let all = candidates_of(metas);
        assert forall|k: int| 0 <= k < before.len() implies all[k] == before[k] && (
        #[trigger] before[k]).0 < head.len() by {}
        assert forall|i: int| 0 <= i < metas.len() implies (#[trigger] metas[i] is Some <==> picked(
            all,
            i,
        )) by {
            if i < head.len() {
                assert(head[i] == metas[i]);
                if picked(before, i) {
                    let k = choose|k: int| 0 <= k < before.len() && (#[trigger] before[k]).0 == i;
                    assert(all[k].0 == i);
                }
                if picked(all, i) {
                    let k = choose|k: int| 0 <= k < all.len() && (#[trigger] all[k]).0 == i;
                    assert(before[k].0 == i);
                }
            } else {
                if metas[i] is Some {
                    assert(all[all.len() - 1].0 == i);
                }
                if picked(all, i) {
                    let k = choose|k: int| 0 <= k < all.len() && (#[trigger] all[k]).0 == i;
                    if k < before.len() {
                        assert(before[k].0 < head.len());
                    }
                }
            }
        }
    }
}

} // verus!
