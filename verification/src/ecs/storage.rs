//! Component storage: slots, reference counts, and reuse of vacated slots.

use core::marker::PhantomData;

use vstd::prelude::*;

use super::cursor::{Cursor, Slice};
use super::pending::{
    epoch_of, lemma_occurrences_distinct, lemma_occurrences_prefix, lemma_occurrences_push,
    occurrences, Epoch, Index, Pending, PointerData, RefCount, StorageId,
};
use super::pointer::Pointer;

verus! {

/// Slots, their reference counts, and the vacated slots ready for reuse.
#[derive(Debug)]
pub struct StorageInner<T> {
    pub data: Vec<T>,
    pub meta: Vec<RefCount>,
    pub free_list: Vec<PointerData>,
}

/// Hands out storage identities in turn.
#[derive(Debug)]
pub struct StorageIds {
    pub next: usize,
}

impl StorageIds {
    pub fn new() -> (r: Self)
        ensures
            r.next == 0,
    {
        StorageIds { next: 0 }
    }

    /// Next identity; the counter wraps and only its low byte is used.
    pub fn allocate(&mut self) -> (r: StorageId)
        ensures
            r == old(self).next % 256,
            final(self).next == if old(self).next == usize::MAX {
                0
            } else {
                old(self).next + 1
            },
    {
        let id: StorageId = (self.next % 256) as StorageId;
        self.next = self.next.wrapping_add(1);
        id
    }
}

/// The first slot at or after `from` that `keep` accepts, or the slot count.
pub open spec fn first_kept(meta: Seq<RefCount>, skip_lost: bool, from: int) -> int
    decreases meta.len() - from,
{
    if from >= meta.len() {
        meta.len() as int
    } else if !skip_lost || meta[from] != 0 {
        from
    } else {
        first_kept(meta, skip_lost, from + 1)
    }
}

/// The last referenced slot before `to`, or -1.
pub open spec fn last_live(meta: Seq<RefCount>, to: int) -> int
    decreases to,
{
    if to <= 0 {
        -1
    } else if meta[to - 1] != 0 {
        to - 1
    } else {
        last_live(meta, to - 1)
    }
}

/// A forward step over the referenced slots from `front` on and before `back`:
/// the slot visited, and where the front end goes.
pub open spec fn step_forward(meta: Seq<RefCount>, front: int, back: int) -> (Option<int>, int) {
    let j = first_kept(meta, true, front);
    if j < back {
        (Some(j), j + 1)
    } else if front < back {
        (None, back)
    } else {
        (None, front)
    }
}

/// A backward step over the referenced slots before `back` down to `front`:
/// the slot visited, and where the back end goes.
pub open spec fn step_back(meta: Seq<RefCount>, front: int, back: int) -> (Option<int>, int) {
    let j = last_live(meta, back);
    if j >= front {
        (Some(j), j)
    } else {
        (None, front)
    }
}

/// The slots from `from` on that an iteration visits, in order.
pub open spec fn kept_from(meta: Seq<RefCount>, skip_lost: bool, from: int) -> Seq<int>
    decreases meta.len() - from,
{
    if from >= meta.len() {
        Seq::empty()
    } else if !skip_lost || meta[from] != 0 {
        seq![from] + kept_from(meta, skip_lost, from + 1)
    } else {
        kept_from(meta, skip_lost, from + 1)
    }
}

pub proof fn lemma_first_kept(meta: Seq<RefCount>, skip_lost: bool, from: int)
    requires
        0 <= from <= meta.len(),
    ensures
        from <= first_kept(meta, skip_lost, from) <= meta.len(),
        forall|j: int|
            from <= j < first_kept(meta, skip_lost, from) ==> skip_lost && #[trigger] meta[j] == 0,
        first_kept(meta, skip_lost, from) < meta.len() ==> (!skip_lost || meta[first_kept(
            meta,
            skip_lost,
            from,
        )] != 0),
    decreases meta.len() - from,
{
    if from < meta.len() && skip_lost && meta[from] == 0 {
        lemma_first_kept(meta, skip_lost, from + 1);
    }
}

/// Iteration visits `first_kept`, then what follows it.
pub proof fn lemma_kept_unfold(meta: Seq<RefCount>, skip_lost: bool, from: int)
    requires
        0 <= from <= meta.len(),
    ensures
        ({
            let j = first_kept(meta, skip_lost, from);
            kept_from(meta, skip_lost, from) == if j < meta.len() {
                seq![j] + kept_from(meta, skip_lost, j + 1)
            } else {
                Seq::<int>::empty()
            }
        }),
    decreases meta.len() - from,
{
    if from < meta.len() && skip_lost && meta[from] == 0 {
        lemma_kept_unfold(meta, skip_lost, from + 1);
    }
}

/// An iteration visits exactly the slots it should, each once and in
/// ascending order: all of them, or those with a reference.
pub proof fn law_iteration_visits_kept_slots(meta: Seq<RefCount>, skip_lost: bool, from: int)
    requires
        0 <= from <= meta.len(),
    ensures
        forall|j: int| #[trigger]
            kept_from(meta, skip_lost, from).contains(j) <==> from <= j < meta.len() && (!skip_lost
                || meta[j] != 0),
        forall|a: int, b: int|
            0 <= a < b < kept_from(meta, skip_lost, from).len() ==> kept_from(
                meta,
                skip_lost,
                from,
            )[a] < kept_from(meta, skip_lost, from)[b],
    decreases meta.len() - from,
{
    let s = kept_from(meta, skip_lost, from);
    if from < meta.len() {
        law_iteration_visits_kept_slots(meta, skip_lost, from + 1);
        let rest = kept_from(meta, skip_lost, from + 1);
        if !skip_lost || meta[from] != 0 {
            assert(s == seq![from] + rest);
            assert(s[0] == from);
            assert forall|j: int| #[trigger] s.contains(j) <==> (j == from || rest.contains(j)) by {
                if rest.contains(j) {
                    let k = choose|k: int| 0 <= k < rest.len() && rest[k] == j;
                    assert(s[k + 1] == j);
                }
                if s.contains(j) {
                    let k = choose|k: int| 0 <= k < s.len() && s[k] == j;
                    if k > 0 {
                        assert(rest[k - 1] == j);
                    }
                }
            }
            assert forall|a: int, b: int| 0 <= a < b < s.len() implies s[a] < s[b] by {
                assert(s[b] == rest[b - 1]);
                assert(rest.contains(rest[b - 1]));
                assert(from < rest[b - 1]);
                if a > 0 {
                    assert(s[a] == rest[a - 1]);
                }
            }
        }
    }
}

impl<T> StorageInner<T> {
    /// Parts the slots around one: those before it, the slot, those after it.
    pub fn split(&mut self, offset: PointerData) -> (r: (Slice<'_, T>, &mut T, Slice<'_, T>))
        requires
            offset.index < old(self).data@.len(),
        ensures
            r.0.slice@ == old(self).data@.take(offset.index as int),
            r.0.offset == (PointerData { index: 0, epoch: 0, storage_id: offset.storage_id }),
            *r.1 == old(self).data@[offset.index as int],
            r.2.slice@ == old(self).data@.skip(offset.index + 1),
            r.2.offset == (PointerData {
                index: (offset.index + 1) as usize,
                epoch: 0,
                storage_id: offset.storage_id,
            }),
            final(self).data@ == final(r.0.slice)@ + seq![*final(r.1)] + final(r.2.slice)@,
            final(self).meta == old(self).meta,
            final(self).free_list == old(self).free_list,
    {
        let sid: StorageId = offset.get_storage_id();
        let index: usize = offset.get_index();
        let total: usize = self.data.len();
        assert(index + 1 <= total);
        let (left, temp) = self.data.as_mut_slice().split_at_mut(index);
        let (item, right) = temp.split_at_mut(1);
        let item = item.first_mut().unwrap();
        (
            Slice { slice: left, offset: PointerData::new(0, 0, sid) },
            item,
            Slice { slice: right, offset: PointerData::new(index + 1, 0, sid) },
        )
    }

    /// Finds the next slot to visit.
    pub fn find_kept(&self, skip_lost: bool, from: usize) -> (r: usize)
        requires
            from <= self.meta@.len(),
        ensures
            r == first_kept(self.meta@, skip_lost, from as int),
            from <= r <= self.meta@.len(),
    {
        let mut id: usize = from;
        while id < self.meta.len() && skip_lost && self.meta[id] == 0
            invariant
                from <= id <= self.meta@.len(),
                first_kept(self.meta@, skip_lost, id as int) == first_kept(
                    self.meta@,
                    skip_lost,
                    from as int,
                ),
            decreases self.meta@.len() - id,
        {
            id += 1;
        }
        id
    }

    /// Finds the previous referenced slot.
    pub fn find_live_back(&self, to: usize) -> (r: Option<usize>)
        requires
            to <= self.meta@.len(),
        ensures
            match r {
                Some(j) => j == last_live(self.meta@, to as int) && j < to && self.meta@[j as int]
                    != 0,
                None => last_live(self.meta@, to as int) == -1,
            },
    {
        let mut id: usize = to;
        while id > 0
            invariant
                id <= to <= self.meta@.len(),
                last_live(self.meta@, id as int) == last_live(self.meta@, to as int),
            decreases id,
        {
            id -= 1;
            if self.meta[id] != 0 {
                return Some(id);
            }
        }
        None
    }
}

/// Components of one type, addressed by reference-counted pointers.
#[derive(Debug)]
pub struct Storage<T> {
    pub inner: StorageInner<T>,
    pub pending: Pending,
    pub id: StorageId,
}

/// The drops at which a slot's last reference goes, in the order of the
/// drops, for slots that hold `counts` references beforehand.
pub open spec fn releases(counts: Seq<int>, subs: Seq<Index>) -> Seq<Index>
    decreases subs.len(),
{
    if subs.len() == 0 {
        Seq::empty()
    } else if counts[subs.last() as int] == occurrences(subs, subs.last()) {
        releases(counts, subs.drop_last()).push(subs.last())
    } else {
        releases(counts, subs.drop_last())
    }
}

/// Slots that lose their last reference are exactly those released, once each.
pub proof fn lemma_releases(counts: Seq<int>, subs: Seq<Index>)
    requires
        forall|k: int| 0 <= k < subs.len() ==> #[trigger] subs[k] < counts.len(),
        forall|i: Index| i < counts.len() ==> #[trigger] occurrences(subs, i) <= counts[i as int],
    ensures
        forall|i: Index| #[trigger]
            releases(counts, subs).contains(i) <==> (i < counts.len() && occurrences(subs, i) > 0
                && occurrences(subs, i) == counts[i as int]),
        releases(counts, subs).no_duplicates(),
    decreases subs.len(),
{
    if subs.len() > 0 {
        let rest = subs.drop_last();
        let x = subs.last();
        assert forall|i: Index| i < counts.len() implies #[trigger] occurrences(rest, i)
            <= counts[i as int] by {
            assert(occurrences(subs, i) <= counts[i as int]);
        }
        lemma_releases(counts, rest);
        let r0 = releases(counts, rest);
        let r1 = releases(counts, subs);
        assert(subs[subs.len() - 1] == x);
        assert forall|i: Index| #[trigger] r1.contains(i) <==> (i < counts.len() && occurrences(
            subs,
            i,
        ) > 0 && occurrences(subs, i) == counts[i as int]) by {
            assert(r0.contains(i) <==> (i < counts.len() && occurrences(rest, i) > 0 && occurrences(
                rest,
                i,
            ) == counts[i as int]));
            assert(occurrences(subs, i) == occurrences(rest, i) + if x == i {
                1nat
            } else {
                0nat
            });
            if counts[x as int] == occurrences(subs, x) {
                assert(r1 == r0.push(x));
                assert(r1[r1.len() - 1] == x);
                if r0.contains(i) {
                    let k = choose|k: int| 0 <= k < r0.len() && r0[k] == i;
                    assert(r1[k] == i);
                }
                if r1.contains(i) && i != x {
                    let k = choose|k: int| 0 <= k < r1.len() && r1[k] == i;
                    assert(r0[k] == i);
                }
            } else if i == x {
                assert(occurrences(subs, i) <= counts[i as int]);
            }
        }
        assert(!(counts[x as int] == occurrences(subs, x)) || !r0.contains(x)) by {
            if r0.contains(x) {
                assert(occurrences(rest, x) == counts[x as int]);
            }
        }
    }
}

/// Where each drop is the only one of a slot and takes its only reference,
/// every drop releases its slot.
pub proof fn lemma_all_released(counts: Seq<int>, subs: Seq<Index>)
    requires
        subs.no_duplicates(),
        forall|k: int|
            0 <= k < subs.len() ==> (#[trigger] subs[k]) < counts.len() && counts[subs[k] as int]
                == 1,
    ensures
        releases(counts, subs) == subs,
    decreases subs.len(),
{
    if subs.len() > 0 {
        let rest = subs.drop_last();
        assert(subs[subs.len() - 1] == subs.last());
        assert(subs.contains(subs.last()));
        lemma_occurrences_distinct(subs, subs.last());
        assert forall|k: int| 0 <= k < rest.len() implies (#[trigger] rest[k]) < counts.len()
            && counts[rest[k] as int] == 1 by {
            assert(subs[k] == rest[k]);
        }
        lemma_all_released(counts, rest);
        assert(rest.push(subs.last()) =~= subs);
    } else {
        assert(subs =~= Seq::<Index>::empty());
    }
}

impl<T> Storage<T> {
    /// References to slot `i` once all queued changes are applied.
    pub open spec fn balance(self, i: Index) -> int {
        self.inner.meta@[i as int] + occurrences(self.pending.add_ref@, i) - occurrences(
            self.pending.sub_ref@,
            i,
        )
    }

    /// Whether slot `i` waits for reuse.
    pub open spec fn is_free(self, i: Index) -> bool {
        exists|k: int|
            0 <= k < self.inner.free_list@.len() && (#[trigger] self.inner.free_list@[k]).index == i
    }

    /// Validity: the parts agree in length, queued changes name slots that
    /// exist, and a free slot has no reference, no queued change and the
    /// current epoch.
    pub open spec fn wf(self) -> bool {
        &&& self.inner.data@.len() == self.inner.meta@.len()
        &&& self.pending.epoch@.len() <= self.inner.meta@.len()
        &&& forall|k: int|
            0 <= k < self.pending.add_ref@.len() ==> (#[trigger] self.pending.add_ref@[k])
                < self.inner.meta@.len()
        &&& forall|k: int|
            0 <= k < self.pending.sub_ref@.len() ==> (#[trigger] self.pending.sub_ref@[k])
                < self.inner.meta@.len()
        &&& forall|k: int|
            0 <= k < self.inner.free_list@.len() ==> self.free_entry_wf(
                #[trigger] self.inner.free_list@[k],
            )
        &&& forall|a: int, b: int|
            0 <= a < b < self.inner.free_list@.len() ==> (#[trigger] self.inner.free_list@[a]).index
                != (#[trigger] self.inner.free_list@[b]).index
    }

    pub open spec fn free_entry_wf(self, entry: PointerData) -> bool {
        &&& entry.index < self.inner.meta@.len()
        &&& self.inner.meta@[entry.index as int] == 0
        &&& occurrences(self.pending.add_ref@, entry.index) == 0
        &&& occurrences(self.pending.sub_ref@, entry.index) == 0
        &&& entry.epoch == epoch_of(self.pending.epoch@, entry.index as int)
        &&& entry.storage_id == self.id
    }

    /// Whether the queued changes can be applied: no count leaves its range,
    /// and a slot that becomes vacant has an epoch left.
    pub open spec fn can_sync(self) -> bool {
        forall|i: Index|
            i < self.inner.meta@.len() ==> {
                &&& #[trigger] self.inner.meta@[i as int] + occurrences(self.pending.add_ref@, i)
                    <= RefCount::MAX
                &&& self.balance(i) >= 0
                &&& occurrences(self.pending.sub_ref@, i) > 0 && self.balance(i) == 0 ==> epoch_of(
                    self.pending.epoch@,
                    i as int,
                ) < Epoch::MAX
            }
    }

    /// Reference counts with the queued additions applied.
    pub open spec fn raised(self) -> Seq<int> {
        Seq::new(
            self.inner.meta@.len(),
            |i: int|
                self.inner.meta@[i] + occurrences(self.pending.add_ref@, i as usize) as int,
        )
    }

    /// Slots that the next synchronisation vacates, in order.
    pub open spec fn released(self) -> Seq<Index> {
        releases(self.raised(), self.pending.sub_ref@)
    }

    /// Epoch of slot `i` after the next synchronisation.
    pub open spec fn synced_epoch(self, i: Index) -> Epoch {
        if occurrences(self.pending.sub_ref@, i) > 0 && self.balance(i) == 0 {
            (epoch_of(self.pending.epoch@, i as int) + 1) as Epoch
        } else {
            epoch_of(self.pending.epoch@, i as int)
        }
    }

    /// Free-list entry of slot `i` once the next synchronisation vacates it.
    pub open spec fn freed_entry(self, i: Index) -> PointerData {
        PointerData { index: i, epoch: self.synced_epoch(i), storage_id: self.id }
    }

    /// What a synchronisation makes of the storage: the components stay, the
    /// counts become the balances, nothing is queued any more, and the slots
    /// released join the free list with their next epochs.
    pub open spec fn syncs_to(self, after: Self) -> bool {
        &&& after.inner.data == self.inner.data
        &&& after.id == self.id
        &&& after.inner.meta@.len() == self.inner.meta@.len()
        &&& forall|i: Index|
            i < self.inner.meta@.len() ==> #[trigger] after.inner.meta@[i as int] == self.balance(i)
        &&& after.pending.add_ref@.len() == 0
        &&& after.pending.sub_ref@.len() == 0
        &&& after.pending.epoch@.len() == self.inner.meta@.len()
        &&& forall|i: Index|
            i < self.inner.meta@.len() ==> #[trigger] after.pending.epoch@[i as int]
                == self.synced_epoch(i)
        &&& after.inner.free_list@ == self.inner.free_list@ + self.released().map_values(
            |i: Index| self.freed_entry(i),
        )
    }

    /// What storing `value` makes of the storage: it goes to the next slot,
    /// which then has one reference.
    pub open spec fn creates(self, value: T, after: Self) -> bool {
        let i = self.next_slot().index as int;
        &&& after.id == self.id
        &&& after.pending == self.pending
        &&& if self.inner.free_list@.len() > 0 {
            &&& after.inner.free_list@ == self.inner.free_list@.drop_last()
            &&& after.inner.data@ == self.inner.data@.update(i, value)
            &&& after.inner.meta@ == self.inner.meta@.update(i, 1u16)
        } else {
            &&& after.inner.free_list@ == self.inner.free_list@
            &&& after.inner.data@ == self.inner.data@.push(value)
            &&& after.inner.meta@ == self.inner.meta@.push(1u16)
        }
    }

    fn new_impl(data: Vec<T>, meta: Vec<RefCount>, epoch: Vec<Epoch>, id: StorageId) -> (r: Self)
        requires
            data@.len() == meta@.len(),
            epoch@.len() <= meta@.len(),
        ensures
            r.wf(),
            r.inner.data == data,
            r.inner.meta == meta,
            r.inner.free_list@.len() == 0,
            r.pending.add_ref@.len() == 0,
            r.pending.sub_ref@.len() == 0,
            r.pending.epoch == epoch,
            r.id == id,
    {
        Storage {
            inner: StorageInner { data, meta, free_list: Vec::new() },
            pending: Pending { add_ref: Vec::new(), sub_ref: Vec::new(), epoch },
            id,
        }
    }

    /// Empty storage with the given identity.
    pub fn new(id: StorageId) -> (r: Self)
        ensures
            r.wf(),
            r.inner.data@.len() == 0,
            r.inner.free_list@.len() == 0,
            r.pending.add_ref@.len() == 0,
            r.pending.sub_ref@.len() == 0,
            r.pending.epoch@.len() == 0,
            r.id == id,
    {
        Self::new_impl(Vec::new(), Vec::new(), Vec::new(), id)
    }

    /// Empty storage with room for `capacity` components.
    pub fn with_capacity(capacity: usize, id: StorageId) -> (r: Self)
        ensures
            r.wf(),
            r.inner.data@.len() == 0,
            r.inner.free_list@.len() == 0,
            r.pending.add_ref@.len() == 0,
            r.pending.sub_ref@.len() == 0,
            r.pending.epoch@.len() == 0,
            r.id == id,
    {
        Self::new_impl(
            Vec::with_capacity(capacity),
            Vec::with_capacity(capacity),
            Vec::with_capacity(capacity),
            id,
        )
    }

    /// Storage of the given components, none of them referenced.
    pub fn from_vec(data: Vec<T>, id: StorageId) -> (r: Self)
        ensures
            r.wf(),
            r.inner.data == data,
            r.inner.meta@ == Seq::new(data@.len(), |i: int| 0u16),
            r.inner.free_list@.len() == 0,
            r.pending.add_ref@.len() == 0,
            r.pending.sub_ref@.len() == 0,
            r.pending.epoch@ == Seq::new(data@.len(), |i: int| 0u16),
            r.id == id,
    {
        let count: usize = data.len();
        let meta: Vec<RefCount> = vec![0u16; count];
        let epoch: Vec<Epoch> = vec![0u16; count];
        assert(meta@ =~= Seq::new(data@.len(), |i: int| 0u16));
        assert(epoch@ =~= Seq::new(data@.len(), |i: int| 0u16));
        Self::new_impl(data, meta, epoch, id)
    }

    /// The component behind a pointer of this storage.
    pub fn index(&self, pointer: &Pointer<T>) -> (r: &T)
        requires
            pointer.data.storage_id == self.id,
            pointer.data.index < self.inner.data@.len(),
        ensures
            *r == self.inner.data@[pointer.data.index as int],
    {
        &self.inner.data[pointer.data.get_index()]
    }

    /// The component behind a pointer of this storage, for change.
    pub fn index_mut(&mut self, pointer: &Pointer<T>) -> (r: &mut T)
        requires
            pointer.data.storage_id == old(self).id,
            pointer.data.index < old(self).inner.data@.len(),
        ensures
            *r == old(self).inner.data@[pointer.data.index as int],
            final(self).inner.data@ == old(self).inner.data@.update(
                pointer.data.index as int,
                *final(r),
            ),
            final(self).inner.meta == old(self).inner.meta,
            final(self).inner.free_list == old(self).inner.free_list,
            final(self).pending == old(self).pending,
            final(self).id == old(self).id,
    {
        &mut self.inner.data[pointer.data.index]
    }

    /// Applies the queued changes: counts move by the queued additions and
    /// drops, and each slot left without a reference advances its epoch and
    /// joins the free list.
    pub fn sync_pending(&mut self)
        requires
            old(self).wf(),
            old(self).can_sync(),
        ensures
            final(self).wf(),
            old(self).syncs_to(*final(self)),
    {
        let ghost s0 = *self;
        let total: usize = self.inner.data.len();
        let ghost raised = s0.raised();
        let ghost adds = self.pending.add_ref@;
        let ghost subs = self.pending.sub_ref@;
        while self.pending.epoch.len() < total
            invariant
                total == s0.inner.meta@.len(),
                s0.pending.epoch@.len() <= self.pending.epoch@.len() <= total,
                forall|i: int|
                    0 <= i < total ==> epoch_of(self.pending.epoch@, i) == #[trigger] epoch_of(
                        s0.pending.epoch@,
                        i,
                    ),
                self.inner == s0.inner,
                self.pending.add_ref == s0.pending.add_ref,
                self.pending.sub_ref == s0.pending.sub_ref,
                self.id == s0.id,
            decreases total - self.pending.epoch@.len(),
        {
            self.pending.epoch.push(0);
        }
        let ghost epochs = self.pending.epoch@;
        let mut k: usize = 0;
        assert(adds.take(0) =~= Seq::<Index>::empty());
        while k < self.pending.add_ref.len()
            invariant
                k <= adds.len(),
                total == s0.inner.meta@.len(),
                s0.wf(),
                s0.can_sync(),
                adds == s0.pending.add_ref@,
                self.pending.add_ref == s0.pending.add_ref,
                self.pending.sub_ref == s0.pending.sub_ref,
                self.pending.epoch@ == epochs,
                self.id == s0.id,
                self.inner.data == s0.inner.data,
                self.inner.free_list == s0.inner.free_list,
                self.inner.meta@.len() == total,
                forall|i: Index|
                    i < total ==> #[trigger] self.inner.meta@[i as int] == s0.inner.meta@[i as int]
                        + occurrences(adds.take(k as int), i),
            decreases adds.len() - k,
        {
            let index: Index = self.pending.add_ref[k];
            proof {
                assert(adds.take(k + 1) =~= adds.take(k as int).push(index));
                lemma_occurrences_push(adds.take(k as int), index);
                lemma_occurrences_prefix(adds, k + 1, index);
                assert(s0.inner.meta@[index as int] + occurrences(adds, index) <= RefCount::MAX);
                assert(occurrences(adds.take(k + 1), index) == occurrences(
                    adds.take(k as int),
                    index,
                ) + 1);
            }
            self.inner.meta[index] = self.inner.meta[index] + 1;
            assert forall|i: Index| i < total implies #[trigger] self.inner.meta@[i as int]
                == s0.inner.meta@[i as int] + occurrences(adds.take(k + 1), i) by {
                assert(occurrences(adds.take(k as int).push(index), i) == occurrences(
                    adds.take(k as int),
                    i,
                ) + if i == index {
                    1nat
                } else {
                    0nat
                });
            }
            k += 1;
        }
        assert(adds.take(adds.len() as int) =~= adds);
        self.pending.add_ref.clear();
        let id: StorageId = self.id;
        let (refs, _) = self.pending.drain_sub();
        let mut k: usize = 0;
        assert(subs.take(0) =~= Seq::<Index>::empty());
        let ghost free0 = s0.inner.free_list@;
        let ghost entry = |i: Index| s0.freed_entry(i);
        assert(releases(raised, subs.take(0)).map_values(entry) =~= Seq::<PointerData>::empty());
        while k < refs.len()
            invariant
                k <= subs.len(),
                total == s0.inner.meta@.len(),
                s0.wf(),
                s0.can_sync(),
                adds == s0.pending.add_ref@,
                subs == s0.pending.sub_ref@,
                raised == s0.raised(),
                refs@ == subs,
                id == s0.id,
                self.id == s0.id,
                self.pending.add_ref@.len() == 0,
                self.pending.sub_ref@.len() == 0,
                free0 == s0.inner.free_list@,
                entry == (|i: Index| s0.freed_entry(i)),
                self.inner.data == s0.inner.data,
                self.inner.meta@.len() == total,
                self.pending.epoch@.len() == total,
                epochs.len() == total,
                forall|i: int|
                    0 <= i < total ==> #[trigger] epochs[i] == epoch_of(s0.pending.epoch@, i),
                forall|i: Index|
                    i < total ==> #[trigger] self.inner.meta@[i as int] == raised[i as int]
                        - occurrences(subs.take(k as int), i),
                forall|i: Index|
                    i < total ==> #[trigger] self.pending.epoch@[i as int] == epochs[i as int] + if occurrences(
                        subs.take(k as int),
                        i,
                    ) > 0 && self.inner.meta@[i as int] == 0 {
                        1int
                    } else {
                        0int
                    },
                self.inner.free_list@ == free0 + releases(raised, subs.take(k as int)).map_values(
                    entry,
                ),
            decreases subs.len() - k,
        {
            let index: Index = refs[k];
            let ghost before = subs.take(k as int);
            let ghost after = subs.take(k + 1);
            proof {
                assert(subs[k as int] < total);
                assert(after =~= before.push(index));
                assert(after.drop_last() =~= before);
                lemma_occurrences_push(before, index);
                lemma_occurrences_prefix(subs, k + 1, index);
                assert(occurrences(before.push(index), index) == occurrences(before, index) + 1);
                assert(s0.inner.meta@[index as int] + occurrences(adds, index) <= RefCount::MAX);
                assert(s0.balance(index) >= 0);
                assert(raised[index as int] >= occurrences(subs, index));
                assert(self.pending.epoch@[index as int] == epochs[index as int]);
            }
            let left: RefCount = self.inner.meta[index] - 1;
            self.inner.meta[index] = left;
            if left == 0 {
                proof {
                    assert(raised[index as int] == occurrences(after, index));
                    assert(occurrences(subs, index) == occurrences(after, index));
                    assert(s0.balance(index) == 0);
                    assert(epochs[index as int] < Epoch::MAX);
                }
                let bumped: Epoch = self.pending.epoch[index] + 1;
                self.pending.epoch[index] = bumped;
                let data: PointerData = PointerData::new(index, bumped, id);
                self.inner.free_list.push(data);
                proof {
                    assert(data == entry(index));
                    assert(releases(raised, after) == releases(raised, before).push(index));
                    assert(releases(raised, after).map_values(entry) =~= releases(
                        raised,
                        before,
                    ).map_values(entry).push(data));
                }
            } else {
                assert(releases(raised, after) == releases(raised, before));
            }
            assert forall|i: Index| i < total implies #[trigger] self.inner.meta@[i as int]
                == raised[i as int] - occurrences(after, i) by {
                assert(occurrences(before.push(index), i) == occurrences(before, i) + if i == index {
                    1nat
                } else {
                    0nat
                });
            }
            assert forall|i: Index| i < total implies #[trigger] self.pending.epoch@[i as int] == epochs[i as int]
                + if occurrences(after, i) > 0 && self.inner.meta@[i as int] == 0 {
                1int
            } else {
                0int
            } by {
                assert(occurrences(before.push(index), i) == occurrences(before, i) + if i == index {
                    1nat
                } else {
                    0nat
                });
            }
            k += 1;
        }
        proof {
            assert(subs.take(subs.len() as int) =~= subs);
            self.lemma_synced_wf(s0);
        }
    }

    /// Validity carries over a synchronisation.
    pub proof fn lemma_synced_wf(self, s0: Self)
        requires
            s0.wf(),
            s0.can_sync(),
            s0.syncs_to(self),
        ensures
            self.wf(),
    {
        let entry = |i: Index| s0.freed_entry(i);
        let free0 = s0.inner.free_list@;
        let subs = s0.pending.sub_ref@;
        let rel = s0.released();
        let added = rel.map_values(entry);
        let free1 = self.inner.free_list@;
        assert forall|i: Index| i < s0.raised().len() implies #[trigger] occurrences(subs, i)
            <= s0.raised()[i as int] by {
            assert(s0.inner.meta@[i as int] + occurrences(s0.pending.add_ref@, i) <= RefCount::MAX);
            assert(s0.balance(i) >= 0);
        }
        lemma_releases(s0.raised(), subs);
        assert forall|k: int| 0 <= k < free1.len() implies self.free_entry_wf(#[trigger] free1[k]) by {
            if k < free0.len() {
                let e = free0[k];
                assert(s0.free_entry_wf(e));
                assert(self.inner.meta@[e.index as int] == s0.balance(e.index));
                assert(self.pending.epoch@[e.index as int] == s0.synced_epoch(e.index));
            } else {
                let i = rel[k - free0.len()];
                assert(rel.contains(i));
                assert(free1[k] == entry(i));
                assert(self.inner.meta@[i as int] == s0.balance(i));
                assert(self.pending.epoch@[i as int] == s0.synced_epoch(i));
            }
        }
        assert forall|a: int, b: int| 0 <= a < b < free1.len() implies (#[trigger] free1[a]).index
            != (#[trigger] free1[b]).index by {
            if b < free0.len() {
                assert(free0[a].index != free0[b].index);
            } else if a >= free0.len() {
                assert(rel[a - free0.len()] != rel[b - free0.len()]);
            } else {
                assert(s0.free_entry_wf(free0[a]));
                assert(rel.contains(rel[b - free0.len()]));
            }
        }
    }

    /// Tests whether the queued changes can be applied.
    pub fn sync_ready(&self) -> (r: bool)
        requires
            self.wf(),
        ensures
            r == self.can_sync(),
    {
        let mut i: usize = 0;
        while i < self.inner.meta.len()
            invariant
                i <= self.inner.meta@.len(),
                self.wf(),
                forall|j: Index|
                    j < i ==> {
                        &&& #[trigger] self.inner.meta@[j as int] + occurrences(
                            self.pending.add_ref@,
                            j,
                        ) <= RefCount::MAX
                        &&& self.balance(j) >= 0
                        &&& occurrences(self.pending.sub_ref@, j) > 0 && self.balance(j) == 0
                            ==> epoch_of(self.pending.epoch@, j as int) < Epoch::MAX
                    },
            decreases self.inner.meta@.len() - i,
        {
            let added: usize = count_index(&self.pending.add_ref, i);
            let dropped: usize = count_index(&self.pending.sub_ref, i);
            let held: usize = self.inner.meta[i] as usize;
            if added > 65535 || held + added > 65535 || dropped > held + added {
                return false;
            }
            if dropped > 0 && dropped == held + added && self.pending.get_epoch(i) == 65535 {
                return false;
            }
            i += 1;
        }
        true
    }

    /// All components, those without a reference left out.
    pub fn iter(&self) -> (r: Iter<'_, T>)
        ensures
            *r.storage == self.inner,
            r.skip_lost,
            r.index == 0,
    {
        Iter { storage: &self.inner, skip_lost: true, index: 0 }
    }

    /// All components.
    pub fn iter_all(&self) -> (r: Iter<'_, T>)
        ensures
            *r.storage == self.inner,
            !r.skip_lost,
            r.index == 0,
    {
        Iter { storage: &self.inner, skip_lost: false, index: 0 }
    }

    /// All referenced components, for change.
    pub fn iter_mut(&mut self) -> (r: IterMut<'_, T>)
        ensures
            *r.storage == old(self).inner,
            r.front == 0,
            r.back == old(self).inner.data@.len(),
            final(self).inner == *final(r.storage),
            final(self).pending == old(self).pending,
            final(self).id == old(self).id,
    {
        let back: usize = self.inner.data.len();
        IterMut { storage: &mut self.inner, front: 0, back }
    }

    /// All components, for change.
    pub fn iter_all_mut(&mut self) -> (r: &mut [T])
        ensures
            r@ == old(self).inner.data@,
            final(self).inner.data@ == final(r)@,
            final(self).inner.meta == old(self).inner.meta,
            final(self).inner.free_list == old(self).inner.free_list,
            final(self).pending == old(self).pending,
            final(self).id == old(self).id,
    {
        self.inner.data.as_mut_slice()
    }

    /// Strong pointer to a visited item.
    pub fn pin(&mut self, index: Index) -> (r: Pointer<T>)
        ensures
            r.data == (PointerData {
                index,
                epoch: epoch_of(old(self).pending.epoch@, index as int),
                storage_id: old(self).id,
            }),
            final(self).inner == old(self).inner,
            final(self).id == old(self).id,
            old(self).pending.adds(index, final(self).pending),
    {
        self.pending.add_ref.push(index);
        Pointer {
            data: PointerData::new(index, self.pending.get_epoch(index), self.id),
            marker: PhantomData,
        }
    }

    /// Parts the components around the one behind `pointer`.
    pub fn split(&mut self, pointer: &Pointer<T>) -> (r: (Slice<'_, T>, &mut T, Slice<'_, T>))
        requires
            pointer.data.storage_id == old(self).id,
            pointer.data.index < old(self).inner.data@.len(),
        ensures
            r.0.slice@ == old(self).inner.data@.take(pointer.data.index as int),
            r.0.offset == (PointerData { index: 0, epoch: 0, storage_id: old(self).id }),
            *r.1 == old(self).inner.data@[pointer.data.index as int],
            r.2.slice@ == old(self).inner.data@.skip(pointer.data.index + 1),
            r.2.offset == (PointerData {
                index: (pointer.data.index + 1) as usize,
                epoch: 0,
                storage_id: old(self).id,
            }),
            final(self).inner.data@ == final(r.0.slice)@ + seq![*final(r.1)] + final(r.2.slice)@,
            final(self).inner.meta == old(self).inner.meta,
            final(self).inner.free_list == old(self).inner.free_list,
            final(self).pending == old(self).pending,
            final(self).id == old(self).id,
    {
        self.inner.split(pointer.data)
    }

    /// Cursor before the first component.
    pub fn cursor(&mut self) -> (r: Cursor<'_, T>)
        ensures
            *r.storage == old(self).inner,
            *r.pending == old(self).pending,
            r.index == 0,
            r.storage_id == old(self).id,
            final(self).inner == *final(r.storage),
            final(self).pending == *final(r.pending),
            final(self).id == old(self).id,
    {
        Cursor {
            storage: &mut self.inner,
            pending: &mut self.pending,
            index: 0,
            storage_id: self.id,
        }
    }

    /// Cursor after the last component.
    pub fn cursor_end(&mut self) -> (r: Cursor<'_, T>)
        ensures
            *r.storage == old(self).inner,
            *r.pending == old(self).pending,
            r.index == old(self).inner.data@.len(),
            r.storage_id == old(self).id,
            final(self).inner == *final(r.storage),
            final(self).pending == *final(r.pending),
            final(self).id == old(self).id,
    {
        let total: usize = self.inner.data.len();
        Cursor {
            storage: &mut self.inner,
            pending: &mut self.pending,
            index: total,
            storage_id: self.id,
        }
    }

    /// Stores a component and returns its first strong pointer. The slot
    /// vacated last is used again; without one the storage grows.
    pub fn create(&mut self, value: T) -> (r: Pointer<T>)
        requires
            old(self).wf(),
        ensures
            final(self).wf(),
            r.data == old(self).next_slot(),
            old(self).creates(value, *final(self)),
    {
        let ghost s0 = *self;
        let data: PointerData = if let Some(data) = self.inner.free_list.pop() {
            let i: usize = data.get_index();
            assert(s0.inner.free_list@[s0.inner.free_list@.len() - 1] == data);
            assert(s0.free_entry_wf(data));
            self.inner.data[i] = value;
            self.inner.meta[i] = 1;
            assert forall|k: int| 0 <= k < self.inner.free_list@.len() implies self.free_entry_wf(
                #[trigger] self.inner.free_list@[k],
            ) by {
                assert(s0.inner.free_list@[k] == self.inner.free_list@[k]);
                assert(s0.free_entry_wf(s0.inner.free_list@[k]));
                assert(s0.inner.free_list@[k].index != data.index);
            }
            data
        } else {
            let i: usize = self.inner.meta.len();
            self.inner.data.push(value);
            self.inner.meta.push(1);
            assert forall|k: int| 0 <= k < self.inner.free_list@.len() implies self.free_entry_wf(
                #[trigger] self.inner.free_list@[k],
            ) by {
                assert(s0.free_entry_wf(s0.inner.free_list@[k]));
            }
            PointerData::new(i, 0, self.id)
        };
        Pointer { data, marker: PhantomData }
    }

    /// Address that the next created component gets.
    pub open spec fn next_slot(self) -> PointerData {
        if self.inner.free_list@.len() > 0 {
            self.inner.free_list@.last()
        } else {
            PointerData {
                index: self.inner.meta@.len() as usize,
                epoch: 0,
                storage_id: self.id,
            }
        }
    }
}

/// Counts an index in a queue.
fn count_index(queue: &Vec<Index>, index: Index) -> (r: usize)
    ensures
        r == occurrences(queue@, index),
{
    let mut k: usize = 0;
    let mut n: usize = 0;
    assert(queue@.take(0) =~= Seq::<Index>::empty());
    while k < queue.len()
        invariant
            n <= k <= queue@.len(),
            n == occurrences(queue@.take(k as int), index),
        decreases queue@.len() - k,
    {
        proof {
            assert(queue@.take(k + 1) =~= queue@.take(k as int).push(queue@[k as int]));
            lemma_occurrences_push(queue@.take(k as int), queue@[k as int]);
            assert(occurrences(queue@.take(k as int).push(queue@[k as int]), index) >= 0);
        }
        if queue[k] == index {
            n += 1;
        }
        k += 1;
    }
    assert(queue@.take(queue@.len() as int) =~= queue@);
    n
}

/// Item that an iteration visits.
#[derive(Debug)]
pub struct Item<'a, T> {
    pub data: &'a T,
    pub index: Index,
}

/// Iterator over components with their slots.
#[derive(Debug)]
pub struct Iter<'a, T> {
    pub storage: &'a StorageInner<T>,
    pub skip_lost: bool,
    pub index: Index,
}

impl<'a, T> Iter<'a, T> {
    /// Slots that are still to be visited.
    pub open spec fn remaining(self) -> Seq<int> {
        kept_from(self.storage.meta@, self.skip_lost, self.index as int)
    }

    /// Visits the next component.
    pub fn next(&mut self) -> (r: Option<Item<'a, T>>)
        requires
            old(self).storage.data@.len() == old(self).storage.meta@.len(),
        ensures
            final(self).storage == old(self).storage,
            final(self).skip_lost == old(self).skip_lost,
            match r {
                Some(item) => {
                    &&& old(self).remaining().len() > 0
                    &&& item.index == old(self).remaining()[0]
                    &&& *item.data == old(self).storage.data@[item.index as int]
                    &&& final(self).index == item.index + 1
                    &&& final(self).remaining() == old(self).remaining().skip(1)
                },
                None => {
                    &&& old(self).remaining().len() == 0
                    &&& final(self).remaining().len() == 0
                },
            },
    {
        let total: usize = self.storage.data.len();
        if self.index >= total {
            return None;
        }
        proof {
            lemma_first_kept(self.storage.meta@, self.skip_lost, self.index as int);
            lemma_kept_unfold(self.storage.meta@, self.skip_lost, self.index as int);
        }
        let id: usize = self.storage.find_kept(self.skip_lost, self.index);
        if id >= total {
            self.index = total;
            return None;
        }
        self.index = id + 1;
        assert(self.remaining() =~= old(self).remaining().skip(1));
        Some(Item { data: &self.storage.data[id], index: id })
    }
}

impl<'a, T> Clone for Iter<'a, T> {
    fn clone(&self) -> (r: Self)
        ensures
            r.storage == self.storage,
            r.skip_lost == self.skip_lost,
            r.index == self.index,
    {
        Iter { storage: self.storage, skip_lost: self.skip_lost, index: self.index }
    }
}

/// Double-ended iterator over referenced components, for change.
#[derive(Debug)]
pub struct IterMut<'a, T> {
    pub storage: &'a mut StorageInner<T>,
    pub front: Index,
    pub back: Index,
}

impl<'a, T> IterMut<'a, T> {
    /// Validity: both ends lie inside the storage.
    pub open spec fn wf(self) -> bool {
        &&& self.storage.data@.len() == self.storage.meta@.len()
        &&& self.front <= self.back <= self.storage.meta@.len()
    }

    /// Visits the next referenced component from the front.
    pub fn next(&mut self) -> (r: Option<&mut T>)
        requires
            old(self).wf(),
        ensures
            final(self).wf(),
            *final(final(self).storage) == *final(old(self).storage),
            final(self).storage.meta == old(self).storage.meta,
            final(self).storage.free_list == old(self).storage.free_list,
            final(self).back == old(self).back,
            ({
                let (visited, front) = step_forward(
                    old(self).storage.meta@,
                    old(self).front as int,
                    old(self).back as int,
                );
                &&& final(self).front == front
                &&& match (r, visited) {
                    (Some(item), Some(j)) => {
                        &&& *item == old(self).storage.data@[j]
                        &&& final(self).storage.data@ == old(self).storage.data@.update(
                            j,
                            *final(item),
                        )
                    },
                    (None, None) => final(self).storage.data == old(self).storage.data,
                    _ => false,
                }
            }),
    {
        let ghost meta = self.storage.meta@;
        let ghost front0 = self.front;
        let ghost storage0 = *self.storage;
        let back: usize = self.back;
        let mut id: usize = self.front;
        while id < back && self.storage.meta[id] == 0
            invariant
                front0 <= id <= back <= self.storage.meta@.len(),
                meta == self.storage.meta@,
                first_kept(meta, true, id as int) == first_kept(meta, true, front0 as int),
                *self.storage == storage0,
                *final(self.storage) == *final(old(self).storage),
                self.back == back,
            decreases back - id,
        {
            id += 1;
        }
        proof {
            lemma_first_kept(meta, true, id as int);
        }
        if id < back {
            self.front = id + 1;
            Some(&mut self.storage.data[id])
        } else {
            self.front = back;
            None
        }
    }

    /// Visits the next referenced component from the back.
    pub fn next_back(&mut self) -> (r: Option<&mut T>)
        requires
            old(self).wf(),
        ensures
            final(self).wf(),
            *final(final(self).storage) == *final(old(self).storage),
            final(self).storage.meta == old(self).storage.meta,
            final(self).storage.free_list == old(self).storage.free_list,
            final(self).front == old(self).front,
            ({
                let (visited, back) = step_back(
                    old(self).storage.meta@,
                    old(self).front as int,
                    old(self).back as int,
                );
                &&& final(self).back == back
                &&& match (r, visited) {
                    (Some(item), Some(j)) => {
                        &&& *item == old(self).storage.data@[j]
                        &&& final(self).storage.data@ == old(self).storage.data@.update(
                            j,
                            *final(item),
                        )
                    },
                    (None, None) => final(self).storage.data == old(self).storage.data,
                    _ => false,
                }
            }),
    {
        let ghost back0 = self.back;
        let ghost storage0 = *self.storage;
        let front: usize = self.front;
        let mut id: usize = self.back;
        while id > front && self.storage.meta[id - 1] == 0
            invariant
                front <= id <= back0 <= self.storage.meta@.len(),
                last_live(self.storage.meta@, id as int) == last_live(
                    self.storage.meta@,
                    back0 as int,
                ),
                *self.storage == storage0,
                *final(self.storage) == *final(old(self).storage),
                self.front == front,
            decreases id,
        {
            id -= 1;
        }
        if id > front {
            self.back = id - 1;
            Some(&mut self.storage.data[id - 1])
        } else {
            self.back = front;
            proof {
                lemma_last_live_below(self.storage.meta@, front as int);
            }
            None
        }
    }
}

pub proof fn lemma_last_live_below(meta: Seq<RefCount>, to: int)
    requires
        0 <= to <= meta.len(),
    ensures
        -1 <= last_live(meta, to) < to,
    decreases to,
{
    if to > 0 && meta[to - 1] == 0 {
        lemma_last_live_below(meta, to - 1);
    }
}

} // verus!
