//! Slot addresses and the queue of reference-count changes.

use vstd::prelude::*;

verus! {

/// Position of a component inside its storage.
pub type Index = usize;

/// Number of strong references to a slot.
pub type RefCount = u16;

/// Number of times a slot has been vacated.
pub type Epoch = u16;

/// Identity of a storage.
pub type StorageId = u8;

/// Address of a component: slot, epoch of the slot, and storage.
#[derive(Clone, Copy, Debug, PartialEq, Eq, Hash, Structural)]
pub struct PointerData {
    pub index: Index,
    pub epoch: Epoch,
    pub storage_id: StorageId,
}

impl PointerData {
    pub fn new(index: Index, epoch: Epoch, storage_id: StorageId) -> (r: Self)
        ensures
            r == (PointerData { index, epoch, storage_id }),
    {
        PointerData { index, epoch, storage_id }
    }

    pub fn get_index(&self) -> (r: Index)
        ensures
            r == self.index,
    {
        self.index
    }

    pub fn get_epoch(&self) -> (r: Epoch)
        ensures
            r == self.epoch,
    {
        self.epoch
    }

    pub fn get_storage_id(&self) -> (r: StorageId)
        ensures
            r == self.storage_id,
    {
        self.storage_id
    }

    /// The same slot of the same storage at another epoch.
    pub fn with_epoch(self, epoch: Epoch) -> (r: Self)
        ensures
            r == (PointerData { index: self.index, epoch, storage_id: self.storage_id }),
    {
        PointerData { index: self.index, epoch, storage_id: self.storage_id }
    }
}

/// How often `x` occurs in `s`.
pub open spec fn occurrences(s: Seq<Index>, x: Index) -> nat
    decreases s.len(),
{
    if s.len() == 0 {
        0
    } else {
        occurrences(s.drop_last(), x) + if s.last() == x {
            1nat
        } else {
            0nat
        }
    }
}

/// Appending `y` adds one occurrence of `y` and none of anything else.
pub proof fn lemma_occurrences_push(s: Seq<Index>, y: Index)
    ensures
        forall|x: Index| #[trigger]
            occurrences(s.push(y), x) == occurrences(s, x) + if x == y {
                1nat
            } else {
                0nat
            },
{
    assert(s.push(y).drop_last() =~= s);
}

/// A prefix holds no more occurrences than the whole.
pub proof fn lemma_occurrences_prefix(s: Seq<Index>, k: int, x: Index)
    requires
        0 <= k <= s.len(),
    ensures
        occurrences(s.take(k), x) <= occurrences(s, x),
    decreases s.len(),
{
    if k == s.len() {
        assert(s.take(k) =~= s);
    } else {
        lemma_occurrences_prefix(s.drop_last(), k, x);
        assert(s.drop_last().take(k) =~= s.take(k));
    }
}

/// What a sequence does not hold does not occur in it.
pub proof fn lemma_occurrences_absent(s: Seq<Index>, x: Index)
    requires
        !s.contains(x),
    ensures
        occurrences(s, x) == 0,
    decreases s.len(),
{
    if s.len() > 0 {
        assert(s[s.len() - 1] == s.last());
        let head = s.drop_last();
        if head.contains(x) {
            let k = choose|k: int| 0 <= k < head.len() && head[k] == x;
            assert(s[k] == x);
        }
        lemma_occurrences_absent(head, x);
    }
}

/// In a sequence without duplicates, an element occurs once or not at all.
pub proof fn lemma_occurrences_distinct(s: Seq<Index>, x: Index)
    requires
        s.no_duplicates(),
    ensures
        occurrences(s, x) == if s.contains(x) {
            1nat
        } else {
            0nat
        },
    decreases s.len(),
{
    if s.len() > 0 {
        let head = s.drop_last();
        lemma_occurrences_distinct(head, x);
        assert(s.contains(x) <==> head.contains(x) || s.last() == x) by {
            if head.contains(x) {
                let k = choose|k: int| 0 <= k < head.len() && head[k] == x;
                assert(s[k] == x);
            }
            if s.contains(x) && s.last() != x {
                let k = choose|k: int| 0 <= k < s.len() && s[k] == x;
                assert(head[k] == x);
            }
            if s.last() == x {
                assert(s[s.len() - 1] == x);
            }
        }
        if head.contains(x) && s.last() == x {
            let k = choose|k: int| 0 <= k < head.len() && head[k] == x;
            assert(s[k] == s[s.len() - 1]);
        }
    }
}

/// Reference-count changes that the storage has not applied yet, and the
/// current epoch of each slot.
#[derive(Debug)]
pub struct Pending {
    pub add_ref: Vec<Index>,
    pub sub_ref: Vec<Index>,
    pub epoch: Vec<Epoch>,
}

/// Epoch of a slot; a slot without an entry was never vacated.
pub open spec fn epoch_of(epoch: Seq<Epoch>, index: int) -> Epoch {
    if 0 <= index < epoch.len() {
        epoch[index]
    } else {
        0
    }
}

impl Pending {
    /// Whether `after` has one more added reference to a slot queued, and
    /// nothing else differs.
    pub open spec fn adds(self, index: Index, after: Self) -> bool {
        &&& after.add_ref@ == self.add_ref@.push(index)
        &&& after.sub_ref == self.sub_ref
        &&& after.epoch == self.epoch
    }

    /// Whether `after` has one more dropped reference to a slot queued, and
    /// nothing else differs.
    pub open spec fn drops(self, index: Index, after: Self) -> bool {
        &&& after.add_ref == self.add_ref
        &&& after.sub_ref@ == self.sub_ref@.push(index)
        &&& after.epoch == self.epoch
    }

    /// Whether an address is that of the component now in its slot.
    pub open spec fn is_current(self, data: PointerData) -> bool {
        epoch_of(self.epoch@, data.index as int) == data.epoch
    }

    /// Takes the queued drops and gives access to the epochs they may bump.
    pub fn drain_sub(&mut self) -> (r: (Vec<Index>, &mut Vec<Epoch>))
        ensures
            r.0@ == old(self).sub_ref@,
            r.1@ == old(self).epoch@,
            final(self).add_ref == old(self).add_ref,
            final(self).sub_ref@ == Seq::<Index>::empty(),
            final(self).epoch == *final(r.1),
    {
        let mut taken: Vec<Index> = Vec::new();
        core::mem::swap(&mut taken, &mut self.sub_ref);
        (taken, &mut self.epoch)
    }

    pub fn get_epoch(&self, index: Index) -> (r: Epoch)
        ensures
            r == epoch_of(self.epoch@, index as int),
    {
        if index < self.epoch.len() {
            self.epoch[index]
        } else {
            0
        }
    }
}

} // verus!
