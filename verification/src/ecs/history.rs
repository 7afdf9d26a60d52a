//! A storage and the handles to its components, step by step.

use vstd::multiset::Multiset;
use vstd::prelude::*;

use super::laws::{
    law_clone_ref_books_one_reference, law_release_books_one_drop, lemma_released_iff,
};
use super::pending::{
    epoch_of, lemma_occurrences_absent, lemma_occurrences_push, occurrences, Index, PointerData,
    RefCount,
};
use super::storage::{kept_from, law_iteration_visits_kept_slots, Storage};

verus! {

/// A storage with the handles that exist: the addresses of the strong pointers,
/// each as often as it is held, and those of the weak pointers made so far.
pub struct World<T> {
    pub storage: Storage<T>,
    pub strong: Multiset<PointerData>,
    pub weak: Set<PointerData>,
}

/// One operation on a storage or on its handles.
pub enum Step<T> {
    /// `Storage::create`.
    Create(T),
    /// `Pointer::clone_ref`.
    CloneRef(PointerData),
    /// `Storage::pin` or `CursorItem::pin`.
    Pin(Index),
    /// `Pointer::downgrade`.
    Downgrade(PointerData),
    /// `WeakPointer::upgrade`.
    Upgrade(PointerData),
    /// `Pointer::release`.
    Release(PointerData),
    /// A change of components through references.
    Change,
    /// `Storage::sync_pending`.
    Sync,
}

impl<T> World<T> {
    /// Number of slots.
    pub open spec fn slots(self) -> int {
        self.storage.inner.meta@.len() as int
    }

    /// Address of the component now in a slot.
    pub open spec fn address(self, i: Index) -> PointerData {
        PointerData {
            index: i,
            epoch: epoch_of(self.storage.pending.epoch@, i as int),
            storage_id: self.storage.id,
        }
    }

    /// Whether a strong pointer to a slot exists.
    pub open spec fn is_held(self, i: int) -> bool {
        exists|p: PointerData| #[trigger] self.strong.count(p) > 0 && p.index == i
    }

    /// Whether the storage is new: no handle exists and no slot has a reference.
    pub open spec fn fresh(self) -> bool {
        &&& self.storage.wf()
        &&& self.storage.inner.free_list@.len() == 0
        &&& self.storage.pending.add_ref@.len() == 0
        &&& self.storage.pending.sub_ref@.len() == 0
        &&& forall|i: int| 0 <= i < self.slots() ==> #[trigger] self.storage.inner.meta@[i] == 0
        &&& self.strong == Multiset::<PointerData>::empty()
        &&& self.weak == Set::<PointerData>::empty()
    }

    /// Whether the component that `w` was made for is still in its slot, and
    /// will be given up only by a synchronisation that finds it unreferenced.
    pub open spec fn stands(self, w: PointerData) -> bool {
        &&& w.index < self.slots()
        &&& w == self.address(w.index)
        &&& !self.storage.is_free(w.index)
        &&& self.strong.count(w) > 0 || occurrences(self.storage.pending.sub_ref@, w.index) > 0
    }

    /// Whether the component that `w` was made for was given up.
    pub open spec fn passed(self, w: PointerData) -> bool {
        &&& w.index < self.slots()
        &&& w.storage_id == self.storage.id
        &&& w.epoch < epoch_of(self.storage.pending.epoch@, w.index as int)
    }

    /// What holds at all times: a strong pointer is the address of the component
    /// in a slot in use, the balance of a slot is the number of strong pointers
    /// to it, and a weak pointer is for a component that was there.
    pub open spec fn valid(self) -> bool {
        &&& self.storage.wf()
        &&& forall|p: PointerData| #[trigger]
            self.strong.count(p) > 0 ==> p.index < self.slots() && p == self.address(p.index)
                && !self.storage.is_free(p.index)
        &&& forall|i: Index|
            i < self.slots() ==> #[trigger] self.storage.balance(i) == self.strong.count(
                self.address(i),
            )
        &&& forall|w: PointerData| #[trigger]
            self.weak.contains(w) ==> self.stands(w) || self.passed(w)
    }

    /// Whether one more reference to slot `i` is booked.
    pub open spec fn books_reference(self, i: Index, after: Self) -> bool {
        &&& after.storage.inner == self.storage.inner
        &&& after.storage.id == self.storage.id
        &&& self.storage.pending.adds(i, after.storage.pending)
    }

    /// What a step makes of the storage and of the handles. A pointer can be
    /// cloned, downgraded or released only while it is held, a weak pointer
    /// upgraded only if it was made, and a slot pinned only while it is in use.
    pub open spec fn takes(self, step: Step<T>, after: Self) -> bool {
        match step {
            Step::Create(value) => {
                &&& self.storage.creates(value, after.storage)
                &&& after.storage.wf()
                &&& after.strong == self.strong.insert(self.storage.next_slot())
                &&& after.weak == self.weak
            },
            Step::CloneRef(p) => {
                &&& self.strong.count(p) > 0
                &&& self.books_reference(p.index, after)
                &&& after.strong == self.strong.insert(p)
                &&& after.weak == self.weak
            },
            Step::Pin(i) => {
                &&& i < self.slots()
                &&& !self.storage.is_free(i)
                &&& self.books_reference(i, after)
                &&& after.strong == self.strong.insert(self.address(i))
                &&& after.weak == self.weak
            },
            Step::Downgrade(p) => {
                &&& self.strong.count(p) > 0
                &&& after.storage == self.storage
                &&& after.strong == self.strong
                &&& after.weak == self.weak.insert(p)
            },
            Step::Upgrade(w) => {
                &&& self.weak.contains(w)
                &&& after.weak == self.weak
                &&& if self.storage.pending.is_current(w) {
                    &&& self.books_reference(w.index, after)
                    &&& after.strong == self.strong.insert(w)
                } else {
                    &&& after.storage == self.storage
                    &&& after.strong == self.strong
                }
            },
            Step::Release(p) => {
                &&& self.strong.count(p) > 0
                &&& after.storage.inner == self.storage.inner
                &&& after.storage.id == self.storage.id
                &&& self.storage.pending.drops(p.index, after.storage.pending)
                &&& after.strong == self.strong.remove(p)
                &&& after.weak == self.weak
            },
            Step::Change => {
                &&& after.storage.inner.data@.len() == self.storage.inner.data@.len()
                &&& after.storage.inner.meta == self.storage.inner.meta
                &&& after.storage.inner.free_list == self.storage.inner.free_list
                &&& after.storage.pending == self.storage.pending
                &&& after.storage.id == self.storage.id
                &&& after.strong == self.strong
                &&& after.weak == self.weak
            },
            Step::Sync => {
                &&& self.storage.can_sync()
                &&& self.storage.syncs_to(after.storage)
                &&& after.storage.wf()
                &&& after.strong == self.strong
                &&& after.weak == self.weak
            },
        }
    }
}

/// Whether the worlds follow from a new storage by the steps.
pub open spec fn is_history<T>(worlds: Seq<World<T>>, steps: Seq<Step<T>>) -> bool {
    &&& worlds.len() == steps.len() + 1
    &&& worlds[0].fresh()
    &&& forall|k: int| 0 <= k < steps.len() ==> (#[trigger] worlds[k]).takes(steps[k], worlds[k + 1])
}

/// Booking a reference for a new strong pointer to a slot in use keeps what
/// holds at all times.
proof fn lemma_booked<T>(w: World<T>, t: World<T>, i: Index)
    requires
        w.valid(),
        i < w.slots(),
        !w.storage.is_free(i),
        w.books_reference(i, t),
        t.strong == w.strong.insert(w.address(i)),
        t.weak == w.weak,
    ensures
        t.valid(),
        forall|x: PointerData| #[trigger] w.stands(x) ==> t.stands(x),
{
    law_clone_ref_books_one_reference(w.storage, t.storage, i);
    assert forall|j: Index| #[trigger] t.storage.is_free(j) == w.storage.is_free(j) by {}
    assert forall|j: Index| j < t.slots() implies #[trigger] t.storage.balance(j)
        == t.strong.count(t.address(j)) by {
        assert(w.storage.balance(j) == w.strong.count(w.address(j)));
        assert(t.address(j) == w.address(j));
    }
    assert forall|p: PointerData| #[trigger] t.strong.count(p) > 0 implies p.index < t.slots() && p
        == t.address(p.index) && !t.storage.is_free(p.index) by {
        if p != w.address(i) {
            assert(w.strong.count(p) > 0);
        }
        assert(t.address(p.index) == w.address(p.index));
    }
    assert forall|x: PointerData| #[trigger] w.stands(x) implies t.stands(x) by {
        assert(t.address(x.index) == w.address(x.index));
    }
    assert forall|x: PointerData| #[trigger] t.weak.contains(x) implies t.stands(x) || t.passed(
        x,
    ) by {
        assert(w.weak.contains(x));
    }
}

proof fn lemma_released<T>(w: World<T>, t: World<T>, p: PointerData)
    requires
        w.valid(),
        w.takes(Step::Release(p), t),
    ensures
        t.valid(),
        forall|x: PointerData| #[trigger] w.stands(x) ==> t.stands(x),
{
    law_release_books_one_drop(w.storage, t.storage, p.index);
    lemma_occurrences_push(w.storage.pending.sub_ref@, p.index);
    assert forall|j: Index| #[trigger] t.storage.is_free(j) == w.storage.is_free(j) by {}
    assert forall|j: Index| j < t.slots() implies #[trigger] t.storage.balance(j)
        == t.strong.count(t.address(j)) by {
        assert(w.storage.balance(j) == w.strong.count(w.address(j)));
        assert(t.address(j) == w.address(j));
    }
    assert forall|x: PointerData| #[trigger] t.strong.count(x) > 0 implies x.index < t.slots() && x
        == t.address(x.index) && !t.storage.is_free(x.index) by {
        assert(w.strong.count(x) > 0);
        assert(t.address(x.index) == w.address(x.index));
    }
    assert forall|x: PointerData| #[trigger] w.stands(x) implies t.stands(x) by {
        assert(t.address(x.index) == w.address(x.index));
        assert(occurrences(w.storage.pending.sub_ref@.push(p.index), x.index) >= occurrences(
            w.storage.pending.sub_ref@,
            x.index,
        ));
        if x == p {
            assert(occurrences(w.storage.pending.sub_ref@.push(p.index), x.index) > 0);
        }
    }
    assert forall|x: PointerData| #[trigger] t.weak.contains(x) implies t.stands(x) || t.passed(
        x,
    ) by {
        assert(w.weak.contains(x));
    }
}

proof fn lemma_created<T>(w: World<T>, t: World<T>, value: T)
    requires
        w.valid(),
        w.takes(Step::Create(value), t),
    ensures
        t.valid(),
        forall|x: PointerData| #[trigger] w.stands(x) ==> t.stands(x),
        w.slots() <= t.slots(),
{
    let s = w.storage;
    let slot = s.next_slot();
    let free = s.inner.free_list@;
    assert(t.storage.inner.meta.len() == t.slots());
    if free.len() > 0 {
        assert(s.free_entry_wf(free[free.len() - 1]));
        assert(s.is_free(slot.index));
        assert forall|j: Index| #[trigger] t.storage.is_free(j) implies s.is_free(j) && j
            != slot.index by {
            let k = choose|k: int|
                0 <= k < t.storage.inner.free_list@.len()
                    && (#[trigger] t.storage.inner.free_list@[k]).index == j;
            assert(free[k].index == j);
            assert(free[k].index != free[free.len() - 1].index);
        }
    } else {
        assert forall|j: Index| !#[trigger] t.storage.is_free(j) by {}
        let adds = s.pending.add_ref@;
        let subs = s.pending.sub_ref@;
        if adds.contains(slot.index) {
            let k = choose|k: int| 0 <= k < adds.len() && adds[k] == slot.index;
            assert(adds[k] < w.slots());
        }
        if subs.contains(slot.index) {
            let k = choose|k: int| 0 <= k < subs.len() && subs[k] == slot.index;
            assert(subs[k] < w.slots());
        }
        lemma_occurrences_absent(adds, slot.index);
        lemma_occurrences_absent(subs, slot.index);
    }
    assert(slot == t.address(slot.index));
    assert(w.strong.count(slot) == 0) by {
        if w.strong.count(slot) > 0 {
            assert(slot.index < w.slots());
            assert(!s.is_free(slot.index));
        }
    }
    assert forall|j: Index| j < t.slots() implies #[trigger] t.storage.balance(j)
        == t.strong.count(t.address(j)) by {
        assert(t.address(j) == w.address(j));
        if j != slot.index {
            assert(s.balance(j) == w.strong.count(w.address(j)));
        }
    }
    assert forall|p: PointerData| #[trigger] t.strong.count(p) > 0 implies p.index < t.slots() && p
        == t.address(p.index) && !t.storage.is_free(p.index) by {
        if p != slot {
            assert(w.strong.count(p) > 0);
        }
        assert(t.address(p.index) == w.address(p.index));
    }
    assert forall|x: PointerData| #[trigger] w.stands(x) implies t.stands(x) by {
        assert(t.address(x.index) == w.address(x.index));
    }
    assert forall|x: PointerData| #[trigger] t.weak.contains(x) implies t.stands(x) || t.passed(
        x,
    ) by {
        assert(w.weak.contains(x));
    }
}

/// A slot in use is free after a synchronisation exactly if it is released.
proof fn lemma_freed_by_sync<T>(s: Storage<T>, t: Storage<T>, i: Index)
    requires
        s.wf(),
        s.can_sync(),
        s.syncs_to(t),
        !s.is_free(i),
    ensures
        t.is_free(i) <==> s.released().contains(i),
{
    let free0 = s.inner.free_list@;
    let rel = s.released();
    let entry = |j: Index| s.freed_entry(j);
    let free1 = t.inner.free_list@;
    assert(free1 == free0 + rel.map_values(entry));
    if t.is_free(i) {
        let k = choose|k: int| 0 <= k < free1.len() && (#[trigger] free1[k]).index == i;
        if k < free0.len() {
            assert(free0[k].index == i);
        } else {
            assert(free1[k] == entry(rel[k - free0.len()]));
            assert(rel[k - free0.len()] == i);
        }
    }
    if rel.contains(i) {
        let k = choose|k: int| 0 <= k < rel.len() && rel[k] == i;
        assert(free1[free0.len() + k] == entry(i));
        assert(free1[free0.len() + k].index == i);
    }
}

proof fn lemma_synced<T>(w: World<T>, t: World<T>)
    requires
        w.valid(),
        w.takes(Step::Sync, t),
    ensures
        t.valid(),
        forall|x: PointerData| #[trigger]
            w.stands(x) ==> if w.strong.count(x) > 0 {
                t.stands(x)
            } else {
                t.passed(x)
            },
        forall|x: PointerData| #[trigger] w.passed(x) ==> t.passed(x),
{
    let s = w.storage;
    lemma_released_iff(s);
    assert forall|i: Index| i < w.slots() implies #[trigger] t.storage.pending.epoch@[i as int]
        == s.synced_epoch(i) && s.synced_epoch(i) >= epoch_of(s.pending.epoch@, i as int) && (
    s.released().contains(i) ==> s.synced_epoch(i) == epoch_of(s.pending.epoch@, i as int) + 1)
        && (!s.released().contains(i) ==> t.address(i) == w.address(i)) by {
        assert(s.inner.meta@[i as int] + occurrences(s.pending.add_ref@, i) <= RefCount::MAX);
        assert(s.released().contains(i) <==> occurrences(s.pending.sub_ref@, i) > 0 && s.balance(i)
            == 0);
    }
    assert forall|p: PointerData| #[trigger] t.strong.count(p) > 0 implies p.index < t.slots() && p
        == t.address(p.index) && !t.storage.is_free(p.index) by {
        assert(w.strong.count(p) > 0);
        assert(s.balance(p.index) == w.strong.count(w.address(p.index)));
        assert(!s.released().contains(p.index));
        assert(t.storage.pending.epoch@[p.index as int] == s.synced_epoch(p.index));
        lemma_freed_by_sync(s, t.storage, p.index);
    }
    assert forall|i: Index| i < t.slots() implies #[trigger] t.storage.balance(i)
        == t.strong.count(t.address(i)) by {
        assert(t.storage.inner.meta@[i as int] == s.balance(i));
        assert(t.storage.pending.add_ref@ =~= Seq::<Index>::empty());
        assert(t.storage.pending.sub_ref@ =~= Seq::<Index>::empty());
        assert(s.balance(i) == w.strong.count(w.address(i)));
        assert(t.storage.pending.epoch@[i as int] == s.synced_epoch(i));
        if s.released().contains(i) && t.strong.count(t.address(i)) > 0 {
            assert(w.strong.count(t.address(i)) > 0);
            assert(t.address(i) == w.address(i));
        }
    }
    assert forall|x: PointerData| #[trigger] w.stands(x) implies if w.strong.count(x) > 0 {
        t.stands(x)
    } else {
        t.passed(x)
    } by {
        assert(s.balance(x.index) == w.strong.count(w.address(x.index)));
        assert(t.storage.pending.epoch@[x.index as int] == s.synced_epoch(x.index));
        lemma_freed_by_sync(s, t.storage, x.index);
    }
    assert forall|x: PointerData| #[trigger] w.passed(x) implies t.passed(x) by {
        assert(t.storage.pending.epoch@[x.index as int] == s.synced_epoch(x.index));
    }
    assert forall|x: PointerData| #[trigger] t.weak.contains(x) implies t.stands(x) || t.passed(
        x,
    ) by {
        assert(w.weak.contains(x));
    }
}

/// What a step keeps, and when a component is given up.
proof fn lemma_step<T>(w: World<T>, step: Step<T>, t: World<T>)
    requires
        w.valid(),
        w.takes(step, t),
    ensures
        t.valid(),
        forall|x: PointerData| #[trigger]
            w.stands(x) ==> if step is Sync && w.strong.count(x) == 0 {
                t.passed(x)
            } else {
                t.stands(x)
            },
        forall|x: PointerData| #[trigger] w.passed(x) ==> t.passed(x),
{
    match step {
        Step::Create(value) => {
            lemma_created(w, t, value);
        },
        Step::CloneRef(p) => {
            assert(w.address(p.index) == p);
            lemma_booked(w, t, p.index);
        },
        Step::Pin(i) => {
            lemma_booked(w, t, i);
        },
        Step::Downgrade(p) => {
            assert(w.stands(p));
            assert forall|i: Index| i < t.slots() implies #[trigger] t.storage.balance(i)
                == t.strong.count(t.address(i)) by {
                assert(t.address(i) == w.address(i));
                assert(w.storage.balance(i) == w.strong.count(w.address(i)));
            }
            assert forall|x: PointerData| #[trigger] w.stands(x) implies t.stands(x) by {}
            assert(t.stands(p));
            assert forall|x: PointerData| #[trigger] t.weak.contains(x) implies t.stands(x)
                || t.passed(x) by {
                if x != p {
                    assert(w.weak.contains(x));
                }
            }
        },
        Step::Upgrade(x) => {
            assert(w.stands(x) || w.passed(x));
            if w.storage.pending.is_current(x) {
                assert(w.address(x.index) == x);
                lemma_booked(w, t, x.index);
            } else {
                assert(t.storage == w.storage);
                assert(t == w);
            }
        },
        Step::Release(p) => {
            lemma_released(w, t, p);
        },
        Step::Change => {
            assert forall|j: Index| #[trigger] t.storage.is_free(j) == w.storage.is_free(j) by {}
            assert(t.storage.wf()) by {
                assert forall|k: int| 0 <= k < t.storage.inner.free_list@.len() implies
                    t.storage.free_entry_wf(#[trigger] t.storage.inner.free_list@[k]) by {
                    assert(w.storage.free_entry_wf(w.storage.inner.free_list@[k]));
                }
            }
            assert forall|i: Index| i < t.slots() implies #[trigger] t.storage.balance(i)
                == t.strong.count(t.address(i)) by {
                assert(t.address(i) == w.address(i));
                assert(w.storage.balance(i) == w.strong.count(w.address(i)));
            }
            assert forall|p: PointerData| #[trigger] t.strong.count(p) > 0 implies p.index
                < t.slots() && p == t.address(p.index) && !t.storage.is_free(p.index) by {
                assert(w.strong.count(p) > 0);
                assert(t.address(p.index) == w.address(p.index));
            }
            assert forall|x: PointerData| #[trigger] w.stands(x) implies t.stands(x) by {
                assert(t.address(x.index) == w.address(x.index));
            }
            assert forall|x: PointerData| #[trigger] t.weak.contains(x) implies t.stands(x)
                || t.passed(x) by {
                assert(w.weak.contains(x));
            }
        },
        Step::Sync => {
            lemma_synced(w, t);
        },
    }
}

/// Whatever is done with a storage and its handles, the balance of each slot is
/// the number of strong pointers to it, and each strong pointer is the address
/// of the component in its slot.
pub proof fn law_history_stays_valid<T>(worlds: Seq<World<T>>, steps: Seq<Step<T>>, k: int)
    requires
        is_history(worlds, steps),
        0 <= k < worlds.len(),
    ensures
        worlds[k].valid(),
    decreases k,
{
    if k == 0 {
        let w = worlds[0];
        assert(w.storage.pending.add_ref@ =~= Seq::<Index>::empty());
        assert(w.storage.pending.sub_ref@ =~= Seq::<Index>::empty());
        assert forall|i: Index| i < w.slots() implies #[trigger] w.storage.balance(i)
            == w.strong.count(w.address(i)) by {
            assert(w.storage.inner.meta@[i as int] == 0);
        }
    } else {
        law_history_stays_valid(worlds, steps, k - 1);
        assert(worlds[k - 1].takes(steps[k - 1], worlds[k - 1 + 1]));
        lemma_step(worlds[k - 1], steps[k - 1], worlds[k]);
    }
}

/// After a synchronisation an iteration visits a slot exactly if a strong
/// pointer to it exists, and no component has changed.
pub proof fn law_sync_keeps_the_held<T>(worlds: Seq<World<T>>, steps: Seq<Step<T>>, k: int)
    requires
        is_history(worlds, steps),
        0 <= k < steps.len(),
        steps[k] is Sync,
    ensures
        forall|i: int| #[trigger]
            kept_from(worlds[k + 1].storage.inner.meta@, true, 0).contains(i) <==> worlds[k
                + 1].is_held(i),
        worlds[k + 1].strong == worlds[k].strong,
        worlds[k + 1].storage.inner.data == worlds[k].storage.inner.data,
{
    let w = worlds[k];
    let t = worlds[k + 1];
    law_history_stays_valid(worlds, steps, k);
    law_history_stays_valid(worlds, steps, k + 1);
    assert(worlds[k].takes(steps[k], worlds[k + 1]));
    law_iteration_visits_kept_slots(t.storage.inner.meta@, true, 0);
    assert(t.storage.inner.meta.len() == t.slots());
    assert forall|i: int| #[trigger]
        kept_from(t.storage.inner.meta@, true, 0).contains(i) <==> t.is_held(i) by {
        if 0 <= i < t.slots() {
            let x = i as Index;
            assert(t.storage.inner.meta@[x as int] == w.storage.balance(x));
            assert(w.storage.balance(x) == w.strong.count(w.address(x)));
            if w.storage.balance(x) > 0 {
                assert(t.strong.count(w.address(x)) > 0);
            }
        }
        if t.is_held(i) {
            let p = choose|p: PointerData| #[trigger] t.strong.count(p) > 0 && p.index == i;
            assert(w.strong.count(p) > 0);
            assert(w.storage.balance(p.index) == w.strong.count(w.address(p.index)));
            assert(t.storage.inner.meta@[p.index as int] == w.storage.balance(p.index));
        }
    }
}

/// A second synchronisation right after one can always be done and changes
/// nothing.
pub proof fn law_second_sync_changes_nothing<T>(s: Storage<T>, t: Storage<T>, u: Storage<T>)
    requires
        s.wf(),
        s.can_sync(),
        s.syncs_to(t),
        t.syncs_to(u),
    ensures
        t.wf(),
        t.can_sync(),
        u.inner.data == t.inner.data,
        u.inner.meta@ == t.inner.meta@,
        u.inner.free_list@ == t.inner.free_list@,
        u.pending.add_ref@ == t.pending.add_ref@,
        u.pending.sub_ref@ == t.pending.sub_ref@,
        u.pending.epoch@ == t.pending.epoch@,
        u.id == t.id,
{
    let none = Seq::<Index>::empty();
    t.lemma_synced_wf(s);
    assert(t.pending.add_ref@ =~= none);
    assert(t.pending.sub_ref@ =~= none);
    assert forall|i: Index| #[trigger] t.balance(i) == t.inner.meta@[i as int] by {}
    assert forall|i: int| 0 <= i < t.inner.meta@.len() implies u.inner.meta@[i]
        == t.inner.meta@[i] by {
        let x = i as Index;
        assert(t.inner.meta.len() == t.inner.meta@.len());
        assert(u.inner.meta@[x as int] == t.balance(x));
    }
    assert forall|i: int| 0 <= i < t.inner.meta@.len() implies u.pending.epoch@[i]
        == t.pending.epoch@[i] by {
        let x = i as Index;
        assert(t.inner.meta.len() == t.inner.meta@.len());
        assert(u.pending.epoch@[x as int] == t.synced_epoch(x));
    }
    assert(u.inner.meta@ =~= t.inner.meta@);
    assert(u.pending.epoch@ =~= t.pending.epoch@);
    assert(t.released() =~= none);
    assert(u.inner.free_list@ =~= t.inner.free_list@);
    assert(u.pending.add_ref@ =~= none);
    assert(u.pending.sub_ref@ =~= none);
}

/// Whether a synchronisation between two moments found no strong pointer left
/// to the component with address `w`.
pub open spec fn lost_between<T>(
    worlds: Seq<World<T>>,
    steps: Seq<Step<T>>,
    w: PointerData,
    from: int,
    to: int,
) -> bool {
    exists|j: int|
        from <= j < to && (#[trigger] steps[j]) is Sync && worlds[j].strong.count(w) == 0
}

/// A weak pointer that was made at moment `from`, while `w` was held, fails to
/// upgrade at moment `to` exactly if a synchronisation in between found no
/// strong pointer to the component left, whatever was stored in its slot since.
pub proof fn law_upgrade_fails_iff_lost<T>(
    worlds: Seq<World<T>>,
    steps: Seq<Step<T>>,
    w: PointerData,
    from: int,
    to: int,
)
    requires
        is_history(worlds, steps),
        0 <= from <= to < worlds.len(),
        worlds[from].strong.count(w) > 0,
    ensures
        !worlds[to].storage.pending.is_current(w) <==> lost_between(worlds, steps, w, from, to),
{
    lemma_stands_or_lost(worlds, steps, w, from, to);
}

proof fn lemma_stands_or_lost<T>(
    worlds: Seq<World<T>>,
    steps: Seq<Step<T>>,
    w: PointerData,
    from: int,
    to: int,
)
    requires
        is_history(worlds, steps),
        0 <= from <= to < worlds.len(),
        worlds[from].strong.count(w) > 0,
    ensures
        if lost_between(worlds, steps, w, from, to) {
            worlds[to].passed(w)
        } else {
            worlds[to].stands(w)
        },
    decreases to - from,
{
    if from == to {
        law_history_stays_valid(worlds, steps, from);
    } else {
        lemma_stands_or_lost(worlds, steps, w, from, to - 1);
        law_history_stays_valid(worlds, steps, to - 1);
        assert(worlds[to - 1].takes(steps[to - 1], worlds[to - 1 + 1]));
        lemma_step(worlds[to - 1], steps[to - 1], worlds[to]);
        if lost_between(worlds, steps, w, from, to - 1) {
            let j = choose|j: int|
                from <= j < to - 1 && (#[trigger] steps[j]) is Sync && worlds[j].strong.count(w)
                    == 0;
            assert(from <= j < to && steps[j] is Sync);
            assert(lost_between(worlds, steps, w, from, to));
        } else if steps[to - 1] is Sync && worlds[to - 1].strong.count(w) == 0 {
            assert(lost_between(worlds, steps, w, from, to));
        } else {
            if lost_between(worlds, steps, w, from, to) {
                let j = choose|j: int|
                    from <= j < to && (#[trigger] steps[j]) is Sync && worlds[j].strong.count(w)
                        == 0;
                assert(j < to - 1);
                assert(lost_between(worlds, steps, w, from, to - 1));
            }
        }
    }
}

/// A weak pointer that upgrades gives a strong pointer to the same component,
/// which then outlives every synchronisation until it is released.
pub proof fn law_upgrade_keeps_alive<T>(
    worlds: Seq<World<T>>,
    steps: Seq<Step<T>>,
    w: PointerData,
    k: int,
)
    requires
        is_history(worlds, steps),
        0 <= k < steps.len(),
        steps[k] == Step::<T>::Upgrade(w),
        worlds[k].storage.pending.is_current(w),
    ensures
        worlds[k + 1].strong == worlds[k].strong.insert(w),
        worlds[k + 1].stands(w),
        worlds[k + 1].storage.balance(w.index) > 0,
{
    law_history_stays_valid(worlds, steps, k + 1);
    assert(worlds[k].takes(steps[k], worlds[k + 1]));
    let t = worlds[k + 1];
    assert(t.strong.count(w) > 0);
    assert(t.storage.balance(w.index) == t.strong.count(t.address(w.index)));
}

} // verus!
