//! What the storage promises across its operations.

use vstd::prelude::*;

use super::pending::{epoch_of, lemma_occurrences_push, occurrences, Index, RefCount};
use super::storage::{lemma_releases, Storage};

verus! {

/// A component outlives its pointers: a slot that keeps a reference is not
/// vacated by a synchronisation and keeps its epoch, so weak pointers to it
/// still upgrade.
pub proof fn law_referenced_slot_survives_sync<T>(s: Storage<T>, i: Index)
    requires
        s.wf(),
        s.can_sync(),
        i < s.inner.meta@.len(),
        s.balance(i) > 0,
    ensures
        !s.released().contains(i),
        s.synced_epoch(i) == epoch_of(s.pending.epoch@, i as int),
{
    lemma_released_iff(s);
}

/// A slot is vacated exactly when its last reference is dropped, and its
/// epoch then moves, so every weak pointer made before fails to upgrade.
pub proof fn law_vacated_slot_changes_epoch<T>(s: Storage<T>, i: Index)
    requires
        s.wf(),
        s.can_sync(),
        i < s.inner.meta@.len(),
    ensures
        s.released().contains(i) <==> occurrences(s.pending.sub_ref@, i) > 0 && s.balance(i) == 0,
        s.released().contains(i) ==> s.synced_epoch(i) == epoch_of(s.pending.epoch@, i as int) + 1,
{
    lemma_released_iff(s);
    assert(s.inner.meta@[i as int] + occurrences(s.pending.add_ref@, i) <= RefCount::MAX);
}

/// The slots that a synchronisation vacates are those whose last reference
/// was dropped.
pub proof fn lemma_released_iff<T>(s: Storage<T>)
    requires
        s.wf(),
        s.can_sync(),
    ensures
        forall|i: Index| #[trigger]
            s.released().contains(i) <==> i < s.inner.meta@.len() && occurrences(
                s.pending.sub_ref@,
                i,
            ) > 0 && s.balance(i) == 0,
{
    assert forall|i: Index| i < s.raised().len() implies #[trigger] occurrences(
        s.pending.sub_ref@,
        i,
    ) <= s.raised()[i as int] by {
        assert(s.inner.meta@[i as int] + occurrences(s.pending.add_ref@, i) <= RefCount::MAX);
        assert(s.balance(i) >= 0);
    }
    lemma_releases(s.raised(), s.pending.sub_ref@);
    assert forall|i: Index| #[trigger] s.released().contains(i) <==> i < s.inner.meta@.len()
        && occurrences(s.pending.sub_ref@, i) > 0 && s.balance(i) == 0 by {
        assert(i < s.inner.meta@.len() ==> s.raised()[i as int] == s.inner.meta@[i as int] + occurrences(
            s.pending.add_ref@,
            i,
        ));
    }
}

/// A new component never takes the slot of a referenced one: the slot that
/// `create` uses is new, or has no reference, queued or applied.
pub proof fn law_create_takes_unreferenced_slot<T>(s: Storage<T>)
    requires
        s.wf(),
        s.inner.meta@.len() <= usize::MAX,
    ensures
        s.next_slot().index < s.inner.meta@.len() ==> s.balance(s.next_slot().index) == 0,
{
    if s.inner.free_list@.len() > 0 {
        let k = s.inner.free_list@.len() - 1;
        assert(s.free_entry_wf(s.inner.free_list@[k]));
    }
}

/// Duplicating a pointer to a slot in use keeps the storage valid and adds
/// one to the slot's balance and to no other.
pub proof fn law_clone_ref_books_one_reference<T>(s: Storage<T>, t: Storage<T>, i: Index)
    requires
        s.wf(),
        i < s.inner.meta@.len(),
        !s.is_free(i),
        t.inner == s.inner,
        t.id == s.id,
        s.pending.adds(i, t.pending),
    ensures
        t.wf(),
        forall|j: Index| #[trigger]
            t.balance(j) == s.balance(j) + if j == i {
                1int
            } else {
                0int
            },
{
    lemma_occurrences_push(s.pending.add_ref@, i);
    assert forall|k: int| 0 <= k < t.inner.free_list@.len() implies t.free_entry_wf(
        #[trigger] t.inner.free_list@[k],
    ) by {
        let e = s.inner.free_list@[k];
        assert(s.free_entry_wf(e));
        assert(e.index != i);
        assert(occurrences(s.pending.add_ref@.push(i), e.index) == occurrences(
            s.pending.add_ref@,
            e.index,
        ));
    }
    assert forall|j: Index| #[trigger] t.balance(j) == s.balance(j) + if j == i {
        1int
    } else {
        0int
    } by {
        assert(occurrences(s.pending.add_ref@.push(i), j) >= 0);
    }
}

/// Releasing a pointer to a slot in use keeps the storage valid and takes
/// one from the slot's balance and from no other.
pub proof fn law_release_books_one_drop<T>(s: Storage<T>, t: Storage<T>, i: Index)
    requires
        s.wf(),
        i < s.inner.meta@.len(),
        !s.is_free(i),
        t.inner == s.inner,
        t.id == s.id,
        s.pending.drops(i, t.pending),
    ensures
        t.wf(),
        forall|j: Index| #[trigger]
            t.balance(j) == s.balance(j) - if j == i {
                1int
            } else {
                0int
            },
{
    lemma_occurrences_push(s.pending.sub_ref@, i);
    assert forall|k: int| 0 <= k < t.inner.free_list@.len() implies t.free_entry_wf(
        #[trigger] t.inner.free_list@[k],
    ) by {
        let e = s.inner.free_list@[k];
        assert(s.free_entry_wf(e));
        assert(e.index != i);
        assert(occurrences(s.pending.sub_ref@.push(i), e.index) == occurrences(
            s.pending.sub_ref@,
            e.index,
        ));
    }
    assert forall|j: Index| #[trigger] t.balance(j) == s.balance(j) - if j == i {
        1int
    } else {
        0int
    } by {
        assert(occurrences(s.pending.sub_ref@.push(i), j) >= 0);
    }
}

} // verus!
