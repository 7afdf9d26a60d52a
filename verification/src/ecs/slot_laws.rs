//! What happens to slots when components are created and given up.

use core::cmp::Ordering;

use vstd::prelude::*;

use super::laws::lemma_released_iff;
use super::pending::{epoch_of, occurrences, Index, PointerData};
use super::pointer::pointer_order;
use super::storage::{lemma_releases, releases, Storage};

verus! {

/// The occurrences of an index are counted as in a multiset.
pub proof fn law_occurrences_are_counted(s: Seq<Index>, x: Index)
    ensures
        occurrences(s, x) == s.to_multiset().count(x),
    decreases s.len(),
{
    broadcast use vstd::seq_lib::group_to_multiset_ensures;

    if s.len() > 0 {
        law_occurrences_are_counted(s.drop_last(), x);
        assert(s =~= s.drop_last().push(s.last()));
    } else {
        assert(s =~= Seq::<Index>::empty());
    }
}

/// A new component is found in the slot of its address, with one reference. All
/// other slots are as before, and at most one slot is added.
pub proof fn law_created_is_stored<T>(before: Storage<T>, value: T, after: Storage<T>, j: int)
    requires
        before.wf(),
        before.inner.meta@.len() < usize::MAX,
        before.creates(value, after),
        0 <= j < before.inner.data@.len(),
    ensures
        ({
            let i = before.next_slot().index as int;
            &&& i < after.inner.data@.len()
            &&& after.inner.data@[i] == value
            &&& after.inner.meta@[i] == 1
            &&& after.inner.meta@.len() == after.inner.data@.len()
            &&& j != i ==> after.inner.data@[j] == before.inner.data@[j] && after.inner.meta@[j]
                == before.inner.meta@[j]
            &&& after.inner.data@.len() == if before.inner.free_list@.len() > 0 {
                before.inner.data@.len()
            } else {
                before.inner.data@.len() + 1
            }
            &&& before.inner.free_list@.len() == 0 ==> i == before.inner.data@.len()
                && before.next_slot().epoch == 0
            &&& before.inner.free_list@.len() > 0 ==> before.inner.free_list@.contains(
                before.next_slot(),
            ) && before.inner.meta@[i] == 0
        }),
{
    if before.inner.free_list@.len() > 0 {
        let k = before.inner.free_list@.len() - 1;
        assert(before.free_entry_wf(before.inner.free_list@[k]));
    }
}

/// A synchronisation changes the count of each slot by the references queued for
/// it: up by those added, down by those dropped. Components stay where they are
/// and nothing stays queued.
pub proof fn law_sync_applies_queue<T>(before: Storage<T>, after: Storage<T>, i: Index)
    requires
        before.wf(),
        before.can_sync(),
        before.syncs_to(after),
        i < before.inner.meta@.len(),
    ensures
        after.inner.data@ == before.inner.data@,
        after.inner.meta@[i as int] == before.inner.meta@[i as int]
            + before.pending.add_ref@.to_multiset().count(i)
            - before.pending.sub_ref@.to_multiset().count(i),
        after.pending.add_ref@.len() == 0,
        after.pending.sub_ref@.len() == 0,
        before.pending.sub_ref@.contains(i) && after.inner.meta@[i as int] == 0 ==> epoch_of(
            after.pending.epoch@,
            i as int,
        ) == epoch_of(before.pending.epoch@, i as int) + 1,
        !before.pending.sub_ref@.contains(i) || after.inner.meta@[i as int] != 0 ==> epoch_of(
            after.pending.epoch@,
            i as int,
        ) == epoch_of(before.pending.epoch@, i as int),
{
    broadcast use vstd::seq_lib::group_to_multiset_ensures;

    law_occurrences_are_counted(before.pending.add_ref@, i);
    law_occurrences_are_counted(before.pending.sub_ref@, i);
    assert(after.inner.meta@[i as int] == before.balance(i));
    assert(after.pending.epoch@[i as int] == before.synced_epoch(i));
    let n = before.inner.meta@[i as int] + occurrences(before.pending.add_ref@, i);
}

/// Slots wait for reuse in the order in which their last references were
/// dropped.
pub proof fn law_vacated_in_order_of_last_drops(counts: Seq<int>, subs: Seq<Index>, a: int, b: int)
    requires
        forall|k: int| 0 <= k < subs.len() ==> #[trigger] subs[k] < counts.len(),
        forall|i: Index| i < counts.len() ==> #[trigger] occurrences(subs, i) <= counts[i as int],
        0 <= a < b < releases(counts, subs).len(),
    ensures
        exists|q: int|
            0 <= q < subs.len() && #[trigger] subs[q] == releases(counts, subs)[b] && forall|
                p: int,
            |
                q <= p < subs.len() ==> #[trigger] subs[p] != releases(counts, subs)[a],
    decreases subs.len(),
{
    let rest = subs.drop_last();
    let x = subs.last();
    let last = subs.len() - 1;
    let head = releases(counts, rest);
    let all = releases(counts, subs);
    assert(subs[last] == x);
    assert forall|k: int| 0 <= k < rest.len() implies #[trigger] rest[k] < counts.len() by {
        assert(rest[k] == subs[k]);
    }
    assert forall|i: Index| i < counts.len() implies #[trigger] occurrences(rest, i)
        <= counts[i as int] by {
        assert(occurrences(subs, i) <= counts[i as int]);
    }
    assert forall|k: int| 0 <= k < head.len() implies #[trigger] head[k] != x by {
        lemma_releases(counts, rest);
        if head[k] == x {
            assert(head.contains(x));
            assert(occurrences(rest, x) == counts[x as int]);
            assert(occurrences(subs, x) <= counts[x as int]);
        }
    }
    if b < head.len() {
        law_vacated_in_order_of_last_drops(counts, rest, a, b);
        let q = choose|q: int|
            0 <= q < rest.len() && #[trigger] rest[q] == head[b] && forall|p: int|
                q <= p < rest.len() ==> #[trigger] rest[p] != head[a];
        assert(subs[q] == all[b]);
        assert forall|p: int| q <= p < subs.len() implies #[trigger] subs[p] != all[a] by {
            if p < last {
                assert(rest[p] == subs[p]);
            } else {
                assert(head[a] != x);
            }
        }
    } else {
        assert(all[b] == x);
        assert(head[a] != x);
        assert(subs[last] == all[b]);
    }
}

/// The slot vacated last is the first to be reused, under its next epoch.
pub proof fn law_vacated_last_is_reused_first<T>(before: Storage<T>, after: Storage<T>)
    requires
        before.wf(),
        before.can_sync(),
        before.syncs_to(after),
    ensures
        before.released().len() > 0 ==> {
            let i = before.released().last();
            &&& after.next_slot().index == i
            &&& before.pending.sub_ref@.contains(i)
            &&& after.inner.meta@[i as int] == 0
            &&& after.next_slot().epoch == epoch_of(before.pending.epoch@, i as int) + 1
            &&& after.next_slot().storage_id == before.id
        },
        before.released().len() == 0 ==> after.next_slot() == before.next_slot(),
        after.inner.free_list@.len() == before.inner.free_list@.len() + before.released().len(),
{
    let gone = before.released();
    if gone.len() > 0 {
        let i = gone.last();
        assert(gone[gone.len() - 1] == i);
        assert(gone.contains(i));
        lemma_released_iff(before);
        assert(before.released().contains(i));
        assert(after.inner.meta@[i as int] == before.balance(i));
        assert(occurrences(before.pending.sub_ref@, i) > 0);
        lemma_occurring(before.pending.sub_ref@, i);
        assert(after.inner.free_list@.last() == before.freed_entry(i));
        assert(before.inner.meta@[i as int] + occurrences(before.pending.add_ref@, i) >= 0);
    } else {
        assert(after.inner.free_list@ =~= before.inner.free_list@);
    }
}

proof fn lemma_occurring(s: Seq<Index>, x: Index)
    requires
        occurrences(s, x) > 0,
    ensures
        s.contains(x),
    decreases s.len(),
{
    if s.last() == x {
        assert(s[s.len() - 1] == x);
    } else {
        lemma_occurring(s.drop_last(), x);
        let k = choose|k: int| 0 <= k < s.drop_last().len() && s.drop_last()[k] == x;
        assert(s[k] == x);
    }
}

/// Addresses of one storage are ordered by their slots, whatever their epochs.
/// Addresses of different storages are not ordered.
pub proof fn law_addresses_are_ordered_by_slot(a: PointerData, b: PointerData)
    ensures
        a.storage_id != b.storage_id <==> pointer_order(a, b) is None,
        a.storage_id == b.storage_id ==> (pointer_order(a, b) == Some(Ordering::Less) <==> a.index
            < b.index),
        a.storage_id == b.storage_id ==> (pointer_order(a, b) == Some(Ordering::Greater)
            <==> a.index > b.index),
        pointer_order(a, b) == Some(Ordering::Less) <==> pointer_order(b, a) == Some(
            Ordering::Greater,
        ),
        pointer_order(a, b) == Some(Ordering::Equal) <==> pointer_order(b, a) == Some(
            Ordering::Equal,
        ),
{
}

} // verus!
