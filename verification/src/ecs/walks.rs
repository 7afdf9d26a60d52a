//! What a whole walk over a storage visits.

use vstd::prelude::*;

use super::cursor::{cursor_at, Cursor, CursorItem, Slice};
use super::pending::RefCount;
use super::storage::{
    first_kept, kept_from, law_iteration_visits_kept_slots, lemma_first_kept, lemma_kept_unfold,
    lemma_last_live_below, step_back, step_forward,
};

verus! {

/// Referenced slots from `front` on and before `back`, in ascending order.
pub open spec fn span(meta: Seq<RefCount>, front: int, back: int) -> Seq<int> {
    kept_from(meta.take(back), true, front)
}

/// What `calls` forward steps visit, one result for each.
pub open spec fn forward(meta: Seq<RefCount>, front: int, back: int, calls: nat) -> Seq<
    Option<int>,
>
    decreases calls,
{
    if calls == 0 {
        Seq::empty()
    } else {
        let (visited, next) = step_forward(meta, front, back);
        seq![visited] + forward(meta, next, back, (calls - 1) as nat)
    }
}

/// What `calls` backward steps visit, one result for each.
pub open spec fn backward(meta: Seq<RefCount>, front: int, back: int, calls: nat) -> Seq<
    Option<int>,
>
    decreases calls,
{
    if calls == 0 {
        Seq::empty()
    } else {
        let (visited, next) = step_back(meta, front, back);
        seq![visited] + backward(meta, front, next, (calls - 1) as nat)
    }
}

/// Whether a visit changed at most the component in the slot visited.
pub open spec fn writes<T>(before: Seq<T>, visited: Option<int>, after: Seq<T>) -> bool {
    &&& after.len() == before.len()
    &&& forall|i: int|
        0 <= i < before.len() && visited != Some(i) ==> #[trigger] after[i] == before[i]
}

/// Of the slots between both ends, a forward step takes the first and leaves
/// the others.
pub proof fn law_forward_step_takes_first(meta: Seq<RefCount>, front: int, back: int)
    requires
        0 <= front <= back <= meta.len(),
    ensures
        ({
            let (visited, next) = step_forward(meta, front, back);
            let left = span(meta, front, back);
            &&& front <= next <= back
            &&& if left.len() > 0 {
                visited == Some(left[0]) && span(meta, next, back) == left.skip(1)
            } else {
                visited is None && span(meta, next, back) == left
            }
        }),
{
    let part = meta.take(back);
    let left = span(meta, front, back);
    let (visited, next) = step_forward(meta, front, back);
    lemma_first_kept(meta, true, front);
    lemma_first_kept_of_part(meta, front, back);
    lemma_kept_unfold(part, true, front);
    if visited is Some {
        assert(left == seq![next - 1] + kept_from(part, true, next));
        assert(left.skip(1) =~= span(meta, next, back));
    }
}

/// Of the slots between both ends, a backward step takes the last and leaves
/// the others.
pub proof fn law_backward_step_takes_last(meta: Seq<RefCount>, front: int, back: int)
    requires
        0 <= front <= back <= meta.len(),
    ensures
        ({
            let (visited, next) = step_back(meta, front, back);
            let left = span(meta, front, back);
            &&& front <= next <= back
            &&& if left.len() > 0 {
                visited == Some(left.last()) && span(meta, front, next) == left.drop_last()
            } else {
                visited is None && span(meta, front, next) == left
            }
        }),
    decreases back,
{
    lemma_last_live_below(meta, back);
    if back > front {
        lemma_span_grows(meta, front, back);
        if meta[back - 1] == 0 {
            law_backward_step_takes_last(meta, front, back - 1);
        } else {
            assert(span(meta, front, back).drop_last() =~= span(meta, front, back - 1));
        }
    } else {
        assert(span(meta, front, back) =~= Seq::<int>::empty());
    }
}

/// Repeated `next` of a mutable iterator or of a cursor at the start visits the
/// slots that an iteration visits, in that order, and then none.
pub proof fn law_forward_walk_visits_kept(meta: Seq<RefCount>, calls: nat, k: int)
    requires
        0 <= k < calls,
    ensures
        ({
            let kept = kept_from(meta, true, 0);
            let walk = forward(meta, 0, meta.len() as int, calls);
            &&& walk.len() == calls
            &&& walk[k] == if k < kept.len() {
                Some(kept[k])
            } else {
                None
            }
        }),
{
    assert(meta.take(meta.len() as int) =~= meta);
    lemma_forward(meta, 0, meta.len() as int, calls, k);
}

/// Repeated `next_back` of a mutable iterator, or `prev` of a cursor at the
/// end, visits the slots that an iteration visits in reverse order, and then
/// none; `next` of a cursor at the end visits none.
pub proof fn law_backward_walk_visits_kept(meta: Seq<RefCount>, calls: nat, k: int)
    requires
        0 <= k < calls,
    ensures
        ({
            let kept = kept_from(meta, true, 0);
            let walk = backward(meta, 0, meta.len() as int, calls);
            &&& walk.len() == calls
            &&& walk[k] == if k < kept.len() {
                Some(kept[kept.len() - 1 - k])
            } else {
                None
            }
        }),
        step_forward(meta, meta.len() as int, meta.len() as int).0 is None,
{
    assert(meta.take(meta.len() as int) =~= meta);
    lemma_backward(meta, 0, meta.len() as int, calls, k);
}

/// A walk with a mutable iterator changes no component without a reference,
/// and a visited one only through the reference handed out for it.
pub proof fn law_walk_changes_visited_only<T>(
    meta: Seq<RefCount>,
    calls: nat,
    data: Seq<Seq<T>>,
    i: int,
)
    requires
        data.len() == calls + 1,
        data[0].len() == meta.len(),
        forall|k: int|
            0 <= k < calls ==> writes(
                #[trigger] data[k],
                forward(meta, 0, meta.len() as int, calls)[k],
                data[k + 1],
            ),
        0 <= i < meta.len(),
        meta[i] == 0,
    ensures
        data[calls as int].len() == meta.len(),
        data[calls as int][i] == data[0][i],
{
    lemma_unvisited_stays(meta, calls, data, i, calls as int);
}

proof fn lemma_unvisited_stays<T>(
    meta: Seq<RefCount>,
    calls: nat,
    data: Seq<Seq<T>>,
    i: int,
    upto: int,
)
    requires
        data.len() == calls + 1,
        data[0].len() == meta.len(),
        forall|k: int|
            0 <= k < calls ==> writes(
                #[trigger] data[k],
                forward(meta, 0, meta.len() as int, calls)[k],
                data[k + 1],
            ),
        0 <= i < meta.len(),
        meta[i] == 0,
        0 <= upto <= calls,
    ensures
        data[upto].len() == meta.len(),
        data[upto][i] == data[0][i],
    decreases upto,
{
    if upto > 0 {
        let k = upto - 1;
        lemma_unvisited_stays(meta, calls, data, i, k);
        law_forward_walk_visits_kept(meta, calls, k);
        law_iteration_visits_kept_slots(meta, true, 0);
        let kept = kept_from(meta, true, 0);
        let visited = forward(meta, 0, meta.len() as int, calls)[k];
        assert(writes(data[k], visited, data[k + 1]));
        if visited == Some(i) {
            assert(kept[k] == i);
            assert(kept.contains(i));
        }
        assert(data[k + 1][i] == data[k][i]);
    }
}

/// At a slot, a cursor shows all components: those before the slot, the one in
/// it, and those after it.
pub proof fn law_cursor_parts_the_storage<T>(
    before: Cursor<'_, T>,
    data: Seq<T>,
    id: int,
    left: Slice<'_, T>,
    item: CursorItem<'_, T>,
    value: T,
    right: Slice<'_, T>,
)
    requires
        cursor_at(before, id, left, item, right),
        data == before.storage.data@,
        value == *item.item,
    ensures
        left.items().len() == id,
        right.items().len() == data.len() - id - 1,
        value == data[id],
        left.items() + seq![value] + right.items() == data,
{
    assert(left.items() + seq![value] + right.items() =~= data);
}

/// Each slot of a storage is reached through one of the parts that a cursor makes
/// of it: through the left slice, as the item, or through the right slice; what is
/// reached there is what the storage holds at that slot. A slot beyond the storage
/// is reached through none of them.
pub proof fn law_each_slot_has_one_place<T>(
    before: Cursor<'_, T>,
    data: Seq<T>,
    id: int,
    left: Slice<'_, T>,
    item: CursorItem<'_, T>,
    right: Slice<'_, T>,
    index: usize,
)
    requires
        cursor_at(before, id, left, item, right),
        data == before.storage.data@,
        data.len() <= usize::MAX,
    ensures
        left.covers(index) <==> index < id,
        right.covers(index) <==> id < index < data.len(),
        item.data.index == id,
        left.covers(index) ==> left.items()[index - left.offset.index] == data[index as int],
        right.covers(index) ==> right.items()[index - right.offset.index] == data[index as int],
{
}

/// The first kept slot of a part is that of the whole, if it lies in the part.
proof fn lemma_first_kept_of_part(meta: Seq<RefCount>, front: int, back: int)
    requires
        0 <= front <= back <= meta.len(),
    ensures
        ({
            let j = first_kept(meta, true, front);
            first_kept(meta.take(back), true, front) == if j < back {
                j
            } else {
                back
            }
        }),
    decreases back - front,
{
    lemma_first_kept(meta, true, front);
    if front < back {
        assert(meta.take(back)[front] == meta[front]);
        if meta[front] == 0 {
            lemma_first_kept_of_part(meta, front + 1, back);
        }
    }
}

/// One slot more at the back is one slot more to visit, if it is referenced.
proof fn lemma_span_grows(meta: Seq<RefCount>, front: int, back: int)
    requires
        0 <= front < back <= meta.len(),
    ensures
        span(meta, front, back) == if meta[back - 1] != 0 {
            span(meta, front, back - 1).push(back - 1)
        } else {
            span(meta, front, back - 1)
        },
    decreases back - front,
{
    let part = meta.take(back);
    let less = meta.take(back - 1);
    assert(part[front] == meta[front]);
    if front < back - 1 {
        assert(less[front] == meta[front]);
        lemma_span_grows(meta, front + 1, back);
        if meta[front] != 0 {
            assert(span(meta, front, back) == seq![front] + span(meta, front + 1, back));
            assert(span(meta, front, back - 1) == seq![front] + span(meta, front + 1, back - 1));
            if meta[back - 1] != 0 {
                assert(span(meta, front, back) =~= span(meta, front, back - 1).push(back - 1));
            }
        }
    } else {
        assert(kept_from(part, true, back) =~= Seq::<int>::empty());
        assert(span(meta, front, back - 1) =~= Seq::<int>::empty());
        if meta[back - 1] != 0 {
            assert(span(meta, front, back) =~= seq![front]);
        }
    }
}

proof fn lemma_forward(meta: Seq<RefCount>, front: int, back: int, calls: nat, k: int)
    requires
        0 <= front <= back <= meta.len(),
        0 <= k < calls,
    ensures
        forward(meta, front, back, calls).len() == calls,
        forward(meta, front, back, calls)[k] == if k < span(meta, front, back).len() {
            Some(span(meta, front, back)[k])
        } else {
            None
        },
    decreases calls,
{
    let (visited, next) = step_forward(meta, front, back);
    law_forward_step_takes_first(meta, front, back);
    let rest = forward(meta, next, back, (calls - 1) as nat);
    if calls > 1 {
        lemma_forward(meta, next, back, (calls - 1) as nat, if k > 0 {
            k - 1
        } else {
            0
        });
    }
    assert(forward(meta, front, back, calls) == seq![visited] + rest);
}

proof fn lemma_backward(meta: Seq<RefCount>, front: int, back: int, calls: nat, k: int)
    requires
        0 <= front <= back <= meta.len(),
        0 <= k < calls,
    ensures
        backward(meta, front, back, calls).len() == calls,
        ({
            let kept = span(meta, front, back);
            backward(meta, front, back, calls)[k] == if k < kept.len() {
                Some(kept[kept.len() - 1 - k])
            } else {
                None
            }
        }),
    decreases calls,
{
    let (visited, next) = step_back(meta, front, back);
    law_backward_step_takes_last(meta, front, back);
    let rest = backward(meta, front, next, (calls - 1) as nat);
    if calls > 1 {
        lemma_backward(meta, front, next, (calls - 1) as nat, if k > 0 {
            k - 1
        } else {
            0
        });
    }
    assert(backward(meta, front, back, calls) == seq![visited] + rest);
}

} // verus!
