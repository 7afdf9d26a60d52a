//! Ascending lists of rowids.

use vstd::prelude::*;

verus! {

/// Whether the list ascends and nothing comes twice.
pub open spec fn ascending(list: Seq<u64>) -> bool {
    forall|a: int, b: int| 0 <= a < b < list.len() ==> (#[trigger] list[a]) < (#[trigger] list[b])
}

/// `slice::sort_unstable` on integers: the vector then holds the same numbers
/// as before, in ascending order.
#[verifier::external_body]
fn sort_numbers(list: &mut Vec<u64>)
    ensures
        final(list)@.to_multiset() == old(list)@.to_multiset(),
        forall|a: int, b: int|
            0 <= a <= b < final(list)@.len() ==> (#[trigger] final(list)@[a]) <= (
            #[trigger] final(list)@[b]),
{
    list.sort_unstable();
}

/// The numbers of the list in ascending order, each once.
pub fn sort_unique(list: Vec<u64>) -> (r: Vec<u64>)
    ensures
        ascending(r@),
        forall|x: u64| #[trigger] r@.contains(x) <==> list@.contains(x),
{
    let mut list = list;
    let ghost given = list@;
    sort_numbers(&mut list);
    let ghost sorted = list@;
    proof {
        broadcast use vstd::seq_lib::group_to_multiset_ensures;

        assert forall|x: u64| #[trigger] sorted.contains(x) <==> given.contains(x) by {
            assert(sorted.contains(x) <==> sorted.to_multiset().count(x) > 0);
            assert(given.contains(x) <==> given.to_multiset().count(x) > 0);
        }
    }
    let mut unique: Vec<u64> = Vec::with_capacity(list.len());
    let mut k: usize = 0;
    while k < list.len()
        invariant
            list@ == sorted,
            k <= sorted.len(),
            forall|a: int, b: int|
                0 <= a <= b < sorted.len() ==> (#[trigger] sorted[a]) <= (#[trigger] sorted[b]),
            ascending(unique@),
            k > 0 ==> unique@.len() > 0 && unique@.last() == sorted[k - 1],
            k == 0 ==> unique@.len() == 0,
            forall|x: u64| #[trigger]
                unique@.contains(x) <==> exists|j: int| 0 <= j < k && sorted[j] == x,
        decreases sorted.len() - k,
    {
        let x: u64 = list[k];
        let ghost before = unique@;
        if k == 0 || list[k - 1] != x {
            unique.push(x);
            proof {
                assert forall|a: int, b: int| 0 <= a < b < unique@.len() implies (
                #[trigger] unique@[a]) < (#[trigger] unique@[b]) by {
                    if b == before.len() {
                        if a < before.len() - 1 {
                            assert(before[a] < before[before.len() - 1]);
                        }
                        assert(sorted[k - 1] <= sorted[k as int]);
                    }
                }
            }
        }
        proof {
            assert forall|y: u64| #[trigger] unique@.contains(y) <==> exists|j: int|
                0 <= j < k + 1 && sorted[j] == y by {
                if before.contains(y) {
                    let i = choose|i: int| 0 <= i < before.len() && before[i] == y;
                    assert(unique@[i] == y);
                    let j = choose|j: int| 0 <= j < k && sorted[j] == y;
                    assert(0 <= j < k + 1 && sorted[j] == y);
                }
                if unique@.contains(y) && !before.contains(y) {
                    assert(y == x);
                    assert(sorted[k as int] == y);
                }
                if exists|j: int| 0 <= j < k + 1 && sorted[j] == y {
                    let j = choose|j: int| 0 <= j < k + 1 && sorted[j] == y;
                    if j < k {
                        assert(before.contains(y));
                    } else {
                        assert(unique@[unique@.len() - 1] == x);
                    }
                }
            }
        }
        k = k + 1;
    }
    assert forall|x: u64| #[trigger] unique@.contains(x) <==> given.contains(x) by {
        assert(sorted.contains(x) <==> given.contains(x));
        if sorted.contains(x) {
            let j = choose|j: int| 0 <= j < sorted.len() && sorted[j] == x;
            assert(0 <= j < k && sorted[j] == x);
        }
    }
    unique
}

} // verus!
