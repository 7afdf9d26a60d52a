//! Groups of equal texts, in the order of the texts.

use vstd::prelude::*;
use vstd::utf8::{encode_utf8, encode_utf8_decode_utf8};

use crate::text::same_text;

verus! {

/// Whether two sequences of bytes agree in their first `k` and then the first
/// one ends or holds the smaller byte.
pub open spec fn parts_at(a: Seq<u8>, b: Seq<u8>, k: int) -> bool {
    &&& 0 <= k <= a.len()
    &&& k < b.len()
    &&& a.subrange(0, k) == b.subrange(0, k)
    &&& k < a.len() ==> a[k] < b[k]
}

/// Lexicographic order of bytes.
pub open spec fn bytes_before(a: Seq<u8>, b: Seq<u8>) -> bool {
    exists|k: int| parts_at(a, b, k)
}

/// Order of texts, by their bytes in UTF-8.
pub open spec fn text_before(a: Seq<char>, b: Seq<char>) -> bool {
    bytes_before(encode_utf8(a), encode_utf8(b))
}

proof fn lemma_parts_elements(a: Seq<u8>, b: Seq<u8>, k: int)
    requires
        parts_at(a, b, k),
    ensures
        forall|i: int| 0 <= i < k ==> a[i] == b[i],
{
    assert forall|i: int| 0 <= i < k implies a[i] == b[i] by {
        assert(a.subrange(0, k)[i] == b.subrange(0, k)[i]);
    }
}

/// The order of texts is transitive.
pub proof fn law_order_is_transitive(a: Seq<char>, b: Seq<char>, c: Seq<char>)
    requires
        text_before(a, b),
        text_before(b, c),
    ensures
        text_before(a, c),
{
    let x = encode_utf8(a);
    let y = encode_utf8(b);
    let z = encode_utf8(c);
    let j = choose|k: int| parts_at(x, y, k);
    let k = choose|k: int| parts_at(y, z, k);
    lemma_parts_elements(x, y, j);
    lemma_parts_elements(y, z, k);
    let m = if j < k {
        j
    } else {
        k
    };
    assert(x.subrange(0, m) =~= z.subrange(0, m));
    assert(parts_at(x, z, m));
}

/// No text comes before itself.
pub proof fn law_order_is_strict(a: Seq<char>)
    ensures
        !text_before(a, a),
{
}

/// Of two different texts one comes before the other.
pub proof fn law_order_is_total(a: Seq<char>, b: Seq<char>)
    requires
        a != b,
    ensures
        text_before(a, b) || text_before(b, a),
{
    let x = encode_utf8(a);
    let y = encode_utf8(b);
    encode_utf8_decode_utf8(a);
    encode_utf8_decode_utf8(b);
    assert(x.subrange(0, 0) =~= y.subrange(0, 0));
    lemma_differ_somewhere(x, y, 0);
}

proof fn lemma_differ_somewhere(x: Seq<u8>, y: Seq<u8>, from: int)
    requires
        x != y,
        0 <= from <= x.len(),
        from <= y.len(),
        x.subrange(0, from) == y.subrange(0, from),
    ensures
        bytes_before(x, y) || bytes_before(y, x),
    decreases x.len() - from,
{
    if from == x.len() && from == y.len() {
        assert(x.subrange(0, from) =~= x);
        assert(y.subrange(0, from) =~= y);
    } else if from == x.len() {
        assert(parts_at(x, y, from));
    } else if from == y.len() {
        assert(parts_at(y, x, from));
    } else if x[from] < y[from] {
        assert(parts_at(x, y, from));
    } else if y[from] < x[from] {
        assert(parts_at(y, x, from));
    } else {
        assert(x.subrange(0, from + 1) =~= x.subrange(0, from).push(x[from]));
        assert(y.subrange(0, from + 1) =~= y.subrange(0, from).push(y[from]));
        lemma_differ_somewhere(x, y, from + 1);
    }
}

/// Tests whether a text comes before another.
pub fn comes_before(a: &str, b: &str) -> (r: bool)
    ensures
        r == text_before(a@, b@),
{
    let x: &[u8] = a.as_bytes();
    let y: &[u8] = b.as_bytes();
    let mut i: usize = 0;
    while i < x.len() && i < y.len() && x[i] == y[i]
        invariant
            i <= x@.len(),
            i <= y@.len(),
            forall|j: int| 0 <= j < i ==> x@[j] == y@[j],
            x@ == encode_utf8(a@),
            y@ == encode_utf8(b@),
        decreases x@.len() - i,
    {
        i = i + 1;
    }
    let r: bool = i < y.len() && (i == x.len() || x[i] < y[i]);
    proof {
        assert(x@.subrange(0, i as int) =~= y@.subrange(0, i as int));
        if r {
            assert(parts_at(x@, y@, i as int));
        } else if bytes_before(x@, y@) {
            let k = choose|k: int| parts_at(x@, y@, k);
            lemma_parts_elements(x@, y@, k);
            assert(false);
        }
    }
    r
}

/// Adds a text to an ordered sequence, unless it is there.
pub open spec fn with_key(keys: Seq<Seq<char>>, key: Seq<char>) -> Seq<Seq<char>>
    decreases keys.len(),
{
    if keys.len() == 0 {
        seq![key]
    } else if keys.last() == key {
        keys
    } else if text_before(keys.last(), key) {
        keys.push(key)
    } else {
        with_key(keys.drop_last(), key).push(keys.last())
    }
}

/// The different texts of a sequence, in order.
pub open spec fn ordered_keys(texts: Seq<Seq<char>>) -> Seq<Seq<char>>
    decreases texts.len(),
{
    if texts.len() == 0 {
        Seq::empty()
    } else {
        with_key(ordered_keys(texts.drop_last()), texts.last())
    }
}

/// Places of a text in a sequence, in ascending order.
pub open spec fn places_of(texts: Seq<Seq<char>>, key: Seq<char>) -> Seq<usize>
    decreases texts.len(),
{
    if texts.len() == 0 {
        Seq::empty()
    } else {
        let before = places_of(texts.drop_last(), key);
        if texts.last() == key {
            before.push((texts.len() - 1) as usize)
        } else {
            before
        }
    }
}

/// Whether each text comes before all that follow it.
pub open spec fn strictly_ordered(keys: Seq<Seq<char>>) -> bool {
    forall|i: int, j: int| 0 <= i < j < keys.len() ==> text_before(#[trigger] keys[i], #[trigger] keys[j])
}

/// The views of a sequence of strings.
pub open spec fn views(texts: Seq<String>) -> Seq<Seq<char>> {
    Seq::new(texts.len(), |i: int| texts[i]@)
}

proof fn lemma_with_key(keys: Seq<Seq<char>>, key: Seq<char>)
    requires
        strictly_ordered(keys),
    ensures
        strictly_ordered(with_key(keys, key)),
        forall|k: Seq<char>| #[trigger]
            with_key(keys, key).contains(k) <==> (k == key || keys.contains(k)),
    decreases keys.len(),
{
    let r = with_key(keys, key);
    if keys.len() == 0 {
        assert(r[0] == key);
    } else if keys.last() == key {
        assert(keys[keys.len() - 1] == key);
    } else if text_before(keys.last(), key) {
        assert forall|i: int, j: int| 0 <= i < j < r.len() implies text_before(
            #[trigger] r[i],
            #[trigger] r[j],
        ) by {
            if j == keys.len() && i < keys.len() - 1 {
                assert(text_before(keys[i], keys[keys.len() - 1]));
                law_order_is_transitive(keys[i], keys.last(), key);
            }
        }
        assert forall|k: Seq<char>| r.contains(k) <==> (k == key || keys.contains(k)) by {
            assert(r[keys.len() as int] == key);
            if keys.contains(k) {
                let i = choose|i: int| 0 <= i < keys.len() && keys[i] == k;
                assert(r[i] == k);
            }
            if r.contains(k) {
                let i = choose|i: int| 0 <= i < r.len() && r[i] == k;
                if i < keys.len() {
                    assert(keys[i] == k);
                }
            }
        }
    } else {
        let init = keys.drop_last();
        let last = keys.last();
        law_order_is_total(last, key);
        assert(strictly_ordered(init)) by {
            assert forall|i: int, j: int| 0 <= i < j < init.len() implies text_before(
                #[trigger] init[i],
                #[trigger] init[j],
            ) by {
                assert(text_before(keys[i], keys[j]));
            }
        }
        lemma_with_key(init, key);
        let w = with_key(init, key);
        assert forall|i: int, j: int| 0 <= i < j < r.len() implies text_before(
            #[trigger] r[i],
            #[trigger] r[j],
        ) by {
            assert(r[i] == w[i]);
            if j == w.len() {
                assert(w.contains(w[i]));
                if w[i] != key {
                    assert(init.contains(w[i]));
                    let m = choose|m: int| 0 <= m < init.len() && init[m] == w[i];
                    assert(text_before(keys[m], keys[keys.len() - 1]));
                }
            } else {
                assert(text_before(w[i], w[j]));
            }
        }
        assert forall|k: Seq<char>| r.contains(k) <==> (k == key || keys.contains(k)) by {
            if r.contains(k) {
                let i = choose|i: int| 0 <= i < r.len() && r[i] == k;
                if i < w.len() {
                    assert(w.contains(k));
                    if k != key {
                        let m = choose|m: int| 0 <= m < init.len() && init[m] == k;
                        assert(keys[m] == k);
                    }
                } else {
                    assert(keys[keys.len() - 1] == k);
                }
            }
            if k == key || keys.contains(k) {
                if k == last {
                    assert(r[w.len() as int] == k);
                } else {
                    if k != key {
                        let m = choose|m: int| 0 <= m < keys.len() && keys[m] == k;
                        assert(init[m] == k);
                    }
                    assert(w.contains(k));
                    let i = choose|i: int| 0 <= i < w.len() && w[i] == k;
                    assert(r[i] == k);
                }
            }
        }
    }
}

/// The different texts of a sequence are all its texts, each once, in order.
pub proof fn law_ordered_keys(texts: Seq<Seq<char>>)
    ensures
        strictly_ordered(ordered_keys(texts)),
        forall|k: Seq<char>|
            #![trigger ordered_keys(texts).contains(k)]
            #![trigger texts.contains(k)]
            ordered_keys(texts).contains(k) <==> texts.contains(k),
    decreases texts.len(),
{
    if texts.len() > 0 {
        let init = texts.drop_last();
        law_ordered_keys(init);
        lemma_with_key(ordered_keys(init), texts.last());
        assert forall|k: Seq<char>| ordered_keys(texts).contains(k) <==> texts.contains(k) by {
            if texts.contains(k) {
                let i = choose|i: int| 0 <= i < texts.len() && texts[i] == k;
                if i < init.len() {
                    assert(init[i] == k);
                }
            }
            if init.contains(k) {
                let i = choose|i: int| 0 <= i < init.len() && init[i] == k;
                assert(texts[i] == k);
            }
            assert(texts[texts.len() - 1] == texts.last());
        }
    }
}

/// A text occurs at its places and nowhere else.
pub proof fn law_places(texts: Seq<Seq<char>>, key: Seq<char>)
    requires
        texts.len() <= usize::MAX,
    ensures
        forall|i: int|
            0 <= i < texts.len() ==> (texts[i] == key <==> places_of(texts, key).contains(
                i as usize,
            )),
        forall|p: int|
            0 <= p < places_of(texts, key).len() ==> #[trigger] places_of(texts, key)[p]
                < texts.len(),
    decreases texts.len(),
{
    if texts.len() > 0 {
        let init = texts.drop_last();
        let n = init.len();
        law_places(init, key);
        let before = places_of(init, key);
        let r = places_of(texts, key);
        assert forall|i: int| 0 <= i < texts.len() implies (texts[i] == key <==> r.contains(
            i as usize,
        )) by {
            if i < n {
                assert(init[i] == texts[i]);
                if before.contains(i as usize) {
                    let p = choose|p: int| 0 <= p < before.len() && before[p] == i as usize;
                    assert(r[p] == i as usize);
                }
                if r.contains(i as usize) {
                    let p = choose|p: int| 0 <= p < r.len() && r[p] == i as usize;
                    if p < before.len() {
                        assert(before[p] == i as usize);
                    }
                }
            } else {
                if texts.last() == key {
                    assert(r[before.len() as int] == n as usize);
                }
                if r.contains(i as usize) {
                    let p = choose|p: int| 0 <= p < r.len() && r[p] == i as usize;
                    if p < before.len() {
                        assert(before[p] < n);
                    }
                }
            }
        }
        assert forall|p: int| 0 <= p < r.len() implies #[trigger] r[p] < texts.len() by {
            if p < before.len() {
                assert(before[p] < n);
            }
        }
    }
}

/// Equal texts, and where they stand.
pub struct Group {
    pub key: String,
    pub members: Vec<usize>,
}

/// The keys of a sequence of groups.
pub open spec fn group_keys(groups: Seq<Group>) -> Seq<Seq<char>> {
    Seq::new(groups.len(), |i: int| groups[i].key@)
}

/// Whether groups hold the different texts in order, with the places of each.
pub open spec fn is_grouping(groups: Seq<Group>, texts: Seq<Seq<char>>) -> bool {
    &&& group_keys(groups) == ordered_keys(texts)
    &&& forall|g: int|
        0 <= g < groups.len() ==> (#[trigger] groups[g]).members@ == places_of(
            texts,
            groups[g].key@,
        )
}

/// Where a key stands in ordered keys, or where it belongs.
fn find_key(groups: &Vec<Group>, key: &str) -> (r: (bool, usize))
    requires
        strictly_ordered(group_keys(groups@)),
    ensures
        r.1 <= groups@.len(),
        forall|i: int| 0 <= i < r.1 ==> text_before(#[trigger] group_keys(groups@)[i], key@),
        r.0 ==> r.1 < groups@.len() && groups@[r.1 as int].key@ == key@,
        !r.0 ==> forall|i: int|
            r.1 <= i < groups@.len() ==> text_before(key@, #[trigger] group_keys(groups@)[i]),
{
    let ghost keys = group_keys(groups@);
    let mut i: usize = 0;
    while i < groups.len() && comes_before(groups[i].key.as_str(), key)
        invariant
            i <= groups@.len(),
            keys == group_keys(groups@),
            strictly_ordered(keys),
            forall|j: int| 0 <= j < i ==> text_before(#[trigger] keys[j], key@),
        decreases groups@.len() - i,
    {
        assert(keys[i as int] == groups@[i as int].key@);
        i = i + 1;
    }
    if i < groups.len() {
        assert(keys[i as int] == groups@[i as int].key@);
        if same_text(groups[i].key.as_str(), key) {
            return (true, i);
        }
        proof {
            law_order_is_total(keys[i as int], key@);
            assert forall|j: int| i <= j < keys.len() implies text_before(
                key@,
                #[trigger] keys[j],
            ) by {
                if i < j {
                    assert(text_before(keys[i as int], keys[j]));
                    law_order_is_transitive(key@, keys[i as int], keys[j]);
                }
            }
        }
    }
    (false, i)
}

/// Inserting a key where it belongs gives the keys with it.
proof fn lemma_with_key_at(keys: Seq<Seq<char>>, key: Seq<char>, at: int, found: bool)
    requires
        strictly_ordered(keys),
        0 <= at <= keys.len(),
        forall|i: int| 0 <= i < at ==> text_before(#[trigger] keys[i], key),
        found ==> at < keys.len() && keys[at] == key,
        !found ==> forall|i: int| at <= i < keys.len() ==> text_before(key, #[trigger] keys[i]),
    ensures
        with_key(keys, key) == if found {
            keys
        } else {
            keys.insert(at, key)
        },
    decreases keys.len(),
{
    let target = if found {
        keys
    } else {
        keys.insert(at, key)
    };
    if keys.len() == 0 {
        assert(target =~= seq![key]);
    } else {
        let init = keys.drop_last();
        let last = keys.last();
        assert(last == keys[keys.len() - 1]);
        if found && at == keys.len() - 1 {
        } else if !found && at == keys.len() {
            assert(text_before(keys[keys.len() - 1], key));
            law_order_is_strict(key);
            assert(target =~= keys.push(key));
        } else {
            if found {
                assert(text_before(keys[at], keys[keys.len() - 1]));
            }
            law_order_is_strict(key);
            if text_before(last, key) {
                law_order_is_transitive(key, last, key);
            }
            assert(strictly_ordered(init)) by {
                assert forall|i: int, j: int| 0 <= i < j < init.len() implies text_before(
                    #[trigger] init[i],
                    #[trigger] init[j],
                ) by {
                    assert(text_before(keys[i], keys[j]));
                }
            }
            assert forall|i: int| 0 <= i < at implies text_before(#[trigger] init[i], key) by {
                assert(text_before(keys[i], key));
            }
            if !found {
                assert forall|i: int| at <= i < init.len() implies text_before(
                    key,
                    #[trigger] init[i],
                ) by {
                    assert(text_before(key, keys[i]));
                }
            }
            lemma_with_key_at(init, key, at, found);
            assert(with_key(init, key).push(last) =~= target);
        }
    }
}

/// Groups texts.
pub fn group_texts(texts: &Vec<String>) -> (r: Vec<Group>)
    ensures
        is_grouping(r@, views(texts@)),
{
    let mut groups: Vec<Group> = Vec::new();
    let ghost all = views(texts@);
    let mut n: usize = 0;
    assert(group_keys(groups@) =~= ordered_keys(all.take(0)));
    while n < texts.len()
        invariant
            n <= texts@.len(),
            all == views(texts@),
            is_grouping(groups@, all.take(n as int)),
        decreases texts@.len() - n,
    {
        let ghost seen = all.take(n as int);
        let ghost now = all.take(n + 1);
        let ghost before = groups@;
        let ghost keys = group_keys(before);
        let key: &String = &texts[n];
        proof {
            law_ordered_keys(seen);
            assert(now.drop_last() =~= seen);
            assert(now.last() == key@);
        }
        let (found, at) = find_key(&groups, key.as_str());
        proof {
            if found {
                assert(keys[at as int] == key@);
            }
            lemma_with_key_at(keys, key@, at as int, found);
        }
        if found {
            groups[at].members.push(n);
            proof {
                assert(group_keys(groups@) =~= keys);
                assert forall|g: int| 0 <= g < groups@.len() implies (
                #[trigger] groups@[g]).members@ == places_of(now, groups@[g].key@) by {
                    assert(before[g].members@ == places_of(seen, before[g].key@));
                    if g < at {
                        assert(text_before(keys[g], keys[at as int]));
                        law_order_is_strict(key@);
                    } else if g > at {
                        assert(text_before(keys[at as int], keys[g]));
                        law_order_is_strict(key@);
                    }
                }
            }
        } else {
            let mut members: Vec<usize> = Vec::new();
            members.push(n);
            groups.insert(at, Group { key: key.clone(), members });
            proof {
                assert(group_keys(groups@) =~= keys.insert(at as int, key@));
                assert(!seen.contains(key@)) by {
                    if seen.contains(key@) {
                        assert(keys.contains(key@));
                        let i = choose|i: int| 0 <= i < keys.len() && keys[i] == key@;
                        law_order_is_strict(key@);
                    }
                }
                lemma_no_places(seen, key@);
                assert(members@ =~= places_of(now, key@));
                assert forall|g: int| 0 <= g < groups@.len() implies (
                #[trigger] groups@[g]).members@ == places_of(now, groups@[g].key@) by {
                    if g < at {
                        assert(before[g].members@ == places_of(seen, before[g].key@));
                        assert(text_before(keys[g], key@));
                        law_order_is_strict(key@);
                    } else if g > at {
                        assert(groups@[g] == before[g - 1]);
                        assert(before[g - 1].members@ == places_of(seen, before[g - 1].key@));
                        assert(text_before(key@, keys[g - 1]));
                        law_order_is_strict(key@);
                    }
                }
            }
        }
        n = n + 1;
    }
    assert(all.take(n as int) =~= all);
    groups
}

proof fn lemma_no_places(texts: Seq<Seq<char>>, key: Seq<char>)
    requires
        !texts.contains(key),
    ensures
        places_of(texts, key) == Seq::<usize>::empty(),
    decreases texts.len(),
{
    if texts.len() > 0 {
        let init = texts.drop_last();
        assert(texts[texts.len() - 1] != key);
        if init.contains(key) {
            let i = choose|i: int| 0 <= i < init.len() && init[i] == key;
            assert(texts[i] == key);
        }
        lemma_no_places(init, key);
    }
}

} // verus!
