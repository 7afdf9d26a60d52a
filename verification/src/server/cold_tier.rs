//! Statements and parameters for the graph database.

use vstd::prelude::*;
use vstd::string::StringExecFns;

use super::rows::GraphStats;
use crate::text::{decimal, digit_char, digits};

verus! {

/// A count from the database, which must not be negative.
pub fn count_from(value: i64) -> (r: Option<u64>)
    ensures
        match r {
            Some(n) => n == value,
            None => value < 0,
        },
{
    if value < 0 {
        None
    } else {
        Some(value as u64)
    }
}

/// Statistics from the four counts of the database; otherwise the column of
/// the first negative one.
pub fn stats_from(entities: i64, edges: i64, blobs: i64, blob_bytes: i64) -> (r: Result<
    GraphStats,
    usize,
>)
    ensures
        match r {
            Ok(stats) => {
                &&& stats.entities == entities
                &&& stats.edges == edges
                &&& stats.blobs == blobs
                &&& stats.blob_bytes == blob_bytes
            },
            Err(column) => {
                ||| column == 0 && entities < 0
                ||| column == 1 && entities >= 0 && edges < 0
                ||| column == 2 && entities >= 0 && edges >= 0 && blobs < 0
                ||| column == 3 && entities >= 0 && edges >= 0 && blobs >= 0 && blob_bytes < 0
            },
        },
{
    match (count_from(entities), count_from(edges), count_from(blobs), count_from(blob_bytes)) {
        (Some(entities), Some(edges), Some(blobs), Some(blob_bytes)) => Ok(
            GraphStats { entities, edges, blobs, blob_bytes },
        ),
        (None, _, _, _) => Err(0),
        (_, None, _, _) => Err(1),
        (_, _, None, _) => Err(2),
        (_, _, _, None) => Err(3),
    }
}

/// Numbered placeholders `?1, ?2, ...`.
pub open spec fn placeholders(count: nat) -> Seq<char>
    decreases count,
{
    if count == 0 {
        Seq::empty()
    } else if count == 1 {
        "?"@ + digits(1, 10)
    } else {
        placeholders((count - 1) as nat) + ", ?"@ + digits(count, 10)
    }
}

/// Statement that selects the positions of `count` entities.
pub open spec fn position_statement(count: nat) -> Seq<char> {
    "SELECT entity_id, x, y FROM position_component WHERE entity_id IN ("@ + placeholders(count)
        + ")"@
}

/// How often a text holds a character.
pub open spec fn occurrences_of(text: Seq<char>, c: char) -> nat
    decreases text.len(),
{
    if text.len() == 0 {
        0
    } else {
        occurrences_of(text.drop_last(), c) + if text.last() == c {
            1nat
        } else {
            0nat
        }
    }
}

proof fn lemma_occurrences_add(a: Seq<char>, b: Seq<char>, c: char)
    ensures
        occurrences_of(a + b, c) == occurrences_of(a, c) + occurrences_of(b, c),
    decreases b.len(),
{
    if b.len() == 0 {
        assert(a + b =~= a);
    } else {
        assert((a + b).drop_last() =~= a + b.drop_last());
        lemma_occurrences_add(a, b.drop_last(), c);
    }
}

proof fn lemma_no_mark_in_digits(n: nat)
    ensures
        occurrences_of(digits(n, 10), '?') == 0,
    decreases n,
{
    let text = digits(n, 10);
    assert(occurrences_of(Seq::<char>::empty(), '?') == 0);
    if n < 10 {
        assert(text.drop_last() =~= Seq::<char>::empty());
        assert(text.last() == digit_char(n as int));
    } else {
        assert(text.last() == digit_char((n % 10) as int));
        lemma_no_mark_in_digits(n / 10);
        assert(text.drop_last() =~= digits(n / 10, 10));
    }
}

/// There is one placeholder for each entity, and they are numbered through: the
/// last one carries the number of all.
pub proof fn law_placeholder_for_each(count: nat)
    requires
        count > 0,
    ensures
        occurrences_of(placeholders(count), '?') == count,
        placeholders(count).len() > digits(count, 10).len(),
        placeholders(count)[placeholders(count).len() - digits(count, 10).len() - 1] == '?',
        placeholders(count).skip(placeholders(count).len() - digits(count, 10).len()) == digits(
            count,
            10,
        ),
        occurrences_of(position_statement(count), '?') == count,
    decreases count,
{
    reveal_strlit("?");
    reveal_strlit(", ?");
    reveal_strlit("SELECT entity_id, x, y FROM position_component WHERE entity_id IN (");
    reveal_strlit(")");
    let number = digits(count, 10);
    let all = placeholders(count);
    lemma_no_mark_in_digits(count);
    if count == 1 {
        lemma_occurrences_add("?"@, number, '?');
        assert("?"@.drop_last() =~= Seq::<char>::empty());
        assert(occurrences_of(Seq::<char>::empty(), '?') == 0);
        assert(all.skip(1) =~= number);
    } else {
        let less = (count - 1) as nat;
        law_placeholder_for_each(less);
        let sep = ", ?"@;
        assert(occurrences_of(sep, '?') == 1) by {
            assert(sep.drop_last() =~= seq![',', ' ']);
            assert(seq![',', ' '].drop_last() =~= seq![',']);
            assert(seq![','].drop_last() =~= Seq::<char>::empty());
            assert(occurrences_of(Seq::<char>::empty(), '?') == 0);
            assert(seq![','].last() == ',');
            assert(seq![',', ' '].last() == ' ');
            assert(sep.last() == '?');
            assert(occurrences_of(seq![','], '?') == 0);
            assert(occurrences_of(seq![',', ' '], '?') == 0);
        }
        lemma_occurrences_add(placeholders(less), sep, '?');
        lemma_occurrences_add(placeholders(less) + sep, number, '?');
        assert(all.skip(all.len() - number.len()) =~= number);
    }
    let head = "SELECT entity_id, x, y FROM position_component WHERE entity_id IN ("@;
    lemma_no_mark(head);
    lemma_no_mark(")"@);
    lemma_occurrences_add(head, all, '?');
    lemma_occurrences_add(head + all, ")"@, '?');
}

proof fn lemma_no_mark(text: Seq<char>)
    requires
        forall|k: int| 0 <= k < text.len() ==> #[trigger] text[k] != '?',
    ensures
        occurrences_of(text, '?') == 0,
    decreases text.len(),
{
    if text.len() > 0 {
        assert(text[text.len() - 1] != '?');
        assert forall|k: int| 0 <= k < text.drop_last().len() implies #[trigger] text.drop_last()[k]
            != '?' by {
            assert(text.drop_last()[k] == text[k]);
        }
        lemma_no_mark(text.drop_last());
    }
}

/// Reading the bits of an unsigned number as a signed one changes it by a
/// multiple of `pow2(64)` only.
pub proof fn law_signed_reading_keeps_bits(n: u64)
    ensures
        i64::MIN <= as_signed(n) <= i64::MAX,
        (n - as_signed(n)) % 0x1_0000_0000_0000_0000 == 0,
{
}

/// Statement that selects the positions of `count` entities.
pub fn position_batch_sql(count: usize) -> (r: String)
    requires
        count <= u64::MAX,
    ensures
        r@ == position_statement(count as nat),
{
    let mut sql: String = String::new();
    sql.append("SELECT entity_id, x, y FROM position_component WHERE entity_id IN (");
    let ghost start = "SELECT entity_id, x, y FROM position_component WHERE entity_id IN ("@;
    assert(sql@ =~= start + placeholders(0));
    let mut i: usize = 0;
    while i < count
        invariant
            i <= count <= u64::MAX,
            sql@ == start + placeholders(i as nat),
        decreases count - i,
    {
        let ghost before = sql@;
        if i > 0 {
            sql.append(", ?");
        } else {
            sql.append("?");
        }
        i = i + 1;
        let number: String = decimal(i as u64);
        sql.append(number.as_str());
        proof {
            if i == 1 {
                assert(sql@ =~= start + placeholders(1));
            } else {
                assert(sql@ =~= start + placeholders(i as nat));
            }
        }
    }
    sql.append(")");
    assert(sql@ =~= position_statement(count as nat));
    sql
}

/// An unsigned number whose bits are read as a signed one.
pub open spec fn as_signed(n: u64) -> int {
    if n <= i64::MAX {
        n as int
    } else {
        n - 0x1_0000_0000_0000_0000
    }
}

/// First byte, counted from one, and number of bytes of a blob chunk. Offsets
/// beyond the signed range count from the end of the blob.
pub fn blob_range(offset: u64, chunk_size: u32) -> (r: (i64, i64))
    requires
        offset != i64::MAX,
    ensures
        r.0 == as_signed(offset) + 1,
        r.1 == chunk_size,
{
    let signed: i64 = if offset <= i64::MAX as u64 {
        offset as i64
    } else {
        -((u64::MAX - offset) as i64) - 1
    };
    (signed + 1, chunk_size as i64)
}

/// Number of connections of a pool: what was asked for, between 1 and 8.
pub fn pool_size_for(asked: usize) -> (r: usize)
    ensures
        r == if asked < 1 {
            1
        } else if asked > 8 {
            8
        } else {
            asked
        },
{
    if asked < 1 {
        1
    } else if asked > 8 {
        8
    } else {
        asked
    }
}

/// Number of connections to ask for: one for each processor, at most four, and
/// two where their number is not known.
pub fn pool_size(parallelism: Option<usize>) -> (r: usize)
    ensures
        r == match parallelism {
            Some(n) => if n < 4 {
                n
            } else {
                4
            },
            None => 2,
        },
{
    match parallelism {
        Some(n) => if n < 4 {
            n
        } else {
            4
        },
        None => 2,
    }
}

/// Connection that a request gets: one after the other, round and round.
pub fn connection_for(ticket: usize, connections: usize) -> (r: usize)
    requires
        connections > 0,
    ensures
        r == ticket % connections,
        r < connections,
{
    ticket % connections
}

} // verus!
