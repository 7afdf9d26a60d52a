//! What a benchmark asks for, and how its operations are named.

use vstd::prelude::*;

use super::plan::{
    batch_end, below, hundredths_of, label_of, last_id, sample_id_list, scan_size, start_id_list,
    suite_of, viewport_list, warmup_id_list, BenchOp,
};
use super::report::op_key_of;
use crate::text::{begins_with, digit_char, digits};
use crate::text_laws::{law_digits_read_back, number, worth};

verus! {

/// On a graph with entities, the first, those at the quarters and the last are
/// fetched, and traversals start at the first and at the quarters. On an empty
/// graph there are none.
pub proof fn law_samples_are_spread(n: u64)
    requires
        3 * n <= u64::MAX,
    ensures
        n == 0 ==> sample_id_list(n).len() == 0 && start_id_list(n).len() == 0
            && warmup_id_list(n).len() == 0,
        n > 0 ==> {
            &&& sample_id_list(n).len() == 5
            &&& sample_id_list(n)[0] == 0
            &&& sample_id_list(n)[4] == n - 1
            &&& forall|k: int|
                1 <= k < 4 ==> 4 * #[trigger] sample_id_list(n)[k] <= k * n < 4 * sample_id_list(
                    n,
                )[k] + 4
            &&& start_id_list(n).len() == 4
            &&& forall|k: int|
                0 <= k < 4 ==> #[trigger] start_id_list(n)[k] == sample_id_list(n)[k]
            &&& warmup_id_list(n).len() == 3
            &&& warmup_id_list(n)[0] == 0
            &&& 2 * warmup_id_list(n)[1] <= n < 2 * warmup_id_list(n)[1] + 2
            &&& warmup_id_list(n)[2] == n - 1
        },
{
    let samples = seq![0, n / 4, n / 2, (3 * n / 4) as u64, last_id(n)];
    let starts = seq![0, n / 4, n / 2, (3 * n / 4) as u64];
    let warm = seq![0, n / 2, last_id(n)];
    if n == 0 {
        lemma_none_below(samples);
        lemma_none_below(starts);
        lemma_none_below(warm);
    } else {
        lemma_kept_below(samples, n);
        lemma_kept_below(starts, n);
        lemma_kept_below(warm, n);
        assert(sample_id_list(n)[1] == n / 4);
        assert(sample_id_list(n)[2] == n / 2);
        assert(sample_id_list(n)[3] == 3 * n / 4);
        assert forall|k: int| 1 <= k < 4 implies 4 * #[trigger] sample_id_list(n)[k] <= k * n < 4
            * sample_id_list(n)[k] + 4 by {
            if k == 1 {
            } else if k == 2 {
            } else {
                assert(k == 3);
            }
        }
    }
}

proof fn lemma_none_below(ids: Seq<u64>)
    ensures
        below(ids, 0).len() == 0,
    decreases ids.len(),
{
    if ids.len() > 0 {
        lemma_none_below(ids.drop_last());
    }
}

proof fn lemma_kept_below(ids: Seq<u64>, bound: u64)
    requires
        forall|i: int| 0 <= i < ids.len() ==> ids[i] < bound,
    ensures
        below(ids, bound) == ids,
    decreases ids.len(),
{
    if ids.len() > 0 {
        lemma_kept_below(ids.drop_last(), bound);
        assert(ids.drop_last().push(ids.last()) =~= ids);
    } else {
        assert(below(ids, bound) =~= ids);
    }
}

/// The operations of a benchmark: each sampled entity is fetched, each rectangle
/// is searched, a traversal starts at each starting entity, and at the end
/// everything is scanned. The rectangles have their lower bounds below their
/// upper ones and stay within one unit of the middle; the first covers all, the
/// next two lie around the middle, and the last two are opposite quarters.
pub proof fn law_suite_runs_all(n: u64, k: int)
    ensures
        ({
            let ids = sample_id_list(n);
            let starts = start_id_list(n);
            let ops = suite_of(n);
            &&& ops.len() == ids.len() + 5 + starts.len() + 1
            &&& 0 <= k < ids.len() ==> ops[k] == (BenchOp::GetEntity { id: ids[k] })
            &&& 0 <= k < 5 ==> (ops[ids.len() + k] matches BenchOp::SearchSpatial { viewport: v }
                && v == viewport_list()[k] && -100 <= v.min_x < v.max_x <= 100 && -100 <= v.min_y
                < v.max_y <= 100 && v.min_x == v.min_y && v.max_x == v.max_y)
            &&& 0 <= k < starts.len() ==> ops[ids.len() + 5 + k] == (BenchOp::TraverseBfs {
                start: starts[k],
            })
            &&& ops.last() == BenchOp::FullScan
        }),
        viewport_list()[0].max_x - viewport_list()[0].min_x == 200,
        viewport_list()[1].max_x == -viewport_list()[1].min_x,
        viewport_list()[1].max_x - viewport_list()[1].min_x == 100,
        viewport_list()[2].max_x == -viewport_list()[2].min_x,
        viewport_list()[2].max_x - viewport_list()[2].min_x == 50,
        viewport_list()[3].max_x == 0 && viewport_list()[3].min_x == -100,
        viewport_list()[4].min_x == 0 && viewport_list()[4].max_x == 100,
{
}

/// Hundredths are written with a sign exactly if they are negative, with the
/// whole units in front of the point, and with two digits behind it.
pub proof fn law_hundredths_read_back(v: int)
    ensures
        ({
            let text = hundredths_of(v);
            let m = if v < 0 {
                -v
            } else {
                v
            };
            let sign: int = if v < 0 {
                1
            } else {
                0
            };
            let end = text.len() - 3;
            &&& text.len() >= 4 + sign
            &&& v < 0 <==> text[0] == '-'
            &&& text[end] == '.'
            &&& number(text.subrange(sign, end), 10) == m / 100
            &&& 10 * worth(text[end + 1]) + worth(text[end + 2]) == m % 100
        }),
{
    reveal_strlit("-");
    reveal_strlit("");
    reveal_strlit(".");
    let text = hundredths_of(v);
    let m = if v < 0 {
        -v
    } else {
        v
    };
    let sign: int = if v < 0 {
        1
    } else {
        0
    };
    let head = if v < 0 {
        "-"@
    } else {
        ""@
    };
    let units = digits((m / 100) as nat, 10);
    let tens = digits((m / 10 % 10) as nat, 10);
    let ones = digits((m % 10) as nat, 10);
    assert(head.len() == sign);
    law_digits_read_back((m / 100) as nat, 10, 0);
    assert(tens =~= seq![digit_char(m / 10 % 10)]);
    assert(ones =~= seq![digit_char(m % 10)]);
    assert(text.len() == sign + units.len() + 3);
    assert(text.subrange(sign, text.len() - 3) =~= units);
    assert(text[text.len() - 2] == tens[0]);
    assert(text[text.len() - 1] == ones[0]);
    assert(text[text.len() - 3] == '.');
    if v >= 0 {
        assert(text[0] == units[0]);
        assert(worth(units[0]) >= 0);
    }
    assert(m % 100 == 10 * (m / 10 % 10) + m % 10);
}

/// The labels of fetches, traversals and scans tell which operation and which
/// entity they stand for: different ones have different labels, and none looks
/// like a label of a search.
pub proof fn law_labels_tell_apart(a: BenchOp, b: BenchOp)
    requires
        label_of(a) == label_of(b),
    ensures
        a is SearchSpatial <==> b is SearchSpatial,
        !(a is SearchSpatial) ==> a == b,
{
    lemma_first_letter(a);
    lemma_first_letter(b);
    match (a, b) {
        (BenchOp::GetEntity { id: x }, BenchOp::GetEntity { id: y }) => {
            lemma_same_tail("entity_get_"@, digits(x as nat, 10), digits(y as nat, 10));
            law_digits_read_back(x as nat, 10, 0);
            law_digits_read_back(y as nat, 10, 0);
        },
        (BenchOp::TraverseBfs { start: x }, BenchOp::TraverseBfs { start: y }) => {
            lemma_same_tail("bfs_depth2_from_"@, digits(x as nat, 10), digits(y as nat, 10));
            law_digits_read_back(x as nat, 10, 0);
            law_digits_read_back(y as nat, 10, 0);
        },
        _ => {},
    }
}

proof fn lemma_same_tail(head: Seq<char>, a: Seq<char>, b: Seq<char>)
    requires
        head + a == head + b,
    ensures
        a == b,
{
    assert((head + a).skip(head.len() as int) =~= a);
    assert((head + b).skip(head.len() as int) =~= b);
}

proof fn lemma_first_letter(op: BenchOp)
    ensures
        label_of(op).len() > 0,
        label_of(op)[0] == match op {
            BenchOp::GetEntity { id: _ } => 'e',
            BenchOp::SearchSpatial { viewport: _ } => 's',
            BenchOp::TraverseBfs { start: _ } => 'b',
            BenchOp::FullScan => 'f',
        },
{
    reveal_strlit("entity_get_");
    reveal_strlit("spatial_[");
    reveal_strlit("bfs_depth2_from_");
    reveal_strlit("full_scan");
}

/// The labels of fetches, traversals and scans fall under their kinds, whatever
/// the entity.
#[verifier::spinoff_prover]
#[verifier::rlimit(40)]
pub proof fn law_labels_fall_under_kinds(op: BenchOp)
    ensures
        match op {
            BenchOp::GetEntity { id: _ } => op_key_of(label_of(op)) == "entity_get"@,
            BenchOp::TraverseBfs { start: _ } => op_key_of(label_of(op)) == "bfs_depth2"@,
            BenchOp::FullScan => op_key_of(label_of(op)) == "full_scan"@,
            BenchOp::SearchSpatial { viewport: _ } => op_key_of(label_of(op)) != "entity_get"@
                && op_key_of(label_of(op)) != "bfs_depth2"@ && op_key_of(label_of(op))
                != "full_scan"@ && op_key_of(label_of(op)) != label_of(op),
        },
{
    let label = label_of(op);
    lemma_first_letter(op);
    reveal_strlit("entity_get");
    reveal_strlit("entity_get_");
    reveal_strlit("spatial_");
    reveal_strlit("spatial_[");
    reveal_strlit("spatial");
    reveal_strlit("spatial_full_view");
    reveal_strlit("spatial_mid");
    reveal_strlit("spatial_small");
    reveal_strlit("spatial_ll");
    reveal_strlit("spatial_ur");
    reveal_strlit("bfs");
    reveal_strlit("bfs_depth2_from_");
    reveal_strlit("bfs_depth2");
    reveal_strlit("full_scan");
    reveal_strlit("spatial_[-1.00_-1.00_1.00_1.00]");
    reveal_strlit("spatial_[-0.50_-0.50_0.50_0.50]");
    reveal_strlit("spatial_[-0.25_-0.25_0.25_0.25]");
    reveal_strlit("spatial_[-1.00_-1.00_0.00_0.00]");
    reveal_strlit("spatial_[0.00_0.00_1.00_1.00]");
    lemma_first_of(label, "entity_get"@);
    lemma_first_of(label, "spatial_[-1.00_-1.00_1.00_1.00]"@);
    lemma_first_of(label, "spatial_[-0.50_-0.50_0.50_0.50]"@);
    lemma_first_of(label, "spatial_[-0.25_-0.25_0.25_0.25]"@);
    lemma_first_of(label, "spatial_[-1.00_-1.00_0.00_0.00]"@);
    lemma_first_of(label, "spatial_[0.00_0.00_1.00_1.00]"@);
    lemma_first_of(label, "spatial_"@);
    lemma_first_of(label, "bfs"@);
    lemma_first_of(label, "full_scan"@);
    match op {
        BenchOp::GetEntity { id } => {
            assert(label.subrange(0, 10) =~= "entity_get"@);
        },
        BenchOp::TraverseBfs { start } => {
            assert(label.subrange(0, 3) =~= "bfs"@);
        },
        BenchOp::FullScan => {
            assert(label.subrange(0, 9) =~= "full_scan"@);
        },
        BenchOp::SearchSpatial { viewport } => {
            assert(label.subrange(0, 8) =~= "spatial_"@);
            assert(begins_with(label, "spatial_"@));
            assert("spatial"@[0] == 's');
            assert("spatial_full_view"@[0] == 's');
            assert("spatial_mid"@[0] == 's');
            assert("spatial_small"@[0] == 's');
            assert("spatial_ll"@[0] == 's');
            assert("spatial_ur"@[0] == 's');
            assert("entity_get"@[0] == 'e');
            assert("bfs_depth2"@[0] == 'b');
            assert("full_scan"@[0] == 'f');
            assert(label[8] == '[');
            assert("spatial_full_view"@[8] == 'f');
            assert("spatial_mid"@[8] == 'm');
            assert("spatial_small"@[8] == 's');
            assert("spatial_ll"@[8] == 'l');
            assert("spatial_ur"@[8] == 'u');
            assert("spatial"@.len() == 7);
        },
    }
}

proof fn lemma_first_of(text: Seq<char>, start: Seq<char>)
    requires
        start.len() > 0,
    ensures
        begins_with(text, start) ==> text[0] == start[0],
{
    if begins_with(text, start) {
        assert(text.subrange(0, start.len() as int)[0] == text[0]);
    }
}

/// The name of the kind that each rectangle of a benchmark falls under.
pub open spec fn rectangle_kinds() -> Seq<Seq<char>> {
    seq![
        "spatial_full_view"@,
        "spatial_mid"@,
        "spatial_small"@,
        "spatial_ll"@,
        "spatial_ur"@,
    ]
}

proof fn lemma_small_hundredths(v: int, text: Seq<char>)
    requires
        -1000 < v < 1000,
        text =~= (if v < 0 {
            seq!['-']
        } else {
            Seq::<char>::empty()
        }) + seq![
            digit_char((if v < 0 {
                -v
            } else {
                v
            }) / 100),
            '.',
            digit_char((if v < 0 {
                -v
            } else {
                v
            }) / 10 % 10),
            digit_char((if v < 0 {
                -v
            } else {
                v
            }) % 10),
        ],
    ensures
        hundredths_of(v) == text,
{
    reveal_strlit("-");
    reveal_strlit("");
    reveal_strlit(".");
    assert(hundredths_of(v) =~= text);
}

/// Each rectangle of a benchmark falls under its own kind.
#[verifier::spinoff_prover]
#[verifier::rlimit(40)]
pub proof fn law_rectangles_fall_under_kinds(k: int)
    requires
        0 <= k < viewport_list().len(),
    ensures
        op_key_of(label_of(BenchOp::SearchSpatial { viewport: viewport_list()[k] }))
            == rectangle_kinds()[k],
{
    reveal_strlit("entity_get");
    reveal_strlit("spatial_[");
    reveal_strlit("_");
    reveal_strlit("]");
    reveal_strlit("spatial_[-1.00_-1.00_1.00_1.00]");
    reveal_strlit("spatial_[-0.50_-0.50_0.50_0.50]");
    reveal_strlit("spatial_[-0.25_-0.25_0.25_0.25]");
    reveal_strlit("spatial_[-1.00_-1.00_0.00_0.00]");
    reveal_strlit("spatial_[0.00_0.00_1.00_1.00]");
    lemma_small_hundredths(-100, seq!['-', '1', '.', '0', '0']);
    lemma_small_hundredths(-50, seq!['-', '0', '.', '5', '0']);
    lemma_small_hundredths(-25, seq!['-', '0', '.', '2', '5']);
    lemma_small_hundredths(0, seq!['0', '.', '0', '0']);
    lemma_small_hundredths(25, seq!['0', '.', '2', '5']);
    lemma_small_hundredths(50, seq!['0', '.', '5', '0']);
    lemma_small_hundredths(100, seq!['1', '.', '0', '0']);
    let full = "spatial_[-1.00_-1.00_1.00_1.00]"@;
    let mid = "spatial_[-0.50_-0.50_0.50_0.50]"@;
    let small = "spatial_[-0.25_-0.25_0.25_0.25]"@;
    let lower = "spatial_[-1.00_-1.00_0.00_0.00]"@;
    let upper = "spatial_[0.00_0.00_1.00_1.00]"@;
    let label = label_of(BenchOp::SearchSpatial { viewport: viewport_list()[k] });
    if k == 0 {
        assert(label =~= full);
    } else if k == 1 {
        assert(label =~= mid);
    } else if k == 2 {
        assert(label =~= small);
    } else if k == 3 {
        assert(label =~= lower);
    } else {
        assert(label =~= upper);
    }
    assert(label.subrange(0, label.len() as int) =~= label);
    lemma_first_of(label, "entity_get"@);
    lemma_letter_of(label, full, 10);
    lemma_letter_of(label, full, 21);
    lemma_letter_of(label, mid, 10);
    lemma_letter_of(label, mid, 12);
    lemma_letter_of(label, small, 10);
    lemma_letter_of(label, lower, 9);
    lemma_letter_of(label, lower, 10);
}

proof fn lemma_letter_of(text: Seq<char>, start: Seq<char>, k: int)
    requires
        0 <= k < start.len(),
    ensures
        begins_with(text, start) ==> text[k] == start[k],
{
    if begins_with(text, start) {
        assert(text.subrange(0, start.len() as int)[k] == text[k]);
    }
}

/// A scan by samples fetches every entity of a small graph, and a hundred of a
/// large one: the first, and then in equal strides, none twice.
pub proof fn law_scan_is_spread(n: u64, ids: Seq<u64>, i: int, j: int)
    requires
        ids.len() == scan_size(n),
        forall|k: int| 0 <= k < ids.len() ==> #[trigger] ids[k] == k * n / scan_size(n),
        0 <= i < j < ids.len(),
    ensures
        n <= 100 ==> ids.len() == n && ids[i] == i,
        n >= 100 ==> ids.len() == 100,
        ids[0] == 0,
        ids[i] < ids[j] < n,
        ids[i] * ids.len() <= i * n < (ids[i] + 1) * ids.len(),
{
    let s = scan_size(n);
    lemma_stride(n as int, s, i, j);
    assert(ids[i] == i * n / s);
    assert(ids[j] == j * n / s);
    assert(ids[0] == 0 * n / s);
    assert(0 * n == 0) by (nonlinear_arith);
    if n <= 100 {
        assert(s == n);
        assert(i * n / s == i) by (nonlinear_arith)
            requires
                s == n,
                n > 0,
        ;
    }
}

proof fn lemma_stride(n: int, s: int, i: int, j: int)
    requires
        0 < s <= n,
        0 <= i < j < s,
    ensures
        0 * n / s == 0,
        i * n / s < j * n / s < n,
        (i * n / s) * s <= i * n < (i * n / s + 1) * s,
{
    let a = i * n / s;
    let b = j * n / s;
    assert(a * s <= i * n < a * s + s) by (nonlinear_arith)
        requires
            a == i * n / s,
            s > 0,
    ;
    assert(b * s <= j * n < b * s + s) by (nonlinear_arith)
        requires
            b == j * n / s,
            s > 0,
    ;
    assert((a + 1) * s == a * s + s) by (nonlinear_arith);
    assert(j * n >= i * n + n) by (nonlinear_arith)
        requires
            j >= i + 1,
            n > 0,
    ;
    assert(a < b) by (nonlinear_arith)
        requires
            a * s <= i * n,
            j * n < b * s + s,
            j * n >= i * n + n,
            n >= s,
            s > 0,
    ;
    assert(j * n < s * n) by (nonlinear_arith)
        requires
            j < s,
            n > 0,
    ;
    assert(b < n) by (nonlinear_arith)
        requires
            b * s <= j * n,
            j * n < s * n,
            s > 0,
    ;
    assert(0 * n == 0) by (nonlinear_arith);
    assert(0int / s == 0) by (nonlinear_arith)
        requires
            s > 0,
    ;
}

/// The batches of an import take all rows, each once and in order: every batch
/// starts where the one before it ends, holds at most 5000 rows, and only the
/// last may hold fewer.
pub proof fn law_batches_take_all_rows(rows: usize, batches: Seq<(usize, usize)>, i: int)
    requires
        rows == 0 ==> batches.len() == 0,
        rows > 0 ==> batches.len() > 0 && batches[0].0 == 0 && batches.last().1 == rows,
        forall|k: int|
            0 <= k < batches.len() ==> (#[trigger] batches[k]).0 == k * 5000 && batches[k].0 < rows
                && batches[k].1 == batch_end(batches[k].0 as int, rows as int),
        0 <= i < batches.len(),
    ensures
        batches[i].0 < batches[i].1 <= rows,
        batches[i].1 - batches[i].0 <= 5000,
        i + 1 < batches.len() ==> batches[i].1 == batches[i + 1].0 && batches[i].1 - batches[i].0
            == 5000,
        i + 1 == batches.len() ==> batches[i].1 == rows,
        i == 0 ==> batches[i].0 == 0,
{
    let b = batches[i];
    if i + 1 < batches.len() {
        let c = batches[i + 1];
        assert(c.0 == (i + 1) * 5000);
    }
}

} // verus!
