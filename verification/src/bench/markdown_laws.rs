//! What a comparison in Markdown says of the results behind it.

use vstd::prelude::*;

use super::grouping::{
    law_order_is_strict, law_ordered_keys, law_places, ordered_keys, places_of, text_before,
};
use super::markdown::{
    first_of, import_text, only_lines, only_tail, operation_lines, ops_of, pair_lines, pair_tail,
    place_from, report_lines, scale_lines, scale_text, scales, single_tail, summary_lines,
    table_lines, MdLine, Shown,
};
use super::report::{op_keys_of, SystemSummary};
use crate::text::{begins_with, digits, padded_left};
use crate::text_laws::law_padding_keeps_text;

verus! {

/// The result that stands for a system is the first one of the given results
/// that belongs to it, and there is none only if none belongs to it.
pub proof fn law_system_is_first(
    results: Seq<SystemSummary>,
    members: Seq<usize>,
    system: Seq<char>,
    k: int,
)
    requires
        0 <= k < members.len(),
    ensures
        match first_of(results, members, system) {
            None => results[members[k] as int].system@ != system,
            Some(m) => {
                &&& results[m as int].system@ == system
                &&& members.contains(m)
                &&& results[members[k] as int].system@ == system ==> exists|j: int|
                    0 <= j <= k && #[trigger] members[j] == m
            },
        },
    decreases members.len(),
{
    let rest = members.skip(1);
    if results[members[0] as int].system@ == system {
        assert(members[0] == first_of(results, members, system)->0);
    } else if k > 0 {
        assert(rest[k - 1] == members[k]);
        law_system_is_first(results, rest, system, k - 1);
        if let Some(m) = first_of(results, rest, system) {
            let a = choose|a: int| 0 <= a < rest.len() && rest[a] == m;
            assert(members[a + 1] == m);
            if results[members[k] as int].system@ == system {
                let j = choose|j: int| 0 <= j <= k - 1 && #[trigger] rest[j] == m;
                assert(members[j + 1] == m);
            }
        }
    } else if rest.len() > 0 {
        law_system_is_first(results, rest, system, 0);
        if let Some(m) = first_of(results, rest, system) {
            let a = choose|a: int| 0 <= a < rest.len() && rest[a] == m;
            assert(members[a + 1] == m);
        }
    }
}

/// The place of a key is the first one where it stands, and there is none only
/// if it stands nowhere.
pub proof fn law_place_is_first(keys: Seq<Seq<char>>, key: Seq<char>, from: int, k: int)
    requires
        0 <= from <= k < keys.len(),
        keys.len() <= usize::MAX,
    ensures
        match place_from(keys, key, from) {
            None => keys[k] != key,
            Some(p) => from <= p < keys.len() && keys[p as int] == key && (keys[k] == key ==> p
                <= k),
        },
    decreases keys.len() - from,
{
    assert(place_from(keys, key, keys.len() as int) is None);
    if keys[from] != key && from + 1 < keys.len() {
        law_place_is_first(
            keys,
            key,
            from + 1,
            if k > from {
                k
            } else {
                from + 1
            },
        );
    }
}

/// The table of times has a line for the connection exactly if its time is known,
/// and then a line for the import exactly if its time is known. The import is
/// compared exactly with a known import time of the other system.
pub proof fn law_summary_shows_known_times(
    results: Seq<SystemSummary>,
    waw: usize,
    neo: Option<usize>,
)
    ensures
        ({
            let lines = summary_lines(results, waw, neo);
            let connect = results[waw as int].connection_ms is Some;
            let import = results[waw as int].import_ms is Some;
            let first: int = if connect {
                1
            } else {
                0
            };
            &&& lines.len() == first + if import {
                1int
            } else {
                0
            }
            &&& connect ==> lines[0] == (MdLine::Connect { result: waw })
            &&& import ==> (lines[first] matches MdLine::Import { result, against } && result == waw
                && (against is Some <==> neo is Some && results[neo->0 as int].import_ms is Some)
                && (against is Some ==> against == neo))
        }),
{
}

/// Every operation of the first system has one line: among the pairs, with the
/// place of the same operation of the other system, if the other system has it,
/// and otherwise among those that only the first one has.
pub proof fn law_operations_are_paired(
    results: Seq<SystemSummary>,
    waw: usize,
    neo: usize,
    count: nat,
    op: usize,
    p: usize,
)
    requires
        count <= usize::MAX,
        ops_of(results, neo).len() <= usize::MAX,
        op < count,
        p < ops_of(results, neo).len(),
    ensures
        pair_lines(results, waw, neo, count).contains(
            (MdLine::Pair { result: waw, op, other: neo, other_op: p }),
        ) <==> ops_of(results, neo)[p as int] == ops_of(results, waw)[op as int],
        only_lines(results, waw, neo, count).contains((MdLine::Only { result: waw, op })) <==> !(
        exists|j: int|
            0 <= j < ops_of(results, neo).len() && #[trigger] ops_of(results, neo)[j] == ops_of(
                results,
                waw,
            )[op as int]),
        pair_lines(results, waw, neo, count).len() + only_lines(results, waw, neo, count).len()
            == count,
    decreases count,
{
    let mine = ops_of(results, waw);
    let theirs = ops_of(results, neo);
    law_ordered_keys(op_keys_of(results[neo as int].labels@));
    let last = (count - 1) as usize;
    let less = (count - 1) as nat;
    let pairs = pair_lines(results, waw, neo, less);
    let onlys = only_lines(results, waw, neo, less);
    let pair = MdLine::Pair { result: waw, op, other: neo, other_op: p };
    let only = MdLine::Only { result: waw, op };
    let all = pair_lines(results, waw, neo, count);
    let rest = only_lines(results, waw, neo, count);
    lemma_no_later_lines(results, waw, neo, less, op, p);
    lemma_line_count(results, waw, neo, count);
    law_place_is_first(theirs, mine[count - 1], 0, p as int);
    if op < last {
        law_operations_are_paired(results, waw, neo, less, op, p);
        if pairs.contains(pair) {
            let k = choose|k: int| 0 <= k < pairs.len() && pairs[k] == pair;
            assert(all[k] == pair);
        }
        if all.contains(pair) {
            let k = choose|k: int| 0 <= k < all.len() && all[k] == pair;
            assert(pairs[k] == pair);
        }
        if onlys.contains(only) {
            let k = choose|k: int| 0 <= k < onlys.len() && onlys[k] == only;
            assert(rest[k] == only);
        }
        if rest.contains(only) {
            let k = choose|k: int| 0 <= k < rest.len() && rest[k] == only;
            assert(onlys[k] == only);
        }
    } else {
        match place_from(theirs, mine[count - 1], 0) {
            Some(f) => {
                assert(theirs[f as int] == mine[count - 1]);
                if theirs[p as int] == mine[count - 1] && p != f {
                    lemma_keys_differ(theirs, results, neo, f as int, p as int);
                }
                assert(all[pairs.len() as int] == (MdLine::Pair {
                    result: waw,
                    op: last,
                    other: neo,
                    other_op: f,
                }));
                if all.contains(pair) {
                    let k = choose|k: int| 0 <= k < all.len() && all[k] == pair;
                    if k < pairs.len() {
                        assert(pairs.contains(pair));
                    }
                }
            },
            None => {
                assert forall|j: int| 0 <= j < theirs.len() implies #[trigger] theirs[j]
                    != mine[op as int] by {
                    law_place_is_first(theirs, mine[count - 1], 0, j);
                }
                assert(rest[onlys.len() as int] == only);
            },
        }
    }
}

proof fn lemma_keys_differ(
    keys: Seq<Seq<char>>,
    results: Seq<SystemSummary>,
    result: usize,
    a: int,
    b: int,
)
    requires
        keys == ops_of(results, result),
        0 <= a < keys.len(),
        0 <= b < keys.len(),
        a != b,
    ensures
        keys[a] != keys[b],
{
    law_ordered_keys(op_keys_of(results[result as int].labels@));
    law_order_is_strict(keys[a]);
    if a < b {
        assert(text_before(keys[a], keys[b]));
    } else {
        assert(text_before(keys[b], keys[a]));
    }
}

proof fn lemma_no_later_lines(
    results: Seq<SystemSummary>,
    waw: usize,
    neo: usize,
    count: nat,
    op: usize,
    p: usize,
)
    requires
        count <= usize::MAX,
    ensures
        op >= count ==> !pair_lines(results, waw, neo, count).contains(
            (MdLine::Pair { result: waw, op, other: neo, other_op: p }),
        ),
        op >= count ==> !only_lines(results, waw, neo, count).contains(
            (MdLine::Only { result: waw, op }),
        ),
    decreases count,
{
    if count > 0 && op >= count {
        let less = (count - 1) as nat;
        lemma_no_later_lines(results, waw, neo, less, op, p);
        let pairs = pair_lines(results, waw, neo, less);
        let onlys = only_lines(results, waw, neo, less);
        let all = pair_lines(results, waw, neo, count);
        let rest = only_lines(results, waw, neo, count);
        let pair = MdLine::Pair { result: waw, op, other: neo, other_op: p };
        let only = MdLine::Only { result: waw, op };
        if all.contains(pair) {
            let k = choose|k: int| 0 <= k < all.len() && all[k] == pair;
            assert(k < pairs.len());
            assert(pairs[k] == pair);
        }
        if rest.contains(only) {
            let k = choose|k: int| 0 <= k < rest.len() && rest[k] == only;
            assert(k < onlys.len());
            assert(onlys[k] == only);
        }
    }
}

proof fn lemma_line_count(results: Seq<SystemSummary>, waw: usize, neo: usize, count: nat)
    ensures
        pair_lines(results, waw, neo, count).len() + only_lines(results, waw, neo, count).len()
            == count,
    decreases count,
{
    if count > 0 {
        lemma_line_count(results, waw, neo, (count - 1) as nat);
    }
}

/// The tables of a scale: a head for the times if there is either system, and
/// tables only if there is the first one. Its operations are compared if there
/// is the other system; otherwise each of its samples has a line.
pub proof fn law_tables_follow_systems(
    results: Seq<SystemSummary>,
    waw: Option<usize>,
    neo: Option<usize>,
    k: int,
)
    ensures
        ({
            let lines = table_lines(results, waw, neo);
            &&& waw is None && neo is None ==> lines.len() == 0
            &&& waw is Some || neo is Some ==> lines.len() > 0 && lines[0] == MdLine::MetricHead
            &&& waw is None && neo is Some ==> lines.len() == 1
            &&& waw matches Some(w) ==> {
                let times = summary_lines(results, w, neo);
                let at = 1 + times.len() as int;
                &&& lines.subrange(1, at) == times
                &&& neo matches Some(n) ==> {
                    let count = ops_of(results, w).len();
                    &&& lines[at] == MdLine::PairHead
                    &&& lines.len() == at + 1 + count
                    &&& lines.subrange(
                        at + 1,
                        at + 1 + pair_lines(results, w, n, count).len(),
                    ) == pair_lines(results, w, n, count)
                    &&& lines.skip(at + 1 + pair_lines(results, w, n, count).len()) == only_lines(
                        results,
                        w,
                        n,
                        count,
                    )
                }
                &&& neo is None ==> {
                    let count = results[w as int].labels@.len();
                    &&& lines[at] == MdLine::SingleHead
                    &&& lines.len() == at + 1 + count
                    &&& 0 <= k < count ==> lines[at + 1 + k] == (MdLine::Single {
                        result: w,
                        sample: k as usize,
                    })
                }
            }
        }),
{
    let lines = table_lines(results, waw, neo);
    if let Some(w) = waw {
        let times = summary_lines(results, w, neo);
        let at = 1 + times.len() as int;
        assert(lines.subrange(1, at) =~= times);
        if let Some(n) = neo {
            let count = ops_of(results, w).len();
            lemma_line_count(results, w, n, count);
            let pairs = pair_lines(results, w, n, count);
            let onlys = only_lines(results, w, n, count);
            assert(lines.subrange(at + 1, at + 1 + pairs.len()) =~= pairs);
            assert(lines.skip(at + 1 + pairs.len()) =~= onlys);
        }
    }
}

/// The lines of a report are those of its scales, one scale after the other in
/// the order of their names. Those of a scale begin with its heading, which is
/// taken from the first result of the scale.
pub proof fn law_report_goes_by_scales(results: Seq<SystemSummary>, k: nat, n: nat, i: int)
    requires
        k < n <= ordered_keys(scales(results)).len(),
        results.len() <= usize::MAX,
        0 <= i < results.len(),
    ensures
        ({
            let scale = ordered_keys(scales(results))[k as int];
            let block = scale_lines(results, scale);
            let at = report_lines(results, k).len() as int;
            &&& at + block.len() <= report_lines(results, n).len()
            &&& report_lines(results, n).subrange(at, at + block.len()) == block
            &&& k + 1 == n ==> report_lines(results, n).len() == at + block.len()
            &&& block.len() > 0
            &&& (block[0] matches MdLine::Scale { result } && result < results.len()
                && results[result as int].scale_label@ == scale && (results[i].scale_label@ == scale
                ==> result <= i))
        }),
    decreases n,
{
    let all = scales(results);
    let keys = ordered_keys(all);
    let scale = keys[k as int];
    let block = scale_lines(results, scale);
    let at = report_lines(results, k).len() as int;
    law_ordered_keys(all);
    law_places(all, scale);
    assert(keys.contains(scale));
    assert(all.contains(scale));
    let j = choose|j: int| 0 <= j < all.len() && all[j] == scale;
    let members = places_of(all, scale);
    assert(members.contains(j as usize));
    assert(members.len() > 0);
    assert(members.contains(members[0]));
    assert(all[members[0] as int] == scale) by {
        assert(members[0] < all.len());
    }
    if all[i] == scale {
        lemma_first_place(all, scale, i);
    }
    if k + 1 == n {
        assert(report_lines(results, n) =~= report_lines(results, k) + block);
        assert(report_lines(results, n).subrange(at, at + block.len()) =~= block);
    } else {
        let m = (n - 1) as nat;
        law_report_goes_by_scales(results, k, m, i);
        assert(report_lines(results, n).subrange(at, at + block.len()) =~= report_lines(
            results,
            m,
        ).subrange(at, at + block.len()));
    }
}

proof fn lemma_first_place(texts: Seq<Seq<char>>, key: Seq<char>, i: int)
    requires
        texts.len() <= usize::MAX,
        0 <= i < texts.len(),
        texts[i] == key,
    ensures
        places_of(texts, key).len() > 0,
        places_of(texts, key)[0] <= i,
    decreases texts.len(),
{
    let rest = texts.drop_last();
    if i < rest.len() {
        assert(rest[i] == key);
        lemma_first_place(rest, key, i);
    } else {
        if places_of(rest, key).len() > 0 {
            law_places(rest, key);
            assert(places_of(rest, key)[0] < rest.len());
        }
    }
}

/// A cell with a text that is moved to the right end of a width.
proof fn lemma_cell(text: Seq<char>, width: nat, k: int)
    requires
        text.len() <= width,
    ensures
        padded_left(text, width).len() == width,
        padded_left(text, width).skip(width - text.len()) == text,
{
    assert forall|j: int| 0 <= j < text.len() implies padded_left(text, width)[width - text.len()
        + j] == text[j] by {
        law_padding_keeps_text(text, width, j);
    }
    law_padding_keeps_text(text, width, 0);
    assert(padded_left(text, width).skip(width - text.len()) =~= text);
}

/// A row that compares an operation shows the time of the first system, then
/// that of the other one and then the ratio, each at the right end of its column.
pub proof fn law_pair_row_shows_times(shown: Shown)
    requires
        shown.time@.len() <= 16,
        shown.other@.len() <= 16,
        shown.speedup@.len() <= 8,
    ensures
        ({
            let tail = pair_tail(shown);
            &&& tail.len() == 51
            &&& tail.subrange(16 - shown.time@.len(), 16) == shown.time@
            &&& tail.subrange(35 - shown.other@.len(), 35) == shown.other@
            &&& tail.subrange(46 - shown.speedup@.len(), 46) == shown.speedup@
            &&& tail[17] == '|' && tail[36] == '|' && tail[46] == 'x' && tail[50] == '|'
        }),
        single_tail(shown).len() == 18,
        single_tail(shown).subrange(16 - shown.time@.len(), 16) == shown.time@,
        only_tail(shown).subrange(16 - shown.time@.len(), 16) == shown.time@,
{
    reveal_strlit(" | ");
    reveal_strlit("x   |");
    reveal_strlit(" |");
    let tail = pair_tail(shown);
    let a = padded_left(shown.time@, 16);
    let b = padded_left(shown.other@, 16);
    let c = padded_left(shown.speedup@, 8);
    lemma_cell(shown.time@, 16, 0);
    lemma_cell(shown.other@, 16, 0);
    lemma_cell(shown.speedup@, 8, 0);
    assert(tail.subrange(16 - shown.time@.len(), 16) =~= a.skip(16 - shown.time@.len()));
    assert(tail.subrange(35 - shown.other@.len(), 35) =~= b.skip(16 - shown.other@.len()));
    assert(tail.subrange(46 - shown.speedup@.len(), 46) =~= c.skip(8 - shown.speedup@.len()));
    assert(single_tail(shown).subrange(16 - shown.time@.len(), 16) =~= a.skip(
        16 - shown.time@.len(),
    ));
    assert(only_tail(shown).subrange(16 - shown.time@.len(), 16) =~= a.skip(
        16 - shown.time@.len(),
    ));
}

/// The heading of a scale names it and gives the numbers of nodes and edges; the
/// line for an import begins with the first system's time.
pub proof fn law_headings_give_numbers(
    summary: SystemSummary,
    mine: u64,
    theirs: Option<u64>,
    speedup: Seq<char>,
)
    ensures
        begins_with(
            scale_text(summary),
            "\n## Scale: "@ + summary.scale_label@ + " ("@ + digits(summary.node_count as nat, 10)
                + " nodes, "@ + digits(summary.edge_count as nat, 10),
        ),
        begins_with(
            import_text(mine, theirs, speedup),
            "| Import      | "@ + digits(mine as nat, 10) + " ms        | "@,
        ),
        theirs matches Some(n) ==> begins_with(
            import_text(mine, theirs, speedup),
            "| Import      | "@ + digits(mine as nat, 10) + " ms        | "@ + digits(n as nat, 10)
                + " ms        | "@ + speedup,
        ),
{
    reveal_strlit(" ms        ");
    reveal_strlit(" ms        | ");
    reveal_strlit("| ");
    reveal_strlit("| —            | —       |");
    let head = "\n## Scale: "@ + summary.scale_label@ + " ("@ + digits(
        summary.node_count as nat,
        10,
    ) + " nodes, "@ + digits(summary.edge_count as nat, 10);
    assert(scale_text(summary).subrange(0, head.len() as int) =~= head);
    assert(" ms        | "@ =~= " ms        "@ + "| "@);
    let start = "| Import      | "@ + digits(mine as nat, 10) + " ms        | "@;
    let text = import_text(mine, theirs, speedup);
    assert(text.subrange(0, start.len() as int) =~= start);
    if let Some(n) = theirs {
        let more = start + digits(n as nat, 10) + " ms        | "@ + speedup;
        assert(text.subrange(0, more.len() as int) =~= more);
    }
}

} // verus!
