//! Comparison of systems in Markdown.

use vstd::prelude::*;
use vstd::string::StringExecFns;

use crate::bench::grouping::{
    group_keys, group_texts, is_grouping, law_ordered_keys, law_places, ordered_keys, places_of,
    views, Group,
};
use crate::bench::report::{
    can_cut, format_op_label, group_by_op, is_op_label, op_key, op_key_of, op_keys_of, SystemInfo,
    SystemSummary,
};
use crate::text::{decimal, digits, pad_left, pad_right, padded_left, padded_right, same_text};

verus! {

/// Width of the column that names the operations.
pub const LABEL_WIDTH: usize = 21;

/// One part of a comparison. Results are given by their place in the report,
/// kinds of operations by their place among those of a result, in order.
#[derive(Clone, Copy, Debug, PartialEq, Eq, Structural)]
pub enum MdLine {
    /// Heading of a scale, with the first of its results.
    Scale { result: usize },
    /// Head of the table of connection and import times.
    MetricHead,
    Connect { result: usize },
    /// Import times of a result and of the one it is compared with.
    Import { result: usize, against: Option<usize> },
    /// Head of the table that compares operations.
    PairHead,
    /// An operation that both systems have.
    Pair { result: usize, op: usize, other: usize, other_op: usize },
    /// An operation that only the first system has.
    Only { result: usize, op: usize },
    /// Head of the table of one system's samples.
    SingleHead,
    Single { result: usize, sample: usize },
}

/// The scales of the results.
pub open spec fn scales(results: Seq<SystemSummary>) -> Seq<Seq<char>> {
    Seq::new(results.len(), |i: int| results[i].scale_label@)
}

/// The first of some results that belongs to a system.
pub open spec fn first_of(
    results: Seq<SystemSummary>,
    members: Seq<usize>,
    system: Seq<char>,
) -> Option<usize>
    decreases members.len(),
{
    if members.len() == 0 {
        None
    } else if results[members[0] as int].system@ == system {
        Some(members[0])
    } else {
        first_of(results, members.skip(1), system)
    }
}

/// First place of a key, at `from` or later.
pub open spec fn place_from(keys: Seq<Seq<char>>, key: Seq<char>, from: int) -> Option<usize>
    decreases keys.len() - from,
{
    if from >= keys.len() {
        None
    } else if keys[from] == key {
        Some(from as usize)
    } else {
        place_from(keys, key, from + 1)
    }
}

/// Connection and import times.
pub open spec fn summary_lines(
    results: Seq<SystemSummary>,
    waw: usize,
    neo: Option<usize>,
) -> Seq<MdLine> {
    let connect = if results[waw as int].connection_ms is Some {
        seq![MdLine::Connect { result: waw }]
    } else {
        Seq::empty()
    };
    let against = match neo {
        Some(n) => if results[n as int].import_ms is Some {
            neo
        } else {
            None
        },
        None => None,
    };
    let import = if results[waw as int].import_ms is Some {
        seq![MdLine::Import { result: waw, against }]
    } else {
        Seq::empty()
    };
    connect + import
}

/// The kinds of operations of a result, in order.
pub open spec fn ops_of(results: Seq<SystemSummary>, result: usize) -> Seq<Seq<char>> {
    ordered_keys(op_keys_of(results[result as int].labels@))
}

/// The first `count` operations of a system that another has too.
pub open spec fn pair_lines(
    results: Seq<SystemSummary>,
    waw: usize,
    neo: usize,
    count: nat,
) -> Seq<MdLine>
    decreases count,
{
    if count == 0 {
        Seq::empty()
    } else {
        let before = pair_lines(results, waw, neo, (count - 1) as nat);
        match place_from(ops_of(results, neo), ops_of(results, waw)[count - 1], 0) {
            Some(p) => before.push(
                MdLine::Pair { result: waw, op: (count - 1) as usize, other: neo, other_op: p },
            ),
            None => before,
        }
    }
}

/// The first `count` operations of a system that another has not.
pub open spec fn only_lines(
    results: Seq<SystemSummary>,
    waw: usize,
    neo: usize,
    count: nat,
) -> Seq<MdLine>
    decreases count,
{
    if count == 0 {
        Seq::empty()
    } else {
        let before = only_lines(results, waw, neo, (count - 1) as nat);
        match place_from(ops_of(results, neo), ops_of(results, waw)[count - 1], 0) {
            Some(_) => before,
            None => before.push(MdLine::Only { result: waw, op: (count - 1) as usize }),
        }
    }
}

/// The table of operations: what both systems have, then what only the first
/// has; with one system only, all its samples.
pub open spec fn operation_lines(
    results: Seq<SystemSummary>,
    waw: usize,
    neo: Option<usize>,
) -> Seq<MdLine> {
    match neo {
        Some(n) => {
            let count = ops_of(results, waw).len();
            seq![MdLine::PairHead] + pair_lines(results, waw, n, count) + only_lines(
                results,
                waw,
                n,
                count,
            )
        },
        None => seq![MdLine::SingleHead] + Seq::new(
            results[waw as int].labels@.len(),
            |i: int| MdLine::Single { result: waw, sample: i as usize },
        ),
    }
}

/// The tables of a scale.
pub open spec fn table_lines(
    results: Seq<SystemSummary>,
    waw: Option<usize>,
    neo: Option<usize>,
) -> Seq<MdLine> {
    match waw {
        Some(w) => seq![MdLine::MetricHead] + summary_lines(results, w, neo) + operation_lines(
            results,
            w,
            neo,
        ),
        None => if neo is Some {
            seq![MdLine::MetricHead]
        } else {
            Seq::empty()
        },
    }
}

/// Everything on one scale.
pub open spec fn scale_lines(results: Seq<SystemSummary>, scale: Seq<char>) -> Seq<MdLine> {
    let members = places_of(scales(results), scale);
    seq![MdLine::Scale { result: members[0] }] + table_lines(
        results,
        first_of(results, members, "waw_server"@),
        first_of(results, members, "neo4j"@),
    )
}

/// Everything on the first `count` scales, in order.
pub open spec fn report_lines(results: Seq<SystemSummary>, count: nat) -> Seq<MdLine>
    decreases count,
{
    if count == 0 {
        Seq::empty()
    } else {
        report_lines(results, (count - 1) as nat) + scale_lines(
            results,
            ordered_keys(scales(results))[count - 1],
        )
    }
}

/// Whether what a line speaks of is there.
pub open spec fn line_fits(line: MdLine, results: Seq<SystemSummary>) -> bool {
    match line {
        MdLine::Scale { result } => result < results.len(),
        MdLine::Connect { result } => result < results.len()
            && results[result as int].connection_ms is Some,
        MdLine::Import { result, against } => {
            &&& result < results.len()
            &&& results[result as int].import_ms is Some
            &&& against matches Some(o) ==> o < results.len() && results[o as int].import_ms is Some
        },
        MdLine::Pair { result, op, other, other_op } => {
            &&& result < results.len()
            &&& other < results.len()
            &&& op < ops_of(results, result).len()
            &&& other_op < ops_of(results, other).len()
            &&& ops_of(results, result)[op as int] == ops_of(results, other)[other_op as int]
        },
        MdLine::Only { result, op } => result < results.len() && op < ops_of(
            results,
            result,
        ).len(),
        MdLine::Single { result, sample } => result < results.len() && sample
            < results[result as int].labels@.len(),
        _ => true,
    }
}

/// Whether what all lines speak of is there.
pub open spec fn lines_fit(lines: Seq<MdLine>, results: Seq<SystemSummary>) -> bool {
    forall|i: int| 0 <= i < lines.len() ==> line_fits(#[trigger] lines[i], results)
}

/// Finds the first of some results that belongs to a system.
fn find_system(results: &Vec<SystemSummary>, members: &Vec<usize>, system: &str) -> (r: Option<
    usize,
>)
    requires
        forall|i: int| 0 <= i < members@.len() ==> #[trigger] members@[i] < results@.len(),
    ensures
        r == first_of(results@, members@, system@),
        r matches Some(w) ==> w < results@.len(),
{
    let mut i: usize = 0;
    assert(members@.skip(0) =~= members@);
    while i < members.len()
        invariant
            i <= members@.len(),
            forall|i: int| 0 <= i < members@.len() ==> #[trigger] members@[i] < results@.len(),
            first_of(results@, members@, system@) == first_of(
                results@,
                members@.skip(i as int),
                system@,
            ),
        decreases members@.len() - i,
    {
        let m: usize = members[i];
        if same_text(results[m].system.as_str(), system) {
            return Some(m);
        }
        assert(members@.skip(i as int).skip(1) =~= members@.skip(i + 1));
        i = i + 1;
    }
    None
}

/// Finds a key among groups.
fn find_op(groups: &Vec<Group>, key: &str) -> (r: Option<usize>)
    ensures
        r == place_from(group_keys(groups@), key@, 0),
        r matches Some(p) ==> p < groups@.len() && group_keys(groups@)[p as int] == key@,
{
    let ghost keys = group_keys(groups@);
    let mut i: usize = 0;
    while i < groups.len()
        invariant
            i <= groups@.len(),
            keys == group_keys(groups@),
            place_from(keys, key@, 0) == place_from(keys, key@, i as int),
        decreases groups@.len() - i,
    {
        if same_text(groups[i].key.as_str(), key) {
            return Some(i);
        }
        i = i + 1;
    }
    None
}

/// Adds the times of a system.
fn add_summary(
    lines: &mut Vec<MdLine>,
    results: &Vec<SystemSummary>,
    waw: usize,
    neo: Option<usize>,
)
    requires
        waw < results@.len(),
        neo matches Some(n) ==> n < results@.len(),
        lines_fit(old(lines)@, results@),
    ensures
        final(lines)@ == old(lines)@ + summary_lines(results@, waw, neo),
        lines_fit(final(lines)@, results@),
{
    if results[waw].connection_ms.is_some() {
        lines.push(MdLine::Connect { result: waw });
    }
    let against: Option<usize> = match neo {
        Some(n) => if results[n].import_ms.is_some() {
            Some(n)
        } else {
            None
        },
        None => None,
    };
    if results[waw].import_ms.is_some() {
        lines.push(MdLine::Import { result: waw, against });
    }
    assert(lines@ =~= old(lines)@ + summary_lines(results@, waw, neo));
}

/// Adds the table that compares operations.
fn add_pairs(lines: &mut Vec<MdLine>, results: &Vec<SystemSummary>, waw: usize, neo: usize)
    requires
        waw < results@.len(),
        neo < results@.len(),
        lines_fit(old(lines)@, results@),
    ensures
        final(lines)@ == old(lines)@ + operation_lines(results@, waw, Some(neo)),
        lines_fit(final(lines)@, results@),
{
    let ghost start = lines@.push(MdLine::PairHead);
    lines.push(MdLine::PairHead);
    let mine: Vec<Group> = group_by_op(&results[waw].labels);
    let theirs: Vec<Group> = group_by_op(&results[neo].labels);
    let ghost count = ops_of(results@, waw).len();
    let mut a: usize = 0;
    assert(lines@ =~= start + pair_lines(results@, waw, neo, 0));
    while a < mine.len()
        invariant
            a <= mine@.len() == count,
            waw < results@.len(),
            neo < results@.len(),
            group_keys(mine@) == ops_of(results@, waw),
            group_keys(theirs@) == ops_of(results@, neo),
            lines@ == start + pair_lines(results@, waw, neo, a as nat),
            lines_fit(lines@, results@),
        decreases mine@.len() - a,
    {
        assert(group_keys(mine@)[a as int] == mine@[a as int].key@);
        let ghost before = pair_lines(results@, waw, neo, a as nat);
        match find_op(&theirs, mine[a].key.as_str()) {
            Some(p) => {
                let line = MdLine::Pair { result: waw, op: a, other: neo, other_op: p };
                lines.push(line);
                assert(lines@ =~= start + before.push(line));
            },
            None => {},
        }
        a = a + 1;
    }
    let ghost middle = lines@;
    a = 0;
    assert(lines@ =~= middle + only_lines(results@, waw, neo, 0));
    while a < mine.len()
        invariant
            a <= mine@.len() == count,
            waw < results@.len(),
            neo < results@.len(),
            group_keys(mine@) == ops_of(results@, waw),
            group_keys(theirs@) == ops_of(results@, neo),
            lines@ == middle + only_lines(results@, waw, neo, a as nat),
            lines_fit(lines@, results@),
        decreases mine@.len() - a,
    {
        assert(group_keys(mine@)[a as int] == mine@[a as int].key@);
        let ghost before = only_lines(results@, waw, neo, a as nat);
        match find_op(&theirs, mine[a].key.as_str()) {
            Some(_) => {},
            None => {
                let line = MdLine::Only { result: waw, op: a };
                lines.push(line);
                assert(lines@ =~= middle + before.push(line));
            },
        }
        a = a + 1;
    }
    assert(lines@ =~= old(lines)@ + operation_lines(results@, waw, Some(neo)));
}

/// Adds the table of one system's samples.
fn add_singles(lines: &mut Vec<MdLine>, results: &Vec<SystemSummary>, waw: usize)
    requires
        waw < results@.len(),
        lines_fit(old(lines)@, results@),
    ensures
        final(lines)@ == old(lines)@ + operation_lines(results@, waw, None),
        lines_fit(final(lines)@, results@),
{
    let ghost start = lines@.push(MdLine::SingleHead);
    lines.push(MdLine::SingleHead);
    let count: usize = results[waw].labels.len();
    let mut i: usize = 0;
    while i < count
        invariant
            i <= count == results@[waw as int].labels@.len(),
            waw < results@.len(),
            lines@ == start + Seq::new(
                i as nat,
                |j: int| MdLine::Single { result: waw, sample: j as usize },
            ),
            lines_fit(lines@, results@),
        decreases count - i,
    {
        lines.push(MdLine::Single { result: waw, sample: i });
        i = i + 1;
        assert(lines@ =~= start + Seq::new(
            i as nat,
            |j: int| MdLine::Single { result: waw, sample: j as usize },
        ));
    }
    assert(lines@ =~= old(lines)@ + operation_lines(results@, waw, None));
}

/// Lays out a comparison of systems: for each scale, in order, the times and
/// the operations of the graph server, beside those of Neo4j where there are
/// such.
pub fn markdown_plan(results: &Vec<SystemSummary>) -> (r: Vec<MdLine>)
    ensures
        r@ == report_lines(results@, ordered_keys(scales(results@)).len()),
        lines_fit(r@, results@),
{
    let mut labels: Vec<String> = Vec::new();
    let mut i: usize = 0;
    while i < results.len()
        invariant
            i <= results@.len(),
            labels@.len() == i,
            forall|j: int| 0 <= j < i ==> (#[trigger] labels@[j])@ == results@[j].scale_label@,
        decreases results@.len() - i,
    {
        labels.push(results[i].scale_label.clone());
        i = i + 1;
    }
    let ghost texts = scales(results@);
    assert(views(labels@) =~= texts);
    let groups: Vec<Group> = group_texts(&labels);
    let mut lines: Vec<MdLine> = Vec::new();
    let mut g: usize = 0;
    assert(lines@ =~= report_lines(results@, 0));
    while g < groups.len()
        invariant
            g <= groups@.len(),
            texts == scales(results@),
            results@.len() <= usize::MAX,
            is_grouping(groups@, texts),
            lines@ == report_lines(results@, g as nat),
            lines_fit(lines@, results@),
        decreases groups@.len() - g,
    {
        let members: &Vec<usize> = &groups[g].members;
        let ghost key = groups@[g as int].key@;
        let ghost before = lines@;
        proof {
            assert(group_keys(groups@)[g as int] == key);
            law_places(texts, key);
            law_ordered_keys(texts);
            assert(ordered_keys(texts).contains(key));
            let at = choose|i: int| 0 <= i < texts.len() && texts[i] == key;
            assert(members@.contains(at as usize));
            assert(members@.len() > 0);
        }
        lines.push(MdLine::Scale { result: members[0] });
        let waw: Option<usize> = find_system(results, members, "waw_server");
        let neo: Option<usize> = find_system(results, members, "neo4j");
        match waw {
            Some(w) => {
                lines.push(MdLine::MetricHead);
                add_summary(&mut lines, results, w, neo);
                match neo {
                    Some(n) => add_pairs(&mut lines, results, w, n),
                    None => add_singles(&mut lines, results, w),
                }
            },
            None => {
                if neo.is_some() {
                    lines.push(MdLine::MetricHead);
                }
            },
        }
        assert(lines@ =~= before + scale_lines(results@, key));
        g = g + 1;
    }
    lines
}

/// Texts that a line shows besides what the results hold.
pub struct Shown {
    /// Time of the first system.
    pub time: String,
    /// Time of the other system.
    pub other: String,
    /// How much faster the first system is.
    pub speedup: String,
}

/// Whether a text is a cell with the name of an operation.
pub open spec fn is_label_cell(text: Seq<char>, key: Seq<char>) -> bool {
    exists|label: Seq<char>| #[trigger]
        is_op_label(label, key, LABEL_WIDTH as nat) && text == "| "@ + padded_right(
            label,
            LABEL_WIDTH as nat,
        ) + " | "@
}

/// Heading of a scale.
pub open spec fn scale_text(summary: SystemSummary) -> Seq<char> {
    "\n## Scale: "@ + summary.scale_label@ + " ("@ + digits(summary.node_count as nat, 10)
        + " nodes, "@ + digits(summary.edge_count as nat, 10) + " edges)\n"@
}

/// Import times.
pub open spec fn import_text(mine: u64, theirs: Option<u64>, speedup: Seq<char>) -> Seq<char> {
    let start = "| Import      | "@ + digits(mine as nat, 10) + " ms        "@;
    match theirs {
        Some(n) => start + "| "@ + digits(n as nat, 10) + " ms        | "@ + speedup + "x   |"@,
        None => start + "| —            | —       |"@,
    }
}

/// What follows the name of an operation in the table of pairs.
pub open spec fn pair_tail(shown: Shown) -> Seq<char> {
    padded_left(shown.time@, 16) + " | "@ + padded_left(shown.other@, 16) + " | "@ + padded_left(
        shown.speedup@,
        8,
    ) + "x   |"@
}

/// What follows the name of an operation that only one system has.
pub open spec fn only_tail(shown: Shown) -> Seq<char> {
    padded_left(shown.time@, 16) + " | "@ + padded_left("—"@, 16) + " | "@ + padded_left(
        "—"@,
        10,
    ) + " |"@
}

/// What follows the name of an operation in the table of one system.
pub open spec fn single_tail(shown: Shown) -> Seq<char> {
    padded_left(shown.time@, 16) + " |"@
}

/// Whether a text is a cell with the name of an operation and what follows it.
pub open spec fn is_row(text: Seq<char>, key: Seq<char>, tail: Seq<char>) -> bool {
    exists|cell: Seq<char>| #[trigger] is_label_cell(cell, key) && text == cell + tail
}

/// Kind of the operation that a line is on.
pub open spec fn op_on(line: MdLine, results: Seq<SystemSummary>) -> Option<Seq<char>> {
    match line {
        MdLine::Pair { result, op, .. } => Some(ops_of(results, result)[op as int]),
        MdLine::Only { result, op } => Some(ops_of(results, result)[op as int]),
        MdLine::Single { result, sample } => Some(
            op_key_of(results[result as int].labels@[sample as int]@),
        ),
        _ => None,
    }
}

/// Whether a text shows a line.
pub open spec fn is_line_text(
    text: Seq<char>,
    line: MdLine,
    results: Seq<SystemSummary>,
    shown: Shown,
) -> bool {
    match line {
        MdLine::Scale { result } => text == scale_text(results[result as int]),
        MdLine::MetricHead => text
            == "| Metric       | WAW Server    | Neo4j        | Speedup |\n|-------------|---------------|-------------|---------|"@,
        MdLine::Connect { result } => text == "| Connect     | "@ + digits(
            results[result as int].connection_ms->0 as nat,
            10,
        ) + " ms        | —            | —       |"@,
        MdLine::Import { result, against } => text == import_text(
            results[result as int].import_ms->0,
            match against {
                Some(o) => results[o as int].import_ms,
                None => None,
            },
            shown.speedup@,
        ),
        MdLine::PairHead => text
            == "\n| Operation              | WAW Server       | Neo4j            | Speedup    |\n|-----------------------|------------------|------------------|------------|"@,
        MdLine::Pair { .. } => is_row(
            text,
            op_on(line, results)->0,
            pair_tail(shown),
        ),
        MdLine::Only { .. } => is_row(
            text,
            op_on(line, results)->0,
            only_tail(shown),
        ),
        MdLine::SingleHead => text
            == "\n| Operation              | WAW Server       |\n|-----------------------|------------------|"@,
        MdLine::Single { .. } => is_row(
            text,
            op_on(line, results)->0,
            single_tail(shown),
        ),
    }
}

fn label_cell(key: &str) -> (r: String)
    requires
        can_cut(key@, LABEL_WIDTH as nat),
    ensures
        is_label_cell(r@, key@),
{
    let label: String = format_op_label(key, LABEL_WIDTH);
    let mut cell: String = String::from_str("| ");
    cell.append(pad_right(label.as_str(), LABEL_WIDTH).as_str());
    cell.append(" | ");
    assert(is_op_label(label@, key@, LABEL_WIDTH as nat));
    cell
}

/// The kind of operation with the given place among those of a result.
fn op_at(summary: &SystemSummary, op: usize) -> (r: String)
    requires
        op < ordered_keys(op_keys_of(summary.labels@)).len(),
    ensures
        r@ == ordered_keys(op_keys_of(summary.labels@))[op as int],
{
    let groups: Vec<Group> = group_by_op(&summary.labels);
    assert(group_keys(groups@)[op as int] == groups@[op as int].key@);
    groups[op].key.clone()
}

/// Kind of the operation that a line is on, if it is on one.
pub fn line_op(line: MdLine, results: &Vec<SystemSummary>) -> (r: Option<String>)
    requires
        line_fits(line, results@),
    ensures
        match r {
            Some(op) => op_on(line, results@) == Some(op@),
            None => op_on(line, results@) is None,
        },
{
    match line {
        MdLine::Pair { result, op, .. } => Some(op_at(&results[result], op)),
        MdLine::Only { result, op } => Some(op_at(&results[result], op)),
        MdLine::Single { result, sample } => Some(
            op_key(results[result].labels[sample].as_str()),
        ),
        _ => None,
    }
}

/// Shows a line. The times are taken from `shown`.
pub fn line_text(line: MdLine, results: &Vec<SystemSummary>, shown: &Shown) -> (r: String)
    requires
        line_fits(line, results@),
        op_on(line, results@) matches Some(op) ==> can_cut(op, LABEL_WIDTH as nat),
    ensures
        is_line_text(r@, line, results@, *shown),
{
    let cell: String = match line_op(line, results) {
        Some(op) => label_cell(op.as_str()),
        None => String::new(),
    };
    match line {
        MdLine::Scale { result } => {
            let summary: &SystemSummary = &results[result];
            let mut text: String = String::from_str("\n## Scale: ");
            text.append(summary.scale_label.as_str());
            text.append(" (");
            text.append(decimal(summary.node_count).as_str());
            text.append(" nodes, ");
            text.append(decimal(summary.edge_count).as_str());
            text.append(" edges)\n");
            text
        },
        MdLine::MetricHead => String::from_str(
            "| Metric       | WAW Server    | Neo4j        | Speedup |\n|-------------|---------------|-------------|---------|",
        ),
        MdLine::Connect { result } => {
            let mut text: String = String::from_str("| Connect     | ");
            if let Some(ms) = results[result].connection_ms {
                text.append(decimal(ms).as_str());
            }
            text.append(" ms        | —            | —       |");
            text
        },
        MdLine::Import { result, against } => {
            let mut text: String = String::from_str("| Import      | ");
            if let Some(ms) = results[result].import_ms {
                text.append(decimal(ms).as_str());
            }
            text.append(" ms        ");
            let theirs: Option<u64> = match against {
                Some(o) => results[o].import_ms,
                None => None,
            };
            match theirs {
                Some(ms) => {
                    text.append("| ");
                    text.append(decimal(ms).as_str());
                    text.append(" ms        | ");
                    text.append(shown.speedup.as_str());
                    text.append("x   |");
                },
                None => {
                    text.append("| —            | —       |");
                },
            }
            text
        },
        MdLine::PairHead => String::from_str(
            "\n| Operation              | WAW Server       | Neo4j            | Speedup    |\n|-----------------------|------------------|------------------|------------|",
        ),
        MdLine::Pair { .. } => {
            let mut text: String = cell;
            let ghost start = text@;
            text.append(pad_left(shown.time.as_str(), 16).as_str());
            text.append(" | ");
            text.append(pad_left(shown.other.as_str(), 16).as_str());
            text.append(" | ");
            text.append(pad_left(shown.speedup.as_str(), 8).as_str());
            text.append("x   |");
            assert(text@ =~= start + pair_tail(*shown));
            text
        },
        MdLine::Only { .. } => {
            let mut text: String = cell;
            let ghost start = text@;
            text.append(pad_left(shown.time.as_str(), 16).as_str());
            text.append(" | ");
            text.append(pad_left("—", 16).as_str());
            text.append(" | ");
            text.append(pad_left("—", 10).as_str());
            text.append(" |");
            assert(text@ =~= start + only_tail(*shown));
            text
        },
        MdLine::SingleHead => String::from_str(
            "\n| Operation              | WAW Server       |\n|-----------------------|------------------|",
        ),
        MdLine::Single { .. } => {
            let mut text: String = cell;
            let ghost start = text@;
            text.append(pad_left(shown.time.as_str(), 16).as_str());
            text.append(" |");
            assert(text@ =~= start + single_tail(*shown));
            text
        },
    }
}

/// Head of a report, without its last line end.
pub fn report_head(timestamp: &str, commit: &str, info: &SystemInfo) -> (r: String)
    ensures
        r@ == "\n# Benchmark Report\n\n**Timestamp**: "@ + timestamp@ + "\n**Git commit**: `"@
            + commit@ + "`\n**System**: "@ + info.os@ + " ("@ + info.cpu@ + " threads), "@
            + info.rust_version@,
{
    let mut text: String = String::from_str("\n# Benchmark Report\n\n**Timestamp**: ");
    text.append(timestamp);
    text.append("\n**Git commit**: `");
    text.append(commit);
    text.append("`\n**System**: ");
    text.append(info.os.as_str());
    text.append(" (");
    text.append(info.cpu.as_str());
    text.append(" threads), ");
    text.append(info.rust_version.as_str());
    text
}

} // verus!
