//! Reports of benchmark results.

use vstd::prelude::*;
use vstd::string::StringExecFns;
use vstd::utf8::{encode_utf8, is_char_boundary};

use crate::bench::grouping::{group_texts, is_grouping, views, Group};
use crate::text::{
    begins_with, decimal, digits, has_start, joined, optional_decimal, optional_digits, pad_right,
    padded_right, replace_all, replaced, same_text,
};

verus! {

/// Environment of a benchmark.
pub struct SystemInfo {
    pub cpu: String,
    pub memory_mb: u64,
    pub os: String,
    pub rust_version: String,
}

impl SystemInfo {
    /// Describes an environment by its number of processors, if known, its
    /// system and architecture, and the compiler's version, if known.
    pub fn gather(
        processors: Option<u64>,
        os: &str,
        arch: &str,
        rust_version: Option<String>,
    ) -> (r: Self)
        ensures
            r.cpu@ == match processors {
                Some(n) => digits(n as nat, 10) + " logical cores"@,
                None => "unknown"@,
            },
            r.memory_mb == 0,
            r.os@ == os@ + " "@ + arch@,
            r.rust_version@ == match rust_version {
                Some(v) => v@,
                None => "unknown"@,
            },
    {
        let cpu: String = match processors {
            Some(n) => joined(decimal(n).as_str(), " logical cores"),
            None => String::from_str("unknown"),
        };
        let rust_version: String = match rust_version {
            Some(v) => v,
            None => String::from_str("unknown"),
        };
        SystemInfo { cpu, memory_mb: 0, os: joined(joined(os, " ").as_str(), arch), rust_version }
    }
}

/// Time stamp of a report, from the seconds since 1970.
pub fn timestamp(seconds: u64) -> (r: String)
    ensures
        r@ == "unix_"@ + digits(seconds as nat, 10),
{
    joined("unix_", decimal(seconds).as_str())
}

/// A field of a CSV file. One that holds a comma, a quote or a line break is
/// quoted, with its quotes doubled.
pub open spec fn escaped(field: Seq<char>) -> Seq<char> {
    if field.contains(',') || field.contains('"') || field.contains('\n') {
        "\""@ + replaced(field, "\""@, "\"\""@) + "\""@
    } else {
        field
    }
}

/// Whether a text holds a character that asks for quotes.
fn needs_quotes(field: &str) -> (r: bool)
    ensures
        r == (field@.contains(',') || field@.contains('"') || field@.contains('\n')),
{
    let n: usize = vstd::string::StrSliceExecFns::unicode_len(field);
    let mut i: usize = 0;
    while i < n
        invariant
            i <= n == field@.len(),
            forall|j: int|
                0 <= j < i ==> field@[j] != ',' && field@[j] != '"' && field@[j] != '\n',
        decreases n - i,
    {
        let c: char = vstd::string::StrSliceExecFns::get_char(field, i);
        if c == ',' || c == '"' || c == '\n' {
            assert(field@[i as int] == c);
            return true;
        }
        i = i + 1;
    }
    false
}

/// Writes a field of a CSV file.
pub fn csv_escape(field: &str) -> (r: String)
    ensures
        r@ == escaped(field@),
{
    if needs_quotes(field) {
        proof {
            reveal_strlit("\"");
        }
        let inner: String = replace_all(field, "\"", "\"\"");
        joined(joined("\"", inner.as_str()).as_str(), "\"")
    } else {
        String::from_str(field)
    }
}

/// First line of a CSV report.
pub const CSV_HEADER: &'static str = "scale,system,nodes,edges,connection_ms,import_ms,operation,mean_ns,p50_ns,p95_ns,p99_ns,min_ns,max_ns,stddev_ns,sample_count";

/// Results of one system at one scale, without the measured times.
pub struct SystemSummary {
    pub system: String,
    pub scale_label: String,
    pub node_count: u64,
    pub edge_count: u64,
    pub connection_ms: Option<u64>,
    pub import_ms: Option<u64>,
    /// Labels of the samples.
    pub labels: Vec<String>,
}

/// What follows the label in a CSV line: a comma before each number.
pub open spec fn csv_numbers(numbers: Seq<String>) -> Seq<char>
    decreases numbers.len(),
{
    if numbers.len() == 0 {
        Seq::empty()
    } else {
        csv_numbers(numbers.drop_last()) + ","@ + numbers.last()@
    }
}

/// A line of a CSV report, without its end.
pub open spec fn csv_line_of(
    summary: SystemSummary,
    label: Seq<char>,
    numbers: Seq<String>,
) -> Seq<char> {
    escaped(summary.scale_label@) + ","@ + escaped(summary.system@) + ","@ + digits(
        summary.node_count as nat,
        10,
    ) + ","@ + digits(summary.edge_count as nat, 10) + ","@ + optional_digits(
        summary.connection_ms,
    ) + ","@ + optional_digits(summary.import_ms) + ","@ + escaped(label) + csv_numbers(numbers)
}

/// A line of a CSV report: the numbers of one sample, as text.
pub fn csv_line(summary: &SystemSummary, label: &str, numbers: &Vec<String>) -> (r: String)
    ensures
        r@ == csv_line_of(*summary, label@, numbers@),
{
    let mut line: String = csv_escape(summary.scale_label.as_str());
    line.append(",");
    line.append(csv_escape(summary.system.as_str()).as_str());
    line.append(",");
    line.append(decimal(summary.node_count).as_str());
    line.append(",");
    line.append(decimal(summary.edge_count).as_str());
    line.append(",");
    line.append(optional_decimal(summary.connection_ms).as_str());
    line.append(",");
    line.append(optional_decimal(summary.import_ms).as_str());
    line.append(",");
    line.append(csv_escape(label).as_str());
    let ghost start = line@;
    let mut i: usize = 0;
    assert(numbers@.take(0) =~= Seq::<String>::empty());
    assert(start + csv_numbers(numbers@.take(0)) =~= start);
    while i < numbers.len()
        invariant
            i <= numbers@.len(),
            line@ == start + csv_numbers(numbers@.take(i as int)),
        decreases numbers@.len() - i,
    {
        let ghost head = numbers@.take(i as int);
        line.append(",");
        line.append(numbers[i].as_str());
        i = i + 1;
        proof {
            assert(numbers@.take(i as int).drop_last() =~= head);
            assert(numbers@.take(i as int).last() == numbers@[i - 1]);
            assert(line@ =~= start + (csv_numbers(head) + ","@ + numbers@[i - 1]@));
        }
    }
    assert(numbers@.take(i as int) =~= numbers@);
    line
}

/// Kind of operation that a label stands for.
pub open spec fn op_key_of(label: Seq<char>) -> Seq<char> {
    if begins_with(label, "entity_get"@) {
        "entity_get"@
    } else if begins_with(label, "spatial_[-1.00_-1.00_1.00_1.00]"@) {
        "spatial_full_view"@
    } else if begins_with(label, "spatial_[-0.50_-0.50_0.50_0.50]"@) {
        "spatial_mid"@
    } else if begins_with(label, "spatial_[-0.25_-0.25_0.25_0.25]"@) {
        "spatial_small"@
    } else if begins_with(label, "spatial_[-1.00_-1.00_0.00_0.00]"@) {
        "spatial_ll"@
    } else if begins_with(label, "spatial_[0.00_0.00_1.00_1.00]"@) {
        "spatial_ur"@
    } else if begins_with(label, "spatial_"@) {
        "spatial"@
    } else if begins_with(label, "bfs"@) {
        "bfs_depth2"@
    } else if begins_with(label, "full_scan"@) {
        "full_scan"@
    } else {
        label
    }
}

/// Kind of operation that a label stands for.
pub fn op_key(label: &str) -> (r: String)
    ensures
        r@ == op_key_of(label@),
{
    let key: &str = if has_start(label, "entity_get") {
        "entity_get"
    } else if has_start(label, "spatial_[-1.00_-1.00_1.00_1.00]") {
        "spatial_full_view"
    } else if has_start(label, "spatial_[-0.50_-0.50_0.50_0.50]") {
        "spatial_mid"
    } else if has_start(label, "spatial_[-0.25_-0.25_0.25_0.25]") {
        "spatial_small"
    } else if has_start(label, "spatial_[-1.00_-1.00_0.00_0.00]") {
        "spatial_ll"
    } else if has_start(label, "spatial_[0.00_0.00_1.00_1.00]") {
        "spatial_ur"
    } else if has_start(label, "spatial_") {
        "spatial"
    } else if has_start(label, "bfs") {
        "bfs_depth2"
    } else if has_start(label, "full_scan") {
        "full_scan"
    } else {
        label
    };
    String::from_str(key)
}

/// Name of a kind of operation for display.
pub open spec fn op_display_of(key: Seq<char>) -> Seq<char> {
    if key == "entity_get"@ {
        "Entity get (hot)"@
    } else if key == "spatial_full_view"@ {
        "Spatial [full]"@
    } else if key == "spatial_mid"@ {
        "Spatial [mid]"@
    } else if key == "spatial_small"@ {
        "Spatial [small]"@
    } else if key == "spatial_ll"@ {
        "Spatial [LL]"@
    } else if key == "spatial_ur"@ {
        "Spatial [UR]"@
    } else if key == "spatial"@ {
        "Spatial query"@
    } else if key == "bfs_depth2"@ {
        "BFS depth=2"@
    } else if key == "full_scan"@ {
        "Full scan"@
    } else {
        key
    }
}

fn op_display<'a>(key: &'a str) -> (r: &'a str)
    ensures
        r@ == op_display_of(key@),
{
    if same_text(key, "entity_get") {
        "Entity get (hot)"
    } else if same_text(key, "spatial_full_view") {
        "Spatial [full]"
    } else if same_text(key, "spatial_mid") {
        "Spatial [mid]"
    } else if same_text(key, "spatial_small") {
        "Spatial [small]"
    } else if same_text(key, "spatial_ll") {
        "Spatial [LL]"
    } else if same_text(key, "spatial_ur") {
        "Spatial [UR]"
    } else if same_text(key, "spatial") {
        "Spatial query"
    } else if same_text(key, "bfs_depth2") {
        "BFS depth=2"
    } else if same_text(key, "full_scan") {
        "Full scan"
    } else {
        key
    }
}

/// Whether the name of an operation can be cut to a number of bytes.
pub open spec fn can_cut(key: Seq<char>, width: nat) -> bool {
    let bytes = encode_utf8(op_display_of(key));
    bytes.len() > width ==> is_char_boundary(bytes, width as int)
}

/// Tests whether the name of an operation can be cut to a number of bytes.
pub fn label_can_be_cut(key: &str, width: usize) -> (r: bool)
    ensures
        r == can_cut(key@, width as nat),
{
    let display: &str = op_display(key);
    display.as_bytes().len() <= width || display.is_char_boundary(width)
}

/// Whether a text is the name of an operation, cut to a number of bytes if it
/// is longer and filled up with blanks if it is shorter.
pub open spec fn is_op_label(text: Seq<char>, key: Seq<char>, width: nat) -> bool {
    let display = op_display_of(key);
    let bytes = encode_utf8(display);
    if bytes.len() > width {
        encode_utf8(text) == bytes.subrange(0, width as int)
    } else {
        text == padded_right(display, width)
    }
}

/// Name of an operation in a column of a given width.
pub fn format_op_label(key: &str, width: usize) -> (r: String)
    requires
        can_cut(key@, width as nat),
    ensures
        is_op_label(r@, key@, width as nat),
{
    let display: &str = op_display(key);
    if display.as_bytes().len() > width {
        let (head, _tail) = display.split_at(width);
        String::from_str(head)
    } else {
        pad_right(display, width)
    }
}

/// The kinds of operations that labels stand for.
pub open spec fn op_keys_of(labels: Seq<String>) -> Seq<Seq<char>> {
    Seq::new(labels.len(), |i: int| op_key_of(labels[i]@))
}

/// Groups samples by the kind of operation that their labels stand for.
pub fn group_by_op(labels: &Vec<String>) -> (r: Vec<Group>)
    ensures
        is_grouping(r@, op_keys_of(labels@)),
{
    let mut keys: Vec<String> = Vec::new();
    let mut i: usize = 0;
    while i < labels.len()
        invariant
            i <= labels@.len(),
            keys@.len() == i,
            forall|j: int| 0 <= j < i ==> (#[trigger] keys@[j])@ == op_key_of(labels@[j]@),
        decreases labels@.len() - i,
    {
        keys.push(op_key(labels[i].as_str()));
        i = i + 1;
    }
    assert(views(keys@) =~= op_keys_of(labels@));
    group_texts(&keys)
}

/// Label of a sample for display.
pub fn short_label(label: &str) -> (r: String)
    ensures
        r@ == replaced(
            replaced(label@, "entity_get_"@, "get#"@),
            "bfs_depth2_from_"@,
            "bfs#"@,
        ),
{
    proof {
        reveal_strlit("entity_get_");
        reveal_strlit("bfs_depth2_from_");
    }
    let gets: String = replace_all(label, "entity_get_", "get#");
    replace_all(gets.as_str(), "bfs_depth2_from_", "bfs#")
}

} // verus!
