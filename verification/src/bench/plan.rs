//! What a benchmark runs.

use vstd::prelude::*;
use vstd::string::StringExecFns;

use crate::text::{decimal, digits, joined, same_text};

verus! {

/// How often an operation is run, first to warm up and then to be measured.
#[derive(Clone, Copy, Debug)]
pub struct BenchRunner {
    pub warmup_iterations: u32,
    pub measured_iterations: u32,
}

impl Default for BenchRunner {
    fn default() -> (r: Self)
        ensures
            r.warmup_iterations == 10,
            r.measured_iterations == 100,
    {
        BenchRunner { warmup_iterations: 10, measured_iterations: 100 }
    }
}

impl BenchRunner {
    pub fn new(warmup: u32, measured: u32) -> (r: Self)
        ensures
            r.warmup_iterations == warmup,
            r.measured_iterations == measured,
    {
        BenchRunner { warmup_iterations: warmup, measured_iterations: measured }
    }
}

/// A rectangle in hundredths of the unit.
#[derive(Clone, Copy, Debug, PartialEq, Eq, Structural)]
pub struct Viewport {
    pub min_x: i32,
    pub min_y: i32,
    pub max_x: i32,
    pub max_y: i32,
}

/// An operation to be measured.
#[derive(Clone, Copy, Debug, PartialEq, Eq, Structural)]
pub enum BenchOp {
    GetEntity { id: u64 },
    SearchSpatial { viewport: Viewport },
    TraverseBfs { start: u64 },
    FullScan,
}

/// A rectangle with the given sides.
pub open spec fn viewport(min_x: int, min_y: int, max_x: int, max_y: int) -> Viewport {
    Viewport {
        min_x: min_x as i32,
        min_y: min_y as i32,
        max_x: max_x as i32,
        max_y: max_y as i32,
    }
}

/// The rectangles of the spatial queries: everything, two around the middle,
/// and two quarters.
pub open spec fn viewport_list() -> Seq<Viewport> {
    seq![
        viewport(-100, -100, 100, 100),
        viewport(-50, -50, 50, 50),
        viewport(-25, -25, 25, 25),
        viewport(-100, -100, 0, 0),
        viewport(0, 0, 100, 100),
    ]
}

/// The rectangles of the spatial queries.
pub fn viewports() -> (r: Vec<Viewport>)
    ensures
        r@ == viewport_list(),
{
    let r: Vec<Viewport> = vec![
        Viewport { min_x: -100, min_y: -100, max_x: 100, max_y: 100 },
        Viewport { min_x: -50, min_y: -50, max_x: 50, max_y: 50 },
        Viewport { min_x: -25, min_y: -25, max_x: 25, max_y: 25 },
        Viewport { min_x: -100, min_y: -100, max_x: 0, max_y: 0 },
        Viewport { min_x: 0, min_y: 0, max_x: 100, max_y: 100 },
    ];
    assert(r@ =~= viewport_list());
    r
}

/// The numbers that are below a bound.
pub open spec fn below(ids: Seq<u64>, bound: u64) -> Seq<u64>
    decreases ids.len(),
{
    if ids.len() == 0 {
        Seq::empty()
    } else if ids.last() < bound {
        below(ids.drop_last(), bound).push(ids.last())
    } else {
        below(ids.drop_last(), bound)
    }
}

/// Keeps the numbers that are below a bound.
fn keep_below(ids: &[u64], bound: u64) -> (r: Vec<u64>)
    ensures
        r@ == below(ids@, bound),
{
    let mut kept: Vec<u64> = Vec::new();
    let mut i: usize = 0;
    assert(kept@ =~= below(ids@.take(0), bound));
    while i < ids.len()
        invariant
            i <= ids@.len(),
            kept@ == below(ids@.take(i as int), bound),
        decreases ids@.len() - i,
    {
        let ghost seen = ids@.take(i as int);
        if ids[i] < bound {
            kept.push(ids[i]);
        }
        i = i + 1;
        assert(ids@.take(i as int).drop_last() =~= seen);
        assert(ids@.take(i as int).last() == ids@[i - 1]);
    }
    assert(ids@.take(i as int) =~= ids@);
    kept
}

/// The last of `n` numbers from 0, or 0.
pub open spec fn last_id(n: u64) -> u64 {
    if n == 0 {
        0
    } else {
        (n - 1) as u64
    }
}

/// Entities that are fetched, out of `n`: the first, those at each quarter and
/// the last.
pub open spec fn sample_id_list(n: u64) -> Seq<u64> {
    below(seq![0, n / 4, n / 2, (3 * n / 4) as u64, last_id(n)], n)
}

/// Entities from which traversals start, out of `n`.
pub open spec fn start_id_list(n: u64) -> Seq<u64> {
    below(seq![0, n / 4, n / 2, (3 * n / 4) as u64], n)
}

/// Entities that are fetched before the measurements, out of `n`.
pub open spec fn warmup_id_list(n: u64) -> Seq<u64> {
    below(seq![0, n / 2, last_id(n)], n)
}

/// Entities that are fetched.
pub fn sample_ids(n: u64) -> (r: Vec<u64>)
    requires
        3 * n <= u64::MAX,
    ensures
        r@ == sample_id_list(n),
{
    let ids: [u64; 5] = [0, n / 4, n / 2, 3 * n / 4, n.saturating_sub(1)];
    assert(ids@ =~= seq![0, n / 4, n / 2, (3 * n / 4) as u64, last_id(n)]);
    keep_below(ids.as_slice(), n)
}

/// Entities from which traversals start.
pub fn start_ids(n: u64) -> (r: Vec<u64>)
    requires
        3 * n <= u64::MAX,
    ensures
        r@ == start_id_list(n),
{
    let ids: [u64; 4] = [0, n / 4, n / 2, 3 * n / 4];
    assert(ids@ =~= seq![0, n / 4, n / 2, (3 * n / 4) as u64]);
    keep_below(ids.as_slice(), n)
}

/// Entities that are fetched before the measurements.
pub fn warmup_ids(n: u64) -> (r: Vec<u64>)
    ensures
        r@ == warmup_id_list(n),
{
    let ids: [u64; 3] = [0, n / 2, n.saturating_sub(1)];
    assert(ids@ =~= seq![0, n / 2, last_id(n)]);
    keep_below(ids.as_slice(), n)
}

/// All operations of the benchmark on `n` entities.
pub open spec fn suite_of(n: u64) -> Seq<BenchOp> {
    let ids = sample_id_list(n);
    let starts = start_id_list(n);
    Seq::new(ids.len(), |i: int| BenchOp::GetEntity { id: ids[i] }) + Seq::new(
        viewport_list().len(),
        |i: int| BenchOp::SearchSpatial { viewport: viewport_list()[i] },
    ) + Seq::new(starts.len(), |i: int| BenchOp::TraverseBfs { start: starts[i] })
        + seq![BenchOp::FullScan]
}

/// All operations of the benchmark on `n` entities.
pub fn suite(n: u64) -> (r: Vec<BenchOp>)
    requires
        3 * n <= u64::MAX,
    ensures
        r@ == suite_of(n),
{
    let ids: Vec<u64> = sample_ids(n);
    let views: Vec<Viewport> = viewports();
    let starts: Vec<u64> = start_ids(n);
    let mut ops: Vec<BenchOp> = Vec::new();
    let mut i: usize = 0;
    while i < ids.len()
        invariant
            i <= ids@.len(),
            ops@ == Seq::new(i as nat, |j: int| BenchOp::GetEntity { id: ids@[j] }),
        decreases ids@.len() - i,
    {
        ops.push(BenchOp::GetEntity { id: ids[i] });
        i = i + 1;
        assert(ops@ =~= Seq::new(i as nat, |j: int| BenchOp::GetEntity { id: ids@[j] }));
    }
    let ghost gets = ops@;
    i = 0;
    while i < views.len()
        invariant
            i <= views@.len(),
            ops@ == gets + Seq::new(
                i as nat,
                |j: int| BenchOp::SearchSpatial { viewport: views@[j] },
            ),
        decreases views@.len() - i,
    {
        ops.push(BenchOp::SearchSpatial { viewport: views[i] });
        i = i + 1;
        assert(ops@ =~= gets + Seq::new(
            i as nat,
            |j: int| BenchOp::SearchSpatial { viewport: views@[j] },
        ));
    }
    let ghost searches = ops@;
    i = 0;
    while i < starts.len()
        invariant
            i <= starts@.len(),
            ops@ == searches + Seq::new(
                i as nat,
                |j: int| BenchOp::TraverseBfs { start: starts@[j] },
            ),
        decreases starts@.len() - i,
    {
        ops.push(BenchOp::TraverseBfs { start: starts[i] });
        i = i + 1;
        assert(ops@ =~= searches + Seq::new(
            i as nat,
            |j: int| BenchOp::TraverseBfs { start: starts@[j] },
        ));
    }
    ops.push(BenchOp::FullScan);
    assert(ops@ =~= suite_of(n));
    ops
}

proof fn lemma_all_below(ids: Seq<u64>, bound: u64)
    requires
        forall|i: int| 0 <= i < ids.len() ==> ids[i] < bound,
    ensures
        below(ids, bound) == ids,
    decreases ids.len(),
{
    if ids.len() > 0 {
        lemma_all_below(ids.drop_last(), bound);
        assert(ids.drop_last().push(ids.last()) =~= ids);
    } else {
        assert(below(ids, bound) =~= ids);
    }
}

/// On a graph that is not empty the benchmark has fifteen operations: it
/// fetches five entities, searches five rectangles, starts four traversals and
/// scans everything.
pub proof fn law_suite_size(n: u64)
    requires
        n > 0,
        3 * n <= u64::MAX,
    ensures
        suite_of(n).len() == 15,
        forall|i: int| 0 <= i < 5 ==> #[trigger] suite_of(n)[i] is GetEntity,
        forall|i: int| 5 <= i < 10 ==> #[trigger] suite_of(n)[i] is SearchSpatial,
        forall|i: int| 10 <= i < 14 ==> #[trigger] suite_of(n)[i] is TraverseBfs,
        suite_of(n)[14] is FullScan,
{
    lemma_all_below(seq![0, n / 4, n / 2, (3 * n / 4) as u64, last_id(n)], n);
    lemma_all_below(seq![0, n / 4, n / 2, (3 * n / 4) as u64], n);
}

proof fn lemma_below_bound(ids: Seq<u64>, bound: u64)
    ensures
        forall|i: int| 0 <= i < below(ids, bound).len() ==> #[trigger] below(ids, bound)[i] < bound,
    decreases ids.len(),
{
    if ids.len() > 0 {
        lemma_below_bound(ids.drop_last(), bound);
        let before = below(ids.drop_last(), bound);
        assert forall|i: int| 0 <= i < below(ids, bound).len() implies #[trigger] below(
            ids,
            bound,
        )[i] < bound by {
            if i < before.len() {
                assert(before[i] < bound);
            }
        }
    }
}

/// The benchmark only asks for entities that there are.
pub proof fn law_suite_in_range(n: u64, i: int)
    requires
        0 <= i < suite_of(n).len(),
    ensures
        match suite_of(n)[i] {
            BenchOp::GetEntity { id } => id < n,
            BenchOp::TraverseBfs { start } => start < n,
            _ => true,
        },
{
    lemma_below_bound(seq![0, n / 4, n / 2, (3 * n / 4) as u64, last_id(n)], n);
    lemma_below_bound(seq![0, n / 4, n / 2, (3 * n / 4) as u64], n);
}

/// A number of hundredths with its sign, if negative, and two decimals.
pub open spec fn hundredths_of(v: int) -> Seq<char> {
    let m = if v < 0 {
        -v
    } else {
        v
    };
    (if v < 0 {
        "-"@
    } else {
        ""@
    }) + digits((m / 100) as nat, 10) + "."@ + digits((m / 10 % 10) as nat, 10) + digits(
        (m % 10) as nat,
        10,
    )
}

fn hundredths(v: i32) -> (r: String)
    ensures
        r@ == hundredths_of(v as int),
{
    let m: u64 = if v < 0 {
        (-(v as i64)) as u64
    } else {
        v as u64
    };
    let mut text: String = if v < 0 {
        String::from_str("-")
    } else {
        String::from_str("")
    };
    text.append(decimal(m / 100).as_str());
    text.append(".");
    text.append(decimal(m / 10 % 10).as_str());
    text.append(decimal(m % 10).as_str());
    text
}

/// Label of an operation.
pub open spec fn label_of(op: BenchOp) -> Seq<char> {
    match op {
        BenchOp::GetEntity { id } => "entity_get_"@ + digits(id as nat, 10),
        BenchOp::SearchSpatial { viewport } => "spatial_["@ + hundredths_of(viewport.min_x as int)
            + "_"@ + hundredths_of(viewport.min_y as int) + "_"@ + hundredths_of(
            viewport.max_x as int,
        ) + "_"@ + hundredths_of(viewport.max_y as int) + "]"@,
        BenchOp::TraverseBfs { start } => "bfs_depth2_from_"@ + digits(start as nat, 10),
        BenchOp::FullScan => "full_scan"@,
    }
}

/// Label of an operation.
pub fn op_label(op: BenchOp) -> (r: String)
    ensures
        r@ == label_of(op),
{
    match op {
        BenchOp::GetEntity { id } => joined("entity_get_", decimal(id).as_str()),
        BenchOp::SearchSpatial { viewport } => {
            let mut text: String = String::from_str("spatial_[");
            text.append(hundredths(viewport.min_x).as_str());
            text.append("_");
            text.append(hundredths(viewport.min_y).as_str());
            text.append("_");
            text.append(hundredths(viewport.max_x).as_str());
            text.append("_");
            text.append(hundredths(viewport.max_y).as_str());
            text.append("]");
            text
        },
        BenchOp::TraverseBfs { start } => joined("bfs_depth2_from_", decimal(start).as_str()),
        BenchOp::FullScan => String::from_str("full_scan"),
    }
}

/// Number of entities that a scan by samples fetches.
pub open spec fn scan_size(n: u64) -> int {
    if n < 100 {
        n as int
    } else {
        100
    }
}

/// Entities that a scan by samples fetches, spread evenly over `n`.
pub fn scan_ids(n: u64) -> (r: Vec<u64>)
    requires
        100 * n <= u64::MAX,
    ensures
        r@.len() == scan_size(n),
        forall|i: int| 0 <= i < r@.len() ==> #[trigger] r@[i] == i * n / scan_size(n),
{
    let size: u64 = if n < 100 {
        n
    } else {
        100
    };
    let mut ids: Vec<u64> = Vec::new();
    let mut i: u64 = 0;
    while i < size
        invariant
            i <= size <= 100,
            size == scan_size(n),
            100 * n <= u64::MAX,
            ids@.len() == i,
            forall|j: int| 0 <= j < i ==> #[trigger] ids@[j] == j * n / scan_size(n),
        decreases size - i,
    {
        assert(i * n <= 100 * n) by (nonlinear_arith)
            requires
                i <= 100,
        ;
        ids.push(i * n / size);
        i = i + 1;
    }
    ids
}

/// Outcome of fetching an entity twice.
#[derive(Clone, Copy, Debug, PartialEq, Eq, Structural)]
pub struct EntityGetResult {
    pub id: u64,
    pub hit: bool,
    pub elapsed_us: u64,
}

/// What is recorded for an entity: the outcome and the time of the second
/// access, or a miss if the first one failed. `again` holds the second one.
pub fn entity_get_result(id: u64, again: Option<(bool, u64)>) -> (r: EntityGetResult)
    ensures
        r == match again {
            Some((hit, elapsed_us)) => EntityGetResult { id, hit, elapsed_us },
            None => EntityGetResult { id, hit: false, elapsed_us: 0 },
        },
{
    match again {
        Some((hit, elapsed_us)) => EntityGetResult { id, hit, elapsed_us },
        None => EntityGetResult { id, hit: false, elapsed_us: 0 },
    }
}

/// Number of rows that are imported at a time.
pub const IMPORT_BATCH_SIZE: usize = 5000;

/// End of the batch that starts at a row.
pub open spec fn batch_end(start: int, rows: int) -> int {
    if rows - start < IMPORT_BATCH_SIZE {
        rows
    } else {
        start + IMPORT_BATCH_SIZE
    }
}

/// Splits rows into batches, all of them full but for the last.
pub fn import_batches(rows: usize) -> (r: Vec<(usize, usize)>)
    ensures
        rows == 0 ==> r@.len() == 0,
        rows > 0 ==> r@.len() > 0 && r@[0].0 == 0 && r@.last().1 == rows,
        forall|i: int|
            0 <= i < r@.len() ==> (#[trigger] r@[i]).0 == i * IMPORT_BATCH_SIZE && r@[i].0 < rows
                && r@[i].1 == batch_end(r@[i].0 as int, rows as int),
{
    let mut batches: Vec<(usize, usize)> = Vec::new();
    let mut start: usize = 0;
    while start < rows
        invariant
            start <= rows,
            start < rows ==> start == batches@.len() * IMPORT_BATCH_SIZE,
            batches@.len() > 0 ==> batches@.last().1 == start && batches@[0].0 == 0,
            batches@.len() == 0 ==> start == 0,
            forall|i: int|
                0 <= i < batches@.len() ==> (#[trigger] batches@[i]).0 == i * IMPORT_BATCH_SIZE
                    && batches@[i].0 < rows && batches@[i].1 == batch_end(
                    batches@[i].0 as int,
                    rows as int,
                ),
        decreases rows - start,
    {
        let end: usize = if rows - start < IMPORT_BATCH_SIZE {
            rows
        } else {
            start + IMPORT_BATCH_SIZE
        };
        batches.push((start, end));
        start = end;
    }
    batches
}

/// Whether the graph server is to be measured.
pub fn wants_server(systems: &str) -> (r: bool)
    ensures
        r == (systems@ == "all"@ || systems@ == "server"@ || systems@ == "waw"@),
{
    same_text(systems, "all") || same_text(systems, "server") || same_text(systems, "waw")
}

/// Whether Neo4j is to be measured.
pub fn wants_neo4j(systems: &str) -> (r: bool)
    ensures
        r == (systems@ == "all"@ || systems@ == "neo4j"@),
{
    same_text(systems, "all") || same_text(systems, "neo4j")
}

/// Form of a report.
#[derive(Clone, Copy, Debug, PartialEq, Eq, Structural)]
pub enum ReportFormat {
    Json,
    Csv,
    Markdown,
}

/// Form of a report by its name.
pub fn report_format(name: &str) -> (r: Option<ReportFormat>)
    ensures
        r == if name@ == "json"@ {
            Some(ReportFormat::Json)
        } else if name@ == "csv"@ {
            Some(ReportFormat::Csv)
        } else if name@ == "md"@ || name@ == "markdown"@ {
            Some(ReportFormat::Markdown)
        } else {
            None
        },
{
    if same_text(name, "json") {
        Some(ReportFormat::Json)
    } else if same_text(name, "csv") {
        Some(ReportFormat::Csv)
    } else if same_text(name, "md") || same_text(name, "markdown") {
        Some(ReportFormat::Markdown)
    } else {
        None
    }
}

} // verus!
