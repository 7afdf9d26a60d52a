//! What spatial queries find.

use vstd::arithmetic::power2::{lemma_pow2_adds, lemma_pow2_pos, pow2};
use vstd::prelude::*;

use super::cell_walk::{law_walk_covers_window, law_walk_visits_once, law_window_counts_cells};
use super::spatial_index::{
    cell_items, cell_of, cell_ratio, native_lod, Filter, Placed, Scan, SpatialIndex,
};
use super::tile_math::{law_tile_in_range, law_tile_monotone, law_tiles_nest, tile_of};
use crate::float::Float32;

verus! {

/// Whether a placed entity lies inside the bounds.
pub open spec fn inside(
    p: Placed,
    min_x: Float32,
    min_y: Float32,
    max_x: Float32,
    max_y: Float32,
) -> bool {
    &&& p.1.at_least(min_x)
    &&& max_x.at_least(p.1)
    &&& p.2.at_least(min_y)
    &&& max_y.at_least(p.2)
}

/// The cell of an entity inside the bounds is visited.
pub proof fn law_cell_of_hit_is_visited(
    index: SpatialIndex,
    p: Placed,
    min_x: Float32,
    min_y: Float32,
    max_x: Float32,
    max_y: Float32,
    lod: u16,
)
    requires
        index.wf(),
        inside(p, min_x, min_y, max_x, max_y),
    ensures
        index.window(min_x, min_y, max_x, max_y, lod).cells().contains(
            cell_of(p, index.grid_size),
        ),
        0 <= cell_of(p, index.grid_size) < index.grid_size * index.grid_size,
{
    let w = index.window(min_x, min_y, max_x, max_y, lod);
    let lod = native_lod(index.bits, lod);
    let count = pow2(lod as nat) as u32;
    let grid = index.grid_size;
    lemma_coarse_count(index, lod);
    lemma_axis(index, p.1, min_x, max_x, lod);
    lemma_axis(index, p.2, min_y, max_y, lod);
    law_tile_in_range(p.1, grid);
    law_tile_in_range(p.2, grid);
    law_tile_in_range(min_x, count);
    law_tile_in_range(min_y, count);
    let x = tile_of(p.1, grid);
    let y = tile_of(p.2, grid);
    law_walk_covers_window(w, x, y);
    assert(0 <= y * grid + x < grid * grid) by (nonlinear_arith)
        requires
            0 <= x < grid,
            0 <= y < grid,
    ;
}

/// A query that is finer than the grid looks at the cells that its tiles lie
/// in.
pub proof fn law_fine_tiles_lie_in_cells(
    index: SpatialIndex,
    min_x: Float32,
    min_y: Float32,
    max_x: Float32,
    max_y: Float32,
    lod: u16,
)
    requires
        index.wf(),
        index.bits < lod < 32,
    ensures
        ({
            let fine = index.tile_window(min_x, min_y, max_x, max_y, lod);
            let w = index.window(min_x, min_y, max_x, max_y, lod);
            let d = pow2((lod - index.bits) as nat) as int;
            &&& w.ratio == 1
            &&& w.min_tx == fine.min_tx / d
            &&& w.max_tx == fine.max_tx / d
            &&& w.min_ty == fine.min_ty / d
            &&& w.max_ty == fine.max_ty / d
        }),
{
    let a = index.bits as nat;
    let b = lod as nat;
    let coarse = pow2(a) as u32;
    let fine = pow2(b) as u32;
    vstd::arithmetic::power2::lemma2_to64();
    if lod < 31 {
        vstd::arithmetic::power2::lemma_pow2_strictly_increases(b, 31);
    }
    assert(pow2(b) <= u32::MAX);
    law_tiles_nest(min_x, coarse, fine, a, b);
    law_tiles_nest(max_x, coarse, fine, a, b);
    law_tiles_nest(min_y, coarse, fine, a, b);
    law_tiles_nest(max_y, coarse, fine, a, b);
}

proof fn lemma_coarse_count(index: SpatialIndex, lod: u16)
    requires
        index.wf(),
        lod <= index.bits,
    ensures
        pow2(lod as nat) as u32 == pow2(lod as nat),
        pow2(lod as nat) as u32 >= 1,
        cell_ratio(index.bits, lod) == pow2((index.bits - lod) as nat),
        cell_ratio(index.bits, lod) >= 1,
{
    let d = (index.bits - lod) as nat;
    lemma_pow2_pos(lod as nat);
    lemma_pow2_pos(d);
    lemma_pow2_adds(lod as nat, d);
    let a = pow2(lod as nat);
    let b = pow2(d);
    assert(a <= a * b) by (nonlinear_arith)
        requires
            b >= 1,
    ;
    vstd::arithmetic::power2::lemma2_to64();
}

proof fn lemma_axis(index: SpatialIndex, v: Float32, low: Float32, high: Float32, lod: u16)
    requires
        index.wf(),
        lod <= index.bits,
        v.at_least(low),
        high.at_least(v),
    ensures
        ({
            let count = pow2(lod as nat) as u32;
            let fine = tile_of(v, index.grid_size);
            tile_of(low, count) <= fine / (cell_ratio(index.bits, lod) as int) <= tile_of(
                high,
                count,
            )
        }),
{
    let count = pow2(lod as nat) as u32;
    lemma_coarse_count(index, lod);
    law_tile_monotone(low, v, count);
    law_tile_monotone(v, high, count);
    law_tiles_nest(v, count, index.grid_size, lod as nat, index.bits as nat);
}

/// A query finds every entity inside the bounds, at whatever level it asks.
pub proof fn law_query_finds_all_inside(
    index: SpatialIndex,
    positions: Seq<Placed>,
    p: Placed,
    min_x: Float32,
    min_y: Float32,
    max_x: Float32,
    max_y: Float32,
    lod: u16,
)
    requires
        index.wf(),
        index.holds(positions),
        positions.contains(p),
        inside(p, min_x, min_y, max_x, max_y),
    ensures
        index.entries_in(index.window(min_x, min_y, max_x, max_y, lod).cells()).contains(p),
        index.numbers_in(index.window(min_x, min_y, max_x, max_y, lod).cells()).contains(p.0),
{
    let w = index.window(min_x, min_y, max_x, max_y, lod);
    let cell = cell_of(p, index.grid_size);
    law_cell_of_hit_is_visited(index, p, min_x, min_y, max_x, max_y, lod);
    lemma_cell_items(positions, index.grid_size, cell, p);
    assert(index.entries(cell) == cell_items(positions, index.grid_size, cell));
    lemma_entries_in(index, w.cells(), cell, p);
}

/// A query reports only placed entities, from cells of the query's tiles.
pub proof fn law_query_finds_only_placed(
    index: SpatialIndex,
    positions: Seq<Placed>,
    number: u32,
    min_x: Float32,
    min_y: Float32,
    max_x: Float32,
    max_y: Float32,
    lod: u16,
)
    requires
        index.wf(),
        index.holds(positions),
        index.numbers_in(index.window(min_x, min_y, max_x, max_y, lod).cells()).contains(number),
    ensures
        exists|p: Placed|
            p.0 == number && #[trigger] positions.contains(p) && index.window(
                min_x,
                min_y,
                max_x,
                max_y,
                lod,
            ).cells().contains(cell_of(p, index.grid_size)),
{
    let w = index.window(min_x, min_y, max_x, max_y, lod);
    let lod = native_lod(index.bits, lod);
    let count = pow2(lod as nat) as u32;
    vstd::arithmetic::power2::lemma2_to64();
    lemma_pow2_pos(lod as nat);
    if lod < 31 {
        vstd::arithmetic::power2::lemma_pow2_strictly_increases(lod as nat, 31);
    }
    law_tile_in_range(min_x, count);
    law_tile_in_range(min_y, count);
    if index.bits > lod {
        lemma_pow2_pos((index.bits - lod) as nat);
    }
    law_walk_visits_once(w);
    lemma_numbers_source(index, w.cells(), number);
    let (cell, k) = choose|cell: int, k: int|
        w.cells().contains(cell) && 0 <= k < index.numbers(cell).len() && #[trigger] index.numbers(
            cell,
        )[k] == number;
    let at = choose|at: int| 0 <= at < w.cells().len() && w.cells()[at] == cell;
    assert(0 <= w.cells()[at] < index.grid_size * index.grid_size);
    let items = cell_items(positions, index.grid_size, cell);
    assert(index.entries(cell) == items);
    assert(index.offsets[cell] <= index.offsets[cell + 1]);
    assert(index.offsets[cell + 1] <= index.offsets[index.grid_size * index.grid_size]);
    assert(index.entries(cell)[k].0 == number);
    let p = items[k];
    lemma_items_source(positions, index.grid_size, cell, k);
    assert(positions.contains(p));
}

proof fn lemma_cell_items(positions: Seq<Placed>, grid: u32, cell: int, p: Placed)
    requires
        positions.contains(p),
        cell_of(p, grid) == cell,
    ensures
        cell_items(positions, grid, cell).contains(p),
    decreases positions.len(),
{
    let i = choose|i: int| 0 <= i < positions.len() && positions[i] == p;
    let head = positions.drop_last();
    let all = cell_items(positions, grid, cell);
    if i < head.len() {
        assert(head[i] == p);
        lemma_cell_items(head, grid, cell, p);
        let items = cell_items(head, grid, cell);
        let k = choose|k: int| 0 <= k < items.len() && items[k] == p;
        assert(all[k] == p);
    } else {
        assert(all[all.len() - 1] == p);
    }
}

proof fn lemma_items_source(positions: Seq<Placed>, grid: u32, cell: int, k: int)
    requires
        0 <= k < cell_items(positions, grid, cell).len(),
    ensures
        positions.contains(cell_items(positions, grid, cell)[k]),
        cell_of(cell_items(positions, grid, cell)[k], grid) == cell,
    decreases positions.len(),
{
    let head = positions.drop_last();
    let items = cell_items(head, grid, cell);
    let all = cell_items(positions, grid, cell);
    if k < items.len() {
        lemma_items_source(head, grid, cell, k);
        let i = choose|i: int| 0 <= i < head.len() && head[i] == items[k];
        assert(positions[i] == all[k]);
    } else {
        assert(positions[positions.len() - 1] == all[k]);
    }
}

proof fn lemma_entries_in(index: SpatialIndex, cells: Seq<int>, cell: int, p: Placed)
    requires
        index.wf(),
        cells.contains(cell),
        0 <= cell < index.grid_size * index.grid_size,
        index.entries(cell).contains(p),
    ensures
        index.entries_in(cells).contains(p),
        index.numbers_in(cells).contains(p.0),
    decreases cells.len(),
{
    let i = choose|i: int| 0 <= i < cells.len() && cells[i] == cell;
    let entries = index.entries(cells[0]);
    let numbers = index.numbers(cells[0]);
    let rest = index.entries_in(cells.drop_first());
    let others = index.numbers_in(cells.drop_first());
    if cells[0] == cell {
        let k = choose|k: int| 0 <= k < entries.len() && entries[k] == p;
        assert((entries + rest)[k] == p);
        assert(index.offsets[cell] <= index.offsets[cell + 1]);
        assert(index.offsets[cell + 1] <= index.offsets[index.grid_size * index.grid_size]);
        assert((numbers + others)[k] == p.0);
    } else {
        assert(cells.drop_first()[i - 1] == cell);
        lemma_entries_in(index, cells.drop_first(), cell, p);
        let k = choose|k: int| 0 <= k < rest.len() && rest[k] == p;
        assert((entries + rest)[entries.len() + k] == p);
        let j = choose|j: int| 0 <= j < others.len() && others[j] == p.0;
        assert((numbers + others)[numbers.len() + j] == p.0);
    }
}

proof fn lemma_numbers_source(index: SpatialIndex, cells: Seq<int>, number: u32)
    requires
        index.numbers_in(cells).contains(number),
    ensures
        exists|cell: int, k: int|
            cells.contains(cell) && 0 <= k < index.numbers(cell).len()
                && #[trigger] index.numbers(cell)[k] == number,
    decreases cells.len(),
{
    let all = index.numbers_in(cells);
    let i = choose|i: int| 0 <= i < all.len() && all[i] == number;
    let numbers = index.numbers(cells[0]);
    let rest = index.numbers_in(cells.drop_first());
    if i < numbers.len() {
        assert(cells.contains(cells[0]));
        assert(index.numbers(cells[0])[i] == number);
    } else {
        assert(rest[i - numbers.len()] == number);
        lemma_numbers_source(index, cells.drop_first(), number);
        let (cell, k) = choose|cell: int, k: int|
            cells.drop_first().contains(cell) && 0 <= k < index.numbers(cell).len()
                && #[trigger] index.numbers(cell)[k] == number;
        let j = choose|j: int| 0 <= j < cells.drop_first().len() && cells.drop_first()[j] == cell;
        assert(cells[j + 1] == cell);
    }
}

proof fn lemma_scan_extends(f: Filter, at: Scan, entries: Seq<Placed>)
    ensures
        at.out.is_prefix_of(f.scan(at, entries).out),
        at.full ==> f.scan(at, entries) == at,
    decreases entries.len(),
{
    if entries.len() > 0 {
        let next = f.step(at, entries[0]);
        lemma_scan_extends(f, next, entries.drop_first());
        assert(at.out.is_prefix_of(next.out));
        let end = f.scan(next, entries.drop_first()).out;
        assert(at.out =~= end.subrange(0, at.out.len() as int)) by {
            assert forall|k: int| 0 <= k < at.out.len() implies at.out[k] == end[k] by {
                assert(next.out[k] == end.subrange(0, next.out.len() as int)[k]);
            }
        }
    }
}

/// A filtered query reports only loaded entities that lie inside the bounds.
pub proof fn law_filter_reports_only_hits(f: Filter, at: Scan, entries: Seq<Placed>, k: int)
    requires
        at.out.len() <= k < f.scan(at, entries).out.len(),
    ensures
        exists|p: Placed| #[trigger]
            entries.contains(p) && p.0 < f.rowids.len() && f.live[p.0 as int] && f.inside(p)
                && f.scan(at, entries).out[k] == f.rowids[p.0 as int],
    decreases entries.len(),
{
    if entries.len() > 0 {
        let p = entries[0];
        let next = f.step(at, p);
        let rest = entries.drop_first();
        lemma_scan_extends(f, next, rest);
        let end = f.scan(next, rest).out;
        if k < next.out.len() {
            assert(end.subrange(0, next.out.len() as int)[k] == next.out[k]);
            assert(f.scan(at, entries).out[k] == f.rowids[p.0 as int]);
            assert(entries.contains(p));
        } else {
            law_filter_reports_only_hits(f, next, rest, k);
            let q = choose|q: Placed| #[trigger]
                rest.contains(q) && q.0 < f.rowids.len() && f.live[q.0 as int] && f.inside(q)
                    && f.scan(next, rest).out[k] == f.rowids[q.0 as int];
            let i = choose|i: int| 0 <= i < rest.len() && rest[i] == q;
            assert(entries[i + 1] == q);
            assert(entries.contains(q));
        }
    }
}

/// A filtered query that does not reach its limit reports every loaded entity
/// inside the bounds, if no entity is placed twice.
pub proof fn law_filter_reports_all_hits(f: Filter, at: Scan, entries: Seq<Placed>, i: int)
    requires
        !f.scan(at, entries).full,
        0 <= i < entries.len(),
        forall|a: int, b: int|
            0 <= a < b < entries.len() ==> (#[trigger] entries[a]).0 != (#[trigger] entries[b]).0,
        entries[i].0 < f.rowids.len() <= at.seen.len(),
        at.seen[entries[i].0 as int] != f.generation,
        f.live[entries[i].0 as int],
        f.inside(entries[i]),
    ensures
        f.scan(at, entries).out.contains(f.rowids[entries[i].0 as int]),
    decreases entries.len(),
{
    let next = f.step(at, entries[0]);
    let rest = entries.drop_first();
    lemma_scan_extends(f, at, entries);
    if i == 0 {
        lemma_scan_extends(f, next, rest);
        let end = f.scan(next, rest).out;
        let k = next.out.len() - 1;
        assert(next.out[k] == f.rowids[entries[0].0 as int]);
        assert(end.subrange(0, next.out.len() as int)[k] == end[k]);
    } else {
        assert(rest[i - 1] == entries[i]);
        assert(entries[0].0 != entries[i].0);
        assert forall|a: int, b: int| 0 <= a < b < rest.len() implies (#[trigger] rest[a]).0 != (
        #[trigger] rest[b]).0 by {
            assert(rest[a] == entries[a + 1] && rest[b] == entries[b + 1]);
        }
        law_filter_reports_all_hits(f, next, rest, i - 1);
    }
}

/// A filtered query reports at most `limit` rowids in all, but never stops
/// before the first.
pub proof fn law_filter_keeps_limit(f: Filter, at: Scan, entries: Seq<Placed>)
    requires
        !at.full,
    ensures
        f.scan(at, entries).out.len() <= at.out.len() + 1 || f.scan(at, entries).out.len()
            <= f.limit,
        f.scan(at, entries).full ==> f.scan(at, entries).out.len() > at.out.len()
            && f.scan(at, entries).out.len() >= f.limit,
    decreases entries.len(),
{
    if entries.len() > 0 {
        let next = f.step(at, entries[0]);
        let rest = entries.drop_first();
        lemma_scan_extends(f, next, rest);
        if !next.full {
            law_filter_keeps_limit(f, next, rest);
        }
    }
}

/// A query looks at whole tiles of its level, or of the level of the grid if the
/// query is finer: it finds the entities placed in the tiles from that of the
/// lower to that of the upper bound, along both axes, and no others.
pub proof fn law_query_looks_at_tiles(
    index: SpatialIndex,
    positions: Seq<Placed>,
    number: u32,
    min_x: Float32,
    min_y: Float32,
    max_x: Float32,
    max_y: Float32,
    lod: u16,
)
    requires
        index.wf(),
        index.holds(positions),
    ensures
        ({
            let count = (if lod < index.bits {
                pow2(lod as nat)
            } else {
                pow2(index.bits as nat)
            }) as u32;
            index.numbers_in(index.window(min_x, min_y, max_x, max_y, lod).cells()).contains(number)
                <==> exists|k: int|
                0 <= k < positions.len() && (#[trigger] positions[k]).0 == number && tile_of(
                    min_x,
                    count,
                ) <= tile_of(positions[k].1, count) && tile_of(positions[k].1, count) <= tile_of(
                    max_x,
                    count,
                ) && tile_of(min_y, count) <= tile_of(positions[k].2, count) && tile_of(
                    positions[k].2,
                    count,
                ) <= tile_of(max_y, count)
        }),
{
    let w = index.window(min_x, min_y, max_x, max_y, lod);
    let level = native_lod(index.bits, lod);
    let count = pow2(level as nat) as u32;
    let grid = index.grid_size;
    lemma_coarse_count(index, level);
    law_tile_in_range(min_x, count);
    law_tile_in_range(min_y, count);
    assert forall|p: Placed| #[trigger] positions.contains(p) implies (w.cells().contains(
        cell_of(p, grid),
    ) <==> tile_of(min_x, count) <= tile_of(p.1, count) && tile_of(p.1, count) <= tile_of(
        max_x,
        count,
    ) && tile_of(min_y, count) <= tile_of(p.2, count) && tile_of(p.2, count) <= tile_of(
        max_y,
        count,
    )) by {
        law_tile_in_range(p.1, grid);
        law_tile_in_range(p.2, grid);
        law_walk_covers_window(w, tile_of(p.1, grid), tile_of(p.2, grid));
        law_tiles_nest(p.1, count, grid, level as nat, index.bits as nat);
        law_tiles_nest(p.2, count, grid, level as nat, index.bits as nat);
    }
    if index.numbers_in(w.cells()).contains(number) {
        law_query_finds_only_placed(index, positions, number, min_x, min_y, max_x, max_y, lod);
        let p = choose|p: Placed|
            p.0 == number && #[trigger] positions.contains(p) && w.cells().contains(
                cell_of(p, grid),
            );
        let k = choose|k: int| 0 <= k < positions.len() && positions[k] == p;
        assert(positions[k].0 == number);
    }
    if exists|k: int|
        0 <= k < positions.len() && (#[trigger] positions[k]).0 == number && tile_of(min_x, count)
            <= tile_of(positions[k].1, count) && tile_of(positions[k].1, count) <= tile_of(
            max_x,
            count,
        ) && tile_of(min_y, count) <= tile_of(positions[k].2, count) && tile_of(
            positions[k].2,
            count,
        ) <= tile_of(max_y, count) {
        let k = choose|k: int|
            0 <= k < positions.len() && (#[trigger] positions[k]).0 == number && tile_of(
                min_x,
                count,
            ) <= tile_of(positions[k].1, count) && tile_of(positions[k].1, count) <= tile_of(
                max_x,
                count,
            ) && tile_of(min_y, count) <= tile_of(positions[k].2, count) && tile_of(
                positions[k].2,
                count,
            ) <= tile_of(max_y, count);
        let p = positions[k];
        assert(positions.contains(p));
        let cell = cell_of(p, grid);
        lemma_cell_in_grid(p, grid);
        lemma_cell_items(positions, grid, cell, p);
        assert(index.entries(cell) == cell_items(positions, grid, cell));
        lemma_entries_in(index, w.cells(), cell, p);
    }
}

proof fn lemma_cell_in_grid(p: Placed, grid: u32)
    requires
        grid >= 1,
    ensures
        0 <= cell_of(p, grid) < grid * grid,
{
    law_tile_in_range(p.1, grid);
    law_tile_in_range(p.2, grid);
    let x = tile_of(p.1, grid);
    let y = tile_of(p.2, grid);
    assert(0 <= y * grid + x < grid * grid) by (nonlinear_arith)
        requires
            0 <= x < grid,
            0 <= y < grid,
    ;
}

/// The cell in a column and a row of the grid holds the entities placed in the
/// tile of that column along the first axis and of that row along the second.
pub proof fn law_cell_holds_its_tile(
    index: SpatialIndex,
    positions: Seq<Placed>,
    tx: u32,
    ty: u32,
    r: Seq<u32>,
    number: u32,
)
    requires
        index.wf(),
        index.holds(positions),
        tx < index.grid_size,
        ty < index.grid_size,
        r == index.numbers(ty * index.grid_size + tx),
    ensures
        r.contains(number) <==> exists|k: int|
            0 <= k < positions.len() && (#[trigger] positions[k]).0 == number && tile_of(
                positions[k].1,
                index.grid_size,
            ) == tx && tile_of(positions[k].2, index.grid_size) == ty,
{
    let grid = index.grid_size;
    let g = grid as int;
    let x = tx as int;
    let y = ty as int;
    let cell = y * g + x;
    assert(0 <= y * g + x < g * g) by (nonlinear_arith)
        requires
            0 <= x < g,
            0 <= y < g,
    ;
    assert(index.entries(cell) == cell_items(positions, grid, cell));
    assert(index.offsets[cell] <= index.offsets[cell + 1]);
    assert(index.offsets[cell + 1] <= index.offsets[g * g]);
    if r.contains(number) {
        let k = choose|k: int| 0 <= k < r.len() && r[k] == number;
        assert(index.entries(cell)[k].0 == number);
        lemma_items_source(positions, grid, cell, k);
        let p = cell_items(positions, grid, cell)[k];
        let j = choose|j: int| 0 <= j < positions.len() && positions[j] == p;
        lemma_cell_parts(p, grid, x, y);
        assert(positions[j].0 == number);
    }
    if exists|k: int|
        0 <= k < positions.len() && (#[trigger] positions[k]).0 == number && tile_of(
            positions[k].1,
            grid,
        ) == tx && tile_of(positions[k].2, grid) == ty {
        let k = choose|k: int|
            0 <= k < positions.len() && (#[trigger] positions[k]).0 == number && tile_of(
                positions[k].1,
                grid,
            ) == tx && tile_of(positions[k].2, grid) == ty;
        let p = positions[k];
        assert(positions.contains(p));
        lemma_cell_items(positions, grid, cell, p);
        let items = cell_items(positions, grid, cell);
        let j = choose|j: int| 0 <= j < items.len() && items[j] == p;
        assert(index.entries(cell)[j] == p);
        assert(r[j] == number);
    }
}

proof fn lemma_cell_parts(p: Placed, grid: u32, x: int, y: int)
    requires
        grid >= 1,
        0 <= x < grid,
        0 <= y < grid,
        cell_of(p, grid) == y * grid + x,
    ensures
        tile_of(p.1, grid) == x,
        tile_of(p.2, grid) == y,
{
    law_tile_in_range(p.1, grid);
    law_tile_in_range(p.2, grid);
    let a = tile_of(p.1, grid);
    let b = tile_of(p.2, grid);
    let g = grid as int;
    if b < y {
        assert(y * g >= b * g + g) by (nonlinear_arith)
            requires
                y >= b + 1,
                g > 0,
        ;
    } else if b > y {
        assert(b * g >= y * g + g) by (nonlinear_arith)
            requires
                b >= y + 1,
                g > 0,
        ;
    }
}

/// A filtered query reports a rowid only for a loaded entity with both
/// coordinates between the bounds. If it stays below its limit, it reports all
/// such entities, provided that none is placed twice.
pub proof fn law_filter_compares_positions(
    f: Filter,
    at: Scan,
    entries: Seq<Placed>,
    i: int,
    k: int,
)
    requires
        f.rowids.no_duplicates(),
        !at.full,
        forall|a: int, b: int|
            0 <= a < b < entries.len() ==> (#[trigger] entries[a]).0 != (#[trigger] entries[b]).0,
        f.rowids.len() <= at.seen.len(),
        forall|j: int| 0 <= j < f.rowids.len() ==> #[trigger] at.seen[j] != f.generation,
        0 <= i < entries.len(),
        entries[i].0 < f.rowids.len(),
    ensures
        at.out.len() <= k < f.scan(at, entries).out.len() && f.scan(at, entries).out[k]
            == f.rowids[entries[i].0 as int] ==> {
            let (number, x, y) = entries[i];
            &&& f.live[number as int]
            &&& !x.is_nan() && !y.is_nan()
            &&& f.min_x.rank() <= x.rank() && x.rank() <= f.max_x.rank()
            &&& f.min_y.rank() <= y.rank() && y.rank() <= f.max_y.rank()
        },
        ({
            let (number, x, y) = entries[i];
            &&& f.live[number as int]
            &&& !x.is_nan() && !y.is_nan()
            &&& !f.min_x.is_nan() && !f.max_x.is_nan() && !f.min_y.is_nan() && !f.max_y.is_nan()
            &&& f.min_x.rank() <= x.rank() && x.rank() <= f.max_x.rank()
            &&& f.min_y.rank() <= y.rank() && y.rank() <= f.max_y.rank()
        }) && f.scan(at, entries).out.len() < f.limit ==> f.scan(at, entries).out.contains(
            f.rowids[entries[i].0 as int],
        ),
{
    let end = f.scan(at, entries);
    if at.out.len() <= k < end.out.len() && end.out[k] == f.rowids[entries[i].0 as int] {
        law_filter_reports_only_hits(f, at, entries, k);
        let p = choose|p: Placed| #[trigger]
            entries.contains(p) && p.0 < f.rowids.len() && f.live[p.0 as int] && f.inside(p)
                && end.out[k] == f.rowids[p.0 as int];
        let j = choose|j: int| 0 <= j < entries.len() && entries[j] == p;
        assert(p.0 == entries[i].0);
        if j < i {
            assert(entries[j].0 != entries[i].0);
        }
        if i < j {
            assert(entries[i].0 != entries[j].0);
        }
    }
    if end.out.len() < f.limit {
        law_filter_keeps_limit(f, at, entries);
        if f.live[entries[i].0 as int] && f.inside(entries[i]) {
            law_filter_reports_all_hits(f, at, entries, i);
        }
    }
}

/// The estimate for a query that is not finer than the grid is the number of
/// cells that it visits.
pub proof fn law_estimate_counts_cells(
    index: SpatialIndex,
    min_x: Float32,
    min_y: Float32,
    max_x: Float32,
    max_y: Float32,
    lod: u16,
    r: u64,
)
    requires
        index.wf(),
        lod <= index.bits,
        ({
            let w = index.tile_window(min_x, min_y, max_x, max_y, lod);
            &&& w.min_tx <= w.max_tx && w.min_ty <= w.max_ty
            &&& r == ((w.max_tx - w.min_tx + 1) * w.ratio) * ((w.max_ty - w.min_ty + 1) * w.ratio)
        }),
    ensures
        r == index.window(min_x, min_y, max_x, max_y, lod).cells().len(),
{
    let w = index.window(min_x, min_y, max_x, max_y, lod);
    let count = pow2(lod as nat) as u32;
    let d = (index.bits - lod) as nat;
    lemma_coarse_count(index, lod);
    lemma_pow2_adds(lod as nat, d);
    law_tile_in_range(min_x, count);
    law_tile_in_range(min_y, count);
    law_tile_in_range(max_x, count);
    law_tile_in_range(max_y, count);
    assert(count * w.ratio == w.grid);
    let c = count as int;
    let ratio = w.ratio;
    let (x, y) = (w.max_tx, w.max_ty);
    assert((x + 1) * ratio <= c * ratio && (y + 1) * ratio <= c * ratio) by (nonlinear_arith)
        requires
            x + 1 <= c,
            y + 1 <= c,
            ratio >= 1,
    ;
    law_window_counts_cells(w);
}

/// A filtered query reports no entity twice.
pub proof fn law_filter_reports_once(f: Filter, at: Scan, entries: Seq<Placed>, a: int, b: int)
    requires
        f.rowids.no_duplicates(),
        f.rowids.len() <= at.seen.len(),
        at.out.len() <= a < b < f.scan(at, entries).out.len(),
    ensures
        f.scan(at, entries).out[a] != f.scan(at, entries).out[b],
    decreases entries.len(),
{
    if entries.len() > 0 {
        let p = entries[0];
        let next = f.step(at, p);
        let rest = entries.drop_first();
        lemma_scan_extends(f, next, rest);
        let end = f.scan(next, rest).out;
        if a >= next.out.len() {
            law_filter_reports_once(f, next, rest, a, b);
        } else {
            assert(end.subrange(0, next.out.len() as int)[a] == next.out[a]);
            assert(end[a] == f.rowids[p.0 as int]);
            lemma_seen_is_passed_over(f, next, rest, p.0 as int, b);
        }
    }
}

/// What is marked is not reported.
proof fn lemma_seen_is_passed_over(f: Filter, at: Scan, entries: Seq<Placed>, i: int, k: int)
    requires
        f.rowids.no_duplicates(),
        0 <= i < f.rowids.len() <= at.seen.len(),
        at.seen[i] == f.generation,
        at.out.len() <= k < f.scan(at, entries).out.len(),
    ensures
        f.scan(at, entries).out[k] != f.rowids[i],
    decreases entries.len(),
{
    if entries.len() > 0 {
        let p = entries[0];
        let next = f.step(at, p);
        let rest = entries.drop_first();
        lemma_scan_extends(f, next, rest);
        let end = f.scan(next, rest).out;
        if k < next.out.len() {
            assert(end.subrange(0, next.out.len() as int)[k] == next.out[k]);
            assert(p.0 != i);
        } else {
            lemma_seen_is_passed_over(f, next, rest, i, k);
        }
    }
}

/// The entities of a cell stand in the order in which they were placed.
pub proof fn law_cell_keeps_order(
    index: SpatialIndex,
    positions: Seq<Placed>,
    cell: int,
    a: int,
    b: int,
)
    requires
        index.wf(),
        index.holds(positions),
        0 <= cell < index.grid_size * index.grid_size,
        0 <= a < b < index.numbers(cell).len(),
    ensures
        exists|i: int, j: int|
            0 <= i < j < positions.len() && (#[trigger] positions[i]).0 == index.numbers(cell)[a] && (
            #[trigger] positions[j]).0 == index.numbers(cell)[b],
{
    let items = cell_items(positions, index.grid_size, cell);
    assert(index.entries(cell) == items);
    assert(index.offsets[cell] <= index.offsets[cell + 1]);
    assert(index.offsets[cell + 1] <= index.offsets[index.grid_size * index.grid_size]);
    lemma_items_in_order(positions, index.grid_size, cell, a, b);
    let (i, j) = choose|i: int, j: int|
        0 <= i < j < positions.len() && #[trigger] positions[i] == items[a]
            && #[trigger] positions[j] == items[b];
    assert(index.entries(cell)[a].0 == index.numbers(cell)[a]);
    assert(index.entries(cell)[b].0 == index.numbers(cell)[b]);
    assert(positions[i].0 == index.numbers(cell)[a] && positions[j].0 == index.numbers(cell)[b]);
}

proof fn lemma_items_in_order(positions: Seq<Placed>, grid: u32, cell: int, a: int, b: int)
    requires
        0 <= a < b < cell_items(positions, grid, cell).len(),
    ensures
        exists|i: int, j: int|
            0 <= i < j < positions.len() && #[trigger] positions[i] == cell_items(
                positions,
                grid,
                cell,
            )[a] && #[trigger] positions[j] == cell_items(positions, grid, cell)[b],
    decreases positions.len(),
{
    let rest = positions.drop_last();
    let head = cell_items(rest, grid, cell);
    let all = cell_items(positions, grid, cell);
    let last = positions.len() - 1;
    if b < head.len() {
        lemma_items_in_order(rest, grid, cell, a, b);
        let (i, j) = choose|i: int, j: int|
            0 <= i < j < rest.len() && #[trigger] rest[i] == head[a] && #[trigger] rest[j]
                == head[b];
        assert(positions[i] == all[a] && positions[j] == all[b]);
    } else {
        lemma_items_source(rest, grid, cell, a);
        let i = choose|i: int| 0 <= i < rest.len() && rest[i] == head[a];
        assert(positions[i] == all[a]);
        assert(positions[last] == all[b]);
    }
}

/// Where an entity is placed more than once, a filtered query goes by the entry
/// that it comes to first: if that one is not between the bounds, the entity is
/// not reported, and if it is, the entity is reported unless the limit is
/// reached before.
pub proof fn law_filter_takes_first_entry(
    f: Filter,
    at: Scan,
    entries: Seq<Placed>,
    i: int,
    k: int,
)
    requires
        f.rowids.no_duplicates(),
        !at.full,
        f.rowids.len() <= at.seen.len(),
        0 <= i < entries.len(),
        entries[i].0 < f.rowids.len(),
        at.seen[entries[i].0 as int] != f.generation,
        forall|j: int| 0 <= j < i ==> (#[trigger] entries[j]).0 != entries[i].0,
    ensures
        ({
            let (number, x, y) = entries[i];
            let hit = f.live[number as int] && !x.is_nan() && !y.is_nan() && !f.min_x.is_nan()
                && !f.max_x.is_nan() && !f.min_y.is_nan() && !f.max_y.is_nan() && f.min_x.rank()
                <= x.rank() && x.rank() <= f.max_x.rank() && f.min_y.rank() <= y.rank() && y.rank()
                <= f.max_y.rank();
            let end = f.scan(at, entries);
            &&& !hit && at.out.len() <= k < end.out.len() ==> end.out[k] != f.rowids[number as int]
            &&& hit && !end.full ==> end.out.contains(f.rowids[number as int])
        }),
    decreases entries.len(),
{
    let p = entries[0];
    let next = f.step(at, p);
    let rest = entries.drop_first();
    let end = f.scan(at, entries);
    let n = entries[i].0 as int;
    lemma_scan_extends(f, next, rest);
    if i == 0 {
        if f.live[n] && f.inside(p) {
            let last = next.out.len() - 1;
            assert(next.out[last] == f.rowids[n]);
            assert(end.out.subrange(0, next.out.len() as int)[last] == end.out[last]);
        } else {
            assert(next.seen[n] == f.generation);
            assert(next.out == at.out);
            if at.out.len() <= k < end.out.len() {
                lemma_seen_is_passed_over(f, next, rest, n, k);
            }
        }
    } else {
        assert(rest[i - 1] == entries[i]);
        assert(p.0 != entries[i].0);
        assert forall|j: int| 0 <= j < i - 1 implies (#[trigger] rest[j]).0 != rest[i - 1].0 by {
            assert(rest[j] == entries[j + 1]);
        }
        if next.full {
            assert(f.scan(next, rest) == next);
            if at.out.len() <= k < end.out.len() {
                assert(end.out[k] == f.rowids[p.0 as int]);
                assert(f.rowids[p.0 as int] != f.rowids[n]);
            }
        } else {
            law_filter_takes_first_entry(f, next, rest, i - 1, k);
            if at.out.len() <= k < next.out.len() {
                assert(end.out.subrange(0, next.out.len() as int)[k] == next.out[k]);
                assert(next.out[k] == f.rowids[p.0 as int]);
                assert(f.rowids[p.0 as int] != f.rowids[n]);
            }
        }
    }
}

} // verus!
