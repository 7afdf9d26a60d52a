//! Grid of cells over the square from -1 to 1.

use vstd::arithmetic::power2::{lemma2_to64, lemma_pow2_adds, lemma_pow2_strictly_increases, pow2};
use vstd::prelude::*;

use super::cell_walk::{law_walk_visits_once, CellWalk, Window};
use super::tile_math::{law_tile_in_range, tile_count, tile_of, world_to_tile};
use crate::ecs::pointer::Pointer;
use crate::float::Float32;

verus! {

/// Number of an entity and its coordinates.
pub type Placed = (u32, Float32, Float32);

/// Entities by grid cell, row by row, with their coordinates.
pub struct SpatialIndex {
    /// Numbers of the entities, cell by cell.
    pub cell_data: Vec<u32>,
    /// Coordinates of the entities, x before y, cell by cell.
    pub cell_positions: Vec<Float32>,
    /// Where each cell starts, and where the last one ends.
    pub offsets: Vec<u32>,
    pub bits: u16,
    pub grid_size: u32,
}

/// Cell that a placed entity belongs to.
pub open spec fn cell_of(p: Placed, grid: u32) -> int {
    tile_of(p.2, grid) * grid + tile_of(p.1, grid)
}

/// The placed entities of one cell, in their order.
pub open spec fn cell_items(positions: Seq<Placed>, grid: u32, cell: int) -> Seq<Placed>
    decreases positions.len(),
{
    if positions.len() == 0 {
        Seq::empty()
    } else {
        let head = cell_items(positions.drop_last(), grid, cell);
        if cell_of(positions.last(), grid) == cell {
            head.push(positions.last())
        } else {
            head
        }
    }
}

/// Number of placed entities in the cells before `cell`.
spec fn items_before(positions: Seq<Placed>, grid: u32, cell: int) -> nat
    decreases cell,
{
    if cell <= 0 {
        0
    } else {
        items_before(positions, grid, cell - 1) + cell_items(positions, grid, cell - 1).len()
    }
}

proof fn lemma_cell_in_range(p: Placed, grid: u32)
    requires
        grid >= 1,
    ensures
        0 <= cell_of(p, grid) < grid * grid,
{
    law_tile_in_range(p.1, grid);
    law_tile_in_range(p.2, grid);
    let x = tile_of(p.1, grid);
    let y = tile_of(p.2, grid);
    assert(0 <= y * grid + x < grid * grid) by (nonlinear_arith)
        requires
            0 <= x < grid,
            0 <= y < grid,
    ;
}

proof fn lemma_items_before_push(positions: Seq<Placed>, grid: u32, cell: int)
    requires
        positions.len() > 0,
        0 <= cell,
    ensures
        items_before(positions, grid, cell) == items_before(positions.drop_last(), grid, cell)
            + if 0 <= cell_of(positions.last(), grid) < cell {
            1nat
        } else {
            0nat
        },
    decreases cell,
{
    if cell > 0 {
        lemma_items_before_push(positions, grid, cell - 1);
    }
}

proof fn lemma_items_total(positions: Seq<Placed>, grid: u32)
    requires
        grid >= 1,
    ensures
        items_before(positions, grid, grid * grid) == positions.len(),
    decreases positions.len(),
{
    if positions.len() == 0 {
        lemma_items_none(grid, grid * grid);
        assert(positions =~= Seq::<Placed>::empty());
    } else {
        assert(grid * grid >= 0) by (nonlinear_arith);
        lemma_items_total(positions.drop_last(), grid);
        lemma_items_before_push(positions, grid, grid * grid);
        lemma_cell_in_range(positions.last(), grid);
    }
}

proof fn lemma_items_none(grid: u32, cell: int)
    ensures
        items_before(Seq::empty(), grid, cell) == 0,
    decreases cell,
{
    if cell > 0 {
        lemma_items_none(grid, cell - 1);
    }
}

proof fn lemma_items_before_monotone(positions: Seq<Placed>, grid: u32, a: int, b: int)
    requires
        a <= b,
    ensures
        items_before(positions, grid, a) <= items_before(positions, grid, b),
    decreases b - a,
{
    if a < b {
        lemma_items_before_monotone(positions, grid, a, b - 1);
    }
}

proof fn lemma_prefix_items(positions: Seq<Placed>, grid: u32, cell: int, k: int)
    requires
        0 <= k <= positions.len(),
    ensures
        cell_items(positions.take(k), grid, cell).len() <= cell_items(positions, grid, cell).len(),
    decreases positions.len(),
{
    if k == positions.len() {
        assert(positions.take(k) =~= positions);
    } else {
        lemma_prefix_items(positions.drop_last(), grid, cell, k);
        assert(positions.drop_last().take(k) =~= positions.take(k));
    }
}

proof fn lemma_items_step(positions: Seq<Placed>, grid: u32, cell: int, k: int)
    requires
        0 <= k < positions.len(),
    ensures
        cell_items(positions.take(k + 1), grid, cell) == if cell_of(positions[k], grid) == cell {
            cell_items(positions.take(k), grid, cell).push(positions[k])
        } else {
            cell_items(positions.take(k), grid, cell)
        },
{
    assert(positions.take(k + 1).drop_last() =~= positions.take(k));
}

/// Cell that an entity at the given coordinates belongs to.
fn cell_at(x: Float32, y: Float32, grid_size: u32) -> (r: usize)
    requires
        1 <= grid_size <= 0x8000,
    ensures
        forall|i: u32| r == #[trigger] cell_of((i, x, y), grid_size),
        r < grid_size * grid_size <= 0x4000_0000,
{
    let gx: u32 = world_to_tile(x, grid_size);
    let gy: u32 = world_to_tile(y, grid_size);
    proof {
        lemma_cell_in_range((0, x, y), grid_size);
        assert(grid_size * grid_size <= 0x8000 * 0x8000) by (nonlinear_arith)
            requires
                grid_size <= 0x8000,
        ;
        assert(0 <= gy * grid_size) by (nonlinear_arith);
    }
    (gy * grid_size + gx) as usize
}

impl SpatialIndex {
    /// Whether the arrays fit together.
    pub open spec fn wf(self) -> bool {
        let cells = self.grid_size * self.grid_size;
        &&& self.bits <= 15
        &&& self.grid_size == pow2(self.bits as nat)
        &&& 1 <= self.grid_size <= 0x8000
        &&& self.offsets.len() == cells + 1
        &&& self.offsets[0] == 0
        &&& self.offsets[cells] == self.cell_data.len()
        &&& forall|i: int, j: int|
            0 <= i <= j <= cells ==> #[trigger] self.offsets[i] <= #[trigger] self.offsets[j]
        &&& self.cell_positions.len() == 2 * self.cell_data.len()
    }

    /// The entry at a place of the arrays.
    pub open spec fn entry(self, k: int) -> Placed {
        (self.cell_data[k], self.cell_positions[2 * k], self.cell_positions[2 * k + 1])
    }

    /// The entries of one cell.
    pub open spec fn entries(self, cell: int) -> Seq<Placed> {
        Seq::new(
            (self.offsets[cell + 1] - self.offsets[cell]) as nat,
            |i: int| self.entry(self.offsets[cell] + i),
        )
    }

    /// Whether every cell holds its entities, and nothing else.
    pub open spec fn holds(self, positions: Seq<Placed>) -> bool {
        &&& self.cell_data.len() == positions.len()
        &&& forall|cell: int|
            0 <= cell < self.grid_size * self.grid_size ==> #[trigger] self.entries(cell)
                == cell_items(positions, self.grid_size, cell)
    }

    /// Builds the grid with `1 << bits` cells along each side.
    pub fn build(positions: &[Placed], bits: u16) -> (r: Self)
        requires
            bits <= 15,
            positions.len() <= u32::MAX,
        ensures
            r.wf(),
            r.bits == bits,
            r.holds(positions@),
    {
        let grid_size: u32 = tile_count(bits);
        proof {
            lemma2_to64();
            if bits < 15 {
                lemma_pow2_strictly_increases(bits as nat, 15);
            }
            assert(1 <= grid_size * grid_size <= 0x8000 * 0x8000) by (nonlinear_arith)
                requires
                    1 <= grid_size <= 0x8000,
            ;
        }
        let cell_count: usize = (grid_size * grid_size) as usize;

        let mut counts: Vec<u32> = vec![0u32; cell_count];
        let mut i: usize = 0;
        while i < positions.len()
            invariant
                1 <= grid_size <= 0x8000,
                cell_count == grid_size * grid_size,
                i <= positions.len() <= u32::MAX,
                counts.len() == cell_count,
                forall|c: int|
                    0 <= c < cell_count ==> #[trigger] counts[c] == cell_items(
                        positions@.take(i as int),
                        grid_size,
                        c,
                    ).len(),
            decreases positions.len() - i,
        {
            let p: Placed = positions[i];
            let cell: usize = cell_at(p.1, p.2, grid_size);
            assert(cell == cell_of((p.0, p.1, p.2), grid_size));
            proof {
                assert forall|c: int| 0 <= c < cell_count implies cell_items(
                    positions@.take(i + 1),
                    grid_size,
                    c,
                ).len() == #[trigger] counts[c] + if c == cell {
                    1int
                } else {
                    0int
                } by {
                    lemma_items_step(positions@, grid_size, c, i as int);
                }
                lemma_items_bound(positions@.take(i as int), grid_size, cell as int);
            }
            counts.set(cell, counts[cell] + 1);
            i = i + 1;
        }
        assert(positions@.take(i as int) =~= positions@);

        let mut offsets: Vec<u32> = Vec::with_capacity(cell_count + 1);
        let mut total: u32 = 0;
        let mut c: usize = 0;
        while c < cell_count
            invariant
                1 <= grid_size <= 0x8000,
                cell_count == grid_size * grid_size,
                positions.len() <= u32::MAX,
                c <= cell_count,
                counts.len() == cell_count,
                forall|k: int|
                    0 <= k < cell_count ==> #[trigger] counts[k] == cell_items(
                        positions@,
                        grid_size,
                        k,
                    ).len(),
                offsets.len() == c,
                total == items_before(positions@, grid_size, c as int),
                forall|k: int|
                    0 <= k < c ==> #[trigger] offsets[k] == items_before(positions@, grid_size, k),
            decreases cell_count - c,
        {
            offsets.push(total);
            proof {
                lemma_items_total(positions@, grid_size);
                lemma_items_before_monotone(
                    positions@,
                    grid_size,
                    c + 1,
                    cell_count as int,
                );
            }
            total = total + counts[c];
            c = c + 1;
        }
        offsets.push(total);
        proof {
            lemma_items_total(positions@, grid_size);
            assert forall|a: int, b: int| 0 <= a <= b <= cell_count implies #[trigger] offsets[a]
                <= #[trigger] offsets[b] by {
                lemma_items_before_monotone(positions@, grid_size, a, b);
            }
        }

        let total_entries: usize = total as usize;
        let mut cell_data: Vec<u32> = vec![0u32; total_entries];
        let zero: Float32 = Float32 { bits: 0 };
        let mut cell_positions: Vec<Float32> = Vec::new();
        let mut room: usize = 0;
        while room < total_entries
            invariant
                room <= total_entries,
                cell_positions@.len() == 2 * room,
            decreases total_entries - room,
        {
            cell_positions.push(zero);
            cell_positions.push(zero);
            room = room + 1;
        }
        assert(cell_positions.len() == 2 * total_entries);
        let mut write: Vec<u32> = Vec::with_capacity(cell_count);
        let mut w: usize = 0;
        while w < cell_count
            invariant
                w <= cell_count,
                offsets.len() == cell_count + 1,
                write@ == offsets@.take(w as int),
            decreases cell_count - w,
        {
            write.push(offsets[w]);
            w = w + 1;
        }

        let mut j: usize = 0;
        while j < positions.len()
            invariant
                1 <= grid_size <= 0x8000,
                cell_count == grid_size * grid_size,
                j <= positions.len() <= u32::MAX,
                total_entries == positions.len(),
                2 * total_entries <= usize::MAX,
                offsets.len() == cell_count + 1,
                write.len() == cell_count,
                cell_data.len() == total_entries,
                cell_positions.len() == 2 * total_entries,
                forall|k: int|
                    0 <= k <= cell_count ==> #[trigger] offsets[k] == items_before(
                        positions@,
                        grid_size,
                        k,
                    ),
                forall|a: int, b: int|
                    0 <= a <= b <= cell_count ==> #[trigger] offsets[a] <= #[trigger] offsets[b],
                offsets[cell_count as int] == total_entries,
                forall|k: int|
                    0 <= k < cell_count ==> #[trigger] write[k] == offsets[k] + cell_items(
                        positions@.take(j as int),
                        grid_size,
                        k,
                    ).len(),
                forall|k: int, t: int|
                    0 <= k < cell_count && 0 <= t < cell_items(
                        positions@.take(j as int),
                        grid_size,
                        k,
                    ).len() ==> placed_at(cell_data@, cell_positions@, offsets[k] + t)
                        == #[trigger] cell_items(positions@.take(j as int), grid_size, k)[t],
            decreases positions.len() - j,
        {
            let p: Placed = positions[j];
            let cell: usize = cell_at(p.1, p.2, grid_size);
            assert(cell == cell_of((p.0, p.1, p.2), grid_size));
            let pos: usize = write[cell] as usize;
            let ghost before = positions@.take(j as int);
            let ghost after = positions@.take(j + 1);
            proof {
                lemma_items_step(positions@, grid_size, cell as int, j as int);
                lemma_prefix_items(positions@, grid_size, cell as int, j + 1);
                assert(offsets[cell as int + 1] == offsets[cell as int] + cell_items(
                    positions@,
                    grid_size,
                    cell as int,
                ).len());
                assert(pos < offsets[cell as int + 1] <= offsets[cell_count as int]);
            }
            let ghost data0 = cell_data@;
            let ghost places0 = cell_positions@;
            cell_data.set(pos, p.0);
            cell_positions.set(2 * pos, p.1);
            cell_positions.set(2 * pos + 1, p.2);
            write.set(cell, (pos + 1) as u32);
            proof {
                assert forall|k: int| 0 <= k < cell_count implies #[trigger] write[k] == offsets[k]
                    + cell_items(after, grid_size, k).len() by {
                    lemma_items_step(positions@, grid_size, k, j as int);
                }
                assert forall|k: int, t: int|
                    0 <= k < cell_count && 0 <= t < cell_items(after, grid_size, k).len() implies
                    placed_at(cell_data@, cell_positions@, offsets[k] + t)
                    == #[trigger] cell_items(after, grid_size, k)[t] by {
                    lemma_items_step(positions@, grid_size, k, j as int);
                    lemma_prefix_items(positions@, grid_size, k, j + 1);
                    assert(offsets[k + 1] == offsets[k] + cell_items(
                        positions@,
                        grid_size,
                        k,
                    ).len());
                    if k == cell && t == cell_items(before, grid_size, k).len() {
                        assert(offsets[k] + t == pos);
                    } else {
                        assert(cell_items(after, grid_size, k)[t] == cell_items(
                            before,
                            grid_size,
                            k,
                        )[t]);
                        let at = offsets[k] + t;
                        assert(at != pos) by {
                            if k < cell {
                                assert(offsets[k + 1] <= offsets[cell as int]);
                            } else if k > cell {
                                assert(offsets[cell as int + 1] <= offsets[k]);
                            }
                        }
                        assert(placed_at(data0, places0, at) == cell_items(before, grid_size, k)[t]);
                        assert(offsets[k + 1] <= offsets[cell_count as int]);
                    }
                }
            }
            j = j + 1;
        }
        assert(positions@.take(j as int) =~= positions@);

        let index = SpatialIndex { cell_data, cell_positions, offsets, bits, grid_size };
        proof {
            assert forall|cell: int| 0 <= cell < grid_size * grid_size implies
                #[trigger] index.entries(cell) == cell_items(positions@, grid_size, cell) by {
                let items = cell_items(positions@, grid_size, cell);
                assert(index.offsets[cell + 1] == index.offsets[cell] + items.len());
                assert forall|t: int| 0 <= t < items.len() implies #[trigger] index.entries(cell)[t]
                    == items[t] by {
                    assert(placed_at(
                        index.cell_data@,
                        index.cell_positions@,
                        index.offsets[cell] + t,
                    ) == cell_items(positions@, grid_size, cell)[t]);
                }
                assert(index.entries(cell) =~= items);
            }
        }
        index
    }
}

/// The entry at a place of the arrays.
spec fn placed_at(data: Seq<u32>, places: Seq<Float32>, k: int) -> Placed {
    (data[k], places[2 * k], places[2 * k + 1])
}

proof fn lemma_items_bound(positions: Seq<Placed>, grid: u32, cell: int)
    ensures
        cell_items(positions, grid, cell).len() <= positions.len(),
    decreases positions.len(),
{
    if positions.len() > 0 {
        lemma_items_bound(positions.drop_last(), grid, cell);
    }
}

/// Level of the cells that a query looks at: its own, or that of the grid if
/// the query is finer.
pub open spec fn native_lod(bits: u16, lod: u16) -> u16 {
    if lod > bits {
        bits
    } else {
        lod
    }
}

/// Number of cells along one side of a query tile; at least one.
pub open spec fn cell_ratio(bits: u16, lod: u16) -> nat {
    if bits > lod {
        pow2((bits - lod) as nat)
    } else {
        1
    }
}

proof fn lemma_ratio(bits: u16, lod: u16)
    requires
        bits <= 15,
        lod < 32,
    ensures
        1 <= cell_ratio(bits, lod) <= 0x8000,
        pow2(lod as nat) * cell_ratio(bits, lod) <= 0x8000_0000,
        1 <= pow2(lod as nat) <= 0x8000_0000,
{
    lemma2_to64();
    vstd::arithmetic::power2::lemma_pow2_pos(lod as nat);
    if lod < 31 {
        lemma_pow2_strictly_increases(lod as nat, 31);
    }
    if bits > lod {
        let d = (bits - lod) as nat;
        vstd::arithmetic::power2::lemma_pow2_pos(d);
        if d < 15 {
            lemma_pow2_strictly_increases(d, 15);
        }
        lemma_pow2_adds(lod as nat, d);
        if bits < 15 {
            lemma_pow2_strictly_increases(bits as nat, 15);
        }
    }
}

/// Number of cells along one side of a query tile.
fn ratio_for(bits: u16, lod: u16) -> (r: u32)
    requires
        bits <= 15,
        lod < 32,
    ensures
        r == cell_ratio(bits, lod),
{
    if bits > lod {
        tile_count(bits - lod)
    } else {
        1
    }
}

/// Where a filtered query stands.
pub struct Scan {
    pub seen: Seq<u32>,
    pub out: Seq<u64>,
    pub full: bool,
}

/// What a filtered query asks for.
pub struct Filter {
    pub min_x: Float32,
    pub min_y: Float32,
    pub max_x: Float32,
    pub max_y: Float32,
    pub live: Seq<bool>,
    pub rowids: Seq<u64>,
    pub generation: u32,
    pub limit: int,
}

impl Filter {
    /// Whether a placed entity lies inside the bounds.
    pub open spec fn inside(self, p: Placed) -> bool {
        &&& p.1.at_least(self.min_x)
        &&& self.max_x.at_least(p.1)
        &&& p.2.at_least(self.min_y)
        &&& self.max_y.at_least(p.2)
    }

    /// The scan after one more entry: an entity that was not seen is marked,
    /// and reported if it is loaded and inside. The scan is full once the
    /// limit is reached.
    pub open spec fn step(self, at: Scan, p: Placed) -> Scan {
        let i = p.0 as int;
        if at.full || i >= self.rowids.len() || at.seen[i] == self.generation {
            at
        } else {
            let seen = at.seen.update(i, self.generation);
            if self.live[i] && self.inside(p) {
                let out = at.out.push(self.rowids[i]);
                Scan { seen, out, full: out.len() >= self.limit }
            } else {
                Scan { seen, ..at }
            }
        }
    }

    /// The scan after all the entries.
    pub open spec fn scan(self, at: Scan, entries: Seq<Placed>) -> Scan
        decreases entries.len(),
    {
        if entries.len() == 0 {
            at
        } else {
            self.scan(self.step(at, entries[0]), entries.drop_first())
        }
    }

    proof fn lemma_full_scan(self, at: Scan, entries: Seq<Placed>)
        requires
            at.full,
        ensures
            self.scan(at, entries) == at,
        decreases entries.len(),
    {
        if entries.len() > 0 {
            self.lemma_full_scan(at, entries.drop_first());
        }
    }
}

impl SpatialIndex {
    /// The tiles and cells that a query looks at.
    pub open spec fn window(
        self,
        min_x: Float32,
        min_y: Float32,
        max_x: Float32,
        max_y: Float32,
        query_lod: u16,
    ) -> Window {
        self.tile_window(min_x, min_y, max_x, max_y, native_lod(self.bits, query_lod))
    }

    /// The tiles of a query at its own level.
    pub open spec fn tile_window(
        self,
        min_x: Float32,
        min_y: Float32,
        max_x: Float32,
        max_y: Float32,
        query_lod: u16,
    ) -> Window {
        let count = pow2(query_lod as nat) as u32;
        Window {
            min_tx: tile_of(min_x, count),
            max_tx: tile_of(max_x, count),
            min_ty: tile_of(min_y, count),
            max_ty: tile_of(max_y, count),
            ratio: cell_ratio(self.bits, query_lod) as int,
            grid: self.grid_size as int,
        }
    }

    /// Numbers of the entities in one cell.
    pub open spec fn numbers(self, cell: int) -> Seq<u32> {
        self.cell_data@.subrange(self.offsets[cell] as int, self.offsets[cell + 1] as int)
    }

    /// Numbers of the entities in the cells, cell by cell.
    pub open spec fn numbers_in(self, cells: Seq<int>) -> Seq<u32>
        decreases cells.len(),
    {
        if cells.len() == 0 {
            Seq::empty()
        } else {
            self.numbers(cells[0]) + self.numbers_in(cells.drop_first())
        }
    }

    /// Entries of the cells, cell by cell.
    pub open spec fn entries_in(self, cells: Seq<int>) -> Seq<Placed>
        decreases cells.len(),
    {
        if cells.len() == 0 {
            Seq::empty()
        } else {
            self.entries(cells[0]) + self.entries_in(cells.drop_first())
        }
    }

    /// Returns an estimate of how many native cells a query would visit. A
    /// query that is finer than the grid counts each of its tiles.
    pub fn estimate_cell_count(
        &self,
        min_x: Float32,
        min_y: Float32,
        max_x: Float32,
        max_y: Float32,
        query_lod: u16,
    ) -> (r: u64)
        requires
            self.wf(),
            query_lod < 32,
            ({
                let w = self.tile_window(min_x, min_y, max_x, max_y, query_lod);
                w.min_tx <= w.max_tx && w.min_ty <= w.max_ty
            }),
        ensures
            ({
                let w = self.tile_window(min_x, min_y, max_x, max_y, query_lod);
                r == ((w.max_tx - w.min_tx + 1) * w.ratio) * ((w.max_ty - w.min_ty + 1) * w.ratio)
            }),
    {
        let count: u32 = tile_count(query_lod);
        let min_tx: u64 = world_to_tile(min_x, count) as u64;
        let max_tx: u64 = world_to_tile(max_x, count) as u64;
        let min_ty: u64 = world_to_tile(min_y, count) as u64;
        let max_ty: u64 = world_to_tile(max_y, count) as u64;
        let ratio: u64 = ratio_for(self.bits, query_lod) as u64;
        let wide: u64 = max_tx - min_tx + 1;
        let high: u64 = max_ty - min_ty + 1;
        proof {
            lemma_ratio(self.bits, query_lod);
            let c = count as int;
            assert(0 <= wide * ratio <= c * ratio) by (nonlinear_arith)
                requires
                    0 <= wide <= c,
                    0 <= ratio,
            ;
            assert(0 <= high * ratio <= c * ratio) by (nonlinear_arith)
                requires
                    0 <= high <= c,
                    0 <= ratio,
            ;
            let a = wide * ratio;
            let b = high * ratio;
            assert(0 <= a * b <= 0x8000_0000 * 0x8000_0000) by (nonlinear_arith)
                requires
                    0 <= a <= 0x8000_0000,
                    0 <= b <= 0x8000_0000,
            ;
        }
        (wide * ratio) * (high * ratio)
    }

    /// Number of cells in the grid.
    pub fn total_cells(&self) -> (r: u64)
        ensures
            r == self.grid_size * self.grid_size,
    {
        proof {
            let g = self.grid_size as int;
            assert(0 <= g * g <= 0xffff_ffff * 0xffff_ffff) by (nonlinear_arith)
                requires
                    0 <= g <= 0xffff_ffff,
            ;
        }
        (self.grid_size as u64) * (self.grid_size as u64)
    }

    pub fn bits(&self) -> (r: u16)
        ensures
            r == self.bits,
    {
        self.bits
    }

    pub fn grid_size(&self) -> (r: u32)
        ensures
            r == self.grid_size,
    {
        self.grid_size
    }

    /// Number of placed entities.
    pub fn len(&self) -> (r: usize)
        ensures
            r == self.cell_data.len(),
    {
        self.cell_data.len()
    }

    pub fn is_empty(&self) -> (r: bool)
        ensures
            r == (self.cell_data.len() == 0),
    {
        self.cell_data.len() == 0
    }

    /// Numbers of the entities in one cell; none outside the grid.
    pub fn get_cell(&self, tx: u32, ty: u32) -> (r: &[u32])
        requires
            self.wf(),
        ensures
            r@ == if tx < self.grid_size && ty < self.grid_size {
                self.numbers(ty * self.grid_size + tx)
            } else {
                Seq::<u32>::empty()
            },
    {
        if tx >= self.grid_size || ty >= self.grid_size {
            return vstd::slice::slice_subrange(self.cell_data.as_slice(), 0, 0);
        }
        proof {
            let g = self.grid_size as int;
            let x = tx as int;
            let y = ty as int;
            assert(0 <= y * g && y * g + x < g * g <= 0x8000 * 0x8000) by (nonlinear_arith)
                requires
                    0 <= x < g,
                    0 <= y < g,
                    g <= 0x8000,
            ;
        }
        let cell: usize = (ty * self.grid_size + tx) as usize;
        let start: usize = self.offsets[cell] as usize;
        let end: usize = self.offsets[cell + 1] as usize;
        vstd::slice::slice_subrange(self.cell_data.as_slice(), start, end)
    }

    /// Starts the walk over the cells of a query.
    fn walk(
        &self,
        min_x: Float32,
        min_y: Float32,
        max_x: Float32,
        max_y: Float32,
        query_lod: u16,
    ) -> (r: CellWalk)
        requires
            self.wf(),
            query_lod < 32,
        ensures
            r.wf(),
            r.window() == self.window(min_x, min_y, max_x, max_y, query_lod),
            r.remaining() == self.window(min_x, min_y, max_x, max_y, query_lod).cells(),
            forall|k: int|
                0 <= k < r.remaining().len() ==> 0 <= #[trigger] r.remaining()[k] < self.grid_size
                    * self.grid_size,
    {
        let query_lod: u16 = if query_lod > self.bits {
            self.bits
        } else {
            query_lod
        };
        let count: u32 = tile_count(query_lod);
        let min_tx: u32 = world_to_tile(min_x, count);
        let max_tx: u32 = world_to_tile(max_x, count);
        let min_ty: u32 = world_to_tile(min_y, count);
        let max_ty: u32 = world_to_tile(max_y, count);
        let ratio: u32 = ratio_for(self.bits, query_lod);
        proof {
            lemma_ratio(self.bits, query_lod);
            lemma_tile_fits(min_tx as int, count as int, ratio as int);
            lemma_tile_fits(max_tx as int, count as int, ratio as int);
            lemma_tile_fits(min_ty as int, count as int, ratio as int);
            lemma_tile_fits(max_ty as int, count as int, ratio as int);
            law_walk_visits_once(self.window(min_x, min_y, max_x, max_y, query_lod));
        }
        CellWalk::new(min_tx, max_tx, min_ty, max_ty, ratio, self.grid_size)
    }

    /// Collects the entities in the cells that a query looks at.
    pub fn query_bounds_into(
        &self,
        min_x: Float32,
        min_y: Float32,
        max_x: Float32,
        max_y: Float32,
        query_lod: u16,
        out: &mut Vec<u32>,
    )
        requires
            self.wf(),
            query_lod < 32,
        ensures
            final(out)@ == self.numbers_in(
                self.window(min_x, min_y, max_x, max_y, query_lod).cells(),
            ),
    {
        let mut walk: CellWalk = self.walk(min_x, min_y, max_x, max_y, query_lod);
        out.clear();
        let ghost goal = self.numbers_in(walk.remaining());
        assert(out@ + goal =~= goal);
        loop
            invariant_except_break
                out@ + self.numbers_in(walk.remaining()) == goal,
                forall|k: int|
                    0 <= k < walk.remaining().len() ==> 0 <= #[trigger] walk.remaining()[k]
                        < self.grid_size * self.grid_size,
            invariant
                self.wf(),
                walk.wf(),
            ensures
                out@ == goal,
            decreases walk.remaining().len(),
        {
            let ghost before = walk.remaining();
            let ghost out0 = out@;
            match walk.next() {
                None => {
                    assert(out@ + Seq::<u32>::empty() =~= out@);
                    break ;
                },
                Some(cell) => {
                    assert(before[0] == cell);
                    assert(before.drop_first() =~= walk.remaining());
                    assert forall|k: int| 0 <= k < walk.remaining().len() implies 0
                        <= #[trigger] walk.remaining()[k] < self.grid_size * self.grid_size by {
                        assert(walk.remaining()[k] == before[k + 1]);
                    }
                    let start: usize = self.offsets[cell] as usize;
                    let end: usize = self.offsets[cell + 1] as usize;
                    out.extend_from_slice(
                        vstd::slice::slice_subrange(self.cell_data.as_slice(), start, end),
                    );
                    assert(out@ =~= out0 + self.numbers(cell as int));
                    assert((out0 + self.numbers(cell as int)) + self.numbers_in(walk.remaining())
                        =~= out0 + (self.numbers(cell as int) + self.numbers_in(walk.remaining())));
                },
            }
        }
    }

    /// Appends the rowids of the loaded entities inside the bounds, each once,
    /// and stops when the limit is reached.
    pub fn query_filtered_into<T>(
        &self,
        min_x: Float32,
        min_y: Float32,
        max_x: Float32,
        max_y: Float32,
        query_lod: u16,
        entity_ptrs: &[Option<Pointer<T>>],
        entity_rowids: &[u64],
        seen: &mut Vec<u32>,
        generation: u32,
        out: &mut Vec<u64>,
        limit: usize,
    )
        requires
            self.wf(),
            query_lod < 32,
            entity_ptrs.len() >= entity_rowids.len(),
            old(seen).len() >= entity_rowids.len(),
        ensures
            ({
                let filter = Filter {
                    min_x,
                    min_y,
                    max_x,
                    max_y,
                    live: live_flags(entity_ptrs@),
                    rowids: entity_rowids@,
                    generation,
                    limit: limit as int,
                };
                let entries = self.entries_in(
                    self.window(min_x, min_y, max_x, max_y, query_lod).cells(),
                );
                let end = filter.scan(
                    (Scan { seen: old(seen)@, out: old(out)@, full: false }),
                    entries,
                );
                final(seen)@ == end.seen && final(out)@ == end.out
            }),
    {
        let ghost filter = Filter {
            min_x,
            min_y,
            max_x,
            max_y,
            live: live_flags(entity_ptrs@),
            rowids: entity_rowids@,
            generation,
            limit: limit as int,
        };
        let mut walk: CellWalk = self.walk(min_x, min_y, max_x, max_y, query_lod);
        let entity_count: usize = entity_rowids.len();
        let ghost goal = filter.scan(
            (Scan { seen: seen@, out: out@, full: false }),
            self.entries_in(walk.remaining()),
        );
        loop
            invariant_except_break
                goal == filter.scan(
                    (Scan { seen: seen@, out: out@, full: false }),
                    self.entries_in(walk.remaining()),
                ),
                forall|k: int|
                    0 <= k < walk.remaining().len() ==> 0 <= #[trigger] walk.remaining()[k]
                        < self.grid_size * self.grid_size,
            invariant
                self.wf(),
                walk.wf(),
                entity_count == entity_rowids.len(),
                entity_ptrs.len() >= entity_count,
                seen.len() >= entity_count,
                filter == (Filter {
                    min_x,
                    min_y,
                    max_x,
                    max_y,
                    live: live_flags(entity_ptrs@),
                    rowids: entity_rowids@,
                    generation,
                    limit: limit as int,
                }),
                goal == filter.scan(
                    (Scan { seen: old(seen)@, out: old(out)@, full: false }),
                    self.entries_in(
                        self.window(min_x, min_y, max_x, max_y, query_lod).cells(),
                    ),
                ),
            ensures
                seen@ == goal.seen && out@ == goal.out,
            decreases walk.remaining().len(),
        {
            let ghost before = walk.remaining();
            match walk.next() {
                None => {
                    break ;
                },
                Some(cell) => {
                    assert(before[0] == cell);
                    assert(before.drop_first() =~= walk.remaining());
                    assert forall|k: int| 0 <= k < walk.remaining().len() implies 0
                        <= #[trigger] walk.remaining()[k] < self.grid_size * self.grid_size by {
                        assert(walk.remaining()[k] == before[k + 1]);
                    }
                    let start: usize = self.offsets[cell] as usize;
                    let end: usize = self.offsets[cell + 1] as usize;
                    let ghost entries = self.entries(cell as int);
                    let ghost rest = self.entries_in(walk.remaining());
                    let mut k: usize = start;
                    assert(entries.skip(0) =~= entries);
                    while k < end
                        invariant
                            self.wf(),
                            start <= k <= end <= self.cell_data.len(),
                            cell < self.grid_size * self.grid_size,
                            start == self.offsets[cell as int],
                            end == self.offsets[cell + 1],
                            entries == self.entries(cell as int),
                            entity_count == entity_rowids.len(),
                            entity_ptrs.len() >= entity_count,
                            seen.len() >= entity_count,
                            filter == (Filter {
                                min_x,
                                min_y,
                                max_x,
                                max_y,
                                live: live_flags(entity_ptrs@),
                                rowids: entity_rowids@,
                                generation,
                                limit: limit as int,
                            }),
                            goal == filter.scan(
                                (Scan { seen: old(seen)@, out: old(out)@, full: false }),
                                self.entries_in(
                                    self.window(min_x, min_y, max_x, max_y, query_lod).cells(),
                                ),
                            ),
                            goal == filter.scan(
                                (Scan { seen: seen@, out: out@, full: false }),
                                entries.skip(k - start) + rest,
                            ),
                        decreases end - k,
                    {
                        let ghost at = Scan { seen: seen@, out: out@, full: false };
                        let ghost todo = entries.skip(k - start) + rest;
                        assert(todo[0] == self.entry(k as int));
                        assert(todo.drop_first() =~= entries.skip(k + 1 - start) + rest);
                        let csr_idx: usize = self.cell_data[k] as usize;
                        if csr_idx < entity_count && seen[csr_idx] != generation {
                            seen.set(csr_idx, generation);
                            if entity_ptrs[csr_idx].is_some() {
                                let px: Float32 = self.cell_positions[2 * k];
                                let py: Float32 = self.cell_positions[2 * k + 1];
                                if px.within(min_x, max_x) && py.within(min_y, max_y) {
                                    out.push(entity_rowids[csr_idx]);
                                    if out.len() >= limit {
                                        proof {
                                            let now = Scan { seen: seen@, out: out@, full: true };
                                            assert(filter.step(at, todo[0]) == now);
                                            filter.lemma_full_scan(now, todo.drop_first());
                                        }
                                        return ;
                                    }
                                }
                            }
                        }
                        assert(filter.step(at, todo[0]) == (Scan {
                            seen: seen@,
                            out: out@,
                            full: false,
                        }));
                        k = k + 1;
                    }
                    assert(entries.skip(end - start) + rest =~= rest);
                },
            }
        }
    }
}

/// Which entities are loaded.
pub open spec fn live_flags<T>(entity_ptrs: Seq<Option<Pointer<T>>>) -> Seq<bool> {
    entity_ptrs.map_values(|p: Option<Pointer<T>>| p is Some)
}

proof fn lemma_tile_fits(tile: int, count: int, ratio: int)
    requires
        0 <= tile < count,
        1 <= ratio,
    ensures
        (tile + 1) * ratio <= count * ratio,
{
    assert((tile + 1) * ratio <= count * ratio) by (nonlinear_arith)
        requires
            0 <= tile < count,
            1 <= ratio,
    ;
}

} // verus!
