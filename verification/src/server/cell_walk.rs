//! The order in which a query visits grid cells.

use vstd::prelude::*;

verus! {

/// A rectangle of query tiles, each of which covers `ratio` by `ratio` cells
/// of a grid with `grid` cells along each side.
pub struct Window {
    pub min_tx: int,
    pub max_tx: int,
    pub min_ty: int,
    pub max_ty: int,
    pub ratio: int,
    pub grid: int,
}

impl Window {
    /// First cell row or column of a tile.
    pub open spec fn first(self, tile: int) -> int {
        tile * self.ratio
    }

    /// End of the cell rows or columns of a tile inside the grid.
    pub open spec fn end(self, tile: int) -> int {
        if (tile + 1) * self.ratio < self.grid {
            (tile + 1) * self.ratio
        } else {
            self.grid
        }
    }

    /// Cells from the given one on: tile by tile along the rows of tiles, and
    /// row by row inside a tile.
    pub open spec fn cells_from(self, ty: int, tx: int, cy: int, cx: int) -> Seq<int>
        decreases
                self.max_ty + 1 - ty,
                self.max_tx + 1 - tx,
                self.end(ty) - cy,
                self.end(tx) - cx,
    {
        if ty > self.max_ty {
            Seq::empty()
        } else if tx > self.max_tx {
            self.cells_from(ty + 1, self.min_tx, self.first(ty + 1), self.first(self.min_tx))
        } else if cy >= self.end(ty) {
            self.cells_from(ty, tx + 1, self.first(ty), self.first(tx + 1))
        } else if cx >= self.end(tx) {
            self.cells_from(ty, tx, cy + 1, self.first(tx))
        } else {
            seq![cy * self.grid + cx] + self.cells_from(ty, tx, cy, cx + 1)
        }
    }

    /// All cells of the window, in the order in which they are visited.
    pub open spec fn cells(self) -> Seq<int> {
        self.cells_from(
            self.min_ty,
            self.min_tx,
            self.first(self.min_ty),
            self.first(self.min_tx),
        )
    }

    /// Whether a cell column or row belongs to one of the tiles `low..=high`.
    pub open spec fn covers(self, low: int, high: int, c: int) -> bool {
        0 <= c < self.grid && low <= c / self.ratio <= high
    }
}

/// Walk over the cells of a window.
pub struct CellWalk {
    pub min_tx: u32,
    pub max_tx: u32,
    pub min_ty: u32,
    pub max_ty: u32,
    pub ratio: u32,
    pub grid: u32,
    pub ty: u32,
    pub tx: u32,
    pub cy: u32,
    pub cx: u32,
}

impl CellWalk {
    pub open spec fn window(self) -> Window {
        Window {
            min_tx: self.min_tx as int,
            max_tx: self.max_tx as int,
            min_ty: self.min_ty as int,
            max_ty: self.max_ty as int,
            ratio: self.ratio as int,
            grid: self.grid as int,
        }
    }

    /// Cells that are still to come.
    pub open spec fn remaining(self) -> Seq<int> {
        self.window().cells_from(self.ty as int, self.tx as int, self.cy as int, self.cx as int)
    }

    /// Whether no step can leave the number range.
    pub open spec fn wf(self) -> bool {
        &&& 1 <= self.ratio
        &&& self.grid <= 0x8000
        &&& self.max_tx < 0x8000_0000
        &&& self.max_ty < 0x8000_0000
        &&& self.min_tx < 0x8000_0000
        &&& self.min_ty < 0x8000_0000
        &&& self.ty <= self.max_ty + 1 || self.ty <= self.min_ty
        &&& self.tx <= self.max_tx + 1 || self.tx <= self.min_tx
        &&& (self.min_tx + 1) * self.ratio <= 0x8000_0000
        &&& (self.max_tx + 1) * self.ratio <= 0x8000_0000
        &&& (self.min_ty + 1) * self.ratio <= 0x8000_0000
        &&& (self.max_ty + 1) * self.ratio <= 0x8000_0000
    }

    /// Starts the walk.
    pub fn new(
        min_tx: u32,
        max_tx: u32,
        min_ty: u32,
        max_ty: u32,
        ratio: u32,
        grid: u32,
    ) -> (r: Self)
        requires
            1 <= ratio,
            grid <= 0x8000,
            (min_tx + 1) * ratio <= 0x8000_0000,
            (max_tx + 1) * ratio <= 0x8000_0000,
            (min_ty + 1) * ratio <= 0x8000_0000,
            (max_ty + 1) * ratio <= 0x8000_0000,
        ensures
            r.wf(),
            r.remaining() == r.window().cells(),
            r.window() == (Window {
                min_tx: min_tx as int,
                max_tx: max_tx as int,
                min_ty: min_ty as int,
                max_ty: max_ty as int,
                ratio: ratio as int,
                grid: grid as int,
            }),
    {
        proof {
            lemma_scaled(min_tx as int, ratio as int);
            lemma_scaled(max_tx as int, ratio as int);
            lemma_scaled(min_ty as int, ratio as int);
            lemma_scaled(max_ty as int, ratio as int);
        }
        CellWalk {
            min_tx,
            max_tx,
            min_ty,
            max_ty,
            ratio,
            grid,
            ty: min_ty,
            tx: min_tx,
            cy: min_ty * ratio,
            cx: min_tx * ratio,
        }
    }

    /// The next cell.
    pub fn next(&mut self) -> (r: Option<usize>)
        requires
            old(self).wf(),
        ensures
            final(self).wf(),
            final(self).window() == old(self).window(),
            match r {
                Some(cell) => old(self).remaining() == seq![cell as int]
                    + final(self).remaining(),
                None => old(self).remaining() == Seq::<int>::empty(),
            },
    {
        while self.ty <= self.max_ty
            invariant
                self.wf(),
                self.window() == old(self).window(),
                self.remaining() == old(self).remaining(),
            decreases
                    self.max_ty + 1 - self.ty,
                    self.max_tx + 1 - self.tx,
                    self.window().end(self.ty as int) - self.cy,
        {
            if self.tx > self.max_tx {
                proof {
                    lemma_scaled_below(self.ty as int, self.max_ty as int, self.ratio as int);
                    lemma_scaled(self.min_tx as int, self.ratio as int);
                }
                self.ty = self.ty + 1;
                self.tx = self.min_tx;
                self.cy = self.ty * self.ratio;
                self.cx = self.min_tx * self.ratio;
                continue ;
            }
            proof {
                lemma_scaled_below(self.tx as int, self.max_tx as int, self.ratio as int);
                lemma_scaled_below(self.ty as int, self.max_ty as int, self.ratio as int);
                lemma_scaled(self.tx as int, self.ratio as int);
                lemma_scaled(self.ty as int, self.ratio as int);
            }
            let row_end: u32 = smaller((self.ty + 1) * self.ratio, self.grid);
            if self.cy >= row_end {
                self.tx = self.tx + 1;
                self.cy = self.ty * self.ratio;
                self.cx = self.tx * self.ratio;
                continue ;
            }
            let col_end: u32 = smaller((self.tx + 1) * self.ratio, self.grid);
            if self.cx >= col_end {
                self.cy = self.cy + 1;
                self.cx = self.tx * self.ratio;
                continue ;
            }
            proof {
                let cy = self.cy as int;
                let grid = self.grid as int;
                assert(0 <= cy * grid <= 0x8000 * 0x8000) by (nonlinear_arith)
                    requires
                        0 <= cy < grid,
                        grid <= 0x8000,
                ;
            }
            let cell: usize = (self.cy * self.grid + self.cx) as usize;
            self.cx = self.cx + 1;
            return Some(cell);
        }
        None
    }
}

fn smaller(a: u32, b: u32) -> (r: u32)
    ensures
        r == if a < b {
            a
        } else {
            b
        },
{
    if a < b {
        a
    } else {
        b
    }
}

proof fn lemma_scaled(tile: int, ratio: int)
    requires
        0 <= tile,
        1 <= ratio,
    ensures
        0 <= tile * ratio,
        (tile + 1) * ratio == tile * ratio + ratio,
        tile + 1 <= (tile + 1) * ratio,
{
    assert(0 <= tile * ratio && (tile + 1) * ratio == tile * ratio + ratio && tile + 1 <= (tile + 1)
        * ratio) by (nonlinear_arith)
        requires
            0 <= tile,
            1 <= ratio,
    ;
}

proof fn lemma_scaled_below(tile: int, high: int, ratio: int)
    requires
        0 <= tile <= high,
        1 <= ratio,
    ensures
        0 <= (tile + 1) * ratio <= (high + 1) * ratio,
{
    assert(0 <= (tile + 1) * ratio <= (high + 1) * ratio) by (nonlinear_arith)
        requires
            0 <= tile <= high,
            1 <= ratio,
    ;
}

impl Window {
    /// Whether the cell in row `y` and column `x` comes at or behind the given
    /// place of the walk.
    spec fn ahead(self, ty: int, tx: int, cy: int, cx: int, y: int, x: int) -> bool {
        let q = y / self.ratio;
        let p = x / self.ratio;
        ||| ty < q <= self.max_ty && self.min_tx <= p <= self.max_tx
        ||| ty == q <= self.max_ty && tx < p <= self.max_tx
        ||| ty == q <= self.max_ty && tx == p <= self.max_tx && (cy < y || cy == y && cx <= x)
    }

    proof fn lemma_cells_from(self, ty: int, tx: int, cy: int, cx: int, y: int, x: int)
        requires
            1 <= self.ratio,
            0 <= y < self.grid,
            0 <= x < self.grid,
            0 <= ty,
            0 <= self.min_tx <= tx,
            self.first(ty) <= cy,
            self.first(tx) <= cx,
        ensures
            self.cells_from(ty, tx, cy, cx).contains(y * self.grid + x) <==> self.ahead(
                ty,
                tx,
                cy,
                cx,
                y,
                x,
            ),
        decreases
                self.max_ty + 1 - ty,
                self.max_tx + 1 - tx,
                self.end(ty) - cy,
                self.end(tx) - cx,
    {
        lemma_tile_bounds(y, ty, self.ratio);
        lemma_tile_bounds(x, tx, self.ratio);
        lemma_tile_bounds(x, self.min_tx, self.ratio);
        lemma_scaled(ty, self.ratio);
        lemma_scaled(tx, self.ratio);
        lemma_scaled(self.min_tx, self.ratio);
        if ty > self.max_ty {
        } else if tx > self.max_tx {
            lemma_tile_bounds(y, ty + 1, self.ratio);
            self.lemma_cells_from(
                ty + 1,
                self.min_tx,
                self.first(ty + 1),
                self.first(self.min_tx),
                y,
                x,
            );
        } else if cy >= self.end(ty) {
            lemma_tile_bounds(x, tx + 1, self.ratio);
            self.lemma_cells_from(ty, tx + 1, self.first(ty), self.first(tx + 1), y, x);
        } else if cx >= self.end(tx) {
            self.lemma_cells_from(ty, tx, cy + 1, self.first(tx), y, x);
        } else {
            self.lemma_cells_from(ty, tx, cy, cx + 1, y, x);
            lemma_tile_bounds(cy, ty, self.ratio);
            lemma_tile_bounds(cx, tx, self.ratio);
            let code = y * self.grid + x;
            let here = cy * self.grid + cx;
            let rest = self.cells_from(ty, tx, cy, cx + 1);
            lemma_cell_code(y, x, cy, cx, self.grid);
            let all = seq![here] + rest;
            assert(all.contains(code) <==> code == here || rest.contains(code)) by {
                assert(all[0] == here);
                if rest.contains(code) {
                    let k = choose|k: int| 0 <= k < rest.len() && rest[k] == code;
                    assert(all[k + 1] == code);
                }
                if all.contains(code) && code != here {
                    let k = choose|k: int| 0 <= k < all.len() && all[k] == code;
                    assert(rest[k - 1] == code);
                }
            }
        }
    }

    proof fn lemma_cells_distinct(self, ty: int, tx: int, cy: int, cx: int)
        requires
            1 <= self.ratio,
            0 <= ty,
            0 <= self.min_tx <= tx,
            self.first(ty) <= cy,
            self.first(tx) <= cx,
        ensures
            self.cells_from(ty, tx, cy, cx).no_duplicates(),
            forall|k: int|
                0 <= k < self.cells_from(ty, tx, cy, cx).len() ==> 0 <= #[trigger] self.cells_from(
                    ty,
                    tx,
                    cy,
                    cx,
                )[k] < self.grid * self.grid,
        decreases
                self.max_ty + 1 - ty,
                self.max_tx + 1 - tx,
                self.end(ty) - cy,
                self.end(tx) - cx,
    {
        lemma_scaled(ty, self.ratio);
        lemma_scaled(tx, self.ratio);
        lemma_scaled(self.min_tx, self.ratio);
        if ty > self.max_ty {
        } else if tx > self.max_tx {
            self.lemma_cells_distinct(
                ty + 1,
                self.min_tx,
                self.first(ty + 1),
                self.first(self.min_tx),
            );
        } else if cy >= self.end(ty) {
            self.lemma_cells_distinct(ty, tx + 1, self.first(ty), self.first(tx + 1));
        } else if cx >= self.end(tx) {
            self.lemma_cells_distinct(ty, tx, cy + 1, self.first(tx));
        } else {
            self.lemma_cells_distinct(ty, tx, cy, cx + 1);
            self.lemma_cells_from(ty, tx, cy, cx + 1, cy, cx);
            lemma_tile_bounds(cy, ty, self.ratio);
            lemma_tile_bounds(cx, tx, self.ratio);
            let here = cy * self.grid + cx;
            let rest = self.cells_from(ty, tx, cy, cx + 1);
            assert(!rest.contains(here));
            let grid = self.grid;
            assert(0 <= here < grid * grid) by (nonlinear_arith)
                requires
                    here == cy * grid + cx,
                    0 <= cy < grid,
                    0 <= cx < grid,
            ;
            let all = seq![here] + rest;
            assert(all.no_duplicates()) by {
                assert forall|i: int, j: int| 0 <= i < j < all.len() implies all[i] != all[j] by {
                    assert(all[j] == rest[j - 1]);
                    if i == 0 {
                        assert(rest.contains(rest[j - 1]));
                    } else {
                        assert(all[i] == rest[i - 1]);
                    }
                }
            }
        }
    }
}

impl Window {
    proof fn lemma_cells_in_order(
        self,
        ty: int,
        tx: int,
        cy: int,
        cx: int,
        a: int,
        b: int,
        y1: int,
        x1: int,
        y2: int,
        x2: int,
    )
        requires
            1 <= self.ratio,
            0 <= ty,
            0 <= self.min_tx <= tx,
            self.first(ty) <= cy,
            self.first(tx) <= cx,
            0 <= a < b < self.cells_from(ty, tx, cy, cx).len(),
            0 <= y1 < self.grid,
            0 <= x1 < self.grid,
            0 <= y2 < self.grid,
            0 <= x2 < self.grid,
            self.cells_from(ty, tx, cy, cx)[a] == y1 * self.grid + x1,
            self.cells_from(ty, tx, cy, cx)[b] == y2 * self.grid + x2,
        ensures
            ({
                let (q1, p1) = (y1 / self.ratio, x1 / self.ratio);
                let (q2, p2) = (y2 / self.ratio, x2 / self.ratio);
                ||| q1 < q2
                ||| q1 == q2 && p1 < p2
                ||| q1 == q2 && p1 == p2 && (y1 < y2 || y1 == y2 && x1 < x2)
            }),
        decreases
                self.max_ty + 1 - ty,
                self.max_tx + 1 - tx,
                self.end(ty) - cy,
                self.end(tx) - cx,
    {
        lemma_scaled(ty, self.ratio);
        lemma_scaled(tx, self.ratio);
        lemma_scaled(self.min_tx, self.ratio);
        if ty > self.max_ty {
        } else if tx > self.max_tx {
            self.lemma_cells_in_order(
                ty + 1,
                self.min_tx,
                self.first(ty + 1),
                self.first(self.min_tx),
                a,
                b,
                y1,
                x1,
                y2,
                x2,
            );
        } else if cy >= self.end(ty) {
            self.lemma_cells_in_order(
                ty,
                tx + 1,
                self.first(ty),
                self.first(tx + 1),
                a,
                b,
                y1,
                x1,
                y2,
                x2,
            );
        } else if cx >= self.end(tx) {
            self.lemma_cells_in_order(ty, tx, cy + 1, self.first(tx), a, b, y1, x1, y2, x2);
        } else {
            let rest = self.cells_from(ty, tx, cy, cx + 1);
            if a > 0 {
                self.lemma_cells_in_order(ty, tx, cy, cx + 1, a - 1, b - 1, y1, x1, y2, x2);
            } else {
                lemma_cell_code(y1, x1, cy, cx, self.grid);
                assert(rest[b - 1] == y2 * self.grid + x2);
                assert(rest.contains(y2 * self.grid + x2));
                self.lemma_cells_from(ty, tx, cy, cx + 1, y2, x2);
                lemma_tile_bounds(cy, ty, self.ratio);
                lemma_tile_bounds(cx, tx, self.ratio);
            }
        }
    }

    /// Number of cells that are still to come at a place of the walk, where all
    /// tiles lie inside the grid.
    spec fn to_come(self, ty: int, tx: int, cy: int, cx: int) -> int {
        let tile = self.ratio * self.ratio;
        let row = (self.max_tx - self.min_tx + 1) * tile;
        if ty > self.max_ty {
            0
        } else if tx > self.max_tx {
            (self.max_ty - ty) * row
        } else {
            (self.max_ty - ty) * row + (self.max_tx - tx) * tile + if cy >= self.end(ty) {
                0
            } else {
                (self.end(ty) - cy - 1) * self.ratio + (self.end(tx) - cx)
            }
        }
    }

    proof fn lemma_to_come(self, ty: int, tx: int, cy: int, cx: int)
        requires
            1 <= self.ratio,
            0 <= ty <= self.max_ty + 1,
            0 <= self.min_tx <= self.max_tx,
            self.min_tx <= tx <= self.max_tx + 1,
            (self.max_tx + 1) * self.ratio <= self.grid,
            (self.max_ty + 1) * self.ratio <= self.grid,
            self.first(ty) <= cy <= self.first(ty) + self.ratio,
            self.first(tx) <= cx <= self.first(tx) + self.ratio,
        ensures
            self.cells_from(ty, tx, cy, cx).len() == self.to_come(ty, tx, cy, cx),
        decreases
                self.max_ty + 1 - ty,
                self.max_tx + 1 - tx,
                self.end(ty) - cy,
                self.end(tx) - cx,
    {
        let r = self.ratio;
        let tile = r * r;
        let n = self.max_tx - self.min_tx + 1;
        let row = n * tile;
        lemma_scaled(ty, r);
        lemma_scaled(tx, r);
        lemma_scaled(self.min_tx, r);
        if ty > self.max_ty {
        } else {
            lemma_scaled_below(ty, self.max_ty, r);
            assert(self.end(ty) == self.first(ty) + r);
            if tx > self.max_tx {
                if ty + 1 <= self.max_ty {
                    lemma_scaled(ty + 1, r);
                    lemma_scaled_below(ty + 1, self.max_ty, r);
                    assert(self.end(ty + 1) == self.first(ty + 1) + r);
                    lemma_scaled_below(self.min_tx, self.max_tx, r);
                    assert(self.end(self.min_tx) == self.first(self.min_tx) + r);
                }
                self.lemma_to_come(
                    ty + 1,
                    self.min_tx,
                    self.first(ty + 1),
                    self.first(self.min_tx),
                );
                let m = self.max_ty - ty;
                assert(m * row == (m - 1) * row + (n - 1) * tile + (r - 1) * r + r)
                    by (nonlinear_arith)
                    requires
                        row == n * tile,
                        tile == r * r,
                ;
                if ty + 1 > self.max_ty {
                    assert(m == 0);
                    assert(0 * row == 0);
                }
            } else {
                lemma_scaled_below(tx, self.max_tx, r);
                assert(self.end(tx) == self.first(tx) + r);
                if cy >= self.end(ty) {
                    if tx + 1 <= self.max_tx {
                        lemma_scaled(tx + 1, r);
                        lemma_scaled_below(tx + 1, self.max_tx, r);
                        assert(self.end(tx + 1) == self.first(tx + 1) + r);
                    }
                    self.lemma_to_come(ty, tx + 1, self.first(ty), self.first(tx + 1));
                    let m = self.max_tx - tx;
                    assert(m * tile == (m - 1) * tile + (r - 1) * r + r) by (nonlinear_arith)
                        requires
                            tile == r * r,
                    ;
                    if tx + 1 > self.max_tx {
                        assert(m == 0);
                        assert(0 * tile == 0);
                    }
                } else if cx >= self.end(tx) {
                    self.lemma_to_come(ty, tx, cy + 1, self.first(tx));
                    let m = self.end(ty) - cy;
                    assert((m - 1) * r == (m - 2) * r + r) by (nonlinear_arith);
                    if m == 1 {
                        assert(0 * r == 0);
                    }
                } else {
                    self.lemma_to_come(ty, tx, cy, cx + 1);
                }
            }
        }
    }
}

/// The walk goes row by row of tiles and tile by tile in each row, and inside a
/// tile row by row of cells and cell by cell in each row.
pub proof fn law_walk_goes_row_by_row(
    w: Window,
    a: int,
    b: int,
    y1: int,
    x1: int,
    y2: int,
    x2: int,
)
    requires
        1 <= w.ratio,
        0 <= w.min_tx,
        0 <= w.min_ty,
        0 <= a < b < w.cells().len(),
        0 <= y1 < w.grid,
        0 <= x1 < w.grid,
        0 <= y2 < w.grid,
        0 <= x2 < w.grid,
        w.cells()[a] == y1 * w.grid + x1,
        w.cells()[b] == y2 * w.grid + x2,
    ensures
        y1 / w.ratio <= y2 / w.ratio,
        y1 / w.ratio == y2 / w.ratio ==> x1 / w.ratio <= x2 / w.ratio,
        y1 / w.ratio == y2 / w.ratio && x1 / w.ratio == x2 / w.ratio ==> y1 <= y2,
        y1 == y2 && x1 / w.ratio == x2 / w.ratio ==> x1 < x2,
{
    w.lemma_cells_in_order(
        w.min_ty,
        w.min_tx,
        w.first(w.min_ty),
        w.first(w.min_tx),
        a,
        b,
        y1,
        x1,
        y2,
        x2,
    );
}

/// Where all its tiles lie inside the grid, a window has as many cells as its
/// tiles have in all.
pub proof fn law_window_counts_cells(w: Window)
    requires
        1 <= w.ratio,
        0 <= w.min_tx <= w.max_tx,
        0 <= w.min_ty <= w.max_ty,
        (w.max_tx + 1) * w.ratio <= w.grid,
        (w.max_ty + 1) * w.ratio <= w.grid,
    ensures
        w.cells().len() == ((w.max_tx - w.min_tx + 1) * w.ratio) * ((w.max_ty - w.min_ty + 1)
            * w.ratio),
{
    let r = w.ratio;
    let tile = r * r;
    let n = w.max_tx - w.min_tx + 1;
    let m = w.max_ty - w.min_ty;
    w.lemma_to_come(w.min_ty, w.min_tx, w.first(w.min_ty), w.first(w.min_tx));
    lemma_scaled(w.min_ty, r);
    lemma_scaled(w.min_tx, r);
    lemma_scaled_below(w.min_ty, w.max_ty, r);
    lemma_scaled_below(w.min_tx, w.max_tx, r);
    assert(w.end(w.min_ty) == w.first(w.min_ty) + r);
    assert(w.end(w.min_tx) == w.first(w.min_tx) + r);
    assert(m * (n * tile) + (n - 1) * tile + (r - 1) * r + r == (n * r) * ((m + 1) * r))
        by (nonlinear_arith)
        requires
            tile == r * r,
    ;
}

/// The walk visits exactly the cells that belong to the window's tiles.
pub proof fn law_walk_covers_window(w: Window, x: int, y: int)
    requires
        1 <= w.ratio,
        0 <= w.min_tx,
        0 <= w.min_ty,
        0 <= y < w.grid,
        0 <= x < w.grid,
    ensures
        w.cells().contains(y * w.grid + x) <==> w.covers(w.min_ty, w.max_ty, y) && w.covers(
            w.min_tx,
            w.max_tx,
            x,
        ),
{
    w.lemma_cells_from(w.min_ty, w.min_tx, w.first(w.min_ty), w.first(w.min_tx), y, x);
    lemma_tile_bounds(x, w.min_tx, w.ratio);
    lemma_tile_bounds(y, w.min_ty, w.ratio);
}

/// The walk visits no cell twice, and none outside the grid.
pub proof fn law_walk_visits_once(w: Window)
    requires
        1 <= w.ratio,
        0 <= w.min_tx,
        0 <= w.min_ty,
    ensures
        w.cells().no_duplicates(),
        forall|k: int| 0 <= k < w.cells().len() ==> 0 <= #[trigger] w.cells()[k] < w.grid * w.grid,
{
    w.lemma_cells_distinct(w.min_ty, w.min_tx, w.first(w.min_ty), w.first(w.min_tx));
}

proof fn lemma_tile_bounds(c: int, tile: int, ratio: int)
    requires
        0 <= c,
        0 <= tile,
        1 <= ratio,
    ensures
        c / ratio > tile <==> c >= (tile + 1) * ratio,
        c / ratio < tile <==> c < tile * ratio,
        (tile + 1) * ratio == tile * ratio + ratio,
        0 <= tile * ratio,
{
    let q = c / ratio;
    assert(q * ratio <= c < q * ratio + ratio) by (nonlinear_arith)
        requires
            0 <= c,
            1 <= ratio,
            q == c / ratio,
    ;
    assert((tile + 1) * ratio == tile * ratio + ratio) by (nonlinear_arith);
    assert(0 <= tile * ratio) by (nonlinear_arith)
        requires
            0 <= tile,
            1 <= ratio,
    ;
    if q > tile {
        assert(q * ratio >= (tile + 1) * ratio) by (nonlinear_arith)
            requires
                q >= tile + 1,
                1 <= ratio,
        ;
    } else {
        assert(q * ratio <= tile * ratio) by (nonlinear_arith)
            requires
                q <= tile,
                1 <= ratio,
        ;
        if q < tile {
            assert((q + 1) * ratio <= tile * ratio && (q + 1) * ratio == q * ratio + ratio)
                by (nonlinear_arith)
                requires
                    q + 1 <= tile,
                    1 <= ratio,
            ;
        }
    }
}

proof fn lemma_cell_code(y: int, x: int, cy: int, cx: int, grid: int)
    requires
        0 <= x < grid,
        0 <= cx < grid,
    ensures
        y * grid + x == cy * grid + cx <==> y == cy && x == cx,
{
    if y < cy {
        assert(cy * grid >= y * grid + grid) by (nonlinear_arith)
            requires
                cy >= y + 1,
                grid > 0,
        ;
    } else if y > cy {
        assert(y * grid >= cy * grid + grid) by (nonlinear_arith)
            requires
                y >= cy + 1,
                grid > 0,
        ;
    }
}

} // verus!
