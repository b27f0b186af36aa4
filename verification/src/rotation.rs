use vstd::prelude::*;
use crate::cascade::shaped;
use crate::game::{Game, Cell, MAX_CELLS, flag_units, grid_mines, grid_units, row_mines, row_units};
use crate::sums::{
    sum, sum_to, lemma_sum_as_sum_to, lemma_sum_to_ext, lemma_sum_to_reverse, lemma_sum_to_swap,
};

verus! {

/// The total over all cells of a board of a per-cell value `f`.
pub open spec fn grid_total(g: Seq<Seq<Cell>>, f: spec_fn(Cell) -> int) -> int {
    sum(g.map_values(|r: Seq<Cell>| sum(r.map_values(f))))
}

/// A board total as a double sum, row by row.
pub proof fn lemma_grid_total_rows(g: Seq<Seq<Cell>>, w: int, h: int, f: spec_fn(Cell) -> int)
    requires
        shaped(g, w, h),
    ensures
        grid_total(g, f) == sum_to(|j: int| sum_to(|i: int| f(g[j][i]), w), h),
{
    let rf = |r: Seq<Cell>| sum(r.map_values(f));
    let rows = g.map_values(rf);
    lemma_sum_as_sum_to(rows);
    assert forall|j: int| 0 <= j < h implies #[trigger] rows[j] == sum_to(|i: int| f(g[j][i]), w) by {
        lemma_sum_as_sum_to(g[j].map_values(f));
        lemma_sum_to_ext(|i: int| g[j].map_values(f)[i], |i: int| f(g[j][i]), w);
    }
    let a = |j: int| rows[j];
    let b = |j: int| sum_to(|i: int| f(g[j][i]), w);
    assert forall|j: int| 0 <= j < h implies #[trigger] a(j) == b(j) by {}
    lemma_sum_to_ext(a, b, h);
}

/// Turning a board a quarter turn keeps any total over its cells.
pub proof fn lemma_rotate_total(g: Seq<Seq<Cell>>, r: Seq<Seq<Cell>>, w: int, h: int, f: spec_fn(Cell) -> int)
    requires
        shaped(g, w, h),
        shaped(r, h, w),
        forall|x: int, c: int| 0 <= x < w && 0 <= c < h ==> #[trigger] r[x][c] == g[h - 1 - c][x],
    ensures
        grid_total(r, f) == grid_total(g, f),
{
    lemma_grid_total_rows(r, h, w, f);
    lemma_grid_total_rows(g, w, h, f);
    let f2 = |i: int, j: int| f(g[j][i]);
    let ra = |x: int| sum_to(|c: int| f(r[x][c]), h);
    let rb = |i: int| sum_to(|j: int| f2(i, j), h);
    assert forall|x: int| 0 <= x < w implies #[trigger] ra(x) == rb(x) by {
        let col = |c: int| f(g[c][x]);
        lemma_sum_to_reverse(col, h);
        lemma_sum_to_ext(|c: int| f(r[x][c]), |i: int| col(h - 1 - i), h);
        lemma_sum_to_ext(col, |j: int| f2(x, j), h);
    }
    lemma_sum_to_ext(ra, rb, w);
    lemma_sum_to_swap(f2, h, w);
    let ga = |j: int| sum_to(|i: int| f(g[j][i]), w);
    let gb = |j: int| sum_to(|i: int| f2(i, j), w);
    assert forall|j: int| 0 <= j < h implies #[trigger] ga(j) == gb(j) by {
        lemma_sum_to_ext(|i: int| f(g[j][i]), |i: int| f2(i, j), w);
    }
    lemma_sum_to_ext(ga, gb, h);
}

/// The flag units and the mines of a board are cell totals.
pub proof fn lemma_totals(g: Seq<Seq<Cell>>)
    ensures
        grid_units(g) == grid_total(g, |c: Cell| flag_units(c.state)),
        grid_mines(g) == grid_total(g, |c: Cell| c.mines as int),
{
    let fu = |c: Cell| flag_units(c.state);
    let fm = |c: Cell| c.mines as int;
    assert(g.map_values(|r: Seq<Cell>| row_units(r)) =~= g.map_values(|r: Seq<Cell>| sum(r.map_values(fu))));
    assert(g.map_values(|r: Seq<Cell>| row_mines(r)) =~= g.map_values(|r: Seq<Cell>| sum(r.map_values(fm))));
}

impl Game {
    /// Turn the board a quarter turn clockwise: the cell at (`x`, `y`) moves
    /// to (`height` - 1 - `y`, `x`) and the dimensions swap. Every cell keeps
    /// its neighbours, so the counts stay right; the flag units and the mine
    /// total are unchanged.
    pub fn rotate_90_cw(&mut self)
        requires
            old(self).wf(),
        ensures
            final(self).wf(),
            *final(self) == (Game {
                grid: final(self).grid,
                width: old(self).height,
                height: old(self).width,
                ..*old(self)
            }),
            forall|i: int, j: int|
                final(self).in_bounds(i, j) ==> #[trigger] final(self).cell(i, j) == old(self).cell(
                    j,
                    old(self).height - 1 - i,
                ),
            grid_units(final(self).cells()) == grid_units(old(self).cells()),
            grid_mines(final(self).cells()) == grid_mines(old(self).cells()),
            old(self).adjacency_consistent() ==> final(self).adjacency_consistent(),
    {
        let ghost g0 = *self;
        let old_w = self.width;
        let old_h = self.height;
        let mut ng: Vec<Vec<Cell>> = Vec::new();
        for x in 0..old_w
            invariant
                old_w == g0.width,
                old_h == g0.height,
                *self == g0,
                g0.wf_shape(),
                ng@.len() == x,
                forall|k: int| 0 <= k < x ==> (#[trigger] ng@[k])@.len() == old_h,
                forall|k: int, c: int| 0 <= k < x && 0 <= c < old_h ==> #[trigger] ng@[k]@[c] == g0.cell(k, old_h - 1 - c),
        {
            let mut row: Vec<Cell> = Vec::new();
            for c in 0..old_h
                invariant
                    old_w == g0.width,
                    old_h == g0.height,
                    *self == g0,
                    g0.wf_shape(),
                    x < old_w,
                    row@.len() == c,
                    forall|k: int| 0 <= k < c ==> #[trigger] row@[k] == g0.cell(x as int, old_h - 1 - k),
            {
                let y = old_h - 1 - c;
                assert(self.grid@[y as int]@.len() == old_w);
                row.push(self.grid[y][x]);
            }
            ng.push(row);
        }
        self.grid = ng;
        self.width = old_h;
        self.height = old_w;
        proof {
            assert forall|i: int, j: int| self.in_bounds(i, j) implies #[trigger] self.cell(i, j) == g0.cell(j, g0.height - 1 - i) by {}
            assert forall|j: int| 0 <= j < self.height implies (#[trigger] self.grid@[j])@.len() == self.width by {}
            assert forall|i: int, j: int| self.in_bounds(i, j) implies #[trigger] self.cell(i, j).mines <= 3 by {
                assert(self.cell(i, j) == g0.cell(j, g0.height - 1 - i));
            }
            assert(self.width * self.height == g0.width * g0.height) by (nonlinear_arith)
                requires self.width == g0.height, self.height == g0.width;
            assert(self.wf_shape());
            g0.lemma_shaped();
            self.lemma_shaped();
            assert forall|x: int, c: int| 0 <= x < g0.width && 0 <= c < g0.height implies #[trigger] self.cells()[x][c]
                == g0.cells()[g0.height - 1 - c][x] by {
                assert(self.cells()[x][c] == self.cell(c, x));
                assert(g0.cells()[g0.height - 1 - c][x] == g0.cell(x, g0.height - 1 - c));
            }
            let w = g0.width as int;
            let h = g0.height as int;
            lemma_rotate_total(g0.cells(), self.cells(), w, h, |c: Cell| flag_units(c.state));
            lemma_rotate_total(g0.cells(), self.cells(), w, h, |c: Cell| c.mines as int);
            lemma_totals(g0.cells());
            lemma_totals(self.cells());
            assert(self.counter_ok());
            assert forall|a: int, b: int| #[trigger] self.weight_at(a, b) == g0.weight_at(b, h - 1 - a) by {
                if self.in_bounds(a, b) {
                    assert(self.cell(a, b) == g0.cell(b, h - 1 - a));
                }
            }
            if g0.adjacency_consistent() {
                assert forall|x: int, y: int| self.in_bounds(x, y) && #[trigger] self.cell(x, y).mines == 0 implies self.cell(
                    x,
                    y,
                ).adjacent_mines == self.adj_count(x, y) by {
                    assert(self.cell(x, y) == g0.cell(y, h - 1 - x));
                    assert(self.weight_at(x - 1, y - 1) == g0.weight_at(y - 1, h - 1 - x + 1));
                    assert(self.weight_at(x, y - 1) == g0.weight_at(y - 1, h - 1 - x));
                    assert(self.weight_at(x + 1, y - 1) == g0.weight_at(y - 1, h - 1 - x - 1));
                    assert(self.weight_at(x - 1, y) == g0.weight_at(y, h - 1 - x + 1));
                    assert(self.weight_at(x + 1, y) == g0.weight_at(y, h - 1 - x - 1));
                    assert(self.weight_at(x - 1, y + 1) == g0.weight_at(y + 1, h - 1 - x + 1));
                    assert(self.weight_at(x, y + 1) == g0.weight_at(y + 1, h - 1 - x));
                    assert(self.weight_at(x + 1, y + 1) == g0.weight_at(y + 1, h - 1 - x - 1));
                }
            }
        }
    }
}

} // verus!
