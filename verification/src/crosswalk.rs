use vstd::prelude::*;
use crate::cascade::{cascaded, shaped};
use crate::game::{Game, Cell, CellState, grid_mines, grid_units, ipos};
use crate::random::{random_below, random_chance};

verus! {

/// `c` with the mine (size and sign) of `src`.
pub open spec fn with_mine_of(c: Cell, src: Cell) -> Cell {
    Cell { mines: src.mines, is_negative: src.is_negative, ..c }
}

/// The column whose mine lands on column `i` when a row of `w` cells turns
/// one step left (wrapping around).
pub open spec fn left_src(i: int, w: int) -> int {
    if i == w - 1 {
        0
    } else {
        i + 1
    }
}

/// The column whose mine lands on column `i` when a row turns one step right.
pub open spec fn right_src(i: int, w: int) -> int {
    if i == 0 {
        w - 1
    } else {
        i - 1
    }
}

/// A cell from which a cascade restarts after a shift: revealed, mine-free
/// and with no mine around it.
pub open spec fn is_seed(c: Seq<Seq<Cell>>, p: (int, int)) -> bool {
    let cell = c[p.1][p.0];
    cell.state == CellState::Revealed && cell.mines == 0 && cell.adjacent_mines == 0
}

/// The seeds among the first `x` cells of row `j`, left to right.
pub open spec fn row_seeds(c: Seq<Seq<Cell>>, j: int, x: int) -> Seq<(int, int)>
    decreases x,
{
    if x <= 0 {
        Seq::empty()
    } else if is_seed(c, (x - 1, j)) {
        row_seeds(c, j, x - 1).push((x - 1, j))
    } else {
        row_seeds(c, j, x - 1)
    }
}

/// The seeds of the first `y` rows of a board `w` wide, in row-major order.
pub open spec fn all_seeds(c: Seq<Seq<Cell>>, w: int, y: int) -> Seq<(int, int)>
    decreases y,
{
    if y <= 0 {
        Seq::empty()
    } else {
        all_seeds(c, w, y - 1) + row_seeds(c, y - 1, w)
    }
}

/// The board after cascading from each of `s` in turn.
pub open spec fn cascade_seeds(c: Seq<Seq<Cell>>, w: int, h: int, s: Seq<(int, int)>) -> Seq<Seq<Cell>>
    decreases s.len(),
{
    if s.len() == 0 {
        c
    } else {
        cascaded(cascade_seeds(c, w, h, s.drop_last()), w, h, s.last())
    }
}

/// Every seed of the first `x` cells of row `j` lies there.
pub proof fn lemma_row_seeds_in(c: Seq<Seq<Cell>>, j: int, x: int)
    ensures
        forall|k: int| 0 <= k < row_seeds(c, j, x).len() ==> #[trigger] row_seeds(c, j, x)[k].1 == j
            && 0 <= row_seeds(c, j, x)[k].0 < x,
    decreases x,
{
    if x > 0 {
        lemma_row_seeds_in(c, j, x - 1);
        let s0 = row_seeds(c, j, x - 1);
        let s1 = row_seeds(c, j, x);
        assert forall|k: int| 0 <= k < s1.len() implies #[trigger] s1[k].1 == j && 0 <= s1[k].0 < x by {
            if k < s0.len() {
                assert(s1[k] == s0[k]);
                assert(s0[k].1 == j);
            }
        }
    }
}

/// Every seed of the first `y` rows lies on the board.
pub proof fn lemma_all_seeds_in(c: Seq<Seq<Cell>>, w: int, y: int)
    ensures
        forall|k: int| 0 <= k < all_seeds(c, w, y).len() ==> 0 <= (#[trigger] all_seeds(c, w, y)[k]).0 < w
            && 0 <= all_seeds(c, w, y)[k].1 < y,
    decreases y,
{
    if y > 0 {
        lemma_all_seeds_in(c, w, y - 1);
        lemma_row_seeds_in(c, y - 1, w);
        let a = all_seeds(c, w, y - 1);
        let b = row_seeds(c, y - 1, w);
        assert forall|k: int| 0 <= k < (a + b).len() implies 0 <= (#[trigger] (a + b)[k]).0 < w && 0 <= (a + b)[k].1 < y by {
            if k >= a.len() {
                assert((a + b)[k] == b[k - a.len()]);
                assert(b[k - a.len()].1 == y - 1);
            } else {
                assert((a + b)[k] == a[k]);
                assert(0 <= a[k].0 < w);
            }
        }
    }
}

impl Game {
    /// Exchange the mines (size and sign) of two cells; nothing else changes.
    fn swap_mines(&mut self, a: (usize, usize), b: (usize, usize))
        requires
            old(self).wf_shape(),
            old(self).in_bounds(a.0 as int, a.1 as int),
            old(self).in_bounds(b.0 as int, b.1 as int),
        ensures
            final(self).wf_shape(),
            final(self).same_fields(*old(self)),
            grid_units(final(self).cells()) == grid_units(old(self).cells()),
            grid_mines(final(self).cells()) == grid_mines(old(self).cells()),
            forall|i: int, j: int|
                #![trigger final(self).cell(i, j)]
                final(self).in_bounds(i, j) ==> final(self).cell(i, j) == if (i, j) == (a.0 as int, a.1 as int) {
                    with_mine_of(old(self).cell(i, j), old(self).cell(b.0 as int, b.1 as int))
                } else if (i, j) == (b.0 as int, b.1 as int) {
                    with_mine_of(old(self).cell(i, j), old(self).cell(a.0 as int, a.1 as int))
                } else {
                    old(self).cell(i, j)
                },
    {
        assert(self.grid@[a.1 as int]@.len() == self.width);
        assert(self.grid@[b.1 as int]@.len() == self.width);
        let ca = self.grid[a.1][a.0];
        let cb = self.grid[b.1][b.0];
        self.set_mine(a.0, a.1, cb.mines, cb.is_negative);
        self.set_mine(b.0, b.1, ca.mines, ca.is_negative);
    }

    /// Turn the mines of row `row` one step left, wrapping around; cell
    /// states and counts stay where they are.
    pub fn shift_row_left(&mut self, row: usize)
        requires
            old(self).wf_shape(),
            row < old(self).height,
        ensures
            final(self).wf_shape(),
            final(self).same_fields(*old(self)),
            grid_units(final(self).cells()) == grid_units(old(self).cells()),
            grid_mines(final(self).cells()) == grid_mines(old(self).cells()),
            forall|i: int, j: int|
                #![trigger final(self).cell(i, j)]
                final(self).in_bounds(i, j) ==> final(self).cell(i, j) == if j == row {
                    with_mine_of(old(self).cell(i, j), old(self).cell(left_src(i, old(self).width as int), j))
                } else {
                    old(self).cell(i, j)
                },
    {
        let ghost g0 = *self;
        let w = self.width;
        for x in 0..w - 1
            invariant
                w == self.width,
                row < self.height,
                self.wf_shape(),
                self.same_fields(g0),
                grid_units(self.cells()) == grid_units(g0.cells()),
                grid_mines(self.cells()) == grid_mines(g0.cells()),
                forall|i: int, j: int|
                    #![trigger self.cell(i, j)]
                    self.in_bounds(i, j) ==> self.cell(i, j) == if j == row && i < x {
                        with_mine_of(g0.cell(i, j), g0.cell(i + 1, j))
                    } else if j == row && i == x {
                        with_mine_of(g0.cell(i, j), g0.cell(0, j))
                    } else {
                        g0.cell(i, j)
                    },
        {
            self.swap_mines((x, row), (x + 1, row));
        }
    }

    /// Turn the mines of row `row` one step right, wrapping around.
    pub fn shift_row_right(&mut self, row: usize)
        requires
            old(self).wf_shape(),
            row < old(self).height,
        ensures
            final(self).wf_shape(),
            final(self).same_fields(*old(self)),
            grid_units(final(self).cells()) == grid_units(old(self).cells()),
            grid_mines(final(self).cells()) == grid_mines(old(self).cells()),
            forall|i: int, j: int|
                #![trigger final(self).cell(i, j)]
                final(self).in_bounds(i, j) ==> final(self).cell(i, j) == if j == row {
                    with_mine_of(old(self).cell(i, j), old(self).cell(right_src(i, old(self).width as int), j))
                } else {
                    old(self).cell(i, j)
                },
    {
        let ghost g0 = *self;
        let w = self.width;
        let mut x = w - 1;
        while x > 0
            invariant
                w == self.width,
                row < self.height,
                x < w,
                self.wf_shape(),
                self.same_fields(g0),
                grid_units(self.cells()) == grid_units(g0.cells()),
                grid_mines(self.cells()) == grid_mines(g0.cells()),
                forall|i: int, j: int|
                    #![trigger self.cell(i, j)]
                    self.in_bounds(i, j) ==> self.cell(i, j) == if j == row && i > x {
                        with_mine_of(g0.cell(i, j), g0.cell(i - 1, j))
                    } else if j == row && i == x {
                        with_mine_of(g0.cell(i, j), g0.cell(w - 1, j))
                    } else {
                        g0.cell(i, j)
                    },
            decreases x,
        {
            self.swap_mines((x, row), (x - 1, row));
            x = x - 1;
        }
    }

    /// Turn the mines of column `col` one step up, wrapping around.
    pub fn shift_col_up(&mut self, col: usize)
        requires
            old(self).wf_shape(),
            col < old(self).width,
        ensures
            final(self).wf_shape(),
            final(self).same_fields(*old(self)),
            grid_units(final(self).cells()) == grid_units(old(self).cells()),
            grid_mines(final(self).cells()) == grid_mines(old(self).cells()),
            forall|i: int, j: int|
                #![trigger final(self).cell(i, j)]
                final(self).in_bounds(i, j) ==> final(self).cell(i, j) == if i == col {
                    with_mine_of(old(self).cell(i, j), old(self).cell(i, left_src(j, old(self).height as int)))
                } else {
                    old(self).cell(i, j)
                },
    {
        let ghost g0 = *self;
        let h = self.height;
        for y in 0..h - 1
            invariant
                h == self.height,
                col < self.width,
                self.wf_shape(),
                self.same_fields(g0),
                grid_units(self.cells()) == grid_units(g0.cells()),
                grid_mines(self.cells()) == grid_mines(g0.cells()),
                forall|i: int, j: int|
                    #![trigger self.cell(i, j)]
                    self.in_bounds(i, j) ==> self.cell(i, j) == if i == col && j < y {
                        with_mine_of(g0.cell(i, j), g0.cell(i, j + 1))
                    } else if i == col && j == y {
                        with_mine_of(g0.cell(i, j), g0.cell(i, 0))
                    } else {
                        g0.cell(i, j)
                    },
        {
            self.swap_mines((col, y), (col, y + 1));
        }
    }

    /// Turn the mines of column `col` one step down, wrapping around.
    pub fn shift_col_down(&mut self, col: usize)
        requires
            old(self).wf_shape(),
            col < old(self).width,
        ensures
            final(self).wf_shape(),
            final(self).same_fields(*old(self)),
            grid_units(final(self).cells()) == grid_units(old(self).cells()),
            grid_mines(final(self).cells()) == grid_mines(old(self).cells()),
            forall|i: int, j: int|
                #![trigger final(self).cell(i, j)]
                final(self).in_bounds(i, j) ==> final(self).cell(i, j) == if i == col {
                    with_mine_of(old(self).cell(i, j), old(self).cell(i, right_src(j, old(self).height as int)))
                } else {
                    old(self).cell(i, j)
                },
    {
        let ghost g0 = *self;
        let h = self.height;
        let mut y = h - 1;
        while y > 0
            invariant
                h == self.height,
                col < self.width,
                y < h,
                self.wf_shape(),
                self.same_fields(g0),
                grid_units(self.cells()) == grid_units(g0.cells()),
                grid_mines(self.cells()) == grid_mines(g0.cells()),
                forall|i: int, j: int|
                    #![trigger self.cell(i, j)]
                    self.in_bounds(i, j) ==> self.cell(i, j) == if i == col && j > y {
                        with_mine_of(g0.cell(i, j), g0.cell(i, j - 1))
                    } else if i == col && j == y {
                        with_mine_of(g0.cell(i, j), g0.cell(i, h - 1))
                    } else {
                        g0.cell(i, j)
                    },
            decreases y,
        {
            self.swap_mines((col, y), (col, y - 1));
            y = y - 1;
        }
    }

    /// The restart cells of the cascade after a shift, in row-major order.
    fn collect_seeds(&self) -> (v: Vec<(usize, usize)>)
        requires
            self.wf_shape(),
        ensures
            ipos(v@) == all_seeds(self.cells(), self.width as int, self.height as int),
    {
        let ghost c = self.cells();
        let w = self.width;
        let h = self.height;
        let mut v: Vec<(usize, usize)> = Vec::new();
        for y in 0..h
            invariant
                self.wf_shape(),
                c == self.cells(),
                w == self.width,
                h == self.height,
                ipos(v@) == all_seeds(c, w as int, y as int),
        {
            assert(self.grid@[y as int]@.len() == w);
            for x in 0..w
                invariant
                    self.wf_shape(),
                    c == self.cells(),
                    w == self.width,
                    h == self.height,
                    y < h,
                    self.grid@[y as int]@.len() == w,
                    ipos(v@) == all_seeds(c, w as int, y as int) + row_seeds(c, y as int, x as int),
            {
                let cell = self.grid[y][x];
                assert(cell == c[y as int][x as int]);
                if matches!(cell.state, CellState::Revealed) && cell.mines == 0 && cell.adjacent_mines == 0 {
                    let ghost before = v@;
                    v.push((x, y));
                    assert(ipos(v@) =~= ipos(before).push((x as int, y as int)));
                    assert(all_seeds(c, w as int, y as int) + row_seeds(c, y as int, x + 1) =~= (all_seeds(
                        c,
                        w as int,
                        y as int,
                    ) + row_seeds(c, y as int, x as int)).push((x as int, y as int)));
                }
            }
        }
        v
    }

    /// Restart the cascade from every revealed mine-free cell with no mine
    /// around it, in row-major order; only states change.
    pub fn post_shift_cascade(&mut self)
        requires
            old(self).wf_shape(),
        ensures
            final(self).wf_shape(),
            final(self).same_fields(*old(self)),
            final(self).same_layout(*old(self)),
            grid_units(final(self).cells()) == grid_units(old(self).cells()),
            final(self).cells() == cascade_seeds(
                old(self).cells(),
                old(self).width as int,
                old(self).height as int,
                all_seeds(old(self).cells(), old(self).width as int, old(self).height as int),
            ),
            old(self).adjacency_consistent() ==> final(self).adjacency_consistent(),
    {
        let ghost g0 = *self;
        let ghost w = self.width as int;
        let ghost h = self.height as int;
        let seeds = self.collect_seeds();
        let ghost s = ipos(seeds@);
        proof {
            lemma_all_seeds_in(g0.cells(), w, h);
        }
        let n = seeds.len();
        for i in 0..n
            invariant
                n == seeds@.len(),
                s == ipos(seeds@),
                s == all_seeds(g0.cells(), w, h),
                forall|k: int| 0 <= k < s.len() ==> 0 <= (#[trigger] s[k]).0 < w && 0 <= s[k].1 < h,
                w == self.width,
                h == self.height,
                self.wf_shape(),
                self.same_fields(g0),
                self.same_layout(g0),
                grid_units(self.cells()) == grid_units(g0.cells()),
                self.cells() == cascade_seeds(g0.cells(), w, h, s.take(i as int)),
                forall|a: int, b: int| #![trigger self.cell(a, b)] self.in_bounds(a, b) ==> self.cell(a, b).adjacent_mines == g0.cell(a, b).adjacent_mines,
        {
            let (x, y) = seeds[i];
            assert(s[i as int] == (x as int, y as int));
            let ghost before = *self;
            self.cascade_reveal(x, y);
            proof {
                assert(s.take(i + 1).drop_last() =~= s.take(i as int));
                assert(s.take(i + 1).last() == s[i as int]);
                before.lemma_shaped();
                self.lemma_shaped();
                assert forall|a: int, b: int| #![trigger self.cell(a, b)] self.in_bounds(a, b) implies self.cell(a, b).adjacent_mines == g0.cell(a, b).adjacent_mines by {
                    assert(self.cell(a, b) == self.cells()[b][a]);
                    assert(before.cell(a, b) == before.cells()[b][a]);
                }
            }
        }
        assert(s.take(n as int) =~= s);
        proof {
            if g0.adjacency_consistent() {
                assert forall|x: int, y: int| self.in_bounds(x, y) && #[trigger] self.cell(x, y).mines == 0 implies self.cell(
                    x,
                    y,
                ).adjacent_mines == self.adj_count(x, y) by {
                    self.lemma_same_layout_adj(g0, x, y);
                }
            }
        }
    }
}

/// The board `f` after the recount of `s`: every mine-free cell shows the
/// number of mines around it, nothing else changes.
pub open spec fn recounted_from(s: Game, f: Game) -> bool {
    &&& f.same_fields(s)
    &&& f.adjacency_consistent()
    &&& forall|i: int, j: int|
        #![trigger f.cell(i, j)]
        s.in_bounds(i, j) ==> f.cell(i, j) == Cell { adjacent_mines: f.cell(i, j).adjacent_mines, ..s.cell(i, j) }
            && (s.cell(i, j).mines > 0 ==> f.cell(i, j) == s.cell(i, j))
}

impl Game {
    /// `s` is this board with one stripe turned: row or column `index`
    /// (`rows`), forward (left or up) or back (right or down).
    pub open spec fn stripe_turned(self, s: Game, rows: bool, index: int, forward: bool) -> bool {
        &&& s.same_fields(self)
        &&& forall|i: int, j: int|
            #![trigger s.cell(i, j)]
            self.in_bounds(i, j) ==> s.cell(i, j) == if rows && j == index {
                with_mine_of(
                    self.cell(i, j),
                    self.cell(if forward { left_src(i, self.width as int) } else { right_src(i, self.width as int) }, j),
                )
            } else if !rows && i == index {
                with_mine_of(
                    self.cell(i, j),
                    self.cell(i, if forward { left_src(j, self.height as int) } else { right_src(j, self.height as int) }),
                )
            } else {
                self.cell(i, j)
            }
    }

    /// What a Crosswalk move does to the board: a stripe turns, every cell is
    /// recounted, and the cascade restarts from the revealed zeros.
    pub open spec fn shift_outcome(self, f: Game, rows: bool, index: int, forward: bool) -> bool {
        exists|s: Game, r: Game|
            #![trigger self.stripe_turned(s, rows, index, forward), recounted_from(s, r)]
            self.stripe_turned(s, rows, index, forward) && recounted_from(s, r) && f.cells() == cascade_seeds(
                r.cells(),
                r.width as int,
                r.height as int,
                all_seeds(r.cells(), r.width as int, r.height as int),
            )
    }

    /// Turn row or column `index` one step (`forward`: left or up), recount
    /// every cell and restart the cascade.
    pub fn apply_shift_with(&mut self, rows: bool, index: usize, forward: bool)
        requires
            old(self).wf(),
            rows ==> index < old(self).height,
            !rows ==> index < old(self).width,
        ensures
            final(self).wf(),
            final(self).same_fields(*old(self)),
            grid_mines(final(self).cells()) == grid_mines(old(self).cells()),
            final(self).adjacency_consistent(),
            old(self).shift_outcome(*final(self), rows, index as int, forward),
    {
        let ghost g0 = *self;
        if rows {
            if forward {
                self.shift_row_left(index);
            } else {
                self.shift_row_right(index);
            }
        } else {
            if forward {
                self.shift_col_up(index);
            } else {
                self.shift_col_down(index);
            }
        }
        let ghost s = *self;
        self.recompute_all_adjacency();
        let ghost r = *self;
        self.post_shift_cascade();
        proof {
            crate::game::lemma_grid_mines_same(r, *self);
            assert(g0.stripe_turned(s, rows, index as int, forward));
            assert(recounted_from(s, r));
            assert(g0.shift_outcome(*self, rows, index as int, forward));
        }
    }

    /// A Crosswalk move: one random stripe (a row or a column, at random)
    /// turns one step in a random direction; then `apply_shift_with`.
    pub fn apply_shift(&mut self)
        requires
            old(self).wf(),
        ensures
            final(self).wf(),
            final(self).same_fields(*old(self)),
            grid_mines(final(self).cells()) == grid_mines(old(self).cells()),
            final(self).adjacency_consistent(),
            exists|rows: bool, index: int, forward: bool|
                #![trigger old(self).shift_outcome(*final(self), rows, index, forward)]
                0 <= index < (if rows { old(self).height } else { old(self).width }) && old(self).shift_outcome(
                    *final(self),
                    rows,
                    index,
                    forward,
                ),
    {
        let rows = random_chance(1, 2);
        let index = if rows {
            random_below(self.height)
        } else {
            random_below(self.width)
        };
        let forward = random_chance(1, 2);
        self.apply_shift_with(rows, index, forward);
    }
}

} // verus!
