use vstd::prelude::*;
use crate::cascade::{at, mines_revealed};
use crate::game::{
    Game, Cell, CellState, GameState, MAX_CELLS, blank_cell, flag_is_correct, flag_units,
    grid_mines, grid_units, row_mines, row_units, lemma_row_mines_push, lemma_row_units_push,
    lemma_grid_prepend, lemma_grid_last, lemma_row_units_le,
};
use crate::random::random_chance;
use crate::sums::lemma_sum_bounds;

verus! {

/// A bottom-row cell that may leave the board: revealed, or flagged with
/// exactly the mine that its flag claims.
pub open spec fn cell_cleared(c: Cell) -> bool {
    c.state == CellState::Revealed || (c.state != CellState::Hidden && flag_is_correct(c))
}

/// The new top row of a shift: hidden cells, a single mine wherever `m` says.
pub open spec fn fresh_row(m: Seq<bool>) -> Seq<Cell> {
    Seq::new(m.len(), |i: int| Cell { mines: if m[i] { 1u8 } else { 0u8 }, ..blank_cell() })
}

/// The rows after a shift, before recounting: `r` on top, the bottom row gone.
pub open spec fn shifted(c: Seq<Seq<Cell>>, r: Seq<Cell>) -> Seq<Seq<Cell>> {
    seq![r] + c.take(c.len() - 1)
}

/// The rows whose counts a shift recomputes: the new top row, the row below
/// it and the new bottom row.
pub open spec fn recounted(h: int, y: int) -> bool {
    y == 0 || y == 1 || y == h - 1
}

impl Game {
    /// Every cell of the bottom row is revealed or correctly flagged.
    pub open spec fn bottom_cleared(self) -> bool {
        forall|x: int| 0 <= x < self.width ==> #[trigger] cell_cleared(self.cell(x, self.height - 1))
    }

    /// `f` is this game after a successful shift with new mines `m`: the rows
    /// moved down by one with the fresh row on top, the counts of the
    /// recounted rows' mine-free cells recomputed, the flags and mines of
    /// the departed row taken off the counters and the fresh mines added.
    pub open spec fn shift_result(self, f: Game, m: Seq<bool>) -> bool {
        let s = shifted(self.cells(), fresh_row(m));
        let h = self.height as int;
        &&& f == (Game { grid: f.grid, flags_placed: f.flags_placed, mine_count: f.mine_count, ..self })
        &&& f.flags_placed == self.flags_placed - row_units(self.cells()[h - 1])
        &&& f.mine_count == self.mine_count - row_mines(self.cells()[h - 1]) + row_mines(fresh_row(m))
        &&& forall|i: int, j: int|
            #![trigger f.cell(i, j)]
            f.in_bounds(i, j) ==> if recounted(h, j) && s[j][i].mines == 0 {
                f.cell(i, j) == Cell { adjacent_mines: f.cell(i, j).adjacent_mines, ..s[j][i] }
                    && f.cell(i, j).adjacent_mines == f.adj_count(i, j)
            } else {
                f.cell(i, j) == s[j][i]
            }
    }

    /// Recount the mine-free cells of row `y`; nothing else changes.
    fn recompute_row(&mut self, y: usize)
        requires
            old(self).wf_shape(),
            y < old(self).height,
        ensures
            final(self).wf_shape(),
            final(self).same_fields(*old(self)),
            final(self).same_layout(*old(self)),
            grid_units(final(self).cells()) == grid_units(old(self).cells()),
            grid_mines(final(self).cells()) == grid_mines(old(self).cells()),
            forall|i: int, j: int|
                #![trigger final(self).cell(i, j)]
                final(self).in_bounds(i, j) ==> if j == y && old(self).cell(i, j).mines == 0 {
                    final(self).cell(i, j) == Cell { adjacent_mines: final(self).cell(i, j).adjacent_mines, ..old(self).cell(i, j) }
                        && final(self).cell(i, j).adjacent_mines == final(self).adj_count(i, j)
                } else {
                    final(self).cell(i, j) == old(self).cell(i, j)
                },
    {
        let ghost g0 = *self;
        let w = self.width;
        for x in 0..w
            invariant
                w == self.width,
                self.wf_shape(),
                y < self.height,
                self.same_fields(g0),
                self.same_layout(g0),
                grid_units(self.cells()) == grid_units(g0.cells()),
                grid_mines(self.cells()) == grid_mines(g0.cells()),
                forall|i: int, j: int|
                    #![trigger self.cell(i, j)]
                    self.in_bounds(i, j) ==> if j == y && i < x && g0.cell(i, j).mines == 0 {
                        self.cell(i, j) == Cell { adjacent_mines: self.cell(i, j).adjacent_mines, ..g0.cell(i, j) }
                            && self.cell(i, j).adjacent_mines == self.adj_count(i, j)
                    } else {
                        self.cell(i, j) == g0.cell(i, j)
                    },
        {
            assert(self.grid@[y as int]@.len() == self.width);
            if self.grid[y][x].mines == 0 {
                let v = self.count_adjacent_mines(x, y);
                let ghost before = *self;
                self.set_adjacent(x, y, v);
                proof {
                    assert forall|i: int, j: int| #![trigger self.cell(i, j)] self.in_bounds(i, j) implies self.adj_count(i, j) == before.adj_count(i, j) by {
                        self.lemma_same_layout_adj(before, i, j);
                    }
                }
            }
        }
    }

    /// Whether every cell of the bottom row is revealed or correctly flagged.
    fn bottom_is_cleared(&self) -> (r: bool)
        requires
            self.wf_shape(),
        ensures
            r == self.bottom_cleared(),
    {
        let hy = self.height - 1;
        let w = self.width;
        assert(self.grid@[hy as int]@.len() == self.width);
        for x in 0..w
            invariant
                w == self.width,
                hy == self.height - 1,
                self.wf_shape(),
                self.grid@[hy as int]@.len() == w,
                forall|i: int| 0 <= i < x ==> #[trigger] cell_cleared(self.cell(i, hy as int)),
        {
            let c = self.grid[hy][x];
            let ok = match c.state {
                CellState::Hidden => false,
                CellState::Revealed => true,
                CellState::Flagged => c.mines == 1 && !c.is_negative,
                CellState::FlaggedNegative => c.mines == 1 && c.is_negative,
                CellState::Flagged2 => c.mines == 2,
                CellState::Flagged3 => c.mines == 3,
            };
            assert(ok == cell_cleared(self.cell(x as int, hy as int)));
            if !ok {
                return false;
            }
        }
        true
    }

    /// The flag units and the mines of row `y`.
    fn row_totals(&self, y: usize) -> (r: (usize, usize))
        requires
            self.wf_shape(),
            y < self.height,
        ensures
            r.0 == row_units(self.cells()[y as int]),
            r.1 == row_mines(self.cells()[y as int]),
    {
        let row = &self.grid[y];
        let w = self.width;
        assert(row@.len() == w);
        let mut units: usize = 0;
        let mut mines: usize = 0;
        for x in 0..w
            invariant
                w == self.width,
                y < self.height,
                self.wf_shape(),
                row == &self.grid@[y as int],
                row@.len() == w,
                units == row_units(row@.take(x as int)),
                mines == row_mines(row@.take(x as int)),
                units <= 3 * x,
                mines <= 3 * x,
        {
            let c = row[x];
            assert(self.cell(x as int, y as int).mines <= 3);
            assert(row@.take(x + 1) =~= row@.take(x as int).push(c));
            proof {
                lemma_row_units_push(row@.take(x as int), c);
                lemma_row_mines_push(row@.take(x as int), c);
            }
            let u: usize = match c.state {
                CellState::Flagged => 1,
                CellState::Flagged2 => 2,
                CellState::Flagged3 => 3,
                CellState::FlaggedNegative => 1,
                _ => 0,
            };
            assert(u == flag_units(c.state));
            units = units + u;
            mines = mines + c.mines as usize;
        }
        assert(row@.take(w as int) =~= row@);
        (units, mines)
    }

    /// Shift the board down by one row, with the new top row's mines given
    /// by `m`. If the bottom row is not cleared, the game is lost instead and
    /// every mine is shown. Returns whether the shift happened.
    pub fn shift_rows(&mut self, m: &Vec<bool>) -> (r: bool)
        requires
            old(self).wf(),
            m@.len() == old(self).width,
            old(self).bottom_cleared() ==> row_mines(old(self).cells()[old(self).height - 1]) <= old(self).mine_count
                && old(self).mine_count - row_mines(old(self).cells()[old(self).height - 1]) + old(self).width
                <= 3 * MAX_CELLS,
        ensures
            final(self).wf(),
            r == old(self).bottom_cleared(),
            !r ==> final(self).cells() == mines_revealed(old(self).cells()) && *final(self) == (Game {
                grid: final(self).grid,
                state: GameState::Lost,
                ..*old(self)
            }),
            r ==> old(self).shift_result(*final(self), m@),
            r && old(self).adjacency_consistent() ==> final(self).adjacency_consistent(),
            r ==> grid_mines(final(self).cells()) == grid_mines(old(self).cells()) - row_mines(
                old(self).cells()[old(self).height - 1],
            ) + row_mines(fresh_row(m@)),
            r && old(self).mine_count == grid_mines(old(self).cells()) ==> final(self).mine_count
                == grid_mines(final(self).cells()),
    {
        let ghost g0 = *self;
        let ghost w = self.width as int;
        let ghost h = self.height as int;
        if !self.bottom_is_cleared() {
            self.set_game_state(GameState::Lost);
            self.reveal_all_mines();
            proof {
                self.lemma_shaped();
                g0.lemma_shaped();
                assert forall|j: int| 0 <= j < h implies #[trigger] self.cells()[j] =~= mines_revealed(g0.cells())[j] by {
                    assert forall|i: int| 0 <= i < w implies self.cells()[j][i] == mines_revealed(g0.cells())[j][i] by {
                        assert(self.cells()[j][i] == self.cell(i, j));
                        assert(g0.cells()[j][i] == g0.cell(i, j));
                    }
                }
                assert(self.cells() =~= mines_revealed(g0.cells()));
            }
            return false;
        }
        let hy = self.height - 1;
        let (units, removed) = self.row_totals(hy);
        proof {
            lemma_row_units_le(self.cells(), hy as int);
        }
        let nf = self.flags_placed - units;
        self.set_flags_placed(nf);
        let nm = self.mine_count - removed;
        self.set_mine_count(nm);
        let width = self.width;
        let mut row: Vec<Cell> = Vec::new();
        let mut added: usize = 0;
        for x in 0..width
            invariant
                width == w,
                m@.len() == w,
                row@ == fresh_row(m@.take(x as int)),
                added == row_mines(row@),
                added <= x,
        {
            let c = Cell { mines: if m[x] { 1u8 } else { 0u8 }, ..Cell::new() };
            proof {
                lemma_row_mines_push(row@, c);
            }
            row.push(c);
            assert(fresh_row(m@.take(x + 1)) =~= fresh_row(m@.take(x as int)).push(c));
            added = added + if m[x] { 1usize } else { 0usize };
        }
        assert(m@.take(w) =~= m@);
        let ghost fresh = row@;
        let ghost before = *self;
        self.grid.remove(hy);
        self.grid.insert(0, row);
        let ghost s = shifted(g0.cells(), fresh_row(m@));
        proof {
            assert(before.cells() == g0.cells());
            assert(self.cells() =~= s);
            assert forall|j: int| 0 <= j < self.height implies (#[trigger] self.grid@[j])@.len() == self.width by {
                if j > 0 {
                    assert(self.grid@[j] == before.grid@[j - 1]);
                    assert(before.grid@[j - 1]@.len() == w);
                }
            }
            assert forall|i: int, j: int| self.in_bounds(i, j) implies #[trigger] self.cell(i, j).mines <= 3 by {
                if j > 0 {
                    assert(self.grid@[j] == before.grid@[j - 1]);
                    assert(before.cell(i, j - 1).mines <= 3);
                }
            }
            assert(self.wf_shape());
            lemma_grid_prepend(fresh, g0.cells().take(h - 1));
            lemma_grid_last(g0.cells());
            let f = |c: crate::game::Cell| flag_units(c.state);
            lemma_sum_bounds(fresh.map_values(f), 0, 0);
            assert(row_units(fresh) == 0);
            assert(grid_units(s) == grid_units(g0.cells()) - units);
            assert(grid_mines(s) == grid_mines(g0.cells()) - removed + added);
        }
        self.set_mine_count(nm + added);
        let ghost c0 = *self;
        self.recompute_row(0);
        let ghost c1 = *self;
        if self.height > 1 {
            self.recompute_row(1);
        }
        let ghost c2 = *self;
        self.recompute_row(hy);
        proof {
            assert forall|i: int, j: int| #![trigger self.cell(i, j)] self.in_bounds(i, j) implies
                self.adj_count(i, j) == c1.adj_count(i, j) && self.adj_count(i, j) == c2.adj_count(i, j)
                && self.cell(i, j).mines == s[j][i].mines by {
                self.lemma_same_layout_adj(c1, i, j);
                self.lemma_same_layout_adj(c2, i, j);
                assert(c0.cell(i, j) == s[j][i]);
            }
            assert forall|i: int, j: int| #![trigger self.cell(i, j)] self.in_bounds(i, j) implies if recounted(h, j) && s[j][i].mines == 0 {
                self.cell(i, j) == Cell { adjacent_mines: self.cell(i, j).adjacent_mines, ..s[j][i] }
                    && self.cell(i, j).adjacent_mines == self.adj_count(i, j)
            } else {
                self.cell(i, j) == s[j][i]
            } by {
                assert(c0.cell(i, j) == s[j][i]);
            }
            assert(g0.shift_result(*self, m@));
            assert(self.counter_ok());
            if g0.adjacency_consistent() {
                assert forall|a: int, b: int| 1 <= b < h implies #[trigger] self.weight_at(a, b) == g0.weight_at(a, b - 1) by {
                    if self.in_bounds(a, b) {
                        assert(c0.cell(a, b) == s[b][a]);
                        assert(s[b][a] == g0.cells()[b - 1][a]);
                        assert(g0.cells()[b - 1][a] == g0.cell(a, b - 1));
                    }
                }
                assert forall|x: int, y: int| self.in_bounds(x, y) && #[trigger] self.cell(x, y).mines == 0 implies self.cell(
                    x,
                    y,
                ).adjacent_mines == self.adj_count(x, y) by {
                    if !recounted(h, y) {
                        assert(self.cell(x, y) == s[y][x]);
                        assert(s[y][x] == g0.cells()[y - 1][x]);
                        assert(g0.cells()[y - 1][x] == g0.cell(x, y - 1));
                        assert(self.weight_at(x - 1, y - 1) == g0.weight_at(x - 1, y - 2));
                        assert(self.weight_at(x, y - 1) == g0.weight_at(x, y - 2));
                        assert(self.weight_at(x + 1, y - 1) == g0.weight_at(x + 1, y - 2));
                        assert(self.weight_at(x - 1, y) == g0.weight_at(x - 1, y - 1));
                        assert(self.weight_at(x + 1, y) == g0.weight_at(x + 1, y - 1));
                        assert(self.weight_at(x - 1, y + 1) == g0.weight_at(x - 1, y));
                        assert(self.weight_at(x, y + 1) == g0.weight_at(x, y));
                        assert(self.weight_at(x + 1, y + 1) == g0.weight_at(x + 1, y));
                    }
                }
            }
        }
        true
    }

    /// Draw the mines of a new top row: each cell gets one with probability
    /// `density_mines / density_cells` (none when there are no cells to
    /// measure the density by).
    fn draw_row(&self) -> (m: Vec<bool>)
        ensures
            m@.len() == self.width,
            self.density_mines == 0 || self.density_cells == 0 ==> forall|i: int| 0 <= i < m@.len() ==> !m@[i],
            self.density_cells > 0 && self.density_mines >= self.density_cells ==> forall|i: int|
                0 <= i < m@.len() ==> m@[i],
    {
        let mut m: Vec<bool> = Vec::new();
        for x in 0..self.width
            invariant
                m@.len() == x,
                self.density_mines == 0 || self.density_cells == 0 ==> forall|i: int| 0 <= i < m@.len() ==> !m@[i],
                self.density_cells > 0 && self.density_mines >= self.density_cells ==> forall|i: int|
                    0 <= i < m@.len() ==> m@[i],
        {
            let b = if self.density_cells == 0 {
                false
            } else {
                random_chance(self.density_mines, self.density_cells)
            };
            m.push(b);
        }
        m
    }

    /// Called at the end of every window of moves in Marathon: if the bottom
    /// row is cleared, it leaves the board and a new top row is drawn at the
    /// game's mine density (`shift_rows`); otherwise the game is lost.
    pub fn marathon_shift(&mut self) -> (r: bool)
        requires
            old(self).wf(),
            old(self).bottom_cleared() ==> row_mines(old(self).cells()[old(self).height - 1]) <= old(self).mine_count
                && old(self).mine_count - row_mines(old(self).cells()[old(self).height - 1]) + old(self).width
                <= 3 * MAX_CELLS,
        ensures
            final(self).wf(),
            r == old(self).bottom_cleared(),
            !r ==> final(self).cells() == mines_revealed(old(self).cells()) && *final(self) == (Game {
                grid: final(self).grid,
                state: GameState::Lost,
                ..*old(self)
            }),
            r ==> exists|m: Seq<bool>|
                #[trigger] old(self).shift_result(*final(self), m) && m.len() == old(self).width && (
                old(self).density_mines == 0 ==> forall|i: int| 0 <= i < m.len() ==> !m[i]) && (old(
                self,
            ).density_cells > 0 && old(self).density_mines >= old(self).density_cells ==> forall|i: int|
                0 <= i < m.len() ==> m[i]),
            r && old(self).adjacency_consistent() ==> final(self).adjacency_consistent(),
            r && old(self).mine_count == grid_mines(old(self).cells()) ==> final(self).mine_count
                == grid_mines(final(self).cells()),
    {
        let m = self.draw_row();
        let r = self.shift_rows(&m);
        proof {
            if r {
                assert(old(self).shift_result(*self, m@));
            }
        }
        r
    }

    /// The number of moves allowed before the next shift: twice the mines in
    /// the bottom two rows, plus five.
    pub fn compute_n(&self) -> (n: u32)
        requires
            self.wf_shape(),
        ensures
            n == 2 * (row_mines(self.cells()[self.height - 1]) + if self.height >= 2 {
                row_mines(self.cells()[self.height - 2])
            } else {
                0
            }) + 5,
    {
        let h = self.height;
        let (_, last) = self.row_totals(h - 1);
        let prev = if h >= 2 {
            let (_, p) = self.row_totals(h - 2);
            p
        } else {
            0
        };
        proof {
            assert forall|j: int| 0 <= j < self.cells().len() implies (#[trigger] self.cells()[j]).len() == self.width by {
                assert(self.grid@[j]@.len() == self.width);
            }
            assert forall|i: int, j: int| 0 <= i < self.width && 0 <= j < h implies (#[trigger] self.cells()[j][i]).mines <= 3 by {
                assert(self.cells()[j][i] == self.cell(i, j));
            }
            crate::game::lemma_mines_row_bound(self.cells(), self.width as int, (h - 1) as int);
            if h >= 2 {
                crate::game::lemma_mines_row_bound(self.cells(), self.width as int, (h - 2) as int);
            }
            assert(self.width <= MAX_CELLS);
        }
        (2 * (last + prev) + 5) as u32
    }

    /// Every cell is settled: each mine-free cell revealed and each mined
    /// cell flagged with exactly its mine.
    pub open spec fn marathon_solved(self) -> bool {
        forall|i: int, j: int|
            self.in_bounds(i, j) ==> match #[trigger] self.cell(i, j).state {
                CellState::Revealed => self.cell(i, j).mines == 0,
                CellState::Hidden => false,
                _ => flag_is_correct(self.cell(i, j)),
            }
    }

    /// Declare a Marathon game won when the whole board is settled.
    pub fn check_marathon_win(&mut self)
        requires
            old(self).wf_shape(),
        ensures
            final(self).wf_shape(),
            *final(self) == (Game { state: final(self).state, ..*old(self) }),
            final(self).state == if old(self).marathon_solved() {
                GameState::Won
            } else {
                old(self).state
            },
    {
        let h = self.height;
        let w = self.width;
        for y in 0..h
            invariant
                self.wf_shape(),
                h == self.height,
                w == self.width,
                forall|i: int, j: int|
                    0 <= i < w && 0 <= j < y ==> match #[trigger] self.cell(i, j).state {
                        CellState::Revealed => self.cell(i, j).mines == 0,
                        CellState::Hidden => false,
                        _ => flag_is_correct(self.cell(i, j)),
                    },
        {
            assert(self.grid@[y as int]@.len() == w);
            for x in 0..w
                invariant
                    self.wf_shape(),
                    h == self.height,
                    w == self.width,
                    y < h,
                    self.grid@[y as int]@.len() == w,
                    forall|i: int, j: int|
                        0 <= i < w && (j < y || (j == y && i < x)) && 0 <= j ==> match #[trigger] self.cell(i, j).state {
                            CellState::Revealed => self.cell(i, j).mines == 0,
                            CellState::Hidden => false,
                            _ => flag_is_correct(self.cell(i, j)),
                        },
            {
                let c = self.grid[y][x];
                let ok = match c.state {
                    CellState::Revealed => c.mines == 0,
                    CellState::Flagged => c.mines == 1 && !c.is_negative,
                    CellState::FlaggedNegative => c.mines == 1 && c.is_negative,
                    CellState::Flagged2 => c.mines == 2,
                    CellState::Flagged3 => c.mines == 3,
                    CellState::Hidden => false,
                };
                if !ok {
                    assert(self.cell(x as int, y as int) == c);
                    return;
                }
            }
        }
        self.set_game_state(GameState::Won);
    }
}

/// The moves Marathon allows before the next shift: twice the mines of the
/// two bottom rows, plus five.
pub open spec fn moves_for(g: Game) -> int {
    2 * (row_mines(g.cells()[g.height - 1]) + if g.height >= 2 {
        row_mines(g.cells()[g.height - 2])
    } else {
        0
    }) + 5
}

/// Marathon after a player's action: while play is on, one move is used
/// (never below zero); a solved board wins; when no move is left, the rows
/// shift as `marathon_shift` says and, if play goes on, the moves start
/// again from `moves_for` the new board. Returns whether the rows shifted.
pub fn marathon_on_move(game: &mut Game, moves_left: &mut u32) -> (shifted: bool)
    requires
        old(game).wf(),
        old(game).state == GameState::Playing && !old(game).marathon_solved() && *old(moves_left) <= 1
            && old(game).bottom_cleared() ==> row_mines(old(game).cells()[old(game).height - 1]) <= old(game).mine_count
            && old(game).mine_count - row_mines(old(game).cells()[old(game).height - 1]) + old(game).width <= 3 * MAX_CELLS,
    ensures
        final(game).wf(),
        old(game).state != GameState::Playing ==> *final(game) == *old(game) && *final(moves_left) == *old(moves_left) && !shifted,
        old(game).state == GameState::Playing ==> {
            let left = if *old(moves_left) > 0 { *old(moves_left) - 1 } else { 0 };
            if old(game).marathon_solved() {
                &&& *final(game) == (Game { state: GameState::Won, ..*old(game) })
                &&& *final(moves_left) == left
                &&& !shifted
            } else if left > 0 {
                &&& *final(game) == *old(game)
                &&& *final(moves_left) == left
                &&& !shifted
            } else {
                &&& shifted == old(game).bottom_cleared()
                &&& shifted ==> (exists|m: Seq<bool>| #[trigger] old(game).shift_result(*final(game), m) && m.len() == old(game).width)
                    && *final(moves_left) == moves_for(*final(game))
                &&& !shifted ==> final(game).cells() == mines_revealed(old(game).cells()) && *final(game) == (Game {
                    grid: final(game).grid,
                    state: GameState::Lost,
                    ..*old(game)
                }) && *final(moves_left) == 0
            }
        },
{
    if !matches!(game.state, GameState::Playing) {
        return false;
    }
    let left = if *moves_left > 0 {
        *moves_left - 1
    } else {
        0
    };
    *moves_left = left;
    let ghost g0 = *game;
    game.check_marathon_win();
    if !matches!(game.state, GameState::Playing) {
        assert(g0.marathon_solved());
        return false;
    }
    assert(*game == g0);
    if left > 0 {
        return false;
    }
    let ok = game.marathon_shift();
    if ok {
        *moves_left = game.compute_n();
    }
    ok
}

} // verus!
