use vstd::prelude::*;
use crate::random::{random_below, shuffle_positions, random_chance};
use crate::sums::{sum, lemma_sum_update, lemma_sum_bounds, lemma_sum_ge_elem};
use crate::variant::Variant;
use crate::cascade::{
    at, inside, opens, spreads, shaped, monotone, cascade_sound, closed_at, closes_changed,
    cascade_path, in_cascade, hidden_count, lemma_hidden_set, lemma_hidden_nonneg, lemma_path_extend,
    lemma_not_opens_mono, lemma_closes_trans, lemma_closed_mono, lemma_monotone_trans, lemma_cascade_exact,
    offset, nb, offset_of, cascaded, revealed_at, mines_revealed, safe_all_revealed, open_result, sweep,
    flag_at, flag_partial, flag_sum, flags_correct_around, lemma_flag_partial_bounds,
};

verus! {

/// What the player sees of a cell.
#[derive(Clone, Copy, Debug, PartialEq, Eq, Structural)]
pub enum CellState {
    Hidden,
    Revealed,
    Flagged,
    Flagged2,
    Flagged3,
    FlaggedNegative,
}

/// One cell of the board.
#[derive(Clone, Copy, Debug, PartialEq, Eq, Structural)]
pub struct Cell {
    pub state: CellState,
    /// Number of mines stacked on this cell (0 = no mine, 1–3 = mined).
    pub mines: u8,
    pub is_negative: bool,
    pub adjacent_mines: i8,
}

/// The state of the game as a whole.
#[derive(Clone, Copy, Debug, PartialEq, Eq, Structural)]
pub enum GameState {
    Ready,
    Playing,
    Won,
    Lost,
}

/// The largest number of cells a board may have. This is a bound the library
/// sets, well above any board the game offers: with it, cell counts, mine
/// totals and flag weights stay far inside `usize` on every target.
pub const MAX_CELLS: usize = 0x0fff_ffff;

/// A fresh cell: hidden, no mine, no count.
pub open spec fn blank_cell() -> Cell {
    Cell { state: CellState::Hidden, mines: 0, is_negative: false, adjacent_mines: 0 }
}

impl Cell {
    /// A hidden cell with no mine.
    pub fn new() -> (c: Self)
        ensures
            c == blank_cell(),
    {
        Cell { state: CellState::Hidden, mines: 0, is_negative: false, adjacent_mines: 0 }
    }
}

/// How many mine units a flag in this state claims (the weight that the
/// mine counter subtracts).
pub open spec fn flag_units(s: CellState) -> int {
    match s {
        CellState::Flagged => 1,
        CellState::Flagged2 => 2,
        CellState::Flagged3 => 3,
        CellState::FlaggedNegative => 1,
        _ => 0,
    }
}

/// The signed weight of a flag when chording: negative flags count -1.
pub open spec fn flag_sign_weight(s: CellState) -> int {
    match s {
        CellState::Flagged => 1,
        CellState::Flagged2 => 2,
        CellState::Flagged3 => 3,
        CellState::FlaggedNegative => -1,
        _ => 0,
    }
}

/// The signed contribution of a cell's mines to its neighbours' counts.
pub open spec fn mine_weight(c: Cell) -> int {
    if c.mines == 0 {
        0
    } else if c.is_negative {
        -(c.mines as int)
    } else {
        c.mines as int
    }
}

/// Whether a flag sits on exactly the kind of mine that it claims.
pub open spec fn flag_is_correct(c: Cell) -> bool {
    match c.state {
        CellState::Flagged => c.mines == 1 && !c.is_negative,
        CellState::FlaggedNegative => c.mines == 1 && c.is_negative,
        CellState::Flagged2 => c.mines == 2,
        CellState::Flagged3 => c.mines == 3,
        _ => true,
    }
}

/// Flag units of a row.
pub open spec fn row_units(r: Seq<Cell>) -> int {
    sum(r.map_values(|c: Cell| flag_units(c.state)))
}

/// Flag units of a whole board.
pub open spec fn grid_units(g: Seq<Seq<Cell>>) -> int {
    sum(g.map_values(|r: Seq<Cell>| row_units(r)))
}

/// Mines of a row.
pub open spec fn row_mines(r: Seq<Cell>) -> int {
    sum(r.map_values(|c: Cell| c.mines as int))
}

/// Mines of a whole board.
pub open spec fn grid_mines(g: Seq<Seq<Cell>>) -> int {
    sum(g.map_values(|r: Seq<Cell>| row_mines(r)))
}

/// A board with one cell replaced.
pub open spec fn set_cell(g: Seq<Seq<Cell>>, x: int, y: int, c: Cell) -> Seq<Seq<Cell>> {
    g.update(y, g[y].update(x, c))
}

/// Replacing one cell changes the flag units by the difference of the two cells.
pub proof fn lemma_units_set(g: Seq<Seq<Cell>>, x: int, y: int, c: Cell)
    requires
        0 <= y < g.len(),
        0 <= x < g[y].len(),
    ensures
        grid_units(set_cell(g, x, y, c)) == grid_units(g) - flag_units(g[y][x].state) + flag_units(
            c.state,
        ),
{
    let r = g[y];
    let f = |c: Cell| flag_units(c.state);
    lemma_sum_update(r.map_values(f), x, f(c));
    assert(r.update(x, c).map_values(f) =~= r.map_values(f).update(x, f(c)));
    let rf = |r: Seq<Cell>| row_units(r);
    lemma_sum_update(g.map_values(rf), y, rf(r.update(x, c)));
    assert(set_cell(g, x, y, c).map_values(rf) =~= g.map_values(rf).update(y, rf(r.update(x, c))));
}

/// Replacing one cell changes the mine total by the difference of the two cells.
pub proof fn lemma_mines_set(g: Seq<Seq<Cell>>, x: int, y: int, c: Cell)
    requires
        0 <= y < g.len(),
        0 <= x < g[y].len(),
    ensures
        grid_mines(set_cell(g, x, y, c)) == grid_mines(g) - g[y][x].mines + c.mines,
{
    let r = g[y];
    let f = |c: Cell| c.mines as int;
    lemma_sum_update(r.map_values(f), x, f(c));
    assert(r.update(x, c).map_values(f) =~= r.map_values(f).update(x, f(c)));
    let rf = |r: Seq<Cell>| row_mines(r);
    lemma_sum_update(g.map_values(rf), y, rf(r.update(x, c)));
    assert(set_cell(g, x, y, c).map_values(rf) =~= g.map_values(rf).update(y, rf(r.update(x, c))));
}

/// Each cell holds at most three flag units, so a board holds at most three
/// per cell, and at least as many as any one of its cells.
pub proof fn lemma_units_bounds(g: Seq<Seq<Cell>>, w: int, x: int, y: int)
    requires
        0 <= w,
        forall|j: int| 0 <= j < g.len() ==> (#[trigger] g[j]).len() == w,
        0 <= y < g.len(),
        0 <= x < w,
    ensures
        flag_units(g[y][x].state) <= grid_units(g) <= 3 * (g.len() * w),
{
    let f = |c: Cell| flag_units(c.state);
    let rf = |r: Seq<Cell>| row_units(r);
    assert forall|j: int| 0 <= j < g.len() implies 0 <= #[trigger] g.map_values(rf)[j] <= 3 * w by {
        lemma_sum_bounds(g[j].map_values(f), 0, 3);
    }
    lemma_sum_bounds(g.map_values(rf), 0, 3 * w);
    lemma_sum_ge_elem(g.map_values(rf), y);
    lemma_sum_ge_elem(g[y].map_values(f), x);
    assert(g.len() * (3 * w) == 3 * (g.len() * w)) by (nonlinear_arith);
}

/// The board and its rules.
pub struct Game {
    pub grid: Vec<Vec<Cell>>,
    pub width: usize,
    pub height: usize,
    pub mine_count: usize,
    pub state: GameState,
    pub flags_placed: usize,
    pub variant: Variant,
    /// Suppress the win condition - used by Marathon (endless mode).
    pub endless: bool,
    /// The starting mine density is `density_mines / density_cells`; Marathon
    /// draws its new rows at that density.
    pub density_mines: usize,
    pub density_cells: usize,
}

impl Game {
    /// The board as a sequence of rows.
    pub open spec fn cells(self) -> Seq<Seq<Cell>> {
        self.grid@.map_values(|r: Vec<Cell>| r@)
    }

    /// The cell at column `x`, row `y`.
    pub open spec fn cell(self, x: int, y: int) -> Cell {
        self.grid@[y]@[x]
    }

    pub open spec fn in_bounds(self, x: int, y: int) -> bool {
        0 <= x < self.width && 0 <= y < self.height
    }

    /// The shape of the board and the bookkeeping that every operation keeps:
    /// rows of equal length, at most three mines per cell, and a flag counter
    /// that equals the flag units on the board.
    pub open spec fn wf(self) -> bool {
        &&& self.wf_shape()
        &&& self.counter_ok()
    }

    /// The flag counter: never below the flag units on the board, equal to
    /// them while the game is live, and bounded.
    pub open spec fn counter_ok(self) -> bool {
        &&& grid_units(self.cells()) <= self.flags_placed
        &&& (self.state == GameState::Ready || self.state == GameState::Playing) ==> self.flags_placed
            == grid_units(self.cells())
        &&& self.flags_placed <= 3 * MAX_CELLS
    }

    /// The shape part of `wf`: dimensions, row lengths and mine stacks.
    pub open spec fn wf_shape(self) -> bool {
        &&& 1 <= self.width
        &&& 1 <= self.height
        &&& self.width * self.height <= MAX_CELLS
        &&& self.width <= MAX_CELLS
        &&& self.height <= MAX_CELLS
        &&& self.grid@.len() == self.height
        &&& forall|y: int| 0 <= y < self.height ==> (#[trigger] self.grid@[y])@.len() == self.width
        &&& forall|x: int, y: int| self.in_bounds(x, y) ==> #[trigger] self.cell(x, y).mines <= 3
        &&& self.mine_count <= 3 * MAX_CELLS
    }

    /// The signed mine weight at a position, zero off the board.
    pub open spec fn weight_at(self, x: int, y: int) -> int {
        if self.in_bounds(x, y) {
            mine_weight(self.cell(x, y))
        } else {
            0
        }
    }

    /// The signed number of mines on the eight neighbours of a position.
    pub open spec fn adj_count(self, x: int, y: int) -> int {
        self.weight_at(x - 1, y - 1) + self.weight_at(x, y - 1) + self.weight_at(x + 1, y - 1)
            + self.weight_at(x - 1, y) + self.weight_at(x + 1, y) + self.weight_at(x - 1, y + 1)
            + self.weight_at(x, y + 1) + self.weight_at(x + 1, y + 1)
    }

    /// Every mine-free cell shows the signed count of mines around it.
    pub open spec fn adjacency_consistent(self) -> bool {
        forall|x: int, y: int|
            self.in_bounds(x, y) && #[trigger] self.cell(x, y).mines == 0 ==> self.cell(
                x,
                y,
            ).adjacent_mines == self.adj_count(x, y)
    }

    /// Two games with the same mines at the same places.
    pub open spec fn same_layout(self, other: Game) -> bool {
        &&& self.width == other.width
        &&& self.height == other.height
        &&& forall|x: int, y: int|
            self.in_bounds(x, y) ==> (#[trigger] self.cell(x, y)).mines == other.cell(x, y).mines
                && self.cell(x, y).is_negative == other.cell(x, y).is_negative
    }

    /// Everything but the cells is unchanged.
    pub open spec fn same_fields(self, other: Game) -> bool {
        &&& self.width == other.width
        &&& self.height == other.height
        &&& self.mine_count == other.mine_count
        &&& self.state == other.state
        &&& self.flags_placed == other.flags_placed
        &&& self.variant == other.variant
        &&& self.endless == other.endless
        &&& self.density_mines == other.density_mines
        &&& self.density_cells == other.density_cells
    }

    /// Games with the same layout have the same counts.
    pub proof fn lemma_same_layout_adj(self, other: Game, x: int, y: int)
        requires
            self.same_layout(other),
        ensures
            self.adj_count(x, y) == other.adj_count(x, y),
    {
        assert(self.weight_at(x - 1, y - 1) == other.weight_at(x - 1, y - 1));
        assert(self.weight_at(x, y - 1) == other.weight_at(x, y - 1));
        assert(self.weight_at(x + 1, y - 1) == other.weight_at(x + 1, y - 1));
        assert(self.weight_at(x - 1, y) == other.weight_at(x - 1, y));
        assert(self.weight_at(x + 1, y) == other.weight_at(x + 1, y));
        assert(self.weight_at(x - 1, y + 1) == other.weight_at(x - 1, y + 1));
        assert(self.weight_at(x, y + 1) == other.weight_at(x, y + 1));
        assert(self.weight_at(x + 1, y + 1) == other.weight_at(x + 1, y + 1));
    }

    /// Replace one cell, keeping everything else.
    pub(crate) fn put_cell(&mut self, x: usize, y: usize, c: Cell)
        requires
            old(self).grid@.len() == old(self).height,
            forall|j: int|
                0 <= j < old(self).height ==> (#[trigger] old(self).grid@[j])@.len()
                    == old(self).width,
            x < old(self).width,
            y < old(self).height,
        ensures
            final(self).cells() == set_cell(old(self).cells(), x as int, y as int, c),
            final(self).grid@.len() == old(self).grid@.len(),
            forall|j: int|
                0 <= j < final(self).height ==> (#[trigger] final(self).grid@[j])@.len()
                    == final(self).width,
            final(self).same_fields(*old(self)),
            forall|i: int, j: int|
                #![trigger final(self).cell(i, j)]
                0 <= j < final(self).height && 0 <= i < final(self).width ==> final(self).cell(
                    i,
                    j,
                ) == if i == x && j == y {
                    c
                } else {
                    old(self).cell(i, j)
                },
    {
        self.grid[y].set(x, c);
        assert(self.cells() =~= set_cell(old(self).cells(), x as int, y as int, c));
    }

    /// Change one cell's count, keeping everything else.
    pub(crate) fn set_adjacent(&mut self, x: usize, y: usize, v: i8)
        requires
            old(self).wf_shape(),
            x < old(self).width,
            y < old(self).height,
        ensures
            final(self).wf_shape(),
            grid_units(final(self).cells()) == grid_units(old(self).cells()),
            grid_mines(final(self).cells()) == grid_mines(old(self).cells()),
            final(self).same_fields(*old(self)),
            final(self).same_layout(*old(self)),
            final(self).cells() == set_cell(
                old(self).cells(),
                x as int,
                y as int,
                Cell { adjacent_mines: v, ..old(self).cell(x as int, y as int) },
            ),
            forall|i: int, j: int|
                #![trigger final(self).cell(i, j)]
                final(self).in_bounds(i, j) ==> final(self).cell(i, j) == if i == x && j == y {
                    Cell { adjacent_mines: v, ..old(self).cell(i, j) }
                } else {
                    old(self).cell(i, j)
                },
    {
        let c = Cell { adjacent_mines: v, ..self.grid[y][x] };
        proof {
            lemma_units_set(self.cells(), x as int, y as int, c);
            lemma_mines_set(self.cells(), x as int, y as int, c);
        }
        self.put_cell(x, y, c);
    }

    /// The shape depends on the grid, the dimensions and the mine count only.
    pub proof fn lemma_shape_same(self, other: Game)
        requires
            self.wf_shape(),
            other.grid == self.grid,
            other.width == self.width,
            other.height == self.height,
            other.mine_count == self.mine_count,
        ensures
            other.wf_shape(),
            other.cells() == self.cells(),
            forall|i: int, j: int| #[trigger] other.cell(i, j) == self.cell(i, j),
    {
        assert forall|i: int, j: int| #[trigger] other.cell(i, j) == self.cell(i, j) by {}
        assert forall|j: int| 0 <= j < other.height implies (#[trigger] other.grid@[j])@.len() == other.width by {
            assert(self.grid@[j]@.len() == self.width);
        }
    }

    /// Change the game state, keeping everything else.
    pub(crate) fn set_game_state(&mut self, st: GameState)
        requires
            old(self).wf_shape(),
        ensures
            final(self).wf_shape(),
            *final(self) == (Game { state: st, ..*old(self) }),
            final(self).cells() == old(self).cells(),
            final(self).same_layout(*old(self)),
            forall|i: int, j: int| #[trigger] final(self).cell(i, j) == old(self).cell(i, j),
    {
        let ghost g0 = *self;
        self.state = st;
        proof {
            g0.lemma_shape_same(*self);
        }
    }

    /// Change the flag counter, keeping everything else.
    pub(crate) fn set_flags_placed(&mut self, f: usize)
        requires
            old(self).wf_shape(),
        ensures
            final(self).wf_shape(),
            *final(self) == (Game { flags_placed: f, ..*old(self) }),
            final(self).cells() == old(self).cells(),
            final(self).same_layout(*old(self)),
            forall|i: int, j: int| #[trigger] final(self).cell(i, j) == old(self).cell(i, j),
    {
        let ghost g0 = *self;
        self.flags_placed = f;
        assert forall|i: int, j: int| #[trigger] self.cell(i, j) == g0.cell(i, j) by {}
        assert forall|j: int| 0 <= j < self.height implies (#[trigger] self.grid@[j])@.len() == self.width by {
            assert(g0.grid@[j]@.len() == g0.width);
        }
    }

    /// Change one cell's state; the caller keeps the flag counter right.
    pub(crate) fn set_state(&mut self, x: usize, y: usize, s: CellState)
        requires
            old(self).wf_shape(),
            x < old(self).width,
            y < old(self).height,
        ensures
            final(self).wf_shape(),
            final(self).same_fields(*old(self)),
            final(self).same_layout(*old(self)),
            final(self).cells() == set_cell(
                old(self).cells(),
                x as int,
                y as int,
                Cell { state: s, ..old(self).cell(x as int, y as int) },
            ),
            grid_units(final(self).cells()) == grid_units(old(self).cells()) - flag_units(
                old(self).cell(x as int, y as int).state,
            ) + flag_units(s),
            forall|i: int, j: int|
                #![trigger final(self).cell(i, j)]
                final(self).in_bounds(i, j) ==> final(self).cell(i, j) == if i == x && j == y {
                    Cell { state: s, ..old(self).cell(i, j) }
                } else {
                    old(self).cell(i, j)
                },
    {
        let c = Cell { state: s, ..self.grid[y][x] };
        proof {
            lemma_units_set(self.cells(), x as int, y as int, c);
        }
        self.put_cell(x, y, c);
    }

    /// The signed mine weight at offset (`dx` - 1, `dy` - 1) from (`x`, `y`).
    fn weight_of(&self, x: usize, y: usize, dx: usize, dy: usize) -> (r: i8)
        requires
            self.wf_shape(),
            x < self.width,
            y < self.height,
            dx <= 2,
            dy <= 2,
        ensures
            r == self.weight_at(x + dx - 1, y + dy - 1),
            -3 <= r <= 3,
    {
        if (dx == 0 && x == 0) || (dy == 0 && y == 0) {
            return 0;
        }
        let nx = x + dx - 1;
        let ny = y + dy - 1;
        if nx >= self.width || ny >= self.height {
            return 0;
        }
        let c = self.grid[ny][nx];
        assert(c == self.cell(nx as int, ny as int));
        if c.mines > 0 {
            if c.is_negative {
                -(c.mines as i8)
            } else {
                c.mines as i8
            }
        } else {
            0
        }
    }

    /// The signed number of mines on the eight neighbours of (`x`, `y`).
    pub fn count_adjacent_mines(&self, x: usize, y: usize) -> (r: i8)
        requires
            self.wf_shape(),
            x < self.width,
            y < self.height,
        ensures
            r == self.adj_count(x as int, y as int),
            -24 <= r <= 24,
    {
        let a = self.weight_of(x, y, 0, 0);
        let b = self.weight_of(x, y, 1, 0);
        let c = self.weight_of(x, y, 2, 0);
        let d = self.weight_of(x, y, 0, 1);
        let e = self.weight_of(x, y, 2, 1);
        let f = self.weight_of(x, y, 0, 2);
        let g = self.weight_of(x, y, 1, 2);
        let h = self.weight_of(x, y, 2, 2);
        a + b + c + d + e + f + g + h
    }

    /// Set the count of every mine-free cell to the signed number of mines
    /// around it; nothing else changes.
    pub fn recompute_all_adjacency(&mut self)
        requires
            old(self).wf_shape(),
        ensures
            final(self).wf_shape(),
            grid_units(final(self).cells()) == grid_units(old(self).cells()),
            grid_mines(final(self).cells()) == grid_mines(old(self).cells()),
            final(self).same_fields(*old(self)),
            final(self).same_layout(*old(self)),
            final(self).adjacency_consistent(),
            forall|x: int, y: int|
                #![trigger final(self).cell(x, y)]
                final(self).in_bounds(x, y) ==> final(self).cell(x, y).state == old(self).cell(
                    x,
                    y,
                ).state && (old(self).cell(x, y).mines > 0 ==> final(self).cell(x, y)
                    == old(self).cell(x, y)),
    {
        let ghost orig = *self;
        let h = self.height;
        let w = self.width;
        for y in 0..h
            invariant
                self.wf_shape(),
                grid_units(self.cells()) == grid_units(orig.cells()),
                grid_mines(self.cells()) == grid_mines(orig.cells()),
                h == self.height,
                w == self.width,
                self.same_fields(orig),
                self.same_layout(orig),
                forall|i: int, j: int|
                    #![trigger self.cell(i, j)]
                    self.in_bounds(i, j) ==> self.cell(i, j).state == orig.cell(i, j).state && (
                    orig.cell(i, j).mines > 0 ==> self.cell(i, j) == orig.cell(i, j)),
                forall|i: int, j: int|
                    #![trigger self.cell(i, j)]
                    self.in_bounds(i, j) && j < y && self.cell(i, j).mines == 0 ==> self.cell(
                        i,
                        j,
                    ).adjacent_mines == orig.adj_count(i, j),
        {
            for x in 0..w
                invariant
                    self.wf_shape(),
                    grid_units(self.cells()) == grid_units(orig.cells()),
                grid_mines(self.cells()) == grid_mines(orig.cells()),
                    h == self.height,
                    w == self.width,
                    y < h,
                    self.same_fields(orig),
                    self.same_layout(orig),
                    forall|i: int, j: int|
                        #![trigger self.cell(i, j)]
                        self.in_bounds(i, j) ==> self.cell(i, j).state == orig.cell(i, j).state
                            && (orig.cell(i, j).mines > 0 ==> self.cell(i, j) == orig.cell(i, j)),
                    forall|i: int, j: int|
                        #![trigger self.cell(i, j)]
                        self.in_bounds(i, j) && (j < y || (j == y && i < x)) && self.cell(
                            i,
                            j,
                        ).mines == 0 ==> self.cell(i, j).adjacent_mines == orig.adj_count(i, j),
            {
                if self.grid[y][x].mines == 0 {
                    let n = self.count_adjacent_mines(x, y);
                    proof {
                        self.lemma_same_layout_adj(orig, x as int, y as int);
                    }
                    self.set_adjacent(x, y, n);
                }
            }
        }
        proof {
            assert forall|x: int, y: int|
                self.in_bounds(x, y) && #[trigger] self.cell(x, y).mines == 0 implies self.cell(
                    x,
                    y,
                ).adjacent_mines == self.adj_count(x, y) by {
                self.lemma_same_layout_adj(orig, x, y);
            }
        }
    }

    /// The same game with one cell's state changed.
    pub open spec fn with_state(self, x: int, y: int, s: CellState) -> Seq<Seq<Cell>> {
        set_cell(self.cells(), x, y, Cell { state: s, ..self.cell(x, y) })
    }

    /// Every mine-free cell is revealed.
    pub open spec fn all_safe_revealed(self) -> bool {
        forall|x: int, y: int|
            self.in_bounds(x, y) && #[trigger] self.cell(x, y).mines == 0 ==> self.cell(x, y).state
                == CellState::Revealed
    }

    /// The number of mines not yet accounted for by flags; zero before the first move.
    pub fn remaining_mines(&self) -> (r: isize)
        requires
            self.wf(),
        ensures
            r == if self.state == GameState::Ready {
                0
            } else {
                self.mine_count - self.flags_placed
            },
    {
        if matches!(self.state, GameState::Ready) {
            return 0;
        }
        self.mine_count as isize - self.flags_placed as isize
    }

    /// Reveal every cell that holds a mine; nothing else changes.
    pub(crate) fn reveal_all_mines(&mut self)
        requires
            old(self).wf_shape(),
        ensures
            final(self).wf_shape(),
            final(self).same_fields(*old(self)),
            final(self).same_layout(*old(self)),
            grid_units(final(self).cells()) <= grid_units(old(self).cells()),
            forall|x: int, y: int|
                #![trigger final(self).cell(x, y)]
                final(self).in_bounds(x, y) ==> final(self).cell(x, y) == if old(self).cell(
                    x,
                    y,
                ).mines > 0 {
                    Cell { state: CellState::Revealed, ..old(self).cell(x, y) }
                } else {
                    old(self).cell(x, y)
                },
    {
        let ghost orig = *self;
        let h = self.height;
        let w = self.width;
        for y in 0..h
            invariant
                self.wf_shape(),
                h == self.height,
                w == self.width,
                self.same_fields(orig),
                self.same_layout(orig),
                grid_units(self.cells()) <= grid_units(orig.cells()),
                forall|i: int, j: int|
                    #![trigger self.cell(i, j)]
                    self.in_bounds(i, j) ==> self.cell(i, j) == if j < y && orig.cell(i, j).mines
                        > 0 {
                        Cell { state: CellState::Revealed, ..orig.cell(i, j) }
                    } else {
                        orig.cell(i, j)
                    },
        {
            for x in 0..w
                invariant
                    self.wf_shape(),
                    h == self.height,
                    w == self.width,
                    y < h,
                    self.same_fields(orig),
                    self.same_layout(orig),
                    grid_units(self.cells()) <= grid_units(orig.cells()),
                    forall|i: int, j: int|
                        #![trigger self.cell(i, j)]
                        self.in_bounds(i, j) ==> self.cell(i, j) == if (j < y || (j == y && i
                            < x)) && orig.cell(i, j).mines > 0 {
                            Cell { state: CellState::Revealed, ..orig.cell(i, j) }
                        } else {
                            orig.cell(i, j)
                        },
            {
                if self.grid[y][x].mines > 0 {
                    self.set_state(x, y, CellState::Revealed);
                }
            }
        }
    }

    /// Declare the game won when every mine-free cell is revealed.
    fn check_win(&mut self)
        requires
            old(self).wf_shape(),
        ensures
            final(self).grid == old(self).grid,
            final(self).state == if old(self).all_safe_revealed() {
                GameState::Won
            } else {
                old(self).state
            },
            *final(self) == (Game { state: final(self).state, ..*old(self) }),
    {
        let h = self.height;
        let w = self.width;
        for y in 0..h
            invariant
                self.wf_shape(),
                h == self.height,
                w == self.width,
                forall|i: int, j: int|
                    #![trigger self.cell(i, j)]
                    self.in_bounds(i, j) && j < y && self.cell(i, j).mines == 0 ==> self.cell(
                        i,
                        j,
                    ).state == CellState::Revealed,
        {
            for x in 0..w
                invariant
                    self.wf_shape(),
                    h == self.height,
                    w == self.width,
                    y < h,
                    forall|i: int, j: int|
                        #![trigger self.cell(i, j)]
                        self.in_bounds(i, j) && (j < y || (j == y && i < x)) && self.cell(
                            i,
                            j,
                        ).mines == 0 ==> self.cell(i, j).state == CellState::Revealed,
            {
                let cell = self.grid[y][x];
                if cell.mines == 0 && !matches!(cell.state, CellState::Revealed) {
                    assert(self.cell(x as int, y as int) == cell);
                    return;
                }
            }
        }
        self.state = GameState::Won;
    }
}

/// The state a right click moves a cell to. Multi Mines cycles through one,
/// two and three flags; Negative Mines through a plain and a negative flag.
pub open spec fn flag_step(v: Variant, s: CellState) -> CellState {
    match s {
        CellState::Hidden => CellState::Flagged,
        CellState::Flagged => if v == Variant::MultiMines {
            CellState::Flagged2
        } else if v == Variant::NegativeMines {
            CellState::FlaggedNegative
        } else {
            CellState::Hidden
        },
        CellState::Flagged2 => CellState::Flagged3,
        CellState::Flagged3 => CellState::Hidden,
        CellState::FlaggedNegative => CellState::Hidden,
        CellState::Revealed => CellState::Revealed,
    }
}

impl Game {
    /// Whether a right click on (`x`, `y`) changes anything.
    pub open spec fn can_flag(self, x: int, y: int) -> bool {
        &&& self.in_bounds(x, y)
        &&& (self.state == GameState::Playing || self.state == GameState::Ready)
        &&& self.cell(x, y).state != CellState::Revealed
    }

    /// Cycle the flag on a cell. Returns whether anything changed; the flag
    /// counter moves by the change in flag units.
    pub fn toggle_flag(&mut self, x: usize, y: usize) -> (r: bool)
        requires
            old(self).wf(),
        ensures
            final(self).wf(),
            r == old(self).can_flag(x as int, y as int),
            r ==> {
                let s = old(self).cell(x as int, y as int).state;
                let t = flag_step(old(self).variant, s);
                &&& final(self).cells() == old(self).with_state(x as int, y as int, t)
                &&& final(self).flags_placed == old(self).flags_placed - flag_units(s) + flag_units(t)
                &&& *final(self) == (Game { grid: final(self).grid, flags_placed: final(self).flags_placed, ..*old(self) })
            },
            !r ==> *final(self) == *old(self),
    {
        if x >= self.width || y >= self.height {
            return false;
        }
        if !matches!(self.state, GameState::Playing | GameState::Ready) {
            return false;
        }
        let s = self.grid[y][x].state;
        assert(s == self.cell(x as int, y as int).state);
        proof {
            assert forall|j: int| 0 <= j < self.cells().len() implies (#[trigger] self.cells()[j]).len()
                == self.width by {
                assert(self.grid@[j]@.len() == self.width);
            }
            lemma_units_bounds(self.cells(), self.width as int, x as int, y as int);
            assert(self.height * self.width == self.width * self.height) by (nonlinear_arith);
        }
        let t = match s {
            CellState::Hidden => CellState::Flagged,
            CellState::Flagged => match self.variant {
                Variant::MultiMines => CellState::Flagged2,
                Variant::NegativeMines => CellState::FlaggedNegative,
                _ => CellState::Hidden,
            },
            CellState::Flagged2 => CellState::Flagged3,
            CellState::Flagged3 => CellState::Hidden,
            CellState::FlaggedNegative => CellState::Hidden,
            CellState::Revealed => {
                return false;
            },
        };
        assert(t == flag_step(self.variant, s));
        let f = self.flags_placed;
        let nf = match s {
            CellState::Hidden => f + 1,
            CellState::Flagged => match t {
                CellState::Flagged2 => f + 1,
                CellState::FlaggedNegative => f,
                _ => f - 1,
            },
            CellState::Flagged2 => f + 1,
            CellState::Flagged3 => f - 3,
            _ => f - 1,
        };
        self.set_flags_placed(nf);
        self.set_state(x, y, t);
        proof {
            assert forall|j: int| 0 <= j < self.cells().len() implies (#[trigger] self.cells()[j]).len()
                == self.width by {
                assert(self.grid@[j]@.len() == self.width);
            }
            lemma_units_bounds(self.cells(), self.width as int, x as int, y as int);
            assert(self.height * self.width == self.width * self.height) by (nonlinear_arith);
            assert(self.wf_shape());
            assert(self.flags_placed == grid_units(self.cells()));
            assert(grid_units(self.cells()) <= 3 * (self.height * self.width));
            assert(self.flags_placed <= 3 * MAX_CELLS);
        }
        true
    }
}

impl Game {
    /// The board is `width` by `height` as a sequence of rows.
    pub proof fn lemma_shaped(self)
        requires
            self.wf_shape(),
        ensures
            shaped(self.cells(), self.width as int, self.height as int),
            forall|x: int, y: int|
                #![trigger self.cell(x, y)]
                self.in_bounds(x, y) ==> at(self.cells(), (x, y)) == self.cell(x, y),
    {
        assert forall|y: int| 0 <= y < self.height implies (#[trigger] self.cells()[y]).len()
            == self.width by {
            assert(self.grid@[y]@.len() == self.width);
        }
    }

    /// Process the `k`-th neighbour of (`x`, `y`) in a cascade from `s` over
    /// the board `c0`: open it if it is hidden and mine-free, and spread from
    /// it if it has no mine around it.
    fn cascade_step(
        &mut self,
        x: usize,
        y: usize,
        dx: usize,
        dy: usize,
        Ghost(c0): Ghost<Seq<Seq<Cell>>>,
        Ghost(s): Ghost<(int, int)>,
    )
        requires
            old(self).wf_shape(),
            x < old(self).width,
            y < old(self).height,
            dx <= 2,
            dy <= 2,
            !(dx == 1 && dy == 1),
            shaped(c0, old(self).width as int, old(self).height as int),
            monotone(c0, old(self).cells(), old(self).width as int, old(self).height as int),
            cascade_sound(c0, old(self).cells(), old(self).width as int, old(self).height as int, s),
            (x as int, y as int) == s || (in_cascade(
                c0,
                old(self).width as int,
                old(self).height as int,
                s,
                (x as int, y as int),
            ) && spreads(c0, old(self).width as int, old(self).height as int, (x as int, y as int))),
        ensures
            final(self).wf_shape(),
            final(self).same_fields(*old(self)),
            final(self).same_layout(*old(self)),
            grid_units(final(self).cells()) == grid_units(old(self).cells()),
            hidden_count(final(self).cells()) <= hidden_count(old(self).cells()),
            monotone(old(self).cells(), final(self).cells(), old(self).width as int, old(self).height as int),
            monotone(c0, final(self).cells(), old(self).width as int, old(self).height as int),
            cascade_sound(c0, final(self).cells(), old(self).width as int, old(self).height as int, s),
            closes_changed(old(self).cells(), final(self).cells(), c0, old(self).width as int, old(self).height as int),
            !opens(
                final(self).cells(),
                old(self).width as int,
                old(self).height as int,
                (x + dx - 1, y + dy - 1),
            ),
        decreases hidden_count(old(self).cells()), 0int,
    {
        let ghost w = self.width as int;
        let ghost h = self.height as int;
        let ghost c_in = self.cells();
        proof {
            self.lemma_shaped();
        }
        if (dx == 0 && x == 0) || (dy == 0 && y == 0) {
            return;
        }
        let nx = x + dx - 1;
        let ny = y + dy - 1;
        if nx >= self.width || ny >= self.height {
            return;
        }
        let c = self.grid[ny][nx];
        let ghost q = (nx as int, ny as int);
        assert(at(c_in, q) == c);
        if matches!(c.state, CellState::Hidden) && c.mines == 0 {
            proof {
                assert(at(c0, q) == c);
                assert(opens(c0, w, h, q));
                if (x as int, y as int) == s {
                    let ps = seq![q];
                    assert(cascade_path(c0, w, h, s, ps));
                } else {
                    let ps = choose|ps: Seq<(int, int)>|
                        #[trigger] cascade_path(c0, w, h, s, ps) && ps.last() == (x as int, y as int);
                    lemma_path_extend(c0, w, h, s, ps, q);
                }
                assert(in_cascade(c0, w, h, s, q));
                lemma_hidden_set(c_in, nx as int, ny as int, Cell { state: CellState::Revealed, ..c });
            }
            self.set_state(nx, ny, CellState::Revealed);
            proof {
                self.lemma_shaped();
                assert(monotone(c_in, self.cells(), w, h));
                assert(monotone(c0, self.cells(), w, h));
                assert(cascade_sound(c0, self.cells(), w, h, s));
            }
            if c.adjacent_mines == 0 {
                let ghost c_mid = self.cells();
                assert(spreads(c0, w, h, q));
                assert(hidden_count(c_mid) < hidden_count(c_in));
                proof { lemma_hidden_nonneg(c_mid); }
                self.cascade_from(nx, ny, Ghost(c0), Ghost(s));
                proof {
                    lemma_monotone_trans(c_in, c_mid, self.cells(), w, h);
                    assert(closes_changed(c_in, self.cells(), c0, w, h)) by {
                        assert forall|r: (int, int)|
                            inside(w, h, r) && #[trigger] at(self.cells(), r) != at(c_in, r) && at(
                                c0,
                                r,
                            ).adjacent_mines == 0 implies closed_at(self.cells(), w, h, r) by {
                            if r == q {
                            } else {
                                assert(at(c_mid, r) == at(c_in, r));
                            }
                        }
                    }
                    lemma_not_opens_mono(c_mid, self.cells(), w, h, q);
                }
            } else {
                proof {
                    assert(closes_changed(c_in, self.cells(), c0, w, h)) by {
                        assert forall|r: (int, int)|
                            inside(w, h, r) && #[trigger] at(self.cells(), r) != at(c_in, r) && at(
                                c0,
                                r,
                            ).adjacent_mines == 0 implies closed_at(self.cells(), w, h, r) by {
                            assert(r == q);
                        }
                    }
                }
            }
        }
    }

    /// Reveal the hidden mine-free neighbours of (`x`, `y`), spreading on
    /// through every one that has no mine around it (a cascade from `s` over
    /// the board `c0`).
    fn cascade_from(
        &mut self,
        x: usize,
        y: usize,
        Ghost(c0): Ghost<Seq<Seq<Cell>>>,
        Ghost(s): Ghost<(int, int)>,
    )
        requires
            old(self).wf_shape(),
            x < old(self).width,
            y < old(self).height,
            shaped(c0, old(self).width as int, old(self).height as int),
            monotone(c0, old(self).cells(), old(self).width as int, old(self).height as int),
            cascade_sound(c0, old(self).cells(), old(self).width as int, old(self).height as int, s),
            (x as int, y as int) == s || (in_cascade(
                c0,
                old(self).width as int,
                old(self).height as int,
                s,
                (x as int, y as int),
            ) && spreads(c0, old(self).width as int, old(self).height as int, (x as int, y as int))),
        ensures
            final(self).wf_shape(),
            final(self).same_fields(*old(self)),
            final(self).same_layout(*old(self)),
            grid_units(final(self).cells()) == grid_units(old(self).cells()),
            hidden_count(final(self).cells()) <= hidden_count(old(self).cells()),
            monotone(old(self).cells(), final(self).cells(), old(self).width as int, old(self).height as int),
            monotone(c0, final(self).cells(), old(self).width as int, old(self).height as int),
            cascade_sound(c0, final(self).cells(), old(self).width as int, old(self).height as int, s),
            closes_changed(old(self).cells(), final(self).cells(), c0, old(self).width as int, old(self).height as int),
            closed_at(final(self).cells(), old(self).width as int, old(self).height as int, (x as int, y as int)),
        decreases hidden_count(old(self).cells()), 1int,
    {
        let ghost w = self.width as int;
        let ghost h = self.height as int;
        let ghost c_in = self.cells();
        let ghost g_in = *self;
        let ghost p = (x as int, y as int);
        let mut k: usize = 0;
        while k < 8
            invariant
                0 <= k <= 8,
                self.wf_shape(),
                x < self.width,
                y < self.height,
                w == self.width,
                h == self.height,
                self.same_fields(g_in),
                self.same_layout(g_in),
                grid_units(self.cells()) == grid_units(c_in),
                hidden_count(self.cells()) <= hidden_count(c_in),
                shaped(c0, w, h),
                monotone(c_in, self.cells(), w, h),
                monotone(c0, self.cells(), w, h),
                cascade_sound(c0, self.cells(), w, h, s),
                closes_changed(c_in, self.cells(), c0, w, h),
                p == s || (in_cascade(c0, w, h, s, p) && spreads(c0, w, h, p)),
                p == (x as int, y as int),
                c_in == old(self).cells(),
                forall|j: int| 0 <= j < k ==> !opens(self.cells(), w, h, #[trigger] nb(p, j)),
            decreases 8 - k,
        {
            let (dx, dy) = offset_of(k);
            let ghost c_before = self.cells();
            assert(hidden_count(c_before) <= hidden_count(c_in));
            proof { lemma_hidden_nonneg(c_before); }
            assert((x as int, y as int) == s || (in_cascade(c0, w, h, s, (x as int, y as int)) && spreads(c0, w, h, (x as int, y as int))));
            self.cascade_step(x, y, dx, dy, Ghost(c0), Ghost(s));
            proof {
                lemma_monotone_trans(c_in, c_before, self.cells(), w, h);
                lemma_closes_trans(c_in, c_before, self.cells(), c0, w, h);
                assert forall|j: int| 0 <= j < k + 1 implies !opens(self.cells(), w, h, #[trigger] nb(p, j)) by {
                    if j < k {
                        lemma_not_opens_mono(c_before, self.cells(), w, h, nb(p, j));
                    } else {
                        assert(nb(p, j) == (x + dx - 1, y + dy - 1));
                    }
                }
            }
            k = k + 1;
        }
        proof {
            assert(!opens(self.cells(), w, h, nb(p, 0)));
            assert(!opens(self.cells(), w, h, nb(p, 1)));
            assert(!opens(self.cells(), w, h, nb(p, 2)));
            assert(!opens(self.cells(), w, h, nb(p, 3)));
            assert(!opens(self.cells(), w, h, nb(p, 4)));
            assert(!opens(self.cells(), w, h, nb(p, 5)));
            assert(!opens(self.cells(), w, h, nb(p, 6)));
            assert(!opens(self.cells(), w, h, nb(p, 7)));
        }
    }

    /// Reveal the whole zero region around the revealed cell (`x`, `y`): the
    /// board becomes exactly the cascaded board.
    pub(crate) fn cascade_reveal(&mut self, x: usize, y: usize)
        requires
            old(self).wf_shape(),
            x < old(self).width,
            y < old(self).height,
        ensures
            final(self).wf_shape(),
            final(self).same_fields(*old(self)),
            final(self).same_layout(*old(self)),
            grid_units(final(self).cells()) == grid_units(old(self).cells()),
            final(self).cells() == cascaded(
                old(self).cells(),
                old(self).width as int,
                old(self).height as int,
                (x as int, y as int),
            ),
    {
        let ghost c0 = self.cells();
        let ghost w = self.width as int;
        let ghost h = self.height as int;
        proof {
            self.lemma_shaped();
        }
        self.cascade_from(x, y, Ghost(c0), Ghost((x as int, y as int)));
        proof {
            self.lemma_shaped();
            lemma_cascade_exact(c0, self.cells(), w, h, (x as int, y as int));
        }
    }

    /// A left click on (`x`, `y`) once the mines are placed: exactly
    /// `open_result` (reveal, cascade from a zero, win check unless endless;
    /// a mine loses and shows all mines). Returns whether anything happened.
    pub fn open_cell(&mut self, x: usize, y: usize) -> (r: bool)
        requires
            old(self).wf_shape(),
        ensures
            final(self).wf_shape(),
            (final(self).cells(), final(self).state, r) == open_result(
                old(self).cells(),
                old(self).width as int,
                old(self).height as int,
                old(self).state,
                old(self).endless,
                (x as int, y as int),
            ),
            *final(self) == (Game { grid: final(self).grid, state: final(self).state, ..*old(self) }),
            final(self).same_layout(*old(self)),
            old(self).counter_ok() ==> final(self).counter_ok(),
    {
        let ghost g0 = *self;
        let ghost w = self.width as int;
        let ghost h = self.height as int;
        let ghost p = (x as int, y as int);
        proof {
            self.lemma_shaped();
        }
        if x >= self.width || y >= self.height {
            return false;
        }
        if !matches!(self.state, GameState::Playing) {
            return false;
        }
        let cell = self.grid[y][x];
        assert(cell == at(g0.cells(), p));
        if !matches!(cell.state, CellState::Hidden) {
            return false;
        }
        self.set_state(x, y, CellState::Revealed);
        proof {
            self.lemma_shaped();
            assert(self.cells() == revealed_at(g0.cells(), p));
        }
        if cell.mines > 0 {
            self.set_game_state(GameState::Lost);
            self.reveal_all_mines();
            proof {
                self.lemma_shaped();
                g0.lemma_shaped();
                assert forall|j: int| 0 <= j < h implies #[trigger] self.cells()[j] =~= mines_revealed(g0.cells())[j] by {
                    assert forall|i: int| 0 <= i < w implies self.cells()[j][i] == mines_revealed(g0.cells())[j][i] by {
                        assert(self.cells()[j][i] == self.cell(i, j));
                        assert(g0.cells()[j][i] == g0.cell(i, j));
                    }
                }
                assert(self.cells() =~= mines_revealed(g0.cells()));
            }
            return true;
        }
        if cell.adjacent_mines == 0 {
            self.cascade_reveal(x, y);
        }
        let ghost c2 = self.cells();
        if !self.endless {
            let ghost g2 = *self;
            self.check_win();
            proof {
                g2.lemma_shape_same(*self);
                self.lemma_shaped();
                assert(self.all_safe_revealed() == safe_all_revealed(c2, w, h)) by {
                    if self.all_safe_revealed() {
                        assert forall|q: (int, int)| inside(w, h, q) && #[trigger] at(c2, q).mines == 0 implies at(c2, q).state == CellState::Revealed by {
                            assert(at(c2, q) == self.cell(q.0, q.1));
                        }
                    }
                    if safe_all_revealed(c2, w, h) {
                        assert forall|i: int, j: int| self.in_bounds(i, j) && #[trigger] self.cell(i, j).mines == 0 implies self.cell(i, j).state == CellState::Revealed by {
                            assert(at(c2, (i, j)) == self.cell(i, j));
                        }
                    }
                }
            }
        }
        true
    }

    /// The `k`-th neighbour of (`x`, `y`) in scan order, if it is on the board.
    pub fn neighbor(&self, x: usize, y: usize, k: usize) -> (r: Option<(usize, usize)>)
        requires
            self.wf_shape(),
            x < self.width,
            y < self.height,
            k < 8,
        ensures
            match r {
                Some(q) => inside(self.width as int, self.height as int, nb((x as int, y as int), k as int))
                    && (q.0 as int, q.1 as int) == nb((x as int, y as int), k as int),
                None => !inside(self.width as int, self.height as int, nb((x as int, y as int), k as int)),
            },
    {
        let (dx, dy) = offset_of(k);
        if (dx == 0 && x == 0) || (dy == 0 && y == 0) {
            return None;
        }
        let nx = x + dx - 1;
        let ny = y + dy - 1;
        if nx >= self.width || ny >= self.height {
            return None;
        }
        Some((nx, ny))
    }

    /// Open every hidden neighbour of (`x`, `y`) in scan order: exactly `sweep`.
    fn open_around(&mut self, x: usize, y: usize) -> (r: bool)
        requires
            old(self).wf_shape(),
            x < old(self).width,
            y < old(self).height,
        ensures
            final(self).wf_shape(),
            (final(self).cells(), final(self).state, r) == sweep(
                old(self).cells(),
                old(self).width as int,
                old(self).height as int,
                old(self).state,
                old(self).endless,
                (x as int, y as int),
                0,
            ),
            *final(self) == (Game { grid: final(self).grid, state: final(self).state, ..*old(self) }),
            final(self).same_layout(*old(self)),
            old(self).counter_ok() ==> final(self).counter_ok(),
    {
        let ghost g0 = *self;
        let ghost w = self.width as int;
        let ghost h = self.height as int;
        let ghost p = (x as int, y as int);
        let ghost target = sweep(g0.cells(), w, h, g0.state, g0.endless, p, 0);
        let mut revealed = false;
        let mut k: usize = 0;
        while k < 8
            invariant
                0 <= k <= 8,
                self.wf_shape(),
                x < self.width,
                y < self.height,
                w == self.width,
                h == self.height,
                p == (x as int, y as int),
                *self == (Game { grid: self.grid, state: self.state, ..g0 }),
                self.same_layout(g0),
                g0.counter_ok() ==> self.counter_ok(),
                target == sweep(g0.cells(), w, h, g0.state, g0.endless, p, 0),
                ({
                    let rs = sweep(self.cells(), w, h, self.state, g0.endless, p, k as nat);
                    rs.0 == target.0 && rs.1 == target.1 && (revealed || rs.2) == target.2
                }),
            decreases 8 - k,
        {
            proof {
                self.lemma_shaped();
            }
            match self.neighbor(x, y, k) {
                Some((nx, ny)) => {
                    assert(at(self.cells(), (nx as int, ny as int)) == self.cell(nx as int, ny as int));
                    if matches!(self.grid[ny][nx].state, CellState::Hidden) {
                        let ghost gb = *self;
                        let r1 = self.open_cell(nx, ny);
                        proof {
                            gb.lemma_shape_same(gb);
                        }
                        if r1 {
                            revealed = true;
                        }
                    }
                },
                None => {},
            }
            k = k + 1;
        }
        revealed
    }

    /// Whether chording on (`x`, `y`) fires: the cell is a revealed number in
    /// a live game of a variant that shows true counts, the signed flag weight
    /// around it equals its number, and every flag around it is right.
    pub open spec fn chord_fires(self, x: int, y: int) -> bool {
        &&& self.in_bounds(x, y)
        &&& self.state == GameState::Playing
        &&& !self.variant.spec_shows_other_numbers()
        &&& self.cell(x, y).state == CellState::Revealed
        &&& self.cell(x, y).adjacent_mines != 0
        &&& flag_sum(self.cells(), self.width as int, self.height as int, (x, y)) == self.cell(
            x,
            y,
        ).adjacent_mines
        &&& flags_correct_around(self.cells(), self.width as int, self.height as int, (x, y))
    }

    /// Chord on (`x`, `y`): when it fires, open every hidden neighbour in scan
    /// order (`sweep`); otherwise change nothing. Returns whether any opening
    /// did something.
    pub fn chord(&mut self, x: usize, y: usize) -> (r: bool)
        requires
            old(self).wf_shape(),
        ensures
            final(self).wf_shape(),
            old(self).chord_fires(x as int, y as int) ==> (final(self).cells(), final(self).state, r)
                == sweep(
                old(self).cells(),
                old(self).width as int,
                old(self).height as int,
                old(self).state,
                old(self).endless,
                (x as int, y as int),
                0,
            ),
            !old(self).chord_fires(x as int, y as int) ==> !r && *final(self) == *old(self),
            *final(self) == (Game { grid: final(self).grid, state: final(self).state, ..*old(self) }),
            final(self).same_layout(*old(self)),
            old(self).counter_ok() ==> final(self).counter_ok(),
    {
        let ghost w = self.width as int;
        let ghost h = self.height as int;
        let ghost p = (x as int, y as int);
        if x >= self.width || y >= self.height {
            return false;
        }
        if !matches!(self.state, GameState::Playing) {
            return false;
        }
        if self.variant.shows_other_numbers() {
            return false;
        }
        let cell = self.grid[y][x];
        if !matches!(cell.state, CellState::Revealed) || cell.adjacent_mines == 0 {
            return false;
        }
        proof {
            self.lemma_shaped();
        }
        let mut flag_count: i8 = 0;
        let mut k: usize = 0;
        while k < 8
            invariant
                0 <= k <= 8,
                self.wf_shape(),
                x < self.width,
                y < self.height,
                w == self.width,
                h == self.height,
                p == (x as int, y as int),
                flag_count == flag_partial(self.cells(), w, h, p, k as nat),
            decreases 8 - k,
        {
            proof {
                self.lemma_shaped();
                lemma_flag_partial_bounds(self.cells(), w, h, p, k as nat);
            }
            match self.neighbor(x, y, k) {
                Some((nx, ny)) => {
                    assert(at(self.cells(), (nx as int, ny as int)) == self.cell(nx as int, ny as int));
                    match self.grid[ny][nx].state {
                        CellState::Flagged => flag_count = flag_count + 1,
                        CellState::Flagged2 => flag_count = flag_count + 2,
                        CellState::Flagged3 => flag_count = flag_count + 3,
                        CellState::FlaggedNegative => flag_count = flag_count - 1,
                        _ => {},
                    }
                },
                None => {},
            }
            k = k + 1;
        }
        if flag_count != cell.adjacent_mines {
            return false;
        }
        let mut k: usize = 0;
        while k < 8
            invariant
                0 <= k <= 8,
                self.wf_shape(),
                x < self.width,
                y < self.height,
                w == self.width,
                h == self.height,
                p == (x as int, y as int),
                forall|j: int|
                    0 <= j < k && inside(w, h, #[trigger] nb(p, j)) ==> flag_is_correct(
                        at(self.cells(), nb(p, j)),
                    ),
            decreases 8 - k,
        {
            proof {
                self.lemma_shaped();
            }
            match self.neighbor(x, y, k) {
                Some((nx, ny)) => {
                    assert(at(self.cells(), (nx as int, ny as int)) == self.cell(nx as int, ny as int));
                    let nc = self.grid[ny][nx];
                    let correct = match nc.state {
                        CellState::Flagged => nc.mines == 1 && !nc.is_negative,
                        CellState::FlaggedNegative => nc.mines == 1 && nc.is_negative,
                        CellState::Flagged2 => nc.mines == 2,
                        CellState::Flagged3 => nc.mines == 3,
                        _ => true,
                    };
                    if !correct {
                        return false;
                    }
                },
                None => {},
            }
            k = k + 1;
        }
        self.open_around(x, y)
    }

    /// Whether clicking a revealed number opens its neighbours (the Multi
    /// Mines click, which checks no flags).
    pub open spec fn neighbors_fire(self, x: int, y: int) -> bool {
        &&& self.in_bounds(x, y)
        &&& self.state == GameState::Playing
        &&& self.cell(x, y).state == CellState::Revealed
        &&& self.cell(x, y).adjacent_mines != 0
    }

    /// Open every hidden neighbour of a revealed number, without checking
    /// flags. Returns whether any opening did something.
    pub fn reveal_neighbors(&mut self, x: usize, y: usize) -> (r: bool)
        requires
            old(self).wf_shape(),
        ensures
            final(self).wf_shape(),
            old(self).neighbors_fire(x as int, y as int) ==> (final(self).cells(), final(self).state, r)
                == sweep(
                old(self).cells(),
                old(self).width as int,
                old(self).height as int,
                old(self).state,
                old(self).endless,
                (x as int, y as int),
                0,
            ),
            !old(self).neighbors_fire(x as int, y as int) ==> !r && *final(self) == *old(self),
            *final(self) == (Game { grid: final(self).grid, state: final(self).state, ..*old(self) }),
            final(self).same_layout(*old(self)),
            old(self).counter_ok() ==> final(self).counter_ok(),
    {
        if x >= self.width || y >= self.height {
            return false;
        }
        if !matches!(self.state, GameState::Playing) {
            return false;
        }
        let cell = self.grid[y][x];
        if !matches!(cell.state, CellState::Revealed) || cell.adjacent_mines == 0 {
            return false;
        }
        self.open_around(x, y)
    }
}

/// `q` lies in the 3x3 block centred on (`fx`, `fy`).
pub open spec fn in_zone(fx: int, fy: int, q: (int, int)) -> bool {
    fx - 1 <= q.0 <= fx + 1 && fy - 1 <= q.1 <= fy + 1
}

/// The cells from which mines are drawn: outside the 3x3 block around the
/// first click (mode 0), every cell but the clicked one (mode 1), or every
/// cell (mode 2).
pub open spec fn in_pool(w: int, h: int, fx: int, fy: int, mode: u8, q: (int, int)) -> bool {
    inside(w, h, q) && if mode == 0 {
        !in_zone(fx, fy, q)
    } else if mode == 1 {
        q != (fx, fy)
    } else {
        true
    }
}

/// The set of candidate positions of a mode.
pub open spec fn pool_set(w: int, h: int, fx: int, fy: int, mode: u8) -> Set<(usize, usize)> {
    Set::new(|q: (usize, usize)| in_pool(w, h, fx, fy, mode, (q.0 as int, q.1 as int)))
}

/// How many of the indices `0..n` lie within one of `f`: at most three.
pub open spec fn near_before(f: int, n: int) -> int {
    let lo = if f - 1 > 0 {
        f - 1
    } else {
        0
    };
    let hi = if n < f + 2 {
        n
    } else {
        f + 2
    };
    if hi > lo {
        hi - lo
    } else {
        0
    }
}

/// Positions as integer pairs.
pub open spec fn ipos(v: Seq<(usize, usize)>) -> Seq<(int, int)> {
    v.map_values(|q: (usize, usize)| (q.0 as int, q.1 as int))
}

/// The candidate mine positions on a `w` by `h` board for a first click on
/// (`fx`, `fy`), in row-major order and without repeats.
pub fn candidate_positions(w: usize, h: usize, fx: usize, fy: usize, mode: u8) -> (v: Vec<(usize, usize)>)
    requires
        w * h <= MAX_CELLS,
        w <= MAX_CELLS,
        h <= MAX_CELLS,
        fx < w,
        fy < h,
    ensures
        v@.no_duplicates(),
        forall|i: int| 0 <= i < v@.len() ==> inside(w as int, h as int, (#[trigger] v@[i].0 as int, v@[i].1 as int)),
        forall|q: (usize, usize)|
            #![trigger v@.contains(q)]
            v@.contains(q) <==> in_pool(
                w as int,
                h as int,
                fx as int,
                fy as int,
                mode,
                (q.0 as int, q.1 as int),
            ),
        mode == 1 ==> v@.len() == w * h - 1,
        mode == 2 ==> v@.len() == w * h,
        mode == 0 ==> v@.len() + 9 >= w * h,
{
    let mut v: Vec<(usize, usize)> = Vec::new();
    assert(0 * w == 0);
    for y in 0..h
        invariant
            w * h <= MAX_CELLS,
            w <= MAX_CELLS,
            fx < w,
            fy < h,
            v@.no_duplicates(),
            forall|i: int| 0 <= i < v@.len() ==> (#[trigger] v@[i]).1 < y && v@[i].0 < w,
            forall|q: (usize, usize)|
                #![trigger v@.contains(q)]
                v@.contains(q) <==> q.1 < y && in_pool(w as int, h as int, fx as int, fy as int, mode, (q.0 as int, q.1 as int)),
            mode == 1 ==> v@.len() == y * w - if fy < y { 1int } else { 0int },
            mode == 2 ==> v@.len() == y * w,
            mode == 0 ==> v@.len() + 3 * near_before(fy as int, y as int) >= y * w,
    {
        for x in 0..w
            invariant
                        w * h <= MAX_CELLS,
            w <= MAX_CELLS,
                fx < w,
                fy < h,
                y < h,
                v@.no_duplicates(),
                forall|i: int| 0 <= i < v@.len() ==> ((#[trigger] v@[i]).1 < y || (v@[i].1 == y && v@[i].0 < x)) && v@[i].0 < w,
                forall|q: (usize, usize)|
                    #![trigger v@.contains(q)]
                    v@.contains(q) <==> (q.1 < y || (q.1 == y && q.0 < x)) && in_pool(w as int, h as int, fx as int, fy as int, mode, (q.0 as int, q.1 as int)),
                mode == 1 ==> v@.len() == y * w + x - if fy < y || (fy == y && fx < x) { 1int } else { 0int },
                mode == 2 ==> v@.len() == y * w + x,
                mode == 0 ==> v@.len() + 3 * near_before(fy as int, y as int) + (if fy - 1 <= y <= fy + 1 {
                    near_before(fx as int, x as int)
                } else {
                    0
                }) >= y * w + x,
        {
            let keep = if mode == 0 {
                x > fx + 1 || fx > x + 1 || y > fy + 1 || fy > y + 1
            } else if mode == 1 {
                x != fx || y != fy
            } else {
                true
            };
            if keep {
                proof {
                    assert(!v@.contains((x, y)));
                }
                let ghost old_v = v@;
                v.push((x, y));
                assert(v@.drop_last() == old_v);
                proof {
                    assert forall|q: (usize, usize)|
                        #![trigger v@.contains(q)]
                        v@.contains(q) <==> (q.1 < y || (q.1 == y && q.0 < x + 1)) && in_pool(w as int, h as int, fx as int, fy as int, mode, (q.0 as int, q.1 as int)) by {
                        if q == (x, y) {
                            assert(v@[v@.len() - 1] == q);
                        } else if v@.contains(q) {
                            let i = choose|i: int| 0 <= i < v@.len() && v@[i] == q;
                            assert(i < v@.len() - 1);
                            assert(old_v[i] == q);
                            assert(old_v.contains(q));
                        } else {
                            if (q.1 < y || (q.1 == y && q.0 < x)) && in_pool(w as int, h as int, fx as int, fy as int, mode, (q.0 as int, q.1 as int)) {
                                assert(old_v.contains(q));
                                let i = choose|i: int| 0 <= i < old_v.len() && old_v[i] == q;
                                assert(v@[i] == q);
                            }
                        }
                    }
                }
            } else {
                proof {
                    assert forall|q: (usize, usize)|
                        #![trigger v@.contains(q)]
                        v@.contains(q) <==> (q.1 < y || (q.1 == y && q.0 < x + 1)) && in_pool(w as int, h as int, fx as int, fy as int, mode, (q.0 as int, q.1 as int)) by {
                        if q == (x, y) {
                            if v@.contains(q) {
                                let i = choose|i: int| 0 <= i < v@.len() && v@[i] == q;
                            }
                        }
                    }
                }
            }
        }
        proof {
            assert((y + 1) * w == y * w + w) by (nonlinear_arith);
        }
    }
    proof {
        assert forall|i: int| 0 <= i < v@.len() implies inside(w as int, h as int, (#[trigger] v@[i].0 as int, v@[i].1 as int)) by {}
        assert(h * w == w * h) by (nonlinear_arith);
        assert(near_before(fy as int, h as int) <= 3);
    }
    v
}

impl Game {
    /// The candidate mine positions for a first click on (`fx`, `fy`), in
    /// row-major order and without repeats.
    pub(crate) fn pool(&self, fx: usize, fy: usize, mode: u8) -> (v: Vec<(usize, usize)>)
        requires
            self.wf_shape(),
            fx < self.width,
            fy < self.height,
        ensures
            v@.no_duplicates(),
            forall|i: int| 0 <= i < v@.len() ==> inside(self.width as int, self.height as int, (#[trigger] v@[i].0 as int, v@[i].1 as int)),
            forall|q: (usize, usize)|
                #![trigger v@.contains(q)]
                v@.contains(q) <==> in_pool(
                    self.width as int,
                    self.height as int,
                    fx as int,
                    fy as int,
                    mode,
                    (q.0 as int, q.1 as int),
                ),
            mode == 1 ==> v@.len() == self.width * self.height - 1,
            mode == 2 ==> v@.len() == self.width * self.height,
    {
        candidate_positions(self.width, self.height, fx, fy, mode)
    }

    /// Put `m` mines (of sign `neg`) on one cell, keeping everything else.
    pub(crate) fn set_mine(&mut self, x: usize, y: usize, m: u8, neg: bool)
        requires
            old(self).wf_shape(),
            x < old(self).width,
            y < old(self).height,
            m <= 3,
        ensures
            final(self).wf_shape(),
            final(self).same_fields(*old(self)),
            grid_units(final(self).cells()) == grid_units(old(self).cells()),
            grid_mines(final(self).cells()) == grid_mines(old(self).cells()) - old(self).cell(x as int, y as int).mines + m,
            final(self).cells() == set_cell(old(self).cells(), x as int, y as int, Cell { mines: m, is_negative: neg, ..old(self).cell(x as int, y as int) }),
            forall|i: int, j: int|
                #![trigger final(self).cell(i, j)]
                final(self).in_bounds(i, j) ==> final(self).cell(i, j) == if i == x && j == y {
                    Cell { mines: m, is_negative: neg, ..old(self).cell(i, j) }
                } else {
                    old(self).cell(i, j)
                },
    {
        let c = Cell { mines: m, is_negative: neg, ..self.grid[y][x] };
        proof {
            lemma_units_set(self.cells(), x as int, y as int, c);
            lemma_mines_set(self.cells(), x as int, y as int, c);
        }
        self.put_cell(x, y, c);
    }

    /// Mine the first `n` positions of `ps`: with `stacks` each gets a random
    /// stack of one to three mines, otherwise one mine, which with `signed` in
    /// Negative Mines is negative at random. Nothing else changes.
    fn lay_mines(&mut self, ps: &Vec<(usize, usize)>, n: usize, stacks: bool, signed: bool)
        requires
            old(self).wf_shape(),
            n <= ps@.len(),
            forall|i: int| 0 <= i < ps@.len() ==> inside(old(self).width as int, old(self).height as int, (#[trigger] ps@[i].0 as int, ps@[i].1 as int)),
        ensures
            final(self).wf_shape(),
            final(self).same_fields(*old(self)),
            grid_units(final(self).cells()) == grid_units(old(self).cells()),
            forall|i: int, j: int|
                #![trigger final(self).cell(i, j)]
                final(self).in_bounds(i, j) ==> if ipos(ps@).subrange(0, n as int).contains((i, j)) {
                    &&& final(self).cell(i, j).state == old(self).cell(i, j).state
                    &&& final(self).cell(i, j).adjacent_mines == old(self).cell(i, j).adjacent_mines
                    &&& if stacks { 1 <= final(self).cell(i, j).mines <= 3 } else { final(self).cell(i, j).mines == 1 }
                    &&& (stacks || !signed || old(self).variant != Variant::NegativeMines) ==> final(self).cell(i, j).is_negative == old(self).cell(i, j).is_negative
                } else {
                    final(self).cell(i, j) == old(self).cell(i, j)
                },
    {
        let ghost g0 = *self;
        let mut i: usize = 0;
        while i < n
            invariant
                0 <= i <= n,
                n <= ps@.len(),
                self.wf_shape(),
                self.same_fields(g0),
                grid_units(self.cells()) == grid_units(g0.cells()),
                forall|k: int| 0 <= k < ps@.len() ==> inside(g0.width as int, g0.height as int, (#[trigger] ps@[k].0 as int, ps@[k].1 as int)),
                forall|a: int, b: int|
                    #![trigger self.cell(a, b)]
                    self.in_bounds(a, b) ==> if ipos(ps@).subrange(0, i as int).contains((a, b)) {
                        &&& self.cell(a, b).state == g0.cell(a, b).state
                        &&& self.cell(a, b).adjacent_mines == g0.cell(a, b).adjacent_mines
                        &&& if stacks { 1 <= self.cell(a, b).mines <= 3 } else { self.cell(a, b).mines == 1 }
                        &&& (stacks || !signed || g0.variant != Variant::NegativeMines) ==> self.cell(a, b).is_negative == g0.cell(a, b).is_negative
                    } else {
                        self.cell(a, b) == g0.cell(a, b)
                    },
            decreases n - i,
        {
            let (x, y) = ps[i];
            assert(ipos(ps@)[i as int] == (x as int, y as int));
            let old_neg = self.grid[y][x].is_negative;
            if stacks {
                let m = (random_below(3) + 1) as u8;
                self.set_mine(x, y, m, old_neg);
            } else {
                let neg = if signed && matches!(self.variant, Variant::NegativeMines) {
                    crate::negative_mines::roll_negative()
                } else {
                    old_neg
                };
                self.set_mine(x, y, 1, neg);
            }
            proof {
                assert forall|a: int, b: int|
                    #![trigger self.cell(a, b)]
                    self.in_bounds(a, b) implies (ipos(ps@).subrange(0, i + 1).contains((a, b)) <==> (
                    ipos(ps@).subrange(0, i as int).contains((a, b)) || (a, b) == (x as int, y as int))) by {
                    let s1 = ipos(ps@).subrange(0, i + 1);
                    let s0 = ipos(ps@).subrange(0, i as int);
                    if s1.contains((a, b)) {
                        let k = choose|k: int| 0 <= k < s1.len() && s1[k] == (a, b);
                        if k < i {
                            assert(s0[k] == (a, b));
                        }
                    }
                    if s0.contains((a, b)) {
                        let k = choose|k: int| 0 <= k < s0.len() && s0[k] == (a, b);
                        assert(s1[k] == (a, b));
                    }
                    if (a, b) == (x as int, y as int) {
                        assert(s1[i as int] == (a, b));
                    }
                }
            }
            i = i + 1;
        }
    }

    /// What placing single mines for a first click on (`fx`, `fy`) did: the
    /// distinct positions `chosen`, as many as the mine count allows (at most
    /// every cell but the clicked one), never the clicked cell, outside the
    /// 3x3 block around it whenever there are enough cells there; each gets
    /// one mine and nothing else changes.
    pub open spec fn placed_singles(self, f: Game, chosen: Seq<(usize, usize)>, fx: int, fy: int) -> bool {
        &&& chosen.no_duplicates()
        &&& (chosen.len() == self.mine_count || (chosen.len() == self.width * self.height - 1
            && self.mine_count > self.width * self.height - 1))
        &&& forall|k: int| 0 <= k < chosen.len() ==> in_pool(self.width as int, self.height as int, fx, fy, 1, (#[trigger] chosen[k].0 as int, chosen[k].1 as int))
        &&& (forall|k: int| 0 <= k < chosen.len() ==> !in_zone(fx, fy, (#[trigger] chosen[k].0 as int, chosen[k].1 as int)))
            || pool_set(self.width as int, self.height as int, fx, fy, 0).len() < self.mine_count
        &&& forall|i: int, j: int|
            #![trigger f.cell(i, j)]
            self.in_bounds(i, j) ==> f.cell(i, j).state == self.cell(i, j).state && if ipos(chosen).contains((i, j)) {
                &&& f.cell(i, j).mines == 1
                &&& self.variant != Variant::NegativeMines ==> f.cell(i, j).is_negative == self.cell(i, j).is_negative
            } else {
                f.cell(i, j).mines == self.cell(i, j).mines && f.cell(i, j).is_negative == self.cell(i, j).is_negative
            }
    }

    /// Place single mines for a first click on (`fx`, `fy`) at random
    /// positions drawn from the candidate pool, then recount every cell.
    fn place_single_mines(&mut self, fx: usize, fy: usize)
        requires
            old(self).wf_shape(),
            fx < old(self).width,
            fy < old(self).height,
        ensures
            final(self).wf_shape(),
            final(self).same_fields(*old(self)),
            grid_units(final(self).cells()) == grid_units(old(self).cells()),
            final(self).adjacency_consistent(),
            exists|chosen: Seq<(usize, usize)>| #[trigger] old(self).placed_singles(*final(self), chosen, fx as int, fy as int),
    {
        let ghost g0 = *self;
        let ghost w = self.width as int;
        let ghost h = self.height as int;
        let mut positions = self.pool(fx, fy, 0);
        let ghost zone_free = positions.len() >= self.mine_count;
        proof {
            positions@.unique_seq_to_set();
            assert(positions@.to_set() =~= pool_set(w, h, fx as int, fy as int, 0));
        }
        if positions.len() < self.mine_count {
            positions = self.pool(fx, fy, 1);
        }
        let ghost before = positions@;
        assert forall|q: (usize, usize)| #[trigger] before.contains(q) implies in_pool(w, h, fx as int, fy as int, 1, (q.0 as int, q.1 as int))
            && (zone_free ==> !in_zone(fx as int, fy as int, (q.0 as int, q.1 as int))) by {}
        shuffle_positions(&mut positions);
        proof {
            broadcast use vstd::seq_lib::group_to_multiset_ensures;
            before.lemma_multiset_has_no_duplicates();
            assert forall|q: (usize, usize)| positions@.to_multiset().contains(q) implies positions@.to_multiset().count(q) == 1 by {}
            positions@.lemma_multiset_has_no_duplicates_conv();
            assert forall|i: int| 0 <= i < positions@.len() implies #[trigger] before.contains(positions@[i]) by {
                assert(positions@.contains(positions@[i]));
                assert(positions@.to_multiset().count(positions@[i]) > 0);
                assert(before.to_multiset().count(positions@[i]) > 0);
            }
            assert forall|i: int| 0 <= i < positions@.len() implies inside(w, h, (#[trigger] positions@[i].0 as int, positions@[i].1 as int)) by {
                assert(before.contains(positions@[i]));
            }
        }
        let n = if self.mine_count < positions.len() { self.mine_count } else { positions.len() };
        self.lay_mines(&positions, n, false, true);
        let ghost laid = *self;
        self.recompute_all_adjacency();
        proof {
            let chosen = positions@.subrange(0, n as int);
            assert(ipos(positions@).subrange(0, n as int) =~= ipos(chosen));
            assert(chosen.no_duplicates());
            assert forall|k: int| 0 <= k < chosen.len() implies in_pool(w, h, fx as int, fy as int, 1, (#[trigger] chosen[k].0 as int, chosen[k].1 as int)) && (zone_free ==> !in_zone(fx as int, fy as int, (chosen[k].0 as int, chosen[k].1 as int))) by {
                assert(before.contains(positions@[k]));
            }
            assert((w - 1) * h >= 0) by (nonlinear_arith) requires w >= 1, h >= 1;
            assert(w * h >= 1) by (nonlinear_arith) requires w >= 1, h >= 1;
            assert((forall|k: int| 0 <= k < chosen.len() ==> !in_zone(fx as int, fy as int, (#[trigger] chosen[k].0 as int, chosen[k].1 as int)))
                || pool_set(w, h, fx as int, fy as int, 0).len() < g0.mine_count);
            assert forall|i: int, j: int| #![trigger self.cell(i, j)] g0.in_bounds(i, j) implies self.cell(i, j).state == g0.cell(i, j).state && if ipos(chosen).contains((i, j)) {
                &&& self.cell(i, j).mines == 1
                &&& g0.variant != Variant::NegativeMines ==> self.cell(i, j).is_negative == g0.cell(i, j).is_negative
            } else {
                self.cell(i, j).mines == g0.cell(i, j).mines && self.cell(i, j).is_negative == g0.cell(i, j).is_negative
            } by {
                assert(laid.cell(i, j).mines == self.cell(i, j).mines);
            }
            assert(g0.placed_singles(*self, chosen, fx as int, fy as int));
        }
    }

    /// What moving stacked mines out of the 3x3 block around a first click on
    /// (`fx`, `fy`) did: the mine total and all states and signs are kept,
    /// cells outside the block only gained mines where they had none, block
    /// cells only lost theirs, and the block is cleared unless every cell
    /// outside it now holds a mine.
    pub open spec fn moved_from_zone(self, f: Game, fx: int, fy: int) -> bool {
        &&& grid_mines(f.cells()) == grid_mines(self.cells())
        &&& forall|i: int, j: int|
            #![trigger f.cell(i, j)]
            self.in_bounds(i, j) ==> {
                &&& f.cell(i, j).state == self.cell(i, j).state
                &&& f.cell(i, j).is_negative == self.cell(i, j).is_negative
                &&& if in_zone(fx, fy, (i, j)) {
                    f.cell(i, j).mines == self.cell(i, j).mines || f.cell(i, j).mines == 0
                } else {
                    f.cell(i, j).mines == self.cell(i, j).mines || (self.cell(i, j).mines == 0 && 1 <= f.cell(i, j).mines <= 3)
                }
            }
        &&& (forall|i: int, j: int| #![trigger f.cell(i, j)] self.in_bounds(i, j) && in_zone(fx, fy, (i, j)) ==> f.cell(i, j).mines == 0)
            || (forall|i: int, j: int| #![trigger f.cell(i, j)] in_pool(self.width as int, self.height as int, fx, fy, 0, (i, j)) ==> f.cell(i, j).mines > 0)
    }

    /// Move the stacks in the 3x3 block around a first click on (`fx`, `fy`)
    /// to random mine-free cells outside it, as long as there are some, then
    /// recount every cell.
    #[verifier::rlimit(80)]
    fn move_stacks_from_zone(&mut self, fx: usize, fy: usize)
        requires
            old(self).wf_shape(),
            fx < old(self).width,
            fy < old(self).height,
        ensures
            final(self).wf_shape(),
            final(self).same_fields(*old(self)),
            grid_units(final(self).cells()) == grid_units(old(self).cells()),
            final(self).adjacency_consistent(),
            old(self).moved_from_zone(*final(self), fx as int, fy as int),
    {
        let ghost g0 = *self;
        let ghost w = self.width as int;
        let ghost h = self.height as int;
        let pool = self.pool(fx, fy, 0);
        let mut dest: Vec<(usize, usize)> = Vec::new();
        for i in 0..pool.len()
            invariant
                *self == g0,
                self.wf_shape(),
                w == self.width,
                h == self.height,
                pool@.no_duplicates(),
                forall|k: int| 0 <= k < pool@.len() ==> inside(w, h, (#[trigger] pool@[k].0 as int, pool@[k].1 as int)),
                forall|q: (usize, usize)| #![trigger pool@.contains(q)] pool@.contains(q) <==> in_pool(w, h, fx as int, fy as int, 0, (q.0 as int, q.1 as int)),
                dest@.no_duplicates(),
                forall|q: (usize, usize)| #![trigger dest@.contains(q)] dest@.contains(q) <==> (exists|k: int| 0 <= k < i && pool@[k] == q) && g0.cell(q.0 as int, q.1 as int).mines == 0,
        {
            let (x, y) = pool[i];
            assert(inside(w, h, (pool@[i as int].0 as int, pool@[i as int].1 as int)));
            if self.grid[y][x].mines == 0 {
                proof {
                    if dest@.contains((x, y)) {
                        let k = choose|k: int| 0 <= k < i && pool@[k] == (x, y);
                        assert(pool@[k] == pool@[i as int]);
                    }
                }
                let ghost old_d = dest@;
                dest.push((x, y));
                proof {
                    assert forall|q: (usize, usize)| #![trigger dest@.contains(q)] dest@.contains(q) <==> (exists|k: int| 0 <= k < i + 1 && pool@[k] == q) && g0.cell(q.0 as int, q.1 as int).mines == 0 by {
                        if dest@.contains(q) {
                            let j = choose|j: int| 0 <= j < dest@.len() && dest@[j] == q;
                            if j < old_d.len() {
                                assert(old_d[j] == q);
                                assert(old_d.contains(q));
                                let k = choose|k: int| 0 <= k < i && pool@[k] == q;
                                assert(0 <= k < i + 1 && pool@[k] == q);
                            } else {
                                assert(pool@[i as int] == q);
                            }
                        }
                        if (exists|k: int| 0 <= k < i + 1 && pool@[k] == q) && g0.cell(q.0 as int, q.1 as int).mines == 0 {
                            let k = choose|k: int| 0 <= k < i + 1 && pool@[k] == q;
                            if k < i {
                                assert(old_d.contains(q));
                                let j = choose|j: int| 0 <= j < old_d.len() && old_d[j] == q;
                                assert(dest@[j] == q);
                            } else {
                                assert(dest@[dest@.len() - 1] == q);
                            }
                        }
                    }
                }
            } else {
                proof {
                    assert forall|q: (usize, usize)| #![trigger dest@.contains(q)] dest@.contains(q) <==> (exists|k: int| 0 <= k < i + 1 && pool@[k] == q) && g0.cell(q.0 as int, q.1 as int).mines == 0 by {
                        if (exists|k: int| 0 <= k < i + 1 && pool@[k] == q) && g0.cell(q.0 as int, q.1 as int).mines == 0 {
                            let k = choose|k: int| 0 <= k < i + 1 && pool@[k] == q;
                            if k == i {
                                assert(g0.cell(x as int, y as int).mines != 0);
                            }
                            assert(exists|k: int| 0 <= k < i && pool@[k] == q);
                        }
                    }
                }
            }
        }
        let ghost before = dest@;
        assert forall|q: (usize, usize)| #[trigger] before.contains(q) implies in_pool(w, h, fx as int, fy as int, 0, (q.0 as int, q.1 as int)) && g0.cell(q.0 as int, q.1 as int).mines == 0 by {
            let k = choose|k: int| 0 <= k < pool@.len() && pool@[k] == q;
            assert(pool@.contains(q));
        }
        assert forall|q: (usize, usize)| in_pool(w, h, fx as int, fy as int, 0, (q.0 as int, q.1 as int)) && g0.cell(q.0 as int, q.1 as int).mines == 0 implies #[trigger] before.contains(q) by {
            assert(pool@.contains(q));
            let k = choose|k: int| 0 <= k < pool@.len() && pool@[k] == q;
        }
        shuffle_positions(&mut dest);
        proof {
            broadcast use vstd::seq_lib::group_to_multiset_ensures;
            before.lemma_multiset_has_no_duplicates();
            assert forall|q: (usize, usize)| dest@.to_multiset().contains(q) implies dest@.to_multiset().count(q) == 1 by {}
            dest@.lemma_multiset_has_no_duplicates_conv();
            assert forall|q: (usize, usize)| #[trigger] dest@.contains(q) <==> before.contains(q) by {
                assert(dest@.contains(q) <==> dest@.to_multiset().count(q) > 0);
                assert(before.contains(q) <==> before.to_multiset().count(q) > 0);
            }
        }
        let mut di: usize = 0;
        assert forall|j: int| 0 <= j < dest@.len() implies self.cell(#[trigger] dest@[j].0 as int, dest@[j].1 as int).mines == 0 by {
            assert(dest@.contains(dest@[j]));
        }
        for dy in 0..3usize
            invariant
                self.wf_shape(),
                self.same_fields(g0),
                w == self.width,
                h == self.height,
                fx < w,
                fy < h,
                grid_units(self.cells()) == grid_units(g0.cells()),
                grid_mines(self.cells()) == grid_mines(g0.cells()),
                di <= dest@.len(),
                dest@.no_duplicates(),
                forall|q: (usize, usize)| #[trigger] dest@.contains(q) <==> in_pool(w, h, fx as int, fy as int, 0, (q.0 as int, q.1 as int)) && g0.cell(q.0 as int, q.1 as int).mines == 0,
                forall|j: int| di <= j < dest@.len() ==> self.cell(#[trigger] dest@[j].0 as int, dest@[j].1 as int).mines == 0,
                forall|j: int| 0 <= j < di ==> self.cell(#[trigger] dest@[j].0 as int, dest@[j].1 as int).mines >= 1,
                forall|i: int, j: int|
                    #![trigger self.cell(i, j)]
                    self.in_bounds(i, j) ==> {
                        &&& self.cell(i, j).state == g0.cell(i, j).state
                        &&& self.cell(i, j).is_negative == g0.cell(i, j).is_negative
                        &&& self.cell(i, j).adjacent_mines == g0.cell(i, j).adjacent_mines
                        &&& if in_zone(fx as int, fy as int, (i, j)) {
                            self.cell(i, j).mines == g0.cell(i, j).mines || self.cell(i, j).mines == 0
                        } else {
                            self.cell(i, j).mines == g0.cell(i, j).mines || (g0.cell(i, j).mines == 0 && 1 <= self.cell(i, j).mines <= 3)
                        }
                    },
                forall|i: int, j: int|
                    #![trigger self.cell(i, j)]
                    self.in_bounds(i, j) && in_zone(fx as int, fy as int, (i, j)) && j - fy + 1 < dy ==> self.cell(i, j).mines == 0 || di == dest@.len(),
        {
            for dx in 0..3usize
                invariant
                    self.wf_shape(),
                    self.same_fields(g0),
                    w == self.width,
                    h == self.height,
                    fx < w,
                    fy < h,
                    dy < 3,
                    grid_units(self.cells()) == grid_units(g0.cells()),
                    grid_mines(self.cells()) == grid_mines(g0.cells()),
                    di <= dest@.len(),
                    dest@.no_duplicates(),
                    forall|q: (usize, usize)| #[trigger] dest@.contains(q) <==> in_pool(w, h, fx as int, fy as int, 0, (q.0 as int, q.1 as int)) && g0.cell(q.0 as int, q.1 as int).mines == 0,
                    forall|j: int| di <= j < dest@.len() ==> self.cell(#[trigger] dest@[j].0 as int, dest@[j].1 as int).mines == 0,
                    forall|j: int| 0 <= j < di ==> self.cell(#[trigger] dest@[j].0 as int, dest@[j].1 as int).mines >= 1,
                    forall|i: int, j: int|
                        #![trigger self.cell(i, j)]
                        self.in_bounds(i, j) ==> {
                            &&& self.cell(i, j).state == g0.cell(i, j).state
                            &&& self.cell(i, j).is_negative == g0.cell(i, j).is_negative
                            &&& self.cell(i, j).adjacent_mines == g0.cell(i, j).adjacent_mines
                            &&& if in_zone(fx as int, fy as int, (i, j)) {
                                self.cell(i, j).mines == g0.cell(i, j).mines || self.cell(i, j).mines == 0
                            } else {
                                self.cell(i, j).mines == g0.cell(i, j).mines || (g0.cell(i, j).mines == 0 && 1 <= self.cell(i, j).mines <= 3)
                            }
                        },
                    forall|i: int, j: int|
                        #![trigger self.cell(i, j)]
                        self.in_bounds(i, j) && in_zone(fx as int, fy as int, (i, j)) && (j - fy + 1 < dy || (j - fy + 1 == dy && i - fx + 1 < dx)) ==> self.cell(i, j).mines == 0 || di == dest@.len(),
            {
                if !((dx == 0 && fx == 0) || (dy == 0 && fy == 0)) && fx + dx - 1 < self.width && fy + dy - 1 < self.height {
                    let nx = fx + dx - 1;
                    let ny = fy + dy - 1;
                    let m = self.grid[ny][nx].mines;
                    assert(m == self.cell(nx as int, ny as int).mines);
                    if m > 0 && di < dest.len() {
                        let (tx, ty) = dest[di];
                        proof {
                            assert(dest@.contains(dest@[di as int]));
                            assert(in_pool(w, h, fx as int, fy as int, 0, (tx as int, ty as int)));
                        }
                        let tneg = self.grid[ty][tx].is_negative;
                        self.set_mine(tx, ty, m, tneg);
                        let sneg = self.grid[ny][nx].is_negative;
                        self.set_mine(nx, ny, 0, sneg);
                        proof {
                            assert forall|j: int| di + 1 <= j < dest@.len() implies self.cell(#[trigger] dest@[j].0 as int, dest@[j].1 as int).mines == 0 by {
                                assert(dest@[j] != dest@[di as int]);
                                assert(dest@.contains(dest@[j]));
                            }
                            assert forall|j: int| 0 <= j < di + 1 implies self.cell(#[trigger] dest@[j].0 as int, dest@[j].1 as int).mines >= 1 by {
                                assert(dest@.contains(dest@[j]));
                            }
                        }
                        di = di + 1;
                    }
                }
            }
        }
        let ghost moved = *self;
        self.recompute_all_adjacency();
        proof {
            assert forall|i: int, j: int| #![trigger self.cell(i, j)] self.in_bounds(i, j) implies self.cell(i, j).mines == moved.cell(i, j).mines by {}
            if di == dest@.len() {
                assert forall|i: int, j: int| #![trigger self.cell(i, j)] in_pool(w, h, fx as int, fy as int, 0, (i, j)) implies self.cell(i, j).mines > 0 by {
                    assert(moved.cell(i, j).mines == self.cell(i, j).mines);
                    if g0.cell(i, j).mines == 0 {
                        let q = (i as usize, j as usize);
                        assert(dest@.contains(q));
                        let k = choose|k: int| 0 <= k < dest@.len() && dest@[k] == q;
                        assert(moved.cell(dest@[k].0 as int, dest@[k].1 as int).mines >= 1);
                    }
                }
            }
            if di < dest@.len() {
                assert forall|i: int, j: int| #![trigger self.cell(i, j)] self.in_bounds(i, j) && in_zone(fx as int, fy as int, (i, j)) implies self.cell(i, j).mines == 0 by {
                    assert(moved.cell(i, j).mines == self.cell(i, j).mines);
                }
            }
            assert(g0.moved_from_zone(*self, fx as int, fy as int));
        }
    }
}


impl Game {
    /// Whether `f` is a board that placing the mines for a first click on
    /// (`fx`, `fy`) may give: Multi Mines moves its stacks out of the 3x3
    /// block around the click, the other variants draw single mines; every
    /// count is then recomputed and nothing else changes.
    pub open spec fn placed_for(self, f: Game, fx: int, fy: int) -> bool {
        &&& f.wf_shape()
        &&& f.same_fields(self)
        &&& grid_units(f.cells()) == grid_units(self.cells())
        &&& f.adjacency_consistent()
        &&& if self.variant == Variant::MultiMines {
            self.moved_from_zone(f, fx, fy)
        } else {
            exists|chosen: Seq<(usize, usize)>| #[trigger] self.placed_singles(f, chosen, fx, fy)
        }
    }

    /// Place the mines for a first click on (`fx`, `fy`).
    fn place_mines(&mut self, fx: usize, fy: usize)
        requires
            old(self).wf_shape(),
            fx < old(self).width,
            fy < old(self).height,
        ensures
            old(self).placed_for(*final(self), fx as int, fy as int),
    {
        if matches!(self.variant, Variant::MultiMines) {
            self.move_stacks_from_zone(fx, fy);
        } else {
            self.place_single_mines(fx, fy);
        }
    }

    /// A left click on (`x`, `y`). The first click of a game places the mines
    /// around it and starts play; then the click opens the cell as
    /// `open_result` says. Returns whether anything happened. Outside Multi
    /// Mines the first click never loses when the clicked cell had no mine.
    pub fn reveal_cell(&mut self, x: usize, y: usize) -> (r: bool)
        requires
            old(self).wf_shape(),
        ensures
            final(self).wf_shape(),
            old(self).counter_ok() ==> final(self).counter_ok(),
            *final(self) == (Game { grid: final(self).grid, state: final(self).state, ..*old(self) }),
            old(self).state != GameState::Ready || !old(self).in_bounds(x as int, y as int) ==> (
            final(self).cells(), final(self).state, r) == open_result(
                old(self).cells(),
                old(self).width as int,
                old(self).height as int,
                old(self).state,
                old(self).endless,
                (x as int, y as int),
            ),
            old(self).state == GameState::Ready && old(self).in_bounds(x as int, y as int) ==> exists|
                g: Game,
            |
                #[trigger] old(self).placed_for(g, x as int, y as int)
                    && (final(self).cells(), final(self).state, r) == open_result(
                    g.cells(),
                    old(self).width as int,
                    old(self).height as int,
                    GameState::Playing,
                    old(self).endless,
                    (x as int, y as int),
                ),
            old(self).state == GameState::Ready && old(self).in_bounds(x as int, y as int)
                && old(self).variant != Variant::MultiMines && old(self).cell(x as int, y as int).mines
                == 0 ==> final(self).state != GameState::Lost,
    {
        let ghost g0 = *self;
        if x >= self.width || y >= self.height {
            proof {
                self.lemma_shaped();
            }
            return false;
        }
        if matches!(self.state, GameState::Ready) {
            self.place_mines(x, y);
            let ghost placed = *self;
            self.set_game_state(GameState::Playing);
            proof {
                assert(self.cells() == placed.cells());
                assert(g0.counter_ok() ==> self.counter_ok());
            }
            let ghost started = *self;
            let r = self.open_cell(x, y);
            proof {
                assert(g0.placed_for(placed, x as int, y as int));
                if g0.variant != Variant::MultiMines && g0.cell(x as int, y as int).mines == 0 {
                    let chosen = choose|chosen: Seq<(usize, usize)>| #[trigger] g0.placed_singles(placed, chosen, x as int, y as int);
                    if ipos(chosen).contains((x as int, y as int)) {
                        let k = choose|k: int| 0 <= k < ipos(chosen).len() && ipos(chosen)[k] == (x as int, y as int);
                        assert(in_pool(g0.width as int, g0.height as int, x as int, y as int, 1, (chosen[k].0 as int, chosen[k].1 as int)));
                    }
                    assert(placed.cell(x as int, y as int).mines == 0);
                    started.lemma_shaped();
                    assert(at(started.cells(), (x as int, y as int)).mines == 0);
                }
            }
            return r;
        }
        self.open_cell(x, y)
    }
}


/// Appending a cell adds its mines to the row's.
pub proof fn lemma_row_mines_push(r: Seq<Cell>, c: Cell)
    ensures
        row_mines(r.push(c)) == row_mines(r) + c.mines,
{
    let f = |c: Cell| c.mines as int;
    assert(r.push(c).map_values(f) =~= r.map_values(f).push(f(c)));
    crate::sums::lemma_sum_push(r.map_values(f), f(c));
}

/// Appending a row adds its mines to the board's.
pub proof fn lemma_grid_mines_push(g: Seq<Seq<Cell>>, r: Seq<Cell>)
    ensures
        grid_mines(g.push(r)) == grid_mines(g) + row_mines(r),
{
    let f = |r: Seq<Cell>| row_mines(r);
    assert(g.push(r).map_values(f) =~= g.map_values(f).push(f(r)));
    crate::sums::lemma_sum_push(g.map_values(f), f(r));
}

/// A board with no flag on it has no flag units.
pub proof fn lemma_units_zero(g: Seq<Seq<Cell>>)
    requires
        forall|j: int, i: int| 0 <= j < g.len() && 0 <= i < g[j].len() ==> flag_units(#[trigger] g[j][i].state) == 0,
    ensures
        grid_units(g) == 0,
{
    let f = |c: Cell| flag_units(c.state);
    let rf = |r: Seq<Cell>| row_units(r);
    assert forall|j: int| 0 <= j < g.len() implies #[trigger] g.map_values(rf)[j] == 0 by {
        lemma_sum_bounds(g[j].map_values(f), 0, 0);
    }
    lemma_sum_bounds(g.map_values(rf), 0, 0);
}

/// A shuffled list of distinct positions is still a list of the same
/// distinct positions.
pub proof fn lemma_shuffled(before: Seq<(usize, usize)>, after: Seq<(usize, usize)>)
    requires
        before.no_duplicates(),
        after.to_multiset() == before.to_multiset(),
    ensures
        after.no_duplicates(),
        after.len() == before.len(),
        forall|q: (usize, usize)| #[trigger] after.contains(q) <==> before.contains(q),
{
    broadcast use vstd::seq_lib::group_to_multiset_ensures;
    assert(after.to_multiset().len() == after.len());
    assert(before.to_multiset().len() == before.len());
    before.lemma_multiset_has_no_duplicates();
    assert forall|q: (usize, usize)| after.to_multiset().contains(q) implies after.to_multiset().count(q) == 1 by {}
    after.lemma_multiset_has_no_duplicates_conv();
    assert forall|q: (usize, usize)| #[trigger] after.contains(q) <==> before.contains(q) by {
        assert(after.contains(q) <==> after.to_multiset().count(q) > 0);
        assert(before.contains(q) <==> before.to_multiset().count(q) > 0);
    }
}

/// The mine count a new game keeps: at most every cell but one.
pub open spec fn capped_mines(m: int, w: int, h: int) -> int {
    if m < w * h - 1 {
        m
    } else {
        w * h - 1
    }
}

impl Game {
    /// Change the mine count, keeping everything else.
    pub(crate) fn set_mine_count(&mut self, m: usize)
        requires
            old(self).wf_shape(),
            m <= 3 * MAX_CELLS,
        ensures
            final(self).wf_shape(),
            *final(self) == (Game { mine_count: m, ..*old(self) }),
            final(self).cells() == old(self).cells(),
            forall|i: int, j: int| #[trigger] final(self).cell(i, j) == old(self).cell(i, j),
    {
        let ghost g0 = *self;
        self.mine_count = m;
        assert forall|i: int, j: int| #[trigger] self.cell(i, j) == g0.cell(i, j) by {}
        assert forall|j: int| 0 <= j < self.height implies (#[trigger] self.grid@[j])@.len() == self.width by {
            assert(g0.grid@[j]@.len() == g0.width);
        }
    }

    /// The total number of mines on the board.
    pub(crate) fn total_mines(&self) -> (r: usize)
        requires
            self.wf_shape(),
        ensures
            r == grid_mines(self.cells()),
            r <= 3 * MAX_CELLS,
    {
        let w = self.width;
        let h = self.height;
        let mut t: usize = 0;
        for y in 0..h
            invariant
                self.wf_shape(),
                w == self.width,
                h == self.height,
                t == grid_mines(self.cells().take(y as int)),
                t <= 3 * (y * w),
        {
            let row = &self.grid[y];
            assert(row@.len() == w);
            let mut rt: usize = 0;
            for x in 0..w
                invariant
                    self.wf_shape(),
                    w == self.width,
                    h == self.height,
                    y < h,
                    row == &self.grid@[y as int],
                    row@.len() == w,
                    rt == row_mines(row@.take(x as int)),
                    rt <= 3 * x,
            {
                assert(self.cell(x as int, y as int).mines <= 3);
                assert(row@.take(x + 1) =~= row@.take(x as int).push(row@[x as int]));
                proof {
                    lemma_row_mines_push(row@.take(x as int), row@[x as int]);
                }
                rt = rt + row[x].mines as usize;
            }
            assert(row@.take(w as int) =~= row@);
            assert(self.cells().take(y + 1) =~= self.cells().take(y as int).push(row@));
            proof {
                lemma_grid_mines_push(self.cells().take(y as int), row@);
                assert((y + 1) * w == y * w + w) by (nonlinear_arith);
                assert((y + 1) * w <= h * w) by (nonlinear_arith) requires y < h;
                assert(h * w == w * h) by (nonlinear_arith);
            }
            t = t + rt;
        }
        assert(self.cells().take(h as int) =~= self.cells());
        assert(h * w == w * h) by (nonlinear_arith);
        t
    }

    /// What drawing single mines with no safe cell did: the distinct
    /// positions `chosen`, as many as the mine count (at most every cell),
    /// each get one mine; states and signs are kept and nothing else changes.
    pub open spec fn generated(self, f: Game, chosen: Seq<(usize, usize)>) -> bool {
        &&& chosen.no_duplicates()
        &&& chosen.len() == if self.mine_count < self.width * self.height {
            self.mine_count as int
        } else {
            self.width * self.height
        }
        &&& forall|k: int| 0 <= k < chosen.len() ==> inside(self.width as int, self.height as int, (#[trigger] chosen[k].0 as int, chosen[k].1 as int))
        &&& forall|i: int, j: int|
            #![trigger f.cell(i, j)]
            self.in_bounds(i, j) ==> {
                &&& f.cell(i, j).state == self.cell(i, j).state
                &&& f.cell(i, j).is_negative == self.cell(i, j).is_negative
                &&& f.cell(i, j).mines == if ipos(chosen).contains((i, j)) {
                    1
                } else {
                    self.cell(i, j).mines as int
                }
            }
    }

    /// Place single mines at random with no safe cell, then recount every
    /// cell (Minelayer shows the whole board from the start).
    pub fn generate(&mut self)
        requires
            old(self).wf(),
        ensures
            final(self).wf(),
            final(self).same_fields(*old(self)),
            grid_units(final(self).cells()) == grid_units(old(self).cells()),
            final(self).adjacency_consistent(),
            exists|chosen: Seq<(usize, usize)>| #[trigger] old(self).generated(*final(self), chosen),
    {
        let ghost g0 = *self;
        let mut positions = self.pool(0, 0, 2);
        let ghost before = positions@;
        shuffle_positions(&mut positions);
        proof {
            lemma_shuffled(before, positions@);
            assert forall|i: int| 0 <= i < positions@.len() implies inside(g0.width as int, g0.height as int, (#[trigger] positions@[i].0 as int, positions@[i].1 as int)) by {
                assert(positions@.contains(positions@[i]));
            }
        }
        let n = if self.mine_count < positions.len() { self.mine_count } else { positions.len() };
        self.lay_mines(&positions, n, false, false);
        let ghost laid = *self;
        self.recompute_all_adjacency();
        proof {
            let chosen = positions@.subrange(0, n as int);
            assert(ipos(positions@).subrange(0, n as int) =~= ipos(chosen));
            assert forall|i: int, j: int| #![trigger self.cell(i, j)] g0.in_bounds(i, j) implies self.cell(i, j).mines == laid.cell(i, j).mines by {}
            assert(g0.generated(*self, chosen));
        }
    }

    /// What a fresh Multi Mines board holds: stacks of one to three mines on
    /// the `n` distinct positions `chosen`, every other cell blank.
    pub open spec fn stacks_at(self, chosen: Seq<(usize, usize)>, n: int) -> bool {
        &&& chosen.no_duplicates()
        &&& chosen.len() == n
        &&& forall|k: int| 0 <= k < chosen.len() ==> inside(self.width as int, self.height as int, (#[trigger] chosen[k].0 as int, chosen[k].1 as int))
        &&& forall|i: int, j: int|
            #![trigger self.cell(i, j)]
            self.in_bounds(i, j) ==> if ipos(chosen).contains((i, j)) {
                self.cell(i, j) == Cell { mines: self.cell(i, j).mines, ..blank_cell() } && 1 <= self.cell(i, j).mines <= 3
            } else {
                self.cell(i, j) == blank_cell()
            }
    }

    /// Put stacks of one to three mines on `n` random cells of a blank
    /// board; the mine count becomes the number of mines laid.
    fn preplaced_multi_mines(&mut self, n: usize)
        requires
            old(self).wf(),
            n < old(self).width * old(self).height,
            forall|i: int, j: int| old(self).in_bounds(i, j) ==> #[trigger] old(self).cell(i, j) == blank_cell(),
        ensures
            final(self).wf(),
            *final(self) == (Game { grid: final(self).grid, mine_count: final(self).mine_count, ..*old(self) }),
            final(self).mine_count == grid_mines(final(self).cells()),
            exists|chosen: Seq<(usize, usize)>| #[trigger] final(self).stacks_at(chosen, n as int),
    {
        let ghost g0 = *self;
        let mut positions = self.pool(0, 0, 2);
        let ghost before = positions@;
        shuffle_positions(&mut positions);
        proof {
            lemma_shuffled(before, positions@);
            assert forall|i: int| 0 <= i < positions@.len() implies inside(g0.width as int, g0.height as int, (#[trigger] positions@[i].0 as int, positions@[i].1 as int)) by {
                assert(positions@.contains(positions@[i]));
            }
        }
        self.lay_mines(&positions, n, true, false);
        let total = self.total_mines();
        self.set_mine_count(total);
        proof {
            let chosen = positions@.subrange(0, n as int);
            assert(ipos(positions@).subrange(0, n as int) =~= ipos(chosen));
            assert(self.stacks_at(chosen, n as int));
        }
    }

    /// A new game of `width` by `height` cells: no mines yet (they are placed
    /// on the first click), at most every cell but one of them, the density
    /// kept for Marathon. Multi Mines lays its stacks at once, and the mine
    /// count becomes the number of mines in them.
    pub fn new(width: usize, height: usize, mine_count: usize, variant: Variant) -> (g: Self)
        requires
            1 <= width,
            1 <= height,
            width * height <= MAX_CELLS,
        ensures
            g.wf(),
            g.width == width,
            g.height == height,
            g.variant == variant,
            g.state == GameState::Ready,
            g.flags_placed == 0,
            !g.endless,
            g.density_mines == capped_mines(mine_count as int, width as int, height as int),
            g.density_cells == width * height,
            variant != Variant::MultiMines ==> g.mine_count == g.density_mines,
            variant != Variant::MultiMines ==> forall|i: int, j: int|
                g.in_bounds(i, j) ==> #[trigger] g.cell(i, j) == blank_cell(),
            variant == Variant::MultiMines ==> g.mine_count == grid_mines(g.cells()),
            variant == Variant::MultiMines ==> exists|chosen: Seq<(usize, usize)>|
                #[trigger] g.stacks_at(chosen, g.density_mines as int),
    {
        assert(width * height >= 1) by (nonlinear_arith) requires width >= 1, height >= 1;
        let cells = width * height;
        let num = if mine_count < cells - 1 { mine_count } else { cells - 1 };
        let mut grid: Vec<Vec<Cell>> = Vec::new();
        for y in 0..height
            invariant
                grid@.len() == y,
                forall|j: int| 0 <= j < y ==> (#[trigger] grid@[j])@.len() == width,
                forall|j: int, i: int| 0 <= j < y && 0 <= i < width ==> #[trigger] grid@[j]@[i] == blank_cell(),
        {
            let mut row: Vec<Cell> = Vec::new();
            for x in 0..width
                invariant
                    row@.len() == x,
                    forall|i: int| 0 <= i < x ==> #[trigger] row@[i] == blank_cell(),
            {
                row.push(Cell::new());
            }
            grid.push(row);
        }
        let mut game = Game {
            grid,
            width,
            height,
            mine_count: num,
            state: GameState::Ready,
            flags_placed: 0,
            variant,
            endless: false,
            density_mines: num,
            density_cells: cells,
        };
        proof {
            assert forall|j: int, i: int| 0 <= j < game.cells().len() && 0 <= i < game.cells()[j].len() implies flag_units(#[trigger] game.cells()[j][i].state) == 0 by {
                assert(game.grid@[j]@[i] == blank_cell());
            }
            lemma_units_zero(game.cells());
            assert(width <= MAX_CELLS) by (nonlinear_arith) requires width * height <= MAX_CELLS, height >= 1;
            assert(height <= MAX_CELLS) by (nonlinear_arith) requires width * height <= MAX_CELLS, width >= 1;
            assert(game.wf());
        }
        if matches!(variant, Variant::MultiMines) {
            game.preplaced_multi_mines(num);
            proof {
                let chosen = choose|chosen: Seq<(usize, usize)>| #[trigger] game.stacks_at(chosen, num as int);
                assert(game.density_mines == num);
                assert(game.stacks_at(chosen, game.density_mines as int));
            }
        }
        game
    }
}


/// Appending a row adds its flag units to the board's.
pub proof fn lemma_grid_units_push(g: Seq<Seq<Cell>>, r: Seq<Cell>)
    ensures
        grid_units(g.push(r)) == grid_units(g) + row_units(r),
{
    let f = |r: Seq<Cell>| row_units(r);
    assert(g.push(r).map_values(f) =~= g.map_values(f).push(f(r)));
    crate::sums::lemma_sum_push(g.map_values(f), f(r));
}

/// Putting a row on top adds its mines and flag units to the board's.
pub proof fn lemma_grid_prepend(r: Seq<Cell>, g: Seq<Seq<Cell>>)
    ensures
        grid_mines(seq![r] + g) == row_mines(r) + grid_mines(g),
        grid_units(seq![r] + g) == row_units(r) + grid_units(g),
{
    let f = |r: Seq<Cell>| row_mines(r);
    assert((seq![r] + g).map_values(f) =~= seq![f(r)] + g.map_values(f));
    crate::sums::lemma_sum_prepend(f(r), g.map_values(f));
    let u = |r: Seq<Cell>| row_units(r);
    assert((seq![r] + g).map_values(u) =~= seq![u(r)] + g.map_values(u));
    crate::sums::lemma_sum_prepend(u(r), g.map_values(u));
}

/// A board is its rows but the last, plus the last.
pub proof fn lemma_grid_last(g: Seq<Seq<Cell>>)
    requires
        g.len() >= 1,
    ensures
        grid_mines(g) == grid_mines(g.take(g.len() - 1)) + row_mines(g[g.len() - 1]),
        grid_units(g) == grid_units(g.take(g.len() - 1)) + row_units(g[g.len() - 1]),
{
    assert(g =~= g.take(g.len() - 1).push(g[g.len() - 1]));
    lemma_grid_mines_push(g.take(g.len() - 1), g[g.len() - 1]);
    lemma_grid_units_push(g.take(g.len() - 1), g[g.len() - 1]);
}

/// A row's flag units are at most the board's.
pub proof fn lemma_row_units_le(g: Seq<Seq<Cell>>, y: int)
    requires
        0 <= y < g.len(),
    ensures
        0 <= row_units(g[y]) <= grid_units(g),
{
    let f = |c: Cell| flag_units(c.state);
    let rf = |r: Seq<Cell>| row_units(r);
    assert forall|j: int| 0 <= j < g.len() implies 0 <= #[trigger] g.map_values(rf)[j] by {
        crate::sums::lemma_sum_nonneg(g[j].map_values(f));
    }
    lemma_sum_ge_elem(g.map_values(rf), y);
}

/// Appending a cell adds its flag units to the row's.
pub proof fn lemma_row_units_push(r: Seq<Cell>, c: Cell)
    ensures
        row_units(r.push(c)) == row_units(r) + flag_units(c.state),
{
    let f = |c: Cell| flag_units(c.state);
    assert(r.push(c).map_values(f) =~= r.map_values(f).push(f(c)));
    crate::sums::lemma_sum_push(r.map_values(f), f(c));
}


/// A row of a board with at most three mines per cell holds at most three
/// per cell.
pub proof fn lemma_mines_row_bound(g: Seq<Seq<Cell>>, w: int, y: int)
    requires
        0 <= y < g.len(),
        g[y].len() == w,
        forall|i: int| 0 <= i < w ==> (#[trigger] g[y][i]).mines <= 3,
    ensures
        0 <= row_mines(g[y]) <= 3 * w,
{
    let f = |c: Cell| c.mines as int;
    lemma_sum_bounds(g[y].map_values(f), 0, 3);
}


/// Boards with the same mines in the same places hold the same mine total.
pub proof fn lemma_grid_mines_same(a: Game, b: Game)
    requires
        a.wf_shape(),
        b.wf_shape(),
        b.same_layout(a),
    ensures
        grid_mines(a.cells()) == grid_mines(b.cells()),
{
    let f = |c: Cell| c.mines as int;
    let rf = |r: Seq<Cell>| row_mines(r);
    assert forall|j: int| 0 <= j < a.height implies #[trigger] a.cells().map_values(rf)[j] == b.cells().map_values(rf)[j] by {
        assert(a.grid@[j]@.len() == a.width);
        assert(b.grid@[j]@.len() == b.width);
        assert forall|i: int| 0 <= i < a.width implies #[trigger] a.cells()[j].map_values(f)[i] == b.cells()[j].map_values(f)[i] by {
            assert(a.cells()[j][i] == a.cell(i, j));
            assert(b.cells()[j][i] == b.cell(i, j));
        }
        assert(a.cells()[j].map_values(f) =~= b.cells()[j].map_values(f));
    }
    assert(a.cells().map_values(rf) =~= b.cells().map_values(rf));
}

} // verus!
