use vstd::prelude::*;
use crate::cascade::{inside, nb};
use crate::game::{Game, CellState, GameState};
use crate::sums::sum_to;
use crate::random::random_below;

verus! {

/// The sum of `f` over the eight neighbours `nb(p, 0)`, ..., `nb(p, k - 1)`.
pub open spec fn nb_partial(f: spec_fn((int, int)) -> int, p: (int, int), k: nat) -> int
    decreases k,
{
    if k == 0 {
        0
    } else {
        nb_partial(f, p, (k - 1) as nat) + f(nb(p, k - 1))
    }
}

/// The sum of `f` over the eight neighbours of `p`.
pub open spec fn nb_sum(f: spec_fn((int, int)) -> int, p: (int, int)) -> int {
    nb_partial(f, p, 8)
}

impl Game {
    /// 1 for a position on the board, 0 off it.
    pub open spec fn on_board(self, q: (int, int)) -> int {
        if self.in_bounds(q.0, q.1) {
            1
        } else {
            0
        }
    }

    /// The mines on a position, 0 off the board.
    pub open spec fn mines_on(self, q: (int, int)) -> int {
        if self.in_bounds(q.0, q.1) {
            self.cell(q.0, q.1).mines as int
        } else {
            0
        }
    }

    /// The count shown by a position, 0 off the board.
    pub open spec fn count_on(self, q: (int, int)) -> int {
        if self.in_bounds(q.0, q.1) {
            self.cell(q.0, q.1).adjacent_mines as int
        } else {
            0
        }
    }

    /// A position on the board that is revealed.
    pub open spec fn revealed_on(self, q: (int, int)) -> bool {
        self.in_bounds(q.0, q.1) && self.cell(q.0, q.1).state == CellState::Revealed
    }

    /// A position on the board that holds a mine.
    pub open spec fn mined_on(self, q: (int, int)) -> bool {
        self.in_bounds(q.0, q.1) && self.cell(q.0, q.1).mines > 0
    }

    /// The number shown in Relative: a cell's count less the count of the
    /// cell above it; the top row shows its count as it is.
    pub open spec fn spec_relative_number(self, x: int, y: int) -> int {
        if y == 0 {
            self.cell(x, y).adjacent_mines as int
        } else {
            self.cell(x, y).adjacent_mines - self.cell(x, y - 1).adjacent_mines
        }
    }

    /// The number that Relative shows on (`x`, `y`).
    pub fn relative_number(&self, x: usize, y: usize) -> (r: i8)
        requires
            self.wf_shape(),
            self.in_bounds(x as int, y as int),
            -128 <= self.spec_relative_number(x as int, y as int) <= 127,
        ensures
            r == self.spec_relative_number(x as int, y as int),
            y == 0 ==> r == self.cell(x as int, 0).adjacent_mines,
            y >= 1 ==> r + self.cell(x as int, y - 1).adjacent_mines == self.cell(x as int, y as int).adjacent_mines,
    {
        assert(self.grid@[y as int]@.len() == self.width);
        if y == 0 {
            self.grid[y][x].adjacent_mines
        } else {
            assert(self.grid@[y - 1]@.len() == self.width);
            self.grid[y][x].adjacent_mines - self.grid[y - 1][x].adjacent_mines
        }
    }

    /// Whether the `k`-th neighbour of (`x`, `y`) is on the board and passes
    /// `test`: 0 revealed, 1 mined.
    fn neighbour_is(&self, x: usize, y: usize, k: usize, test: u8) -> (r: bool)
        requires
            self.wf_shape(),
            self.in_bounds(x as int, y as int),
            k < 8,
        ensures
            test == 0 ==> r == self.revealed_on(nb((x as int, y as int), k as int)),
            test != 0 ==> r == self.mined_on(nb((x as int, y as int), k as int)),
    {
        match self.neighbor(x, y, k) {
            Some((nx, ny)) => {
                assert(self.grid@[ny as int]@.len() == self.width);
                let c = self.grid[ny][nx];
                if test == 0 {
                    matches!(c.state, CellState::Revealed)
                } else {
                    c.mines > 0
                }
            },
            None => false,
        }
    }

    /// Whether some neighbour of (`x`, `y`) passes `test` (0 revealed, 1 mined).
    fn any_neighbour(&self, x: usize, y: usize, test: u8) -> (r: bool)
        requires
            self.wf_shape(),
            self.in_bounds(x as int, y as int),
        ensures
            test == 0 ==> (r <==> exists|k: int| 0 <= k < 8 && self.revealed_on(#[trigger] nb((x as int, y as int), k))),
            test != 0 ==> (r <==> exists|k: int| 0 <= k < 8 && self.mined_on(#[trigger] nb((x as int, y as int), k))),
    {
        let mut k: usize = 0;
        while k < 8
            invariant
                0 <= k <= 8,
                self.wf_shape(),
                self.in_bounds(x as int, y as int),
                test == 0 ==> forall|j: int| 0 <= j < k ==> !self.revealed_on(#[trigger] nb((x as int, y as int), j)),
                test != 0 ==> forall|j: int| 0 <= j < k ==> !self.mined_on(#[trigger] nb((x as int, y as int), j)),
            decreases 8 - k,
        {
            if self.neighbour_is(x, y, k, test) {
                return true;
            }
            k = k + 1;
        }
        false
    }

    /// Whether (`x`, `y`) borders a revealed cell (Chain's frontier).
    pub fn on_frontier(&self, x: usize, y: usize) -> (r: bool)
        requires
            self.wf_shape(),
            self.in_bounds(x as int, y as int),
        ensures
            r <==> exists|k: int| 0 <= k < 8 && self.revealed_on(#[trigger] nb((x as int, y as int), k)),
    {
        self.any_neighbour(x, y, 0)
    }

    /// Whether (`x`, `y`) borders a mine of either sign (Negative Mines
    /// marks such zeros apart).
    pub fn has_adjacent_mine(&self, x: usize, y: usize) -> (r: bool)
        requires
            self.wf_shape(),
            self.in_bounds(x as int, y as int),
        ensures
            r <==> exists|k: int| 0 <= k < 8 && self.mined_on(#[trigger] nb((x as int, y as int), k)),
    {
        self.any_neighbour(x, y, 1)
    }

    /// The number of neighbours of (`x`, `y`) on the board.
    pub fn neighbor_count(&self, x: usize, y: usize) -> (r: u8)
        requires
            self.wf_shape(),
            self.in_bounds(x as int, y as int),
        ensures
            r == nb_sum(|q: (int, int)| self.on_board(q), (x as int, y as int)),
            r <= 8,
    {
        let ghost f = |q: (int, int)| self.on_board(q);
        let ghost p = (x as int, y as int);
        let mut n: u8 = 0;
        let mut k: usize = 0;
        while k < 8
            invariant
                0 <= k <= 8,
                self.wf_shape(),
                self.in_bounds(x as int, y as int),
                f == (|q: (int, int)| self.on_board(q)),
                p == (x as int, y as int),
                n == nb_partial(f, p, k as nat),
                n <= k,
            decreases 8 - k,
        {
            proof {
                assert(nb_partial(f, p, (k + 1) as nat) == nb_partial(f, p, k as nat) + f(nb(p, k as int)));
            }
            match self.neighbor(x, y, k) {
                Some(_) => {
                    n = n + 1;
                },
                None => {},
            }
            k = k + 1;
        }
        n
    }

    /// The sum of the counts of the eight neighbours of (`x`, `y`) (Average
    /// shows it divided by eight).
    pub fn neighbour_count_sum(&self, x: usize, y: usize) -> (r: i32)
        requires
            self.wf_shape(),
            self.in_bounds(x as int, y as int),
        ensures
            r == nb_sum(|q: (int, int)| self.count_on(q), (x as int, y as int)),
    {
        let ghost f = |q: (int, int)| self.count_on(q);
        let ghost p = (x as int, y as int);
        let mut s: i32 = 0;
        let mut k: usize = 0;
        while k < 8
            invariant
                0 <= k <= 8,
                self.wf_shape(),
                self.in_bounds(x as int, y as int),
                f == (|q: (int, int)| self.count_on(q)),
                p == (x as int, y as int),
                s == nb_partial(f, p, k as nat),
                -128 * k <= s <= 127 * k,
            decreases 8 - k,
        {
            proof {
                assert(nb_partial(f, p, (k + 1) as nat) == nb_partial(f, p, k as nat) + f(nb(p, k as int)));
            }
            match self.neighbor(x, y, k) {
                Some((nx, ny)) => {
                    assert(self.grid@[ny as int]@.len() == self.width);
                    s = s + self.grid[ny][nx].adjacent_mines as i32;
                },
                None => {},
            }
            k = k + 1;
        }
        s
    }
}

/// The number Subtract shows: how many neighbours are safe, that is the
/// neighbour count less the mine count, never below zero (a negative count
/// shows zero).
pub open spec fn spec_subtract_number(neighbours: int, adjacent: int) -> int {
    if adjacent < 0 || adjacent >= neighbours {
        0
    } else {
        neighbours - adjacent
    }
}

/// The number Subtract shows for a cell with `neighbours` neighbours on the
/// board and count `adjacent`.
pub fn subtract_number(neighbours: u8, adjacent: i8) -> (r: u8)
    ensures
        r == spec_subtract_number(neighbours as int, adjacent as int),
        0 <= adjacent <= neighbours ==> r + adjacent == neighbours,
        adjacent < 0 || adjacent >= neighbours ==> r == 0,
{
    if adjacent < 0 || adjacent as u8 >= neighbours {
        0
    } else {
        neighbours - adjacent as u8
    }
}

/// The four directions of Offset.
#[derive(Clone, Copy, Debug, PartialEq, Eq, Structural)]
pub enum Dir {
    N,
    S,
    E,
    W,
}

impl Dir {
    /// A direction drawn uniformly at random.
    pub fn random() -> (d: Dir) {
        match random_below(4) {
            0 => Dir::N,
            1 => Dir::S,
            2 => Dir::E,
            _ => Dir::W,
        }
    }

    /// The offset of the counted block's centre from the cell, each
    /// coordinate plus one (so 0, 1, 2 stand for -1, 0, 1).
    pub open spec fn spec_center_offset(self) -> (int, int) {
        match self {
            Dir::N => (1, 0),
            Dir::S => (1, 2),
            Dir::E => (2, 1),
            Dir::W => (0, 1),
        }
    }

    /// The offset of the counted block's centre, each coordinate plus one.
    pub fn center_offset(self) -> (r: (usize, usize))
        ensures
            r.0 == self.spec_center_offset().0,
            r.1 == self.spec_center_offset().1,
            r.0 <= 2,
            r.1 <= 2,
    {
        match self {
            Dir::N => (1, 0),
            Dir::S => (1, 2),
            Dir::E => (2, 1),
            Dir::W => (0, 1),
        }
    }

    /// The arrow drawn for the direction.
    pub fn arrow(self) -> (s: &'static str)
        ensures
            s@ == match self {
                Dir::N => "↑"@,
                Dir::S => "↓"@,
                Dir::E => "→"@,
                Dir::W => "←"@,
            },
    {
        match self {
            Dir::N => "↑",
            Dir::S => "↓",
            Dir::E => "→",
            Dir::W => "←",
        }
    }
}

impl Game {
    /// The mines in the 3x3 block centred on `c` (which may lie off the board).
    pub open spec fn block_mines(self, c: (int, int)) -> int {
        self.mines_on(c) + nb_sum(|q: (int, int)| self.mines_on(q), c)
    }

    /// The mines at (`sx` - 2, `sy` - 2), 0 off the board.
    fn mines_shifted(&self, sx: usize, sy: usize) -> (r: u8)
        requires
            self.wf_shape(),
        ensures
            r == self.mines_on((sx - 2, sy - 2)),
            r <= 3,
    {
        if sx < 2 || sy < 2 || sx - 2 >= self.width || sy - 2 >= self.height {
            return 0;
        }
        assert(self.grid@[sy - 2]@.len() == self.width);
        let m = self.grid[sy - 2][sx - 2].mines;
        assert(self.cell(sx - 2, sy - 2).mines <= 3);
        m
    }

    /// The mines in the 3x3 block centred on (`cx` - 1, `cy` - 1).
    fn block_count(&self, cx: usize, cy: usize) -> (r: u8)
        requires
            self.wf_shape(),
            cx <= self.width + 1,
            cy <= self.height + 1,
        ensures
            r == self.block_mines((cx - 1, cy - 1)),
            r <= 27,
    {
        let ghost c = (cx - 1, cy - 1);
        let a = self.mines_shifted(cx, cy);
        let b = self.mines_shifted(cx + 1, cy);
        let d = self.mines_shifted(cx + 2, cy);
        let e = self.mines_shifted(cx, cy + 1);
        let f = self.mines_shifted(cx + 1, cy + 1);
        let g = self.mines_shifted(cx + 2, cy + 1);
        let h = self.mines_shifted(cx, cy + 2);
        let i = self.mines_shifted(cx + 1, cy + 2);
        let j = self.mines_shifted(cx + 2, cy + 2);
        proof {
            let mf = |q: (int, int)| self.mines_on(q);
            reveal_with_fuel(nb_partial, 9);
            assert(nb_sum(mf, c) == a + b + d + e + g + h + i + j);
        }
        a + b + d + e + f + g + h + i + j
    }

    /// The mines that Offset shows on (`x`, `y`): those in the 3x3 block
    /// centred one cell away in direction `dir`.
    pub fn count_offset(&self, x: usize, y: usize, dir: Dir) -> (r: u8)
        requires
            self.wf_shape(),
            self.in_bounds(x as int, y as int),
        ensures
            r == self.block_mines((x + dir.spec_center_offset().0 - 1, y + dir.spec_center_offset().1 - 1)),
            dir == Dir::N ==> r == self.block_mines((x as int, y - 1)),
            dir == Dir::S ==> r == self.block_mines((x as int, y + 1)),
            dir == Dir::E ==> r == self.block_mines((x + 1, y as int)),
            dir == Dir::W ==> r == self.block_mines((x - 1, y as int)),
    {
        let (ox, oy) = dir.center_offset();
        self.block_count(x + ox, y + oy)
    }

    /// The mines on (`x`, `y`) and its eight neighbours.
    pub fn closed_count(&self, x: usize, y: usize) -> (r: u8)
        requires
            self.wf_shape(),
            self.in_bounds(x as int, y as int),
        ensures
            r == self.block_mines((x as int, y as int)),
            r <= 27,
    {
        self.block_count(x + 1, y + 1)
    }
}

impl Game {
    /// Whether a hidden cell lies in the 5x5 block centred on `last`.
    pub open spec fn spec_any_in_5x5(self, last: (int, int)) -> bool {
        exists|i: int, j: int|
            self.in_bounds(i, j) && last.0 - 2 <= i <= last.0 + 2 && last.1 - 2 <= j <= last.1 + 2
                && #[trigger] self.cell(i, j).state == CellState::Hidden
    }

    /// Whether a hidden cell lies in the 5x5 block centred on `last`.
    pub fn any_in_5x5(&self, last: (usize, usize)) -> (r: bool)
        requires
            self.wf_shape(),
        ensures
            r == self.spec_any_in_5x5((last.0 as int, last.1 as int)),
    {
        let ghost l = (last.0 as int, last.1 as int);
        let h = self.height;
        let w = self.width;
        for y in 0..h
            invariant
                self.wf_shape(),
                h == self.height,
                w == self.width,
                l == (last.0 as int, last.1 as int),
                forall|i: int, j: int|
                    self.in_bounds(i, j) && j < y && l.0 - 2 <= i <= l.0 + 2 && l.1 - 2 <= j <= l.1 + 2
                        ==> #[trigger] self.cell(i, j).state != CellState::Hidden,
        {
            assert(self.grid@[y as int]@.len() == w);
            for x in 0..w
                invariant
                    self.wf_shape(),
                    h == self.height,
                    w == self.width,
                    y < h,
                    l == (last.0 as int, last.1 as int),
                    self.grid@[y as int]@.len() == w,
                    forall|i: int, j: int|
                        self.in_bounds(i, j) && (j < y || (j == y && i < x)) && l.0 - 2 <= i <= l.0 + 2
                            && l.1 - 2 <= j <= l.1 + 2 ==> #[trigger] self.cell(i, j).state != CellState::Hidden,
            {
                let dx = if x >= last.0 { x - last.0 } else { last.0 - x };
                let dy = if y >= last.1 { y - last.1 } else { last.1 - y };
                let c = self.grid[y][x];
                assert(c == self.cell(x as int, y as int));
                if dx <= 2 && dy <= 2 && matches!(c.state, CellState::Hidden) {
                    return true;
                }
            }
        }
        false
    }

    /// Whether Chain lets the player click (`x`, `y`): anywhere before the
    /// first click; never a revealed cell; otherwise within the 5x5 zone
    /// around the last click, or next to a revealed cell.
    pub open spec fn spec_is_reachable(self, x: int, y: int, last_pos: Option<(usize, usize)>) -> bool {
        if self.state == GameState::Ready {
            true
        } else if self.cell(x, y).state == CellState::Revealed {
            false
        } else {
            (exists|k: int| 0 <= k < 8 && self.revealed_on(#[trigger] nb((x, y), k))) || match last_pos {
                None => false,
                Some(l) => l.0 - 2 <= x <= l.0 + 2 && l.1 - 2 <= y <= l.1 + 2,
            }
        }
    }

    /// Whether Chain lets the player click (`x`, `y`). Whether the zone
    /// still holds a hidden cell (`_has_5x5`) does not enter the rule.
    pub fn is_reachable(&self, x: usize, y: usize, last_pos: Option<(usize, usize)>, _has_5x5: bool) -> (r: bool)
        requires
            self.wf_shape(),
            self.in_bounds(x as int, y as int),
        ensures
            r == self.spec_is_reachable(x as int, y as int, last_pos),
            self.state == GameState::Ready ==> r,
            self.state != GameState::Ready && self.cell(x as int, y as int).state == CellState::Revealed ==> !r,
            self.state != GameState::Ready && self.cell(x as int, y as int).state != CellState::Revealed && (exists|k: int|
                0 <= k < 8 && self.revealed_on(#[trigger] nb((x as int, y as int), k))) ==> r,
            self.state != GameState::Ready && self.cell(x as int, y as int).state != CellState::Revealed && (match last_pos {
                None => false,
                Some(l) => l.0 - 2 <= x <= l.0 + 2 && l.1 - 2 <= y <= l.1 + 2,
            }) ==> r,
            self.state != GameState::Ready && (forall|k: int|
                0 <= k < 8 ==> !self.revealed_on(#[trigger] nb((x as int, y as int), k))) && !(match last_pos {
                None => false,
                Some(l) => l.0 - 2 <= x <= l.0 + 2 && l.1 - 2 <= y <= l.1 + 2,
            }) ==> !r,
    {
        if matches!(self.state, GameState::Ready) {
            return true;
        }
        assert(self.grid@[y as int]@.len() == self.width);
        if matches!(self.grid[y][x].state, CellState::Revealed) {
            return false;
        }
        let in_zone = match last_pos {
            None => false,
            Some((lx, ly)) => {
                let dx = if x >= lx { x - lx } else { lx - x };
                let dy = if y >= ly { y - ly } else { ly - y };
                dx <= 2 && dy <= 2
            },
        };
        in_zone || self.on_frontier(x, y)
    }
}

/// Subtract shows the neighbours that hold no mine: with a count from zero
/// up to the number of neighbours, the shown number and the count add up to
/// the neighbours; a count out of that range shows nothing.
pub proof fn law_subtract_counts_the_rest(neighbours: int, adjacent: int)
    ensures
        0 <= adjacent <= neighbours ==> spec_subtract_number(neighbours, adjacent) + adjacent == neighbours,
        adjacent < 0 ==> spec_subtract_number(neighbours, adjacent) == 0,
        0 <= spec_subtract_number(neighbours, adjacent),
{
}

impl Game {
    /// Relative shows how a cell's count differs from the count of the cell
    /// directly above it: below the top row, the shown number plus the
    /// count above is the cell's own count.
    pub proof fn law_relative_against_above(self, x: int, y: int)
        requires
            1 <= y,
        ensures
            self.spec_relative_number(x, y) + self.cell(x, y - 1).adjacent_mines == self.cell(x, y).adjacent_mines,
    {
    }

    /// Read down a column, the Relative numbers add up to the count of the
    /// cell where the reading stops.
    pub proof fn law_relative_column_sum(self, x: int, y: int)
        requires
            0 <= y,
        ensures
            sum_to(|j: int| self.spec_relative_number(x, j), y + 1) == self.cell(x, y).adjacent_mines,
        decreases y,
    {
        let f = |j: int| self.spec_relative_number(x, j);
        assert(sum_to(f, y + 1) == sum_to(f, y) + f(y));
        if y > 0 {
            self.law_relative_column_sum(x, y - 1);
            assert(sum_to(f, y) == self.cell(x, y - 1).adjacent_mines);
        } else {
            assert(sum_to(f, 0) == 0);
        }
    }

    /// Before the first click, Chain lets the player click any cell.
    pub proof fn law_chain_first_click_anywhere(self, x: int, y: int, last_pos: Option<(usize, usize)>)
        requires
            self.state == GameState::Ready,
        ensures
            self.spec_is_reachable(x, y, last_pos),
    {
    }

    /// Once play is on, Chain never offers an open cell, always offers a
    /// covered cell next to an open one, and always offers a covered cell
    /// within two rows and two columns of the last click.
    pub proof fn law_chain_reach(self, x: int, y: int, last_pos: Option<(usize, usize)>, k: int)
        requires
            self.state != GameState::Ready,
        ensures
            self.cell(x, y).state == CellState::Revealed ==> !self.spec_is_reachable(x, y, last_pos),
            self.cell(x, y).state != CellState::Revealed && 0 <= k < 8 && self.revealed_on(nb((x, y), k))
                ==> self.spec_is_reachable(x, y, last_pos),
            self.cell(x, y).state != CellState::Revealed && (match last_pos {
                None => false,
                Some(l) => l.0 - 2 <= x <= l.0 + 2 && l.1 - 2 <= y <= l.1 + 2,
            }) ==> self.spec_is_reachable(x, y, last_pos),
            (forall|j: int| 0 <= j < 8 ==> !self.revealed_on(#[trigger] nb((x, y), j))) && !(match last_pos {
                None => false,
                Some(l) => l.0 - 2 <= x <= l.0 + 2 && l.1 - 2 <= y <= l.1 + 2,
            }) ==> !self.spec_is_reachable(x, y, last_pos),
    {
    }
}

impl Game {
    /// A cell away from the edges has eight neighbours on the board, and a
    /// corner of a board at least two cells each way has three.
    pub proof fn law_neighbours_on_board(self, x: int, y: int)
        ensures
            1 <= x < self.width - 1 && 1 <= y < self.height - 1 ==> nb_sum(|q: (int, int)| self.on_board(q), (x, y)) == 8,
            x == 0 && y == 0 && 2 <= self.width && 2 <= self.height ==> nb_sum(|q: (int, int)| self.on_board(q), (x, y)) == 3,
    {
        reveal_with_fuel(nb_partial, 9);
    }
}

} // verus!
