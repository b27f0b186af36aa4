use vstd::prelude::*;
use crate::cascade::{inside, nb, neighbor_of, open_result, at, cascaded, in_cascade, cascade_path, opens, revealed_at};
use crate::display::{nb_partial, nb_sum};
use crate::game::{Game, Cell, CellState, GameState, MAX_CELLS, candidate_positions, in_pool, pool_set, lemma_shuffled};
use crate::random::shuffle_positions;
use crate::sums::{grid_count, lemma_grid_count_set, lemma_grid_count_bounds, lemma_grid_count_same, lemma_grid_count_zero};
use crate::variant::Variant;

verus! {

/// Side of the mini-board behind each outer cell.
pub const INNER_SIZE: usize = 5;
/// Mines of each mini-board.
pub const INNER_MINES: usize = 5;

/// What the player sees of an outer cell.
#[derive(Clone, Copy, Debug, PartialEq, Eq, Structural)]
pub enum Outer {
    Hidden,
    Flagged,
    Revealed,
}

/// A cell of the outer board of Nested.
#[derive(Clone, Copy, Debug, PartialEq, Eq, Structural)]
pub struct OuterCell {
    pub is_mine: bool,
    /// Mines among the neighbours (set for mine-free cells).
    pub adjacent: u8,
    pub state: Outer,
}

/// The outer board of Nested: a cell opens only when the mini-board behind
/// it is won; losing a mini-board loses the game.
pub struct OuterBoard {
    pub w: usize,
    pub h: usize,
    pub grid: Vec<Vec<OuterCell>>,
    pub state: GameState,
    pub mine_count: usize,
    pub flags: usize,
}

/// An outer cell as a classic cell.
pub open spec fn as_cell(c: OuterCell) -> Cell {
    Cell {
        state: match c.state {
            Outer::Hidden => CellState::Hidden,
            Outer::Flagged => CellState::Flagged,
            Outer::Revealed => CellState::Revealed,
        },
        mines: if c.is_mine {
            1
        } else {
            0
        },
        is_negative: false,
        adjacent_mines: c.adjacent as i8,
    }
}

/// 1 for a flagged outer cell.
pub open spec fn outer_flag(c: OuterCell) -> int {
    if c.state == Outer::Flagged {
        1
    } else {
        0
    }
}

impl OuterBoard {
    pub open spec fn cells(self) -> Seq<Seq<OuterCell>> {
        self.grid@.map_values(|r: Vec<OuterCell>| r@)
    }

    pub open spec fn cell(self, x: int, y: int) -> OuterCell {
        self.grid@[y]@[x]
    }

    /// The board as classic cells.
    pub open spec fn classic(self) -> Seq<Seq<Cell>> {
        Seq::new(self.h as nat, |y: int| Seq::new(self.w as nat, |x: int| as_cell(self.cell(x, y))))
    }

    /// 1 where `q` is on the board and holds a mine.
    pub open spec fn mine_here(self, q: (int, int)) -> int {
        if inside(self.w as int, self.h as int, q) && self.cell(q.0, q.1).is_mine {
            1
        } else {
            0
        }
    }

    /// 1 where `q` is on the board and flagged.
    pub open spec fn flag_here(self, q: (int, int)) -> int {
        if inside(self.w as int, self.h as int, q) && self.cell(q.0, q.1).state == Outer::Flagged {
            1
        } else {
            0
        }
    }

    /// Shape of the board.
    pub open spec fn wf_shape(self) -> bool {
        &&& 1 <= self.w <= MAX_CELLS
        &&& 1 <= self.h <= MAX_CELLS
        &&& self.w * self.h <= MAX_CELLS
        &&& self.grid@.len() == self.h
        &&& forall|j: int| 0 <= j < self.h ==> (#[trigger] self.grid@[j])@.len() == self.w
        &&& forall|i: int, j: int| 0 <= i < self.w && 0 <= j < self.h ==> #[trigger] self.cell(i, j).adjacent <= 8
    }

    /// The shape, the flag counter equal to the flags on the board while the
    /// game is on and never above the cells, and no mine, count or open cell before the
    /// first mini-board is won.
    pub open spec fn wf(self) -> bool {
        &&& self.wf_shape()
        &&& self.flags <= self.w * self.h
        &&& (self.state == GameState::Ready || self.state == GameState::Playing) ==> self.flags == grid_count(
            self.cells(),
            |c: OuterCell| outer_flag(c),
        )
        &&& self.mine_count <= MAX_CELLS
        &&& self.state == GameState::Ready ==> forall|i: int, j: int|
            0 <= i < self.w && 0 <= j < self.h ==> !(#[trigger] self.cell(i, j)).is_mine && self.cell(i, j).adjacent == 0
                && self.cell(i, j).state != Outer::Revealed
    }

    /// A fresh outer board: every cell hidden, no mine before the first
    /// mini-board is won.
    pub fn new(w: usize, h: usize, mine_count: usize) -> (b: OuterBoard)
        requires
            1 <= w,
            1 <= h,
            w * h <= MAX_CELLS,
            mine_count <= MAX_CELLS,
        ensures
            b.wf(),
            b.w == w,
            b.h == h,
            b.state == GameState::Ready,
            b.mine_count == mine_count,
            b.flags == 0,
            forall|i: int, j: int|
                0 <= i < w && 0 <= j < h ==> #[trigger] b.cell(i, j) == (OuterCell { is_mine: false, adjacent: 0, state: Outer::Hidden }),
    {
        let mut grid: Vec<Vec<OuterCell>> = Vec::new();
        for y in 0..h
            invariant
                grid@.len() == y,
                forall|j: int| 0 <= j < y ==> (#[trigger] grid@[j])@.len() == w,
                forall|i: int, j: int|
                    0 <= j < y && 0 <= i < w ==> #[trigger] grid@[j]@[i] == (OuterCell { is_mine: false, adjacent: 0, state: Outer::Hidden }),
        {
            let mut row: Vec<OuterCell> = Vec::new();
            for x in 0..w
                invariant
                    row@.len() == x,
                    forall|i: int| 0 <= i < x ==> #[trigger] row@[i] == (OuterCell { is_mine: false, adjacent: 0, state: Outer::Hidden }),
            {
                row.push(OuterCell { is_mine: false, adjacent: 0, state: Outer::Hidden });
            }
            grid.push(row);
        }
        let b = OuterBoard { w, h, grid, state: GameState::Ready, mine_count, flags: 0 };
        proof {
            assert(w <= MAX_CELLS) by (nonlinear_arith)
                requires
                    w * h <= MAX_CELLS,
                    h >= 1,
            ;
            assert(h <= MAX_CELLS) by (nonlinear_arith)
                requires
                    w * h <= MAX_CELLS,
                    w >= 1,
            ;
            assert forall|jj: int, i: int| 0 <= jj < b.cells().len() && 0 <= i < b.cells()[jj].len() implies outer_flag(
            #[trigger] b.cells()[jj][i]) == 0 by {
                assert(b.grid@[jj]@.len() == w);
            }
            lemma_grid_count_zero(b.cells(), |c: OuterCell| outer_flag(c));
        }
        b
    }
}

impl OuterBoard {
    /// Replace one cell, keeping everything else.
    fn put(&mut self, x: usize, y: usize, c: OuterCell)
        requires
            old(self).wf_shape(),
            x < old(self).w,
            y < old(self).h,
            c.adjacent <= 8,
        ensures
            final(self).wf_shape(),
            *final(self) == (OuterBoard { grid: final(self).grid, ..*old(self) }),
            final(self).cells() == old(self).cells().update(y as int, old(self).cells()[y as int].update(x as int, c)),
            forall|i: int, j: int|
                #![trigger final(self).cell(i, j)]
                0 <= i < old(self).w && 0 <= j < old(self).h ==> final(self).cell(i, j) == if i == x && j == y {
                    c
                } else {
                    old(self).cell(i, j)
                },
    {
        let ghost g0 = *self;
        let mut row = self.grid[y].clone();
        proof {
            assert(row@ =~= g0.grid@[y as int]@);
        }
        row.set(x, c);
        self.grid.set(y, row);
        proof {
            assert(self.cells() =~= g0.cells().update(y as int, g0.cells()[y as int].update(x as int, c)));
            assert forall|j: int| 0 <= j < self.h implies (#[trigger] self.grid@[j])@.len() == self.w by {
                assert(g0.grid@[j]@.len() == g0.w);
            }
            assert forall|i: int, j: int| 0 <= i < self.w && 0 <= j < self.h implies #[trigger] self.cell(i, j).adjacent <= 8 by {
                if i != x || j != y {
                    assert(self.cell(i, j) == g0.cell(i, j));
                }
            }
        }
    }

    /// The mines around (`x`, `y`).
    fn count_around(&self, x: usize, y: usize) -> (r: u8)
        requires
            self.wf_shape(),
            x < self.w,
            y < self.h,
        ensures
            r == nb_sum(|q: (int, int)| self.mine_here(q), (x as int, y as int)),
            r <= 8,
    {
        let ghost p = (x as int, y as int);
        let mut n: u8 = 0;
        for k in 0..8usize
            invariant
                self.wf_shape(),
                x < self.w,
                y < self.h,
                p == (x as int, y as int),
                n == nb_partial(|q: (int, int)| self.mine_here(q), p, k as nat),
                n <= k,
        {
            match neighbor_of(self.w, self.h, x, y, k) {
                Some((nx, ny)) => {
                    assert(self.grid@[ny as int]@.len() == self.w);
                    if self.grid[ny][nx].is_mine {
                        n = n + 1;
                    }
                },
                None => {},
            }
        }
        n
    }

    /// The mines fit on the cells outside the 3x3 block around (`sx`,
    /// `sy`), where a first win there places them.
    pub open spec fn room_for_mines(self, sx: int, sy: int) -> bool {
        self.mine_count <= pool_set(self.w as int, self.h as int, sx, sy, 0).len()
    }

    /// What placing the mines for a first win on (`sx`, `sy`) did: `perm`
    /// lists every cell outside the 3x3 block around it once, in random
    /// order; its first mine-count entries became mines; every mine-free
    /// cell counts the mines around it; play starts.
    pub open spec fn placed(self, f: OuterBoard, perm: Seq<(usize, usize)>, sx: int, sy: int) -> bool {
        let n = self.mine_count as int;
        &&& perm.no_duplicates()
        &&& n <= perm.len()
        &&& forall|q: (usize, usize)|
            #![trigger perm.contains(q)]
            perm.contains(q) <==> in_pool(self.w as int, self.h as int, sx, sy, 0, (q.0 as int, q.1 as int))
        &&& f == (OuterBoard { grid: f.grid, state: GameState::Playing, mine_count: n as usize, ..self })
        &&& f.wf_shape()
        &&& forall|i: int, j: int|
            0 <= i < self.w && 0 <= j < self.h ==> {
                let c = #[trigger] f.cell(i, j);
                &&& c.state == self.cell(i, j).state
                &&& c.is_mine == perm.take(n).contains((i as usize, j as usize))
                &&& !c.is_mine ==> c.adjacent == nb_sum(|q: (int, int)| f.mine_here(q), (i, j))
                &&& c.is_mine ==> c.adjacent == self.cell(i, j).adjacent
            }
    }

    /// Place the mines for a first win on (`sx`, `sy`): as many random
    /// cells outside the 3x3 block around it as the mine count; then count
    /// every mine-free cell's mines and start play.
    fn place_mines(&mut self, sx: usize, sy: usize)
        requires
            old(self).wf(),
            old(self).state == GameState::Ready,
            sx < old(self).w,
            sy < old(self).h,
            old(self).room_for_mines(sx as int, sy as int),
        ensures
            exists|perm: Seq<(usize, usize)>| #[trigger] old(self).placed(*final(self), perm, sx as int, sy as int),
    {
        let ghost g0 = *self;
        let mut positions = candidate_positions(self.w, self.h, sx, sy, 0);
        let ghost before = positions@;
        shuffle_positions(&mut positions);
        proof {
            lemma_shuffled(before, positions@);
            assert forall|t: int| 0 <= t < positions@.len() implies inside(
                g0.w as int,
                g0.h as int,
                (#[trigger] positions@[t].0 as int, positions@[t].1 as int),
            ) by {
                assert(positions@.contains(positions@[t]));
                assert(before.contains(positions@[t]));
            }
        }
        let ghost perm = positions@;
        proof {
            assert(perm.to_set() =~= pool_set(g0.w as int, g0.h as int, sx as int, sy as int, 0));
            perm.unique_seq_to_set();
        }
        let n = self.mine_count;
        for k in 0..n
            invariant
                self.wf_shape(),
                *self == (OuterBoard { grid: self.grid, ..g0 }),
                g0.wf(),
                g0.state == GameState::Ready,
                perm == positions@,
                perm.no_duplicates(),
                n <= perm.len(),
                forall|t: int| 0 <= t < perm.len() ==> inside(g0.w as int, g0.h as int, (#[trigger] perm[t].0 as int, perm[t].1 as int)),
                forall|i: int, j: int|
                    0 <= i < g0.w && 0 <= j < g0.h ==> {
                        let c = #[trigger] self.cell(i, j);
                        &&& c.state == g0.cell(i, j).state
                        &&& c.adjacent == g0.cell(i, j).adjacent
                        &&& c.is_mine == perm.take(k as int).contains((i as usize, j as usize))
                    },
        {
            let (x, y) = positions[k];
            assert(inside(g0.w as int, g0.h as int, (perm[k as int].0 as int, perm[k as int].1 as int)));
            assert(self.grid@[y as int]@.len() == self.w);
            let c = self.grid[y][x];
            assert(c == self.cell(x as int, y as int));
            let ghost s0 = *self;
            self.put(x, y, OuterCell { is_mine: true, ..c });
            proof {
                assert forall|i: int, j: int| 0 <= i < g0.w && 0 <= j < g0.h implies #[trigger] self.cell(i, j).is_mine == perm.take(
                    k + 1,
                ).contains((i as usize, j as usize)) by {
                    let q = (i as usize, j as usize);
                    if perm.take(k + 1).contains(q) {
                        let t = choose|t: int| 0 <= t < k + 1 && #[trigger] perm.take(k + 1)[t] == q;
                        if t < k {
                            assert(perm.take(k as int)[t] == q);
                        } else {
                            assert(q == (x, y));
                        }
                    }
                    if perm.take(k as int).contains(q) {
                        let t = choose|t: int| 0 <= t < k && #[trigger] perm.take(k as int)[t] == q;
                        assert(perm.take(k + 1)[t] == q);
                    }
                    if i == x && j == y {
                        assert(perm.take(k + 1)[k as int] == q);
                    } else {
                        assert(self.cell(i, j) == s0.cell(i, j));
                    }
                }
            }
        }
        let ghost mined = *self;
        let hh = self.h;
        let ww = self.w;
        let mut counts: Vec<Vec<u8>> = Vec::new();
        for j in 0..hh
            invariant
                *self == mined,
                mined.wf_shape(),
                hh == mined.h,
                ww == mined.w,
                counts@.len() == j,
                forall|jj: int| 0 <= jj < j ==> (#[trigger] counts@[jj])@.len() == ww,
                forall|i: int, jj: int|
                    0 <= jj < j && 0 <= i < ww ==> #[trigger] counts@[jj]@[i] == nb_sum(|q: (int, int)| mined.mine_here(q), (i, jj))
                        && counts@[jj]@[i] <= 8,
        {
            let mut row: Vec<u8> = Vec::new();
            for i in 0..ww
                invariant
                    *self == mined,
                    mined.wf_shape(),
                    hh == mined.h,
                    ww == mined.w,
                    j < hh,
                    row@.len() == i,
                    forall|ii: int| 0 <= ii < i ==> #[trigger] row@[ii] == nb_sum(|q: (int, int)| mined.mine_here(q), (ii, j as int))
                        && row@[ii] <= 8,
            {
                let v = self.count_around(i, j);
                row.push(v);
            }
            counts.push(row);
        }
        for j in 0..hh
            invariant
                self.wf_shape(),
                *self == (OuterBoard { grid: self.grid, ..mined }),
                mined.wf_shape(),
                hh == mined.h,
                ww == mined.w,
                counts@.len() == hh,
                forall|jj: int| 0 <= jj < hh ==> (#[trigger] counts@[jj])@.len() == ww,
                forall|i: int, jj: int|
                    0 <= jj < hh && 0 <= i < ww ==> #[trigger] counts@[jj]@[i] == nb_sum(|q: (int, int)| mined.mine_here(q), (i, jj))
                        && counts@[jj]@[i] <= 8,
                forall|i: int, jj: int|
                    0 <= i < ww && 0 <= jj < hh ==> {
                        let c = #[trigger] self.cell(i, jj);
                        &&& c.state == mined.cell(i, jj).state
                        &&& c.is_mine == mined.cell(i, jj).is_mine
                        &&& c.adjacent == if jj < j && !c.is_mine {
                            counts@[jj]@[i]
                        } else {
                            mined.cell(i, jj).adjacent
                        }
                    },
        {
            for i in 0..ww
                invariant
                    self.wf_shape(),
                    *self == (OuterBoard { grid: self.grid, ..mined }),
                    mined.wf_shape(),
                    hh == mined.h,
                    ww == mined.w,
                    j < hh,
                    counts@.len() == hh,
                    forall|jj: int| 0 <= jj < hh ==> (#[trigger] counts@[jj])@.len() == ww,
                    forall|ii: int, jj: int|
                        0 <= jj < hh && 0 <= ii < ww ==> #[trigger] counts@[jj]@[ii] == nb_sum(|q: (int, int)| mined.mine_here(q), (ii, jj))
                            && counts@[jj]@[ii] <= 8,
                    forall|ii: int, jj: int|
                        0 <= ii < ww && 0 <= jj < hh ==> {
                            let c = #[trigger] self.cell(ii, jj);
                            &&& c.state == mined.cell(ii, jj).state
                            &&& c.is_mine == mined.cell(ii, jj).is_mine
                            &&& c.adjacent == if (jj < j || (jj == j && ii < i)) && !c.is_mine {
                                counts@[jj]@[ii]
                            } else {
                                mined.cell(ii, jj).adjacent
                            }
                        },
            {
                assert(self.grid@[j as int]@.len() == self.w);
                let c = self.grid[j][i];
                assert(c == self.cell(i as int, j as int));
                if !c.is_mine {
                    let v = counts[j][i];
                    let ghost s0 = *self;
                    self.put(i, j, OuterCell { adjacent: v, ..c });
                    proof {
                        assert forall|ii: int, jj: int| 0 <= ii < ww && 0 <= jj < hh implies {
                            let cc = #[trigger] self.cell(ii, jj);
                            &&& cc.state == mined.cell(ii, jj).state
                            &&& cc.is_mine == mined.cell(ii, jj).is_mine
                            &&& cc.adjacent == if (jj < j || (jj == j && ii < i + 1)) && !cc.is_mine {
                                counts@[jj]@[ii]
                            } else {
                                mined.cell(ii, jj).adjacent
                            }
                        } by {
                            if ii != i || jj != j {
                                assert(self.cell(ii, jj) == s0.cell(ii, jj));
                            }
                        }
                    }
                }
            }
        }
        let ghost s_end = *self;
        self.mine_count = n;
        self.state = GameState::Playing;
        proof {
            assert forall|i: int, jj: int| 0 <= i < self.w && 0 <= jj < self.h implies #[trigger] self.cell(i, jj).adjacent <= 8 by {
                assert(self.cell(i, jj) == s_end.cell(i, jj));
            }
            assert forall|i: int, jj: int| 0 <= i < self.w && 0 <= jj < self.h implies (#[trigger] self.mine_here((i, jj))) == mined.mine_here(
                (i, jj),
            ) by {
                assert(self.cell(i, jj) == s_end.cell(i, jj));
            }
            assert forall|i: int, jj: int| 0 <= i < g0.w && 0 <= jj < g0.h implies {
                let c = #[trigger] self.cell(i, jj);
                &&& c.state == g0.cell(i, jj).state
                &&& c.is_mine == perm.take(n as int).contains((i as usize, jj as usize))
                &&& c.is_mine ==> c.adjacent == g0.cell(i, jj).adjacent
            } by {
                assert(self.cell(i, jj) == s_end.cell(i, jj));
                assert(mined.cell(i, jj).adjacent == g0.cell(i, jj).adjacent);
            }
            assert forall|i: int, jj: int| 0 <= i < g0.w && 0 <= jj < g0.h && !self.cell(i, jj).is_mine implies #[trigger] self.cell(
                i,
                jj,
            ).adjacent == nb_sum(|q: (int, int)| self.mine_here(q), (i, jj)) by {
                assert(self.cell(i, jj) == s_end.cell(i, jj));
                assert forall|q: (int, int)| #[trigger] self.mine_here(q) == mined.mine_here(q) by {
                    if inside(self.w as int, self.h as int, q) {
                        assert(self.cell(q.0, q.1) == s_end.cell(q.0, q.1));
                    }
                }
                assert((|q: (int, int)| self.mine_here(q)) =~= (|q: (int, int)| mined.mine_here(q)));
                assert(s_end.cell(i, jj).adjacent == counts@[jj]@[i]);
            }
            assert(g0.placed(*self, perm, sx as int, sy as int));
        }
    }
}

/// The board `c` after a click whose classic result is `r`: every cell that
/// `r` shows revealed is open, the others keep their state.
pub open spec fn opened(c: Seq<Seq<OuterCell>>, r: Seq<Seq<Cell>>) -> Seq<Seq<OuterCell>> {
    Seq::new(
        c.len(),
        |y: int|
            Seq::new(
                c[y].len(),
                |x: int|
                    if at(r, (x, y)).state == CellState::Revealed {
                        OuterCell { state: Outer::Revealed, ..c[y][x] }
                    } else {
                        c[y][x]
                    },
            ),
    )
}

/// A cascade only opens hidden cells.
pub proof fn lemma_cascade_hidden(c: Seq<Seq<Cell>>, w: int, h: int, s: (int, int), q: (int, int))
    requires
        in_cascade(c, w, h, s, q),
    ensures
        at(c, q).state == CellState::Hidden,
{
    let ps = choose|ps: Seq<(int, int)>| #[trigger] cascade_path(c, w, h, s, ps) && ps.last() == q;
    assert(opens(c, w, h, ps.last()));
}

impl OuterBoard {
    /// The board as a classic game in play.
    fn shadow(&self) -> (g: Game)
        requires
            self.wf_shape(),
        ensures
            g.wf_shape(),
            g.width == self.w,
            g.height == self.h,
            g.cells() == self.classic(),
            g.state == GameState::Playing,
            !g.endless,
    {
        let mut grid: Vec<Vec<Cell>> = Vec::new();
        for y in 0..self.h
            invariant
                self.wf_shape(),
                grid@.len() == y,
                forall|j: int| 0 <= j < y ==> (#[trigger] grid@[j])@ == self.classic()[j],
        {
            assert(self.grid@[y as int]@.len() == self.w);
            let mut row: Vec<Cell> = Vec::new();
            for x in 0..self.w
                invariant
                    self.wf_shape(),
                    y < self.h,
                    self.grid@[y as int]@.len() == self.w,
                    row@.len() == x,
                    forall|i: int| 0 <= i < x ==> #[trigger] row@[i] == as_cell(self.cell(i, y as int)),
            {
                let c = self.grid[y][x];
                assert(c == self.cell(x as int, y as int));
                let st = match c.state {
                    Outer::Hidden => CellState::Hidden,
                    Outer::Flagged => CellState::Flagged,
                    Outer::Revealed => CellState::Revealed,
                };
                let mines: u8 = if c.is_mine {
                    1
                } else {
                    0
                };
                row.push(Cell { state: st, mines, is_negative: false, adjacent_mines: c.adjacent as i8 });
            }
            proof {
                assert(row@ =~= self.classic()[y as int]);
            }
            grid.push(row);
        }
        let g = Game {
            grid,
            width: self.w,
            height: self.h,
            mine_count: 0,
            state: GameState::Playing,
            flags_placed: 0,
            variant: Variant::Nested,
            endless: false,
            density_mines: 0,
            density_cells: 1,
        };
        proof {
            assert(g.cells() =~= self.classic());
            assert forall|y: int| 0 <= y < g.height implies (#[trigger] g.grid@[y])@.len() == g.width by {
                assert(g.grid@[y]@ == self.classic()[y]);
            }
            assert forall|x: int, y: int| g.in_bounds(x, y) implies #[trigger] g.cell(x, y).mines <= 3 by {
                assert(g.grid@[y]@ == self.classic()[y]);
            }
        }
        g
    }

    /// Open (`x`, `y`) as a classic click while play is on: a mine loses and
    /// shows every mine; otherwise the cell opens, a cell with no mine
    /// around it spreads the opening, and the game is won once every safe
    /// cell is open.
    fn open_at(&mut self, x: usize, y: usize)
        requires
            old(self).wf(),
            old(self).state == GameState::Playing,
            x < old(self).w,
            y < old(self).h,
        ensures
            final(self).wf(),
            *final(self) == (OuterBoard { grid: final(self).grid, state: final(self).state, ..*old(self) }),
            final(self).cells() == opened(
                old(self).cells(),
                open_result(old(self).classic(), old(self).w as int, old(self).h as int, GameState::Playing, false, (x as int, y as int)).0,
            ),
            final(self).state == open_result(
                old(self).classic(),
                old(self).w as int,
                old(self).h as int,
                GameState::Playing,
                false,
                (x as int, y as int),
            ).1,
    {
        let ghost g0 = *self;
        let mut sh = self.shadow();
        sh.open_cell(x, y);
        let ghost r = open_result(g0.classic(), g0.w as int, g0.h as int, GameState::Playing, false, (x as int, y as int));
        assert(sh.cells() == r.0);
        let ghost target = opened(g0.cells(), r.0);
        let hh = self.h;
        let ww = self.w;
        for j in 0..hh
            invariant
                hh == g0.h,
                ww == g0.w,
                self.wf_shape(),
                *self == (OuterBoard { grid: self.grid, ..g0 }),
                g0.wf_shape(),
                sh.wf_shape(),
                sh.width == g0.w,
                sh.height == g0.h,
                sh.cells() == r.0,
                target == opened(g0.cells(), r.0),
                forall|i: int, jj: int|
                    0 <= i < g0.w && 0 <= jj < g0.h ==> #[trigger] self.cell(i, jj) == if jj < j {
                        target[jj][i]
                    } else {
                        g0.cell(i, jj)
                    },
        {
            for i in 0..ww
                invariant
                    hh == g0.h,
                    ww == g0.w,
                    self.wf_shape(),
                    *self == (OuterBoard { grid: self.grid, ..g0 }),
                    g0.wf_shape(),
                    sh.wf_shape(),
                    sh.width == g0.w,
                    sh.height == g0.h,
                    sh.cells() == r.0,
                    j < g0.h,
                    target == opened(g0.cells(), r.0),
                    forall|ii: int, jj: int|
                        0 <= ii < g0.w && 0 <= jj < g0.h ==> #[trigger] self.cell(ii, jj) == if jj < j || (jj == j && ii < i) {
                            target[jj][ii]
                        } else {
                            g0.cell(ii, jj)
                        },
            {
                assert(sh.grid@[j as int]@.len() == sh.width);
                assert(self.grid@[j as int]@.len() == self.w);
                let open = matches!(sh.grid[j][i].state, CellState::Revealed);
                let c = self.grid[j][i];
                proof {
                    assert(self.cell(i as int, j as int) == g0.cell(i as int, j as int));
                    assert(g0.cells()[j as int].len() == g0.w) by {
                        assert(g0.grid@[j as int]@.len() == g0.w);
                    }
                    assert(g0.cells().len() == g0.h);
                    assert(sh.cell(i as int, j as int) == at(r.0, (i as int, j as int)));
                }
                if open {
                    self.put(i, j, OuterCell { state: Outer::Revealed, ..c });
                }
            }
        }
        let ghost s_end = *self;
        self.state = sh.state;
        proof {
            assert forall|jj: int| 0 <= jj < g0.h implies #[trigger] self.cells()[jj] =~= target[jj] by {
                assert(g0.cells()[jj].len() == g0.w) by {
                    assert(g0.grid@[jj]@.len() == g0.w);
                }
                assert forall|ii: int| 0 <= ii < g0.w implies self.cells()[jj][ii] == target[jj][ii] by {
                    assert(s_end.cell(ii, jj) == target[jj][ii]);
                }
            }
            assert(self.cells() =~= target);
            assert forall|ii: int, jj: int| 0 <= ii < self.w && 0 <= jj < self.h implies #[trigger] self.cell(ii, jj).adjacent <= 8 by {
                assert(self.cell(ii, jj) == s_end.cell(ii, jj));
            }
            if self.state == GameState::Playing {
                // Not lost: only hidden cells opened, so the flags stay.
                let p = (x as int, y as int);
                let c0 = g0.classic();
                assert(r.1 != GameState::Lost);
                assert forall|jj: int, ii: int| 0 <= jj < g0.cells().len() && 0 <= ii < g0.cells()[jj].len() implies outer_flag(
                #[trigger] g0.cells()[jj][ii]) == outer_flag(self.cells()[jj][ii]) by {
                    assert(g0.grid@[jj]@.len() == g0.w);
                    if at(r.0, (ii, jj)).state == CellState::Revealed && g0.cells()[jj][ii].state == Outer::Flagged {
                        assert(at(c0, (ii, jj)).state == CellState::Flagged);
                        let c1 = revealed_at(c0, p);
                        if (ii, jj) != p {
                            assert(at(c1, (ii, jj)) == at(c0, (ii, jj)));
                            if at(c0, p).adjacent_mines == 0 {
                                if in_cascade(c1, g0.w as int, g0.h as int, p, (ii, jj)) {
                                    lemma_cascade_hidden(c1, g0.w as int, g0.h as int, p, (ii, jj));
                                }
                            }
                        }
                    }
                }
                assert forall|jj: int| 0 <= jj < g0.cells().len() implies (#[trigger] g0.cells()[jj]).len() == self.cells()[jj].len() by {
                    assert(g0.grid@[jj]@.len() == g0.w);
                }
                lemma_grid_count_same(g0.cells(), self.cells(), |c: OuterCell| outer_flag(c));
            }
        }
    }

    /// A mini-board behind (`x`, `y`) was won. The first win places the
    /// mines away from the 3x3 block around it and starts play, so it never
    /// loses; while play is on the cell then opens as `open_at` says.
    pub fn on_mini_won(&mut self, x: usize, y: usize)
        requires
            old(self).wf(),
            x < old(self).w,
            y < old(self).h,
            old(self).state == GameState::Ready ==> old(self).room_for_mines(x as int, y as int),
        ensures
            final(self).wf(),
            old(self).state != GameState::Ready && old(self).state != GameState::Playing ==> *final(self) == *old(self),
            old(self).state == GameState::Playing ==> *final(self) == (OuterBoard {
                grid: final(self).grid,
                state: final(self).state,
                ..*old(self)
            }) && final(self).cells() == opened(
                old(self).cells(),
                open_result(old(self).classic(), old(self).w as int, old(self).h as int, GameState::Playing, false, (x as int, y as int)).0,
            ) && final(self).state == open_result(
                old(self).classic(),
                old(self).w as int,
                old(self).h as int,
                GameState::Playing,
                false,
                (x as int, y as int),
            ).1,
            old(self).state == GameState::Ready ==> exists|f: OuterBoard, perm: Seq<(usize, usize)>|
                #[trigger] old(self).placed(f, perm, x as int, y as int) && *final(self) == (OuterBoard {
                    grid: final(self).grid,
                    state: final(self).state,
                    ..f
                }) && final(self).cells() == opened(
                    f.cells(),
                    open_result(f.classic(), f.w as int, f.h as int, GameState::Playing, false, (x as int, y as int)).0,
                ) && final(self).state == open_result(
                    f.classic(),
                    f.w as int,
                    f.h as int,
                    GameState::Playing,
                    false,
                    (x as int, y as int),
                ).1,
            old(self).state == GameState::Ready ==> final(self).state != GameState::Lost,
    {
        let ghost g0 = *self;
        let ghost mut placed = *self;
        if matches!(self.state, GameState::Ready) {
            self.place_mines(x, y);
            proof {
                placed = *self;
                let perm = choose|perm: Seq<(usize, usize)>| #[trigger] g0.placed(placed, perm, x as int, y as int);
                assert(placed.wf_shape());
                assert forall|jj: int| 0 <= jj < g0.cells().len() implies (#[trigger] g0.cells()[jj]).len() == placed.cells()[jj].len() by {
                    assert(g0.grid@[jj]@.len() == g0.w);
                    assert(placed.grid@[jj]@.len() == g0.w);
                }
                assert forall|jj: int, ii: int| 0 <= jj < g0.cells().len() && 0 <= ii < g0.cells()[jj].len() implies outer_flag(
                #[trigger] g0.cells()[jj][ii]) == outer_flag(placed.cells()[jj][ii]) by {
                    assert(g0.grid@[jj]@.len() == g0.w);
                    assert(placed.cell(ii, jj).state == g0.cell(ii, jj).state);
                }
                lemma_grid_count_same(g0.cells(), placed.cells(), |c: OuterCell| outer_flag(c));
                assert(!placed.cell(x as int, y as int).is_mine) by {
                    let n = g0.mine_count as int;
                    if perm.take(n).contains((x, y)) {
                        let t = choose|t: int| 0 <= t < n && #[trigger] perm.take(n)[t] == (x, y);
                        assert(perm[t] == (x, y));
                        assert(perm.contains((x, y)));
                    }
                }
                assert(placed.classic()[y as int][x as int].mines == 0);
            }
        }
        if !matches!(self.state, GameState::Playing) {
            return;
        }
        self.open_at(x, y);
        proof {
            if g0.state == GameState::Ready {
                let perm = choose|perm: Seq<(usize, usize)>| #[trigger] g0.placed(placed, perm, x as int, y as int);
                assert(g0.placed(placed, perm, x as int, y as int));
            }
        }
    }

    /// A mini-board was lost: the game is lost, and if it was on, every mine
    /// is shown.
    pub fn on_mini_lost(&mut self)
        requires
            old(self).wf(),
        ensures
            final(self).wf(),
            *final(self) == (OuterBoard { grid: final(self).grid, state: GameState::Lost, ..*old(self) }),
            old(self).state == GameState::Playing ==> final(self).cells() == Seq::new(
                old(self).cells().len(),
                |y: int|
                    Seq::new(
                        old(self).cells()[y].len(),
                        |x: int|
                            if old(self).cells()[y][x].is_mine {
                                OuterCell { state: Outer::Revealed, ..old(self).cells()[y][x] }
                            } else {
                                old(self).cells()[y][x]
                            },
                    ),
            ),
            old(self).state != GameState::Playing ==> final(self).cells() == old(self).cells(),
    {
        let ghost g0 = *self;
        let was_playing = matches!(self.state, GameState::Playing);
        self.state = GameState::Lost;
        proof {
            assert forall|ii: int, jj: int| 0 <= ii < self.w && 0 <= jj < self.h implies #[trigger] self.cell(ii, jj).adjacent <= 8 by {
                assert(self.cell(ii, jj) == g0.cell(ii, jj));
            }
        }
        if was_playing {
            let ghost g1 = *self;
            let ghost target = Seq::new(
                g0.cells().len(),
                |y: int|
                    Seq::new(
                        g0.cells()[y].len(),
                        |x: int| if g0.cells()[y][x].is_mine { OuterCell { state: Outer::Revealed, ..g0.cells()[y][x] } } else { g0.cells()[y][x] },
                    ),
            );
            let hh = self.h;
            let ww = self.w;
            for j in 0..hh
                invariant
                    hh == g1.h,
                    ww == g1.w,
                    g1.w == g0.w,
                    g1.h == g0.h,
                    g1.cells() == g0.cells(),
                    self.wf_shape(),
                    *self == (OuterBoard { grid: self.grid, ..g1 }),
                    g0.wf_shape(),
                    forall|i: int, jj: int|
                        0 <= i < g0.w && 0 <= jj < g0.h ==> #[trigger] self.cell(i, jj) == if jj < j && g0.cell(i, jj).is_mine {
                            OuterCell { state: Outer::Revealed, ..g0.cell(i, jj) }
                        } else {
                            g0.cell(i, jj)
                        },
            {
                for i in 0..ww
                    invariant
                        hh == g1.h,
                        ww == g1.w,
                        g1.w == g0.w,
                        g1.h == g0.h,
                        self.wf_shape(),
                        *self == (OuterBoard { grid: self.grid, ..g1 }),
                        g0.wf_shape(),
                        j < g0.h,
                        forall|ii: int, jj: int|
                            0 <= ii < g0.w && 0 <= jj < g0.h ==> #[trigger] self.cell(ii, jj) == if (jj < j || (jj == j && ii < i))
                                && g0.cell(ii, jj).is_mine {
                                OuterCell { state: Outer::Revealed, ..g0.cell(ii, jj) }
                            } else {
                                g0.cell(ii, jj)
                            },
                {
                    assert(self.grid@[j as int]@.len() == self.w);
                    let c = self.grid[j][i];
                    assert(self.cell(i as int, j as int) == g0.cell(i as int, j as int));
                    if c.is_mine {
                        self.put(i, j, OuterCell { state: Outer::Revealed, ..c });
                    }
                }
            }
            proof {
                assert forall|jj: int| 0 <= jj < g0.h implies #[trigger] self.cells()[jj] =~= target[jj] by {
                    assert(g0.cells()[jj].len() == g0.w) by {
                        assert(g0.grid@[jj]@.len() == g0.w);
                    }
                    assert forall|ii: int| 0 <= ii < g0.w implies self.cells()[jj][ii] == target[jj][ii] by {
                        assert(self.cell(ii, jj) == self.cells()[jj][ii]);
                    }
                }
                assert(self.cells() =~= target);
            }
        }
    }

    /// The hidden neighbours among the first `k` neighbours of `p`, in scan order.
    pub open spec fn hidden_upto(self, p: (int, int), k: int) -> Seq<(usize, usize)>
        decreases k,
    {
        if k <= 0 {
            Seq::empty()
        } else {
            let q = nb(p, k - 1);
            let prev = self.hidden_upto(p, k - 1);
            if inside(self.w as int, self.h as int, q) && self.cell(q.0, q.1).state == Outer::Hidden {
                prev.push((q.0 as usize, q.1 as usize))
            } else {
                prev
            }
        }
    }

    /// The cells a chord on (`x`, `y`) opens a mini-board for: when the cell
    /// is open, counts mines and has exactly as many flagged neighbours,
    /// its hidden neighbours in scan order; otherwise none.
    pub fn chord_targets(&self, x: usize, y: usize) -> (v: Vec<(usize, usize)>)
        requires
            self.wf_shape(),
            x < self.w,
            y < self.h,
        ensures
            v@ == if self.cell(x as int, y as int).state == Outer::Revealed && self.cell(x as int, y as int).adjacent != 0
                && nb_sum(|q: (int, int)| self.flag_here(q), (x as int, y as int)) == self.cell(x as int, y as int).adjacent {
                self.hidden_upto((x as int, y as int), 8)
            } else {
                Seq::empty()
            },
    {
        let ghost p = (x as int, y as int);
        assert(self.grid@[y as int]@.len() == self.w);
        let c = self.grid[y][x];
        assert(c == self.cell(x as int, y as int));
        if !matches!(c.state, Outer::Revealed) || c.adjacent == 0 {
            return Vec::new();
        }
        let mut flags: u8 = 0;
        let mut hidden: Vec<(usize, usize)> = Vec::new();
        for k in 0..8usize
            invariant
                self.wf_shape(),
                x < self.w,
                y < self.h,
                p == (x as int, y as int),
                flags == nb_partial(|q: (int, int)| self.flag_here(q), p, k as nat),
                flags <= k,
                hidden@ == self.hidden_upto(p, k as int),
        {
            match neighbor_of(self.w, self.h, x, y, k) {
                Some((nx, ny)) => {
                    assert(self.grid@[ny as int]@.len() == self.w);
                    let nc = self.grid[ny][nx];
                    assert(nc == self.cell(nx as int, ny as int));
                    match nc.state {
                        Outer::Flagged => {
                            flags = flags + 1;
                        },
                        Outer::Hidden => {
                            hidden.push((nx, ny));
                        },
                        _ => {},
                    }
                },
                None => {},
            }
        }
        if flags == c.adjacent {
            hidden
        } else {
            Vec::new()
        }
    }

    /// A right click on (`x`, `y`) while the game is ready or on: hidden to
    /// flagged and back, the counter following (never below zero).
    pub fn toggle_flag(&mut self, x: usize, y: usize)
        requires
            old(self).wf(),
            old(self).state == GameState::Ready || old(self).state == GameState::Playing,
            x < old(self).w,
            y < old(self).h,
        ensures
            final(self).wf(),
            *final(self) == (OuterBoard { grid: final(self).grid, flags: final(self).flags, ..*old(self) }),
            final(self).cells() == old(self).cells().update(
                y as int,
                old(self).cells()[y as int].update(
                    x as int,
                    OuterCell {
                        state: match old(self).cell(x as int, y as int).state {
                            Outer::Hidden => Outer::Flagged,
                            Outer::Flagged => Outer::Hidden,
                            Outer::Revealed => Outer::Revealed,
                        },
                        ..old(self).cell(x as int, y as int)
                    },
                ),
            ),
            final(self).flags == match old(self).cell(x as int, y as int).state {
                Outer::Hidden => old(self).flags + 1,
                Outer::Flagged => if old(self).flags > 0 { old(self).flags - 1 } else { 0 },
                Outer::Revealed => old(self).flags as int,
            },
    {
        let ghost g0 = *self;
        assert(self.grid@[y as int]@.len() == self.w);
        let c = self.grid[y][x];
        assert(c == self.cell(x as int, y as int));
        let ns = match c.state {
            Outer::Hidden => Outer::Flagged,
            Outer::Flagged => Outer::Hidden,
            Outer::Revealed => Outer::Revealed,
        };
        let nc = OuterCell { state: ns, ..c };
        proof {
            lemma_grid_count_set(g0.cells(), x as int, y as int, nc, |c: OuterCell| outer_flag(c));
            assert forall|jj: int| 0 <= jj < g0.cells().len() implies (#[trigger] g0.cells()[jj]).len() == g0.w by {
                assert(g0.grid@[jj]@.len() == g0.w);
            }
            assert forall|cc: OuterCell| 0 <= #[trigger] outer_flag(cc) <= 1 by {}
            lemma_grid_count_bounds(g0.cells(), |c: OuterCell| outer_flag(c), g0.w as int);
            let u = g0.cells().update(y as int, g0.cells()[y as int].update(x as int, nc));
            assert forall|jj: int| 0 <= jj < u.len() implies (#[trigger] u[jj]).len() == g0.w by {
                assert(g0.grid@[jj]@.len() == g0.w);
            }
            lemma_grid_count_bounds(u, |c: OuterCell| outer_flag(c), g0.w as int);
            assert(g0.h * g0.w == g0.w * g0.h) by (nonlinear_arith);
        }
        self.put(x, y, nc);
        let ghost sp = *self;
        match c.state {
            Outer::Hidden => {
                self.flags = self.flags + 1;
            },
            Outer::Flagged => {
                if self.flags > 0 {
                    self.flags = self.flags - 1;
                }
            },
            _ => {},
        }
        proof {
            assert forall|ii: int, jj: int| 0 <= ii < self.w && 0 <= jj < self.h implies #[trigger] self.cell(ii, jj).adjacent <= 8 by {
                assert(self.cell(ii, jj) == sp.cell(ii, jj));
            }
            if g0.state == GameState::Ready {
                assert forall|ii: int, jj: int| 0 <= ii < self.w && 0 <= jj < self.h implies !(#[trigger] self.cell(ii, jj)).is_mine
                    && self.cell(ii, jj).adjacent == 0 && self.cell(ii, jj).state != Outer::Revealed by {
                    assert(self.cell(ii, jj) == sp.cell(ii, jj));
                    if ii != x || jj != y {
                        assert(sp.cell(ii, jj) == g0.cell(ii, jj));
                    }
                }
            }
        }
    }

    /// The mines not yet flagged; negative when there are too many flags.
    pub fn remaining_mines(&self) -> (r: isize)
        requires
            self.wf(),
        ensures
            r == self.mine_count - self.flags,
    {
        proof {
            assert(self.flags <= MAX_CELLS);
        }
        self.mine_count as isize - self.flags as isize
    }
}

} // verus!
