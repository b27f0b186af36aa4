use vstd::prelude::*;
use crate::cascade::{inside, nb, neighbor_of, cascaded, at, in_cascade, cascade_path, opens};
use crate::display::{nb_partial, nb_sum};
use crate::game::{Game, Cell, CellState, GameState, MAX_CELLS, lemma_shuffled};
use crate::random::{random_below, shuffle_positions};
use crate::sums::{grid_count, lemma_grid_count_set, lemma_grid_count_bounds, lemma_grid_count_same, lemma_grid_count_zero};
use crate::variant::Variant;

verus! {

/// How well the computer plays, by board size.
#[derive(Clone, Copy, Debug, PartialEq, Eq, Structural)]
pub enum AiLevel {
    Easy,
    Medium,
    Hard,
}

impl AiLevel {
    /// Easy up to 100 cells, Medium up to 300, Hard above.
    pub fn from_board(total: usize) -> (l: AiLevel)
        ensures
            l == if total <= 100 {
                AiLevel::Easy
            } else if total <= 300 {
                AiLevel::Medium
            } else {
                AiLevel::Hard
            },
    {
        if total <= 100 {
            AiLevel::Easy
        } else if total <= 300 {
            AiLevel::Medium
        } else {
            AiLevel::Hard
        }
    }

    /// 0 for Easy, 1 for Medium, 2 for Hard.
    pub open spec fn rank(self) -> int {
        match self {
            AiLevel::Easy => 0,
            AiLevel::Medium => 1,
            AiLevel::Hard => 2,
        }
    }
}

/// Who opened a cell.
#[derive(Clone, Copy, Debug, PartialEq, Eq, Structural)]
pub enum Owner {
    Player,
    Ai,
}

/// The state of a player-against-computer game.
#[derive(Clone, Copy, Debug, PartialEq, Eq, Structural)]
pub enum PvAiState {
    Ready,
    Playing,
    PlayerWon,
    AiWon,
}

/// A cell of the shared board.
#[derive(Clone, Copy, Debug, PartialEq, Eq, Structural)]
pub struct DuelCell {
    pub is_mine: bool,
    pub adj: u8,
    pub revealed: bool,
    pub player_flag: bool,
    /// A flag the computer placed.
    pub ai_flag: bool,
    /// Who opened the cell.
    pub owner: Option<Owner>,
}

/// A fresh cell.
pub open spec fn fresh_duel_cell() -> DuelCell {
    DuelCell { is_mine: false, adj: 0, revealed: false, player_flag: false, ai_flag: false, owner: None }
}

/// 1 for a cell that `o` opened.
pub open spec fn owned_by(c: DuelCell, o: Owner) -> int {
    if c.owner == Some(o) {
        1
    } else {
        0
    }
}

/// A player and the computer take turns on one board; each opened cell
/// scores for whoever opened it, and opening a mine hands the win to the other.
pub struct PvAiGame {
    pub grid: Vec<Vec<DuelCell>>,
    pub width: usize,
    pub height: usize,
    pub mine_count: usize,
    pub state: PvAiState,
    pub player_score: usize,
    pub ai_score: usize,
    pub ai_corner: (usize, usize),
    pub level: AiLevel,
    pub ai_pending: bool,
}

impl PvAiGame {
    pub open spec fn cells(self) -> Seq<Seq<DuelCell>> {
        self.grid@.map_values(|r: Vec<DuelCell>| r@)
    }

    pub open spec fn cell(self, x: int, y: int) -> DuelCell {
        self.grid@[y]@[x]
    }

    pub open spec fn in_bounds(self, x: int, y: int) -> bool {
        0 <= x < self.width && 0 <= y < self.height
    }

    /// 1 where `q` is on the board and holds a mine.
    pub open spec fn mine_here(self, q: (int, int)) -> int {
        if self.in_bounds(q.0, q.1) && self.cell(q.0, q.1).is_mine {
            1
        } else {
            0
        }
    }

    /// 1 where `q` is on the board and carries a flag of either side.
    pub open spec fn flag_here(self, q: (int, int)) -> int {
        if self.in_bounds(q.0, q.1) && (self.cell(q.0, q.1).player_flag || self.cell(q.0, q.1).ai_flag) {
            1
        } else {
            0
        }
    }

    /// Shape of the board.
    pub open spec fn wf_shape(self) -> bool {
        &&& 1 <= self.width <= MAX_CELLS
        &&& 1 <= self.height <= MAX_CELLS
        &&& self.width * self.height <= MAX_CELLS
        &&& self.grid@.len() == self.height
        &&& forall|j: int| 0 <= j < self.height ==> (#[trigger] self.grid@[j])@.len() == self.width
        &&& forall|i: int, j: int| self.in_bounds(i, j) ==> (#[trigger] self.cell(i, j)).adj <= 8
        &&& self.ai_corner.0 < self.width
        &&& self.ai_corner.1 < self.height
    }

    /// The shape, each score equal to the cells its side opened, only open
    /// cells owned, and a fresh board before the first click.
    pub open spec fn wf(self) -> bool {
        &&& self.wf_shape()
        &&& self.player_score == grid_count(self.cells(), |c: DuelCell| owned_by(c, Owner::Player))
        &&& self.ai_score == grid_count(self.cells(), |c: DuelCell| owned_by(c, Owner::Ai))
        &&& forall|i: int, j: int| self.in_bounds(i, j) && (#[trigger] self.cell(i, j)).owner is Some ==> self.cell(i, j).revealed
        &&& self.state == PvAiState::Ready ==> forall|i: int, j: int|
            self.in_bounds(i, j) ==> !(#[trigger] self.cell(i, j)).is_mine && !self.cell(i, j).revealed
                && !self.cell(i, j).player_flag && !self.cell(i, j).ai_flag
    }

    /// A new game: an empty board, the computer's corner opposite the
    /// top-left until the first click chooses it, the level by board size.
    pub fn new(width: usize, height: usize, mine_count: usize) -> (g: PvAiGame)
        requires
            1 <= width,
            1 <= height,
            width * height <= MAX_CELLS,
        ensures
            g.wf(),
            g.width == width,
            g.height == height,
            g.mine_count == mine_count,
            g.state == PvAiState::Ready,
            g.player_score == 0,
            g.ai_score == 0,
            g.ai_corner == ((width - 1) as usize, (height - 1) as usize),
            g.level == if width * height <= 100 {
                AiLevel::Easy
            } else if width * height <= 300 {
                AiLevel::Medium
            } else {
                AiLevel::Hard
            },
            !g.ai_pending,
            forall|i: int, j: int| g.in_bounds(i, j) ==> #[trigger] g.cell(i, j) == fresh_duel_cell(),
    {
        let mut grid: Vec<Vec<DuelCell>> = Vec::new();
        for y in 0..height
            invariant
                grid@.len() == y,
                forall|j: int| 0 <= j < y ==> (#[trigger] grid@[j])@.len() == width,
                forall|i: int, j: int| 0 <= j < y && 0 <= i < width ==> #[trigger] grid@[j]@[i] == fresh_duel_cell(),
        {
            let mut row: Vec<DuelCell> = Vec::new();
            for x in 0..width
                invariant
                    row@.len() == x,
                    forall|i: int| 0 <= i < x ==> #[trigger] row@[i] == fresh_duel_cell(),
            {
                row.push(DuelCell { is_mine: false, adj: 0, revealed: false, player_flag: false, ai_flag: false, owner: None });
            }
            grid.push(row);
        }
        let g = PvAiGame {
            grid,
            width,
            height,
            mine_count,
            state: PvAiState::Ready,
            player_score: 0,
            ai_score: 0,
            ai_corner: (width - 1, height - 1),
            level: AiLevel::from_board(width * height),
            ai_pending: false,
        };
        proof {
            assert(width <= MAX_CELLS) by (nonlinear_arith)
                requires
                    width * height <= MAX_CELLS,
                    height >= 1,
            ;
            assert(height <= MAX_CELLS) by (nonlinear_arith)
                requires
                    width * height <= MAX_CELLS,
                    width >= 1,
            ;
            assert forall|jj: int, i: int| 0 <= jj < g.cells().len() && 0 <= i < g.cells()[jj].len() implies owned_by(
            #[trigger] g.cells()[jj][i], Owner::Player) == 0 && owned_by(g.cells()[jj][i], Owner::Ai) == 0 by {
                assert(g.grid@[jj]@.len() == width);
            }
            lemma_grid_count_zero(g.cells(), |c: DuelCell| owned_by(c, Owner::Player));
            lemma_grid_count_zero(g.cells(), |c: DuelCell| owned_by(c, Owner::Ai));
        }
        g
    }

    /// Replace one cell, keeping everything else.
    fn put(&mut self, x: usize, y: usize, c: DuelCell)
        requires
            old(self).wf_shape(),
            x < old(self).width,
            y < old(self).height,
            c.adj <= 8,
        ensures
            final(self).wf_shape(),
            *final(self) == (PvAiGame { grid: final(self).grid, ..*old(self) }),
            final(self).cells() == old(self).cells().update(y as int, old(self).cells()[y as int].update(x as int, c)),
            forall|i: int, j: int|
                #![trigger final(self).cell(i, j)]
                final(self).in_bounds(i, j) ==> final(self).cell(i, j) == if i == x && j == y {
                    c
                } else {
                    old(self).cell(i, j)
                },
    {
        let ghost g0 = *self;
        let mut row = self.grid[y].clone();
        proof {
            assert(row@ =~= g0.grid@[y as int]@);
        }
        row.set(x, c);
        self.grid.set(y, row);
        proof {
            assert(self.cells() =~= g0.cells().update(y as int, g0.cells()[y as int].update(x as int, c)));
            assert forall|j: int| 0 <= j < self.height implies (#[trigger] self.grid@[j])@.len() == self.width by {
                assert(g0.grid@[j]@.len() == g0.width);
            }
            assert forall|i: int, j: int| self.in_bounds(i, j) implies (#[trigger] self.cell(i, j)).adj <= 8 by {
                if i != x || j != y {
                    assert(self.cell(i, j) == g0.cell(i, j));
                }
            }
        }
    }

    /// The mines around (`x`, `y`).
    pub fn count_adj(&self, x: usize, y: usize) -> (r: u8)
        requires
            self.wf_shape(),
            x < self.width,
            y < self.height,
        ensures
            r == nb_sum(|q: (int, int)| self.mine_here(q), (x as int, y as int)),
            r <= 8,
    {
        let ghost p = (x as int, y as int);
        let mut n: u8 = 0;
        for k in 0..8usize
            invariant
                self.wf_shape(),
                x < self.width,
                y < self.height,
                p == (x as int, y as int),
                n == nb_partial(|q: (int, int)| self.mine_here(q), p, k as nat),
                n <= k,
        {
            match neighbor_of(self.width, self.height, x, y, k) {
                Some((nx, ny)) => {
                    assert(self.grid@[ny as int]@.len() == self.width);
                    if self.grid[ny][nx].is_mine {
                        n = n + 1;
                    }
                },
                None => {},
            }
        }
        n
    }

    /// The flags of either side around (`x`, `y`).
    pub fn flags_around(&self, x: usize, y: usize) -> (r: u8)
        requires
            self.wf_shape(),
            x < self.width,
            y < self.height,
        ensures
            r == nb_sum(|q: (int, int)| self.flag_here(q), (x as int, y as int)),
            r <= 8,
    {
        let ghost p = (x as int, y as int);
        let mut n: u8 = 0;
        for k in 0..8usize
            invariant
                self.wf_shape(),
                x < self.width,
                y < self.height,
                p == (x as int, y as int),
                n == nb_partial(|q: (int, int)| self.flag_here(q), p, k as nat),
                n <= k,
        {
            match neighbor_of(self.width, self.height, x, y, k) {
                Some((nx, ny)) => {
                    assert(self.grid@[ny as int]@.len() == self.width);
                    let c = self.grid[ny][nx];
                    if c.player_flag || c.ai_flag {
                        n = n + 1;
                    }
                },
                None => {},
            }
        }
        n
    }
}

/// `q` lies in the 3x3 block around `c`.
pub open spec fn near(c: (int, int), q: (int, int)) -> bool {
    c.0 - 1 <= q.0 <= c.0 + 1 && c.1 - 1 <= q.1 <= c.1 + 1
}

/// The taxicab distance between `p` and `q`.
pub open spec fn taxi(p: (int, int), q: (int, int)) -> int {
    (if p.0 >= q.0 { p.0 - q.0 } else { q.0 - p.0 }) + (if p.1 >= q.1 { p.1 - q.1 } else { q.1 - p.1 })
}

/// The corner of a `w` by `h` board farthest from `p`, taking the last of
/// the corners (0, 0), (w-1, 0), (0, h-1), (w-1, h-1) on a tie.
pub open spec fn far_corner(w: int, h: int, p: (int, int)) -> (int, int) {
    let c0 = (0, 0);
    let c1 = (w - 1, 0);
    let c2 = (0, h - 1);
    let c3 = (w - 1, h - 1);
    let d0 = taxi(p, c0);
    let d1 = taxi(p, c1);
    let d2 = taxi(p, c2);
    let d3 = taxi(p, c3);
    let (b01, e01) = if d1 >= d0 { (c1, d1) } else { (c0, d0) };
    let (b012, e012) = if d2 >= e01 { (c2, d2) } else { (b01, e01) };
    if d3 >= e012 { c3 } else { b012 }
}

/// The cells of a `w` by `h` board outside the 3x3 blocks around `p` and
/// `c`, in row-major order.
pub fn duel_candidates(w: usize, h: usize, p: (usize, usize), c: (usize, usize)) -> (v: Vec<(usize, usize)>)
    requires
        w * h <= MAX_CELLS,
        w <= MAX_CELLS,
        h <= MAX_CELLS,
        p.0 < w,
        p.1 < h,
        c.0 < w,
        c.1 < h,
    ensures
        v@.no_duplicates(),
        forall|t: int| 0 <= t < v@.len() ==> inside(w as int, h as int, (#[trigger] v@[t].0 as int, v@[t].1 as int)),
        forall|q: (usize, usize)|
            #![trigger v@.contains(q)]
            v@.contains(q) <==> inside(w as int, h as int, (q.0 as int, q.1 as int)) && !near(
                (p.0 as int, p.1 as int),
                (q.0 as int, q.1 as int),
            ) && !near((c.0 as int, c.1 as int), (q.0 as int, q.1 as int)),
{
    let ghost pi = (p.0 as int, p.1 as int);
    let ghost ci = (c.0 as int, c.1 as int);
    let mut v: Vec<(usize, usize)> = Vec::new();
    for y in 0..h
        invariant
            w <= MAX_CELLS,
            h <= MAX_CELLS,
            p.0 < w,
            p.1 < h,
            c.0 < w,
            c.1 < h,
            pi == (p.0 as int, p.1 as int),
            ci == (c.0 as int, c.1 as int),
            v@.no_duplicates(),
            forall|t: int| 0 <= t < v@.len() ==> (#[trigger] v@[t]).1 < y && v@[t].0 < w,
            forall|q: (usize, usize)|
                #![trigger v@.contains(q)]
                v@.contains(q) <==> q.1 < y && q.0 < w && !near(pi, (q.0 as int, q.1 as int)) && !near(ci, (q.0 as int, q.1 as int)),
    {
        for x in 0..w
            invariant
                w <= MAX_CELLS,
                h <= MAX_CELLS,
                y < h,
                p.0 < w,
                p.1 < h,
                c.0 < w,
                c.1 < h,
                pi == (p.0 as int, p.1 as int),
                ci == (c.0 as int, c.1 as int),
                v@.no_duplicates(),
                forall|t: int| 0 <= t < v@.len() ==> ((#[trigger] v@[t]).1 < y || (v@[t].1 == y && v@[t].0 < x)) && v@[t].0 < w,
                forall|q: (usize, usize)|
                    #![trigger v@.contains(q)]
                    v@.contains(q) <==> (q.1 < y || (q.1 == y && q.0 < x)) && q.0 < w && !near(pi, (q.0 as int, q.1 as int))
                        && !near(ci, (q.0 as int, q.1 as int)),
        {
            let near_p = x + 1 >= p.0 && x <= p.0 + 1 && y + 1 >= p.1 && y <= p.1 + 1;
            let near_c = x + 1 >= c.0 && x <= c.0 + 1 && y + 1 >= c.1 && y <= c.1 + 1;
            if !near_p && !near_c {
                proof {
                    assert(!v@.contains((x, y)));
                }
                let ghost old_v = v@;
                v.push((x, y));
                assert(v@.drop_last() == old_v);
                proof {
                    assert(!near(pi, (x as int, y as int)) && !near(ci, (x as int, y as int)));
                    assert forall|q: (usize, usize)|
                        #![trigger v@.contains(q)]
                        v@.contains(q) <==> (q.1 < y || (q.1 == y && q.0 < x + 1)) && q.0 < w && !near(pi, (q.0 as int, q.1 as int))
                            && !near(ci, (q.0 as int, q.1 as int)) by {
                        if q == (x, y) {
                            assert(v@[v@.len() - 1] == q);
                        } else if v@.contains(q) {
                            let i = choose|i: int| 0 <= i < v@.len() && v@[i] == q;
                            assert(i < v@.len() - 1);
                            assert(old_v[i] == q);
                            assert(old_v.contains(q));
                        } else if (q.1 < y || (q.1 == y && q.0 < x)) && q.0 < w && !near(pi, (q.0 as int, q.1 as int)) && !near(
                            ci,
                            (q.0 as int, q.1 as int),
                        ) {
                            assert(old_v.contains(q));
                            let i = choose|i: int| 0 <= i < old_v.len() && old_v[i] == q;
                            assert(v@[i] == q);
                        }
                    }
                }
            } else {
                proof {
                    assert forall|q: (usize, usize)|
                        #![trigger v@.contains(q)]
                        v@.contains(q) <==> (q.1 < y || (q.1 == y && q.0 < x + 1)) && q.0 < w && !near(pi, (q.0 as int, q.1 as int))
                            && !near(ci, (q.0 as int, q.1 as int)) by {
                        if q == (x, y) && v@.contains(q) {
                            let i = choose|i: int| 0 <= i < v@.len() && v@[i] == q;
                        }
                    }
                }
            }
        }
    }
    v
}

impl PvAiGame {
    /// The farthest corner of the board from (`px`, `py`).
    fn pick_corner(&self, px: usize, py: usize) -> (c: (usize, usize))
        requires
            self.wf_shape(),
            px < self.width,
            py < self.height,
        ensures
            (c.0 as int, c.1 as int) == far_corner(self.width as int, self.height as int, (px as int, py as int)),
            c.0 < self.width,
            c.1 < self.height,
    {
        let w1 = self.width - 1;
        let h1 = self.height - 1;
        let corners = [(0usize, 0usize), (w1, 0usize), (0usize, h1), (w1, h1)];
        let mut best = corners[0];
        let mut best_d = taxi_exec((px, py), best);
        let mut k: usize = 1;
        while k < 4
            invariant
                1 <= k <= 4,
                corners@ == seq![(0usize, 0usize), (w1, 0usize), (0usize, h1), (w1, h1)],
                w1 == self.width - 1,
                h1 == self.height - 1,
                self.wf_shape(),
                px < self.width,
                py < self.height,
                best_d == taxi((px as int, py as int), (best.0 as int, best.1 as int)),
                k == 1 ==> best == corners@[0],
                k == 2 ==> {
                    let d0 = taxi((px as int, py as int), (0, 0));
                    let d1 = taxi((px as int, py as int), (w1 as int, 0));
                    best == if d1 >= d0 { corners@[1] } else { corners@[0] }
                },
                k == 3 ==> {
                    let d0 = taxi((px as int, py as int), (0, 0));
                    let d1 = taxi((px as int, py as int), (w1 as int, 0));
                    let d2 = taxi((px as int, py as int), (0, h1 as int));
                    let b01 = if d1 >= d0 { corners@[1] } else { corners@[0] };
                    let e01 = if d1 >= d0 { d1 } else { d0 };
                    best == if d2 >= e01 { corners@[2] } else { b01 }
                },
                k == 4 ==> (best.0 as int, best.1 as int) == far_corner(self.width as int, self.height as int, (px as int, py as int)),
                best.0 < self.width,
                best.1 < self.height,
                best_d <= 2 * MAX_CELLS,
            decreases 4 - k,
        {
            let c = corners[k];
            let d = taxi_exec((px, py), c);
            if d >= best_d {
                best = c;
                best_d = d;
            }
            k = k + 1;
        }
        best
    }
}

/// The taxicab distance between `p` and `q`, saturated far beyond any board.
fn taxi_exec(p: (usize, usize), q: (usize, usize)) -> (r: usize)
    requires
        p.0 <= 2 * MAX_CELLS,
        p.1 <= 2 * MAX_CELLS,
        q.0 <= 2 * MAX_CELLS,
        q.1 <= 2 * MAX_CELLS,
    ensures
        r == taxi((p.0 as int, p.1 as int), (q.0 as int, q.1 as int)),
{
    let dx = if p.0 >= q.0 {
        p.0 - q.0
    } else {
        q.0 - p.0
    };
    let dy = if p.1 >= q.1 {
        p.1 - q.1
    } else {
        q.1 - p.1
    };
    dx + dy
}

impl PvAiGame {
    /// What the first click on (`px`, `py`) placed: the computer's corner
    /// is the farthest one; `perm` lists once, in random order, every cell
    /// outside the 3x3 blocks around the click and the corner; its first
    /// entries, as many as the mine count or as there are, became mines;
    /// every cell counts the mines around it; nothing else changed.
    pub open spec fn placed(self, f: PvAiGame, perm: Seq<(usize, usize)>, px: int, py: int) -> bool {
        let n = if self.mine_count < perm.len() {
            self.mine_count as int
        } else {
            perm.len() as int
        };
        let c = far_corner(self.width as int, self.height as int, (px, py));
        &&& perm.no_duplicates()
        &&& forall|q: (usize, usize)|
            #![trigger perm.contains(q)]
            perm.contains(q) <==> inside(self.width as int, self.height as int, (q.0 as int, q.1 as int)) && !near(
                (px, py),
                (q.0 as int, q.1 as int),
            ) && !near(c, (q.0 as int, q.1 as int))
        &&& f == (PvAiGame { grid: f.grid, ai_corner: f.ai_corner, ..self })
        &&& (f.ai_corner.0 as int, f.ai_corner.1 as int) == c
        &&& f.wf_shape()
        &&& forall|i: int, j: int|
            self.in_bounds(i, j) ==> {
                let cc = #[trigger] f.cell(i, j);
                &&& cc == DuelCell { is_mine: cc.is_mine, adj: cc.adj, ..self.cell(i, j) }
                &&& cc.is_mine == perm.take(n).contains((i as usize, j as usize))
                &&& cc.adj == nb_sum(|q: (int, int)| f.mine_here(q), (i, j))
            }
    }

    /// Place the mines for the first click on (`px`, `py`).
    fn place_mines(&mut self, px: usize, py: usize)
        requires
            old(self).wf(),
            old(self).state == PvAiState::Ready,
            px < old(self).width,
            py < old(self).height,
        ensures
            exists|perm: Seq<(usize, usize)>| #[trigger] old(self).placed(*final(self), perm, px as int, py as int),
    {
        let ghost g0 = *self;
        let corner = self.pick_corner(px, py);
        let mut positions = duel_candidates(self.width, self.height, (px, py), corner);
        let ghost before = positions@;
        shuffle_positions(&mut positions);
        proof {
            lemma_shuffled(before, positions@);
            assert forall|t: int| 0 <= t < positions@.len() implies inside(
                g0.width as int,
                g0.height as int,
                (#[trigger] positions@[t].0 as int, positions@[t].1 as int),
            ) by {
                assert(positions@.contains(positions@[t]));
                assert(before.contains(positions@[t]));
            }
        }
        let ghost perm = positions@;
        self.ai_corner = corner;
        let ghost s1 = *self;
        proof {
            assert forall|i: int, j: int| self.in_bounds(i, j) implies (#[trigger] self.cell(i, j)).adj <= 8 by {
                assert(self.cell(i, j) == g0.cell(i, j));
            }
        }
        let n = if self.mine_count < positions.len() {
            self.mine_count
        } else {
            positions.len()
        };
        for k in 0..n
            invariant
                self.wf_shape(),
                *self == (PvAiGame { grid: self.grid, ..s1 }),
                s1 == (PvAiGame { ai_corner: corner, ..g0 }),
                g0.wf(),
                g0.state == PvAiState::Ready,
                perm == positions@,
                perm.no_duplicates(),
                n <= perm.len(),
                forall|t: int| 0 <= t < perm.len() ==> inside(g0.width as int, g0.height as int, (#[trigger] perm[t].0 as int, perm[t].1 as int)),
                forall|i: int, j: int|
                    g0.in_bounds(i, j) ==> {
                        let c = #[trigger] self.cell(i, j);
                        &&& c == DuelCell { is_mine: c.is_mine, ..g0.cell(i, j) }
                        &&& c.is_mine == perm.take(k as int).contains((i as usize, j as usize))
                    },
        {
            let (x, y) = positions[k];
            assert(inside(g0.width as int, g0.height as int, (perm[k as int].0 as int, perm[k as int].1 as int)));
            assert(self.grid@[y as int]@.len() == self.width);
            let c = self.grid[y][x];
            assert(c == self.cell(x as int, y as int));
            let ghost s0 = *self;
            self.put(x, y, DuelCell { is_mine: true, ..c });
            proof {
                assert forall|i: int, j: int| g0.in_bounds(i, j) implies #[trigger] self.cell(i, j).is_mine == perm.take(k + 1).contains(
                    (i as usize, j as usize),
                ) by {
                    let q = (i as usize, j as usize);
                    if perm.take(k + 1).contains(q) {
                        let t = choose|t: int| 0 <= t < k + 1 && #[trigger] perm.take(k + 1)[t] == q;
                        if t < k {
                            assert(perm.take(k as int)[t] == q);
                        } else {
                            assert(q == (x, y));
                        }
                    }
                    if perm.take(k as int).contains(q) {
                        let t = choose|t: int| 0 <= t < k && #[trigger] perm.take(k as int)[t] == q;
                        assert(perm.take(k + 1)[t] == q);
                    }
                    if i == x && j == y {
                        assert(perm.take(k + 1)[k as int] == q);
                    } else {
                        assert(self.cell(i, j) == s0.cell(i, j));
                    }
                }
            }
        }
        let ghost mined = *self;
        let hh = self.height;
        let ww = self.width;
        let mut counts: Vec<Vec<u8>> = Vec::new();
        for j in 0..hh
            invariant
                *self == mined,
                mined.wf_shape(),
                hh == mined.height,
                ww == mined.width,
                counts@.len() == j,
                forall|jj: int| 0 <= jj < j ==> (#[trigger] counts@[jj])@.len() == ww,
                forall|i: int, jj: int|
                    0 <= jj < j && 0 <= i < ww ==> #[trigger] counts@[jj]@[i] == nb_sum(|q: (int, int)| mined.mine_here(q), (i, jj))
                        && counts@[jj]@[i] <= 8,
        {
            let mut row: Vec<u8> = Vec::new();
            for i in 0..ww
                invariant
                    *self == mined,
                    mined.wf_shape(),
                    hh == mined.height,
                    ww == mined.width,
                    j < hh,
                    row@.len() == i,
                    forall|ii: int| 0 <= ii < i ==> #[trigger] row@[ii] == nb_sum(|q: (int, int)| mined.mine_here(q), (ii, j as int))
                        && row@[ii] <= 8,
            {
                let v = self.count_adj(i, j);
                row.push(v);
            }
            counts.push(row);
        }
        for j in 0..hh
            invariant
                self.wf_shape(),
                *self == (PvAiGame { grid: self.grid, ..mined }),
                mined.wf_shape(),
                hh == mined.height,
                ww == mined.width,
                counts@.len() == hh,
                forall|jj: int| 0 <= jj < hh ==> (#[trigger] counts@[jj])@.len() == ww,
                forall|i: int, jj: int|
                    0 <= jj < hh && 0 <= i < ww ==> #[trigger] counts@[jj]@[i] == nb_sum(|q: (int, int)| mined.mine_here(q), (i, jj))
                        && counts@[jj]@[i] <= 8,
                forall|i: int, jj: int|
                    0 <= i < ww && 0 <= jj < hh ==> {
                        let c = #[trigger] self.cell(i, jj);
                        &&& c == DuelCell { adj: c.adj, ..mined.cell(i, jj) }
                        &&& c.adj == if jj < j {
                            counts@[jj]@[i]
                        } else {
                            mined.cell(i, jj).adj
                        }
                    },
        {
            for i in 0..ww
                invariant
                    self.wf_shape(),
                    *self == (PvAiGame { grid: self.grid, ..mined }),
                    mined.wf_shape(),
                    hh == mined.height,
                    ww == mined.width,
                    j < hh,
                    counts@.len() == hh,
                    forall|jj: int| 0 <= jj < hh ==> (#[trigger] counts@[jj])@.len() == ww,
                    forall|ii: int, jj: int|
                        0 <= jj < hh && 0 <= ii < ww ==> #[trigger] counts@[jj]@[ii] == nb_sum(|q: (int, int)| mined.mine_here(q), (ii, jj))
                            && counts@[jj]@[ii] <= 8,
                    forall|ii: int, jj: int|
                        0 <= ii < ww && 0 <= jj < hh ==> {
                            let c = #[trigger] self.cell(ii, jj);
                            &&& c == DuelCell { adj: c.adj, ..mined.cell(ii, jj) }
                            &&& c.adj == if jj < j || (jj == j && ii < i) {
                                counts@[jj]@[ii]
                            } else {
                                mined.cell(ii, jj).adj
                            }
                        },
            {
                assert(self.grid@[j as int]@.len() == self.width);
                let c = self.grid[j][i];
                assert(c == self.cell(i as int, j as int));
                let v = counts[j][i];
                let ghost s0 = *self;
                self.put(i, j, DuelCell { adj: v, ..c });
                proof {
                    assert forall|ii: int, jj: int| 0 <= ii < ww && 0 <= jj < hh implies {
                        let cc = #[trigger] self.cell(ii, jj);
                        &&& cc == DuelCell { adj: cc.adj, ..mined.cell(ii, jj) }
                        &&& cc.adj == if jj < j || (jj == j && ii < i + 1) {
                            counts@[jj]@[ii]
                        } else {
                            mined.cell(ii, jj).adj
                        }
                    } by {
                        if ii != i || jj != j {
                            assert(self.cell(ii, jj) == s0.cell(ii, jj));
                        }
                    }
                }
            }
        }
        proof {
            assert forall|i: int, jj: int| self.in_bounds(i, jj) implies (#[trigger] self.mine_here((i, jj))) == mined.mine_here((i, jj)) by {}
            assert forall|i: int, jj: int| g0.in_bounds(i, jj) implies {
                let cc = #[trigger] self.cell(i, jj);
                &&& cc == DuelCell { is_mine: cc.is_mine, adj: cc.adj, ..g0.cell(i, jj) }
                &&& cc.is_mine == perm.take(n as int).contains((i as usize, jj as usize))
                &&& cc.adj == nb_sum(|q: (int, int)| self.mine_here(q), (i, jj))
            } by {
                assert forall|q: (int, int)| #[trigger] self.mine_here(q) == mined.mine_here(q) by {
                    if self.in_bounds(q.0, q.1) {
                        assert(self.cell(q.0, q.1).is_mine == mined.cell(q.0, q.1).is_mine);
                    }
                }
                assert((|q: (int, int)| self.mine_here(q)) =~= (|q: (int, int)| mined.mine_here(q)));
                assert(mined.cell(i, jj) == DuelCell { is_mine: mined.cell(i, jj).is_mine, ..g0.cell(i, jj) });
            }
            assert(g0.placed(*self, perm, px as int, py as int));
        }
    }
}

/// A cell as the classic cascade sees it: open, flagged (by either side) or
/// hidden; a mine or not.
pub open spec fn duel_as_cell(c: DuelCell) -> Cell {
    Cell {
        state: if c.revealed {
            CellState::Revealed
        } else if c.player_flag || c.ai_flag {
            CellState::Flagged
        } else {
            CellState::Hidden
        },
        mines: if c.is_mine {
            1
        } else {
            0
        },
        is_negative: false,
        adjacent_mines: c.adj as i8,
    }
}

/// The board `c` after an opening whose classic result is `f`: every cell
/// that `f` shows revealed and `c` has closed opens and goes to `o`.
pub open spec fn claim(c: Seq<Seq<DuelCell>>, f: Seq<Seq<Cell>>, o: Owner) -> Seq<Seq<DuelCell>> {
    Seq::new(
        c.len(),
        |y: int|
            Seq::new(
                c[y].len(),
                |x: int|
                    if at(f, (x, y)).state == CellState::Revealed && !c[y][x].revealed {
                        DuelCell { revealed: true, owner: Some(o), ..c[y][x] }
                    } else {
                        c[y][x]
                    },
            ),
    )
}

/// Every mine shown.
pub open spec fn duel_mines_shown(c: Seq<Seq<DuelCell>>) -> Seq<Seq<DuelCell>> {
    Seq::new(
        c.len(),
        |y: int| Seq::new(c[y].len(), |x: int| if c[y][x].is_mine { DuelCell { revealed: true, ..c[y][x] } } else { c[y][x] }),
    )
}

/// The side that wins when `o` opens a mine.
pub open spec fn other_wins(o: Owner) -> PvAiState {
    match o {
        Owner::Player => PvAiState::AiWon,
        Owner::Ai => PvAiState::PlayerWon,
    }
}

/// The shape conditions look only at the board, its sizes and the corner.
pub proof fn lemma_duel_shape(a: PvAiGame, b: PvAiGame)
    requires
        a.wf_shape(),
        b.grid == a.grid,
        b.width == a.width,
        b.height == a.height,
        b.ai_corner == a.ai_corner,
    ensures
        b.wf_shape(),
        b.cells() == a.cells(),
        forall|i: int, j: int| #[trigger] b.cell(i, j) == a.cell(i, j),
{
    assert forall|i: int, j: int| b.in_bounds(i, j) implies (#[trigger] b.cell(i, j)).adj <= 8 by {
        assert(b.cell(i, j) == a.cell(i, j));
    }
}

impl PvAiGame {
    /// The board `c` as classic cells.
    pub open spec fn classic_of(self, c: Seq<Seq<DuelCell>>) -> Seq<Seq<Cell>> {
        Seq::new(self.height as nat, |y: int| Seq::new(self.width as nat, |x: int| duel_as_cell(c[y][x])))
    }

    /// What `o` opening (`x`, `y`) does to the board: the cell opens and
    /// goes to `o`; a mine shows every mine; a cell with no mine around it
    /// opens, for `o`, every cell the classic cascade from it reaches.
    pub open spec fn opened_by(self, p: (int, int), o: Owner) -> Seq<Seq<DuelCell>> {
        self.open_on(self.cells(), p, o)
    }

    /// What `o` opening `p` does to the board `c` of this game's size.
    pub open spec fn open_on(self, c: Seq<Seq<DuelCell>>, p: (int, int), o: Owner) -> Seq<Seq<DuelCell>> {
        let cell = c[p.1][p.0];
        let c1 = c.update(p.1, c[p.1].update(p.0, DuelCell { revealed: true, owner: Some(o), ..cell }));
        if cell.is_mine {
            duel_mines_shown(c1)
        } else if cell.adj == 0 {
            claim(c1, cascaded(self.classic_of(c1), self.width as int, self.height as int, p), o)
        } else {
            c1
        }
    }

    /// Whether (`x`, `y`) can be opened: closed and flagged by neither side.
    pub open spec fn openable(self, x: int, y: int) -> bool {
        !self.cell(x, y).revealed && !self.cell(x, y).player_flag && !self.cell(x, y).ai_flag
    }

    /// The board as a classic game in play.
    fn shadow(&self) -> (g: Game)
        requires
            self.wf_shape(),
        ensures
            g.wf_shape(),
            g.width == self.width,
            g.height == self.height,
            g.cells() == self.classic_of(self.cells()),
    {
        let mut grid: Vec<Vec<Cell>> = Vec::new();
        for y in 0..self.height
            invariant
                self.wf_shape(),
                grid@.len() == y,
                forall|j: int| 0 <= j < y ==> (#[trigger] grid@[j])@ == self.classic_of(self.cells())[j],
        {
            assert(self.grid@[y as int]@.len() == self.width);
            let mut row: Vec<Cell> = Vec::new();
            for x in 0..self.width
                invariant
                    self.wf_shape(),
                    y < self.height,
                    self.grid@[y as int]@.len() == self.width,
                    row@.len() == x,
                    forall|i: int| 0 <= i < x ==> #[trigger] row@[i] == duel_as_cell(self.cells()[y as int][i]),
            {
                let c = self.grid[y][x];
                assert(c == self.cell(x as int, y as int));
                let st = if c.revealed {
                    CellState::Revealed
                } else if c.player_flag || c.ai_flag {
                    CellState::Flagged
                } else {
                    CellState::Hidden
                };
                let mines: u8 = if c.is_mine {
                    1
                } else {
                    0
                };
                row.push(Cell { state: st, mines, is_negative: false, adjacent_mines: c.adj as i8 });
            }
            proof {
                assert(row@ =~= self.classic_of(self.cells())[y as int]);
            }
            grid.push(row);
        }
        let g = Game {
            grid,
            width: self.width,
            height: self.height,
            mine_count: 0,
            state: GameState::Playing,
            flags_placed: 0,
            variant: Variant::PvAi,
            endless: false,
            density_mines: 0,
            density_cells: 1,
        };
        proof {
            assert(g.cells() =~= self.classic_of(self.cells()));
            assert forall|y: int| 0 <= y < g.height implies (#[trigger] g.grid@[y])@.len() == g.width by {
                assert(g.grid@[y]@ == self.classic_of(self.cells())[y]);
            }
            assert forall|x: int, y: int| g.in_bounds(x, y) implies #[trigger] g.cell(x, y).mines <= 3 by {
                assert(g.grid@[y]@ == self.classic_of(self.cells())[y]);
            }
        }
        g
    }

    /// Give the cell at (`x`, `y`) the new contents `c`, keeping the scores
    /// equal to the cells each side owns.
    fn put_scored(&mut self, x: usize, y: usize, c: DuelCell)
        requires
            old(self).wf_shape(),
            old(self).player_score == grid_count(old(self).cells(), |c: DuelCell| owned_by(c, Owner::Player)),
            old(self).ai_score == grid_count(old(self).cells(), |c: DuelCell| owned_by(c, Owner::Ai)),
            x < old(self).width,
            y < old(self).height,
            c.adj <= 8,
            old(self).cell(x as int, y as int).owner is None || c.owner == old(self).cell(x as int, y as int).owner,
        ensures
            final(self).wf_shape(),
            *final(self) == (PvAiGame {
                grid: final(self).grid,
                player_score: final(self).player_score,
                ai_score: final(self).ai_score,
                ..*old(self)
            }),
            final(self).cells() == old(self).cells().update(y as int, old(self).cells()[y as int].update(x as int, c)),
            forall|i: int, j: int|
                #![trigger final(self).cell(i, j)]
                final(self).in_bounds(i, j) ==> final(self).cell(i, j) == if i == x && j == y {
                    c
                } else {
                    old(self).cell(i, j)
                },
            final(self).player_score == grid_count(final(self).cells(), |c: DuelCell| owned_by(c, Owner::Player)),
            final(self).ai_score == grid_count(final(self).cells(), |c: DuelCell| owned_by(c, Owner::Ai)),
            c.owner == old(self).cell(x as int, y as int).owner ==> final(self).player_score == old(self).player_score
                && final(self).ai_score == old(self).ai_score,
    {
        let ghost g0 = *self;
        let old_owner = self.grid[y][x].owner;
        proof {
            lemma_grid_count_set(g0.cells(), x as int, y as int, c, |c: DuelCell| owned_by(c, Owner::Player));
            lemma_grid_count_set(g0.cells(), x as int, y as int, c, |c: DuelCell| owned_by(c, Owner::Ai));
            assert forall|jj: int| 0 <= jj < g0.cells().len() implies (#[trigger] g0.cells()[jj]).len() == g0.width by {
                assert(g0.grid@[jj]@.len() == g0.width);
            }
            assert forall|cc: DuelCell| 0 <= #[trigger] owned_by(cc, Owner::Player) <= 1 by {}
            assert forall|cc: DuelCell| 0 <= #[trigger] owned_by(cc, Owner::Ai) <= 1 by {}
            let u = g0.cells().update(y as int, g0.cells()[y as int].update(x as int, c));
            assert forall|jj: int| 0 <= jj < u.len() implies (#[trigger] u[jj]).len() == g0.width by {
                assert(g0.grid@[jj]@.len() == g0.width);
            }
            lemma_grid_count_bounds(u, |c: DuelCell| owned_by(c, Owner::Player), g0.width as int);
            lemma_grid_count_bounds(u, |c: DuelCell| owned_by(c, Owner::Ai), g0.width as int);
            assert(g0.height * g0.width == g0.width * g0.height) by (nonlinear_arith);
            assert(g0.cell(x as int, y as int) == g0.cells()[y as int][x as int]);
        }
        self.put(x, y, c);
        let ghost sp = *self;
        if old_owner.is_none() {
            match c.owner {
                Some(Owner::Player) => {
                    self.player_score = self.player_score + 1;
                },
                Some(Owner::Ai) => {
                    self.ai_score = self.ai_score + 1;
                },
                None => {},
            }
        }
        proof {
            lemma_duel_shape(sp, *self);
        }
    }

    /// Open every cell the classic cascade from (`x`, `y`) reaches, for `o`.
    fn cascade(&mut self, x: usize, y: usize, o: Owner)
        requires
            old(self).wf_shape(),
            old(self).player_score == grid_count(old(self).cells(), |c: DuelCell| owned_by(c, Owner::Player)),
            old(self).ai_score == grid_count(old(self).cells(), |c: DuelCell| owned_by(c, Owner::Ai)),
            forall|i: int, j: int| old(self).in_bounds(i, j) && (#[trigger] old(self).cell(i, j)).owner is Some ==> old(self).cell(i, j).revealed,
            x < old(self).width,
            y < old(self).height,
        ensures
            final(self).wf_shape(),
            *final(self) == (PvAiGame {
                grid: final(self).grid,
                player_score: final(self).player_score,
                ai_score: final(self).ai_score,
                ..*old(self)
            }),
            final(self).cells() == claim(
                old(self).cells(),
                cascaded(old(self).classic_of(old(self).cells()), old(self).width as int, old(self).height as int, (x as int, y as int)),
                o,
            ),
            final(self).player_score == grid_count(final(self).cells(), |c: DuelCell| owned_by(c, Owner::Player)),
            final(self).ai_score == grid_count(final(self).cells(), |c: DuelCell| owned_by(c, Owner::Ai)),
            forall|i: int, j: int| final(self).in_bounds(i, j) && (#[trigger] final(self).cell(i, j)).owner is Some ==> final(self).cell(i, j).revealed,
    {
        let ghost g0 = *self;
        let mut sh = self.shadow();
        sh.cascade_reveal(x, y);
        let ghost f = cascaded(g0.classic_of(g0.cells()), g0.width as int, g0.height as int, (x as int, y as int));
        assert(sh.cells() == f);
        let ghost target = claim(g0.cells(), f, o);
        let hh = self.height;
        let ww = self.width;
        for j in 0..hh
            invariant
                hh == g0.height,
                ww == g0.width,
                self.wf_shape(),
                *self == (PvAiGame { grid: self.grid, player_score: self.player_score, ai_score: self.ai_score, ..g0 }),
                self.player_score == grid_count(self.cells(), |c: DuelCell| owned_by(c, Owner::Player)),
                self.ai_score == grid_count(self.cells(), |c: DuelCell| owned_by(c, Owner::Ai)),
                g0.wf_shape(),
                sh.wf_shape(),
                sh.width == g0.width,
                sh.height == g0.height,
                sh.cells() == f,
                target == claim(g0.cells(), f, o),
                forall|i: int, jj: int| g0.in_bounds(i, jj) && (#[trigger] g0.cell(i, jj)).owner is Some ==> g0.cell(i, jj).revealed,
                forall|i: int, jj: int|
                    0 <= i < g0.width && 0 <= jj < g0.height ==> #[trigger] self.cell(i, jj) == if jj < j {
                        target[jj][i]
                    } else {
                        g0.cell(i, jj)
                    },
        {
            for i in 0..ww
                invariant
                    hh == g0.height,
                    ww == g0.width,
                    self.wf_shape(),
                    *self == (PvAiGame { grid: self.grid, player_score: self.player_score, ai_score: self.ai_score, ..g0 }),
                    self.player_score == grid_count(self.cells(), |c: DuelCell| owned_by(c, Owner::Player)),
                    self.ai_score == grid_count(self.cells(), |c: DuelCell| owned_by(c, Owner::Ai)),
                    g0.wf_shape(),
                    sh.wf_shape(),
                    sh.width == g0.width,
                    sh.height == g0.height,
                    sh.cells() == f,
                    j < g0.height,
                    target == claim(g0.cells(), f, o),
                    forall|ii: int, jj: int| g0.in_bounds(ii, jj) && (#[trigger] g0.cell(ii, jj)).owner is Some ==> g0.cell(ii, jj).revealed,
                    forall|ii: int, jj: int|
                        0 <= ii < g0.width && 0 <= jj < g0.height ==> #[trigger] self.cell(ii, jj) == if jj < j || (jj == j && ii < i) {
                            target[jj][ii]
                        } else {
                            g0.cell(ii, jj)
                        },
            {
                assert(sh.grid@[j as int]@.len() == sh.width);
                assert(self.grid@[j as int]@.len() == self.width);
                let open = matches!(sh.grid[j][i].state, CellState::Revealed);
                let c = self.grid[j][i];
                proof {
                    assert(self.cell(i as int, j as int) == g0.cell(i as int, j as int));
                    assert(g0.cells()[j as int].len() == g0.width) by {
                        assert(g0.grid@[j as int]@.len() == g0.width);
                    }
                    assert(g0.cells().len() == g0.height);
                    assert(sh.cell(i as int, j as int) == at(f, (i as int, j as int)));
                }
                if open && !c.revealed {
                    proof {
                        assert(g0.cell(i as int, j as int).owner is None);
                    }
                    self.put_scored(i, j, DuelCell { revealed: true, owner: Some(o), ..c });
                }
            }
        }
        proof {
            assert forall|jj: int| 0 <= jj < g0.height implies #[trigger] self.cells()[jj] =~= target[jj] by {
                assert(g0.cells()[jj].len() == g0.width) by {
                    assert(g0.grid@[jj]@.len() == g0.width);
                }
                assert forall|ii: int| 0 <= ii < g0.width implies self.cells()[jj][ii] == target[jj][ii] by {
                    assert(self.cell(ii, jj) == self.cells()[jj][ii]);
                }
            }
            assert(self.cells() =~= target);
            assert forall|i: int, jj: int| self.in_bounds(i, jj) && (#[trigger] self.cell(i, jj)).owner is Some implies self.cell(
                i,
                jj,
            ).revealed by {
                assert(g0.cells()[jj].len() == g0.width) by {
                    assert(g0.grid@[jj]@.len() == g0.width);
                }
                assert(self.cell(i, jj) == target[jj][i]);
            }
        }
    }
}

/// Every cell is open or a mine.
pub open spec fn all_done(c: Seq<Seq<DuelCell>>) -> bool {
    forall|j: int, i: int| 0 <= j < c.len() && 0 <= i < c[j].len() ==> (#[trigger] c[j][i]).revealed || c[j][i].is_mine
}

/// The state after a win check on board `c` with the given scores: once
/// every cell is open or a mine, the higher score wins (the player on a tie).
pub open spec fn after_check(st: PvAiState, c: Seq<Seq<DuelCell>>, ps: int, ai: int) -> PvAiState {
    if st == PvAiState::Playing && all_done(c) {
        if ps >= ai {
            PvAiState::PlayerWon
        } else {
            PvAiState::AiWon
        }
    } else {
        st
    }
}

impl PvAiGame {
    /// `f` shows every flag of this game, of both sides, where it was.
    pub open spec fn flags_kept(self, f: PvAiGame) -> bool {
        forall|i: int, j: int|
            self.in_bounds(i, j) ==> (#[trigger] f.cell(i, j)).player_flag == self.cell(i, j).player_flag
                && f.cell(i, j).ai_flag == self.cell(i, j).ai_flag
    }

    /// Opening a cell moves no flag of either side.
    pub proof fn lemma_opened_keeps_flags(self, p: (int, int), o: Owner)
        requires
            self.wf(),
            self.in_bounds(p.0, p.1),
            !self.cell(p.0, p.1).revealed,
        ensures
            self.opened_by(p, o).len() == self.height,
            forall|i: int, j: int|
                self.in_bounds(i, j) ==> (#[trigger] self.opened_by(p, o)[j][i]).player_flag == self.cell(i, j).player_flag
                    && self.opened_by(p, o)[j][i].ai_flag == self.cell(i, j).ai_flag,
    {
        let c = self.cells();
        assert(c.len() == self.height);
        assert forall|j: int| 0 <= j < self.height implies (#[trigger] c[j]).len() == self.width by {
            assert(self.grid@[j]@.len() == self.width);
        }
        assert forall|i: int, j: int| inside(self.width as int, self.height as int, (i, j)) && (#[trigger] c[j][i]).owner is Some implies c[j][i].revealed by {
            assert(c[j][i] == self.cell(i, j));
        }
        lemma_open_on_facts(self, c, p, o);
        assert forall|i: int, j: int| self.in_bounds(i, j) implies (#[trigger] self.opened_by(p, o)[j][i]).player_flag == self.cell(i, j).player_flag
            && self.opened_by(p, o)[j][i].ai_flag == self.cell(i, j).ai_flag by {
            assert(c[j][i] == self.cell(i, j));
        }
    }
}

/// A game whose board is what opening a cell made of another keeps that
/// game's flags.
pub proof fn lemma_flags_after_open(g0: PvAiGame, f: PvAiGame, p: (int, int), o: Owner)
    requires
        g0.wf(),
        g0.in_bounds(p.0, p.1),
        !g0.cell(p.0, p.1).revealed,
        f.cells() == g0.opened_by(p, o),
    ensures
        g0.flags_kept(f),
{
    g0.lemma_opened_keeps_flags(p, o);
    assert forall|i: int, j: int| g0.in_bounds(i, j) implies (#[trigger] f.cell(i, j)).player_flag == g0.cell(i, j).player_flag
        && f.cell(i, j).ai_flag == g0.cell(i, j).ai_flag by {
        assert(f.grid@.len() == f.cells().len());
        assert(f.cell(i, j) == f.cells()[j][i]);
    }
}

impl PvAiGame {
    /// Show every mine.
    fn show_mines(&mut self)
        requires
            old(self).wf_shape(),
            old(self).player_score == grid_count(old(self).cells(), |c: DuelCell| owned_by(c, Owner::Player)),
            old(self).ai_score == grid_count(old(self).cells(), |c: DuelCell| owned_by(c, Owner::Ai)),
        ensures
            final(self).wf_shape(),
            *final(self) == (PvAiGame { grid: final(self).grid, ..*old(self) }),
            final(self).cells() == duel_mines_shown(old(self).cells()),
            final(self).player_score == grid_count(final(self).cells(), |c: DuelCell| owned_by(c, Owner::Player)),
            final(self).ai_score == grid_count(final(self).cells(), |c: DuelCell| owned_by(c, Owner::Ai)),
    {
        let ghost g0 = *self;
        let ghost target = duel_mines_shown(g0.cells());
        let hh = self.height;
        let ww = self.width;
        for j in 0..hh
            invariant
                hh == g0.height,
                ww == g0.width,
                self.wf_shape(),
                *self == (PvAiGame { grid: self.grid, ..g0 }),
                self.player_score == grid_count(self.cells(), |c: DuelCell| owned_by(c, Owner::Player)),
                self.ai_score == grid_count(self.cells(), |c: DuelCell| owned_by(c, Owner::Ai)),
                g0.wf_shape(),
                target == duel_mines_shown(g0.cells()),
                forall|i: int, jj: int|
                    0 <= i < g0.width && 0 <= jj < g0.height ==> #[trigger] self.cell(i, jj) == if jj < j {
                        target[jj][i]
                    } else {
                        g0.cell(i, jj)
                    },
        {
            for i in 0..ww
                invariant
                    hh == g0.height,
                    ww == g0.width,
                    self.wf_shape(),
                    *self == (PvAiGame { grid: self.grid, ..g0 }),
                    self.player_score == grid_count(self.cells(), |c: DuelCell| owned_by(c, Owner::Player)),
                    self.ai_score == grid_count(self.cells(), |c: DuelCell| owned_by(c, Owner::Ai)),
                    g0.wf_shape(),
                    j < g0.height,
                    target == duel_mines_shown(g0.cells()),
                    forall|ii: int, jj: int|
                        0 <= ii < g0.width && 0 <= jj < g0.height ==> #[trigger] self.cell(ii, jj) == if jj < j || (jj == j && ii < i) {
                            target[jj][ii]
                        } else {
                            g0.cell(ii, jj)
                        },
            {
                assert(self.grid@[j as int]@.len() == self.width);
                let c = self.grid[j][i];
                proof {
                    assert(self.cell(i as int, j as int) == g0.cell(i as int, j as int));
                    assert(g0.cells()[j as int].len() == g0.width) by {
                        assert(g0.grid@[j as int]@.len() == g0.width);
                    }
                }
                if c.is_mine {
                    let ghost s0 = *self;
                    self.put_scored(i, j, DuelCell { revealed: true, ..c });
                    proof {
                        lemma_duel_shape(*self, PvAiGame { grid: self.grid, ..g0 });
                    }
                }
            }
        }
        proof {
            assert forall|jj: int| 0 <= jj < g0.height implies #[trigger] self.cells()[jj] =~= target[jj] by {
                assert(g0.cells()[jj].len() == g0.width) by {
                    assert(g0.grid@[jj]@.len() == g0.width);
                }
                assert forall|ii: int| 0 <= ii < g0.width implies self.cells()[jj][ii] == target[jj][ii] by {
                    assert(self.cell(ii, jj) == self.cells()[jj][ii]);
                }
            }
            assert(self.cells() =~= target);
        }
    }

    /// Whether every cell is open or a mine.
    fn done(&self) -> (r: bool)
        requires
            self.wf_shape(),
        ensures
            r == all_done(self.cells()),
    {
        for j in 0..self.height
            invariant
                self.wf_shape(),
                forall|jj: int, i: int|
                    0 <= jj < j && 0 <= i < self.width ==> (#[trigger] self.cells()[jj][i]).revealed || self.cells()[jj][i].is_mine,
        {
            assert(self.grid@[j as int]@.len() == self.width);
            for i in 0..self.width
                invariant
                    self.wf_shape(),
                    j < self.height,
                    self.grid@[j as int]@.len() == self.width,
                    forall|jj: int, ii: int|
                        (0 <= jj < j && 0 <= ii < self.width) || (jj == j && 0 <= ii < i) ==> (
                        #[trigger] self.cells()[jj][ii]).revealed || self.cells()[jj][ii].is_mine,
            {
                let c = self.grid[j][i];
                assert(self.cells()[j as int][i as int] == c);
                if !c.revealed && !c.is_mine {
                    return false;
                }
            }
        }
        proof {
            assert forall|jj: int, i: int| 0 <= jj < self.cells().len() && 0 <= i < self.cells()[jj].len() implies (
            #[trigger] self.cells()[jj][i]).revealed || self.cells()[jj][i].is_mine by {
                assert(self.grid@[jj]@.len() == self.width);
            }
        }
        true
    }

    /// Once every cell is open or a mine, the higher score wins (the player
    /// on a tie).
    pub fn check_win(&mut self)
        requires
            old(self).wf(),
        ensures
            final(self).wf(),
            *final(self) == (PvAiGame { state: final(self).state, ..*old(self) }),
            final(self).state == after_check(old(self).state, old(self).cells(), old(self).player_score as int, old(self).ai_score as int),
    {
        if !matches!(self.state, PvAiState::Playing) {
            return;
        }
        if self.done() {
            let ghost s0 = *self;
            self.state = if self.player_score >= self.ai_score {
                PvAiState::PlayerWon
            } else {
                PvAiState::AiWon
            };
            proof {
                lemma_duel_shape(s0, *self);
            }
        }
    }

    /// `o` opens (`x`, `y`) while play is on, if it is closed and
    /// unflagged: `opened_by` says what the board becomes; a mine ends the
    /// game with the other side winning. Returns whether it opened.
    pub fn reveal_cell(&mut self, x: usize, y: usize, o: Owner) -> (r: bool)
        requires
            old(self).wf(),
            old(self).state == PvAiState::Playing,
            x < old(self).width,
            y < old(self).height,
        ensures
            final(self).wf(),
            r == old(self).openable(x as int, y as int),
            !r ==> *final(self) == *old(self),
            r ==> final(self).cells() == old(self).opened_by((x as int, y as int), o) && final(self).state == if old(self).cell(
                x as int,
                y as int,
            ).is_mine {
                other_wins(o)
            } else {
                PvAiState::Playing
            },
            *final(self) == (PvAiGame {
                grid: final(self).grid,
                state: final(self).state,
                player_score: final(self).player_score,
                ai_score: final(self).ai_score,
                ..*old(self)
            }),
            old(self).flags_kept(*final(self)),
    {
        let ghost g0 = *self;
        assert(self.grid@[y as int]@.len() == self.width);
        let c = self.grid[y][x];
        assert(c == self.cell(x as int, y as int));
        if c.revealed || c.player_flag || c.ai_flag {
            return false;
        }
        proof {
            assert(c.owner is None);
        }
        self.put_scored(x, y, DuelCell { revealed: true, owner: Some(o), ..c });
        let ghost s1 = *self;
        proof {
            assert forall|i: int, j: int| self.in_bounds(i, j) && (#[trigger] self.cell(i, j)).owner is Some implies self.cell(i, j).revealed by {
                if i != x || j != y {
                    assert(self.cell(i, j) == g0.cell(i, j));
                }
            }
        }
        if c.is_mine {
            self.show_mines();
            let ghost s2 = *self;
            self.state = match o {
                Owner::Player => PvAiState::AiWon,
                Owner::Ai => PvAiState::PlayerWon,
            };
            proof {
                lemma_duel_shape(s2, *self);
                assert forall|i: int, j: int| self.in_bounds(i, j) && (#[trigger] self.cell(i, j)).owner is Some implies self.cell(i, j).revealed by {
                    assert(s1.cells()[j].len() == s1.width) by {
                        assert(s1.grid@[j]@.len() == s1.width);
                    }
                    assert(self.cell(i, j) == duel_mines_shown(s1.cells())[j][i]);
                    assert(s1.cell(i, j) == s1.cells()[j][i]);
                }
                assert(self.cells() == g0.opened_by((x as int, y as int), o));
                lemma_flags_after_open(g0, *self, (x as int, y as int), o);
            }
            return true;
        }
        if c.adj == 0 {
            self.cascade(x, y, o);
        }
        proof {
            assert(self.cells() == g0.opened_by((x as int, y as int), o));
            lemma_flags_after_open(g0, *self, (x as int, y as int), o);
        }
        true
    }

    /// The player opens (`x`, `y`) while play is on, then the win is checked.
    pub fn player_reveal(&mut self, x: usize, y: usize)
        requires
            old(self).wf(),
            x < old(self).width,
            y < old(self).height,
        ensures
            final(self).wf(),
            old(self).state != PvAiState::Playing ==> *final(self) == *old(self),
            old(self).state == PvAiState::Playing ==> final(self).cells() == if old(self).openable(x as int, y as int) {
                old(self).opened_by((x as int, y as int), Owner::Player)
            } else {
                old(self).cells()
            } && final(self).state == after_check(
                if old(self).openable(x as int, y as int) && old(self).cell(x as int, y as int).is_mine {
                    PvAiState::AiWon
                } else {
                    PvAiState::Playing
                },
                final(self).cells(),
                final(self).player_score as int,
                final(self).ai_score as int,
            ),
    {
        if !matches!(self.state, PvAiState::Playing) {
            return;
        }
        self.reveal_cell(x, y, Owner::Player);
        self.check_win();
    }

    /// The player flags or unflags (`x`, `y`) while play is on, unless it
    /// is open or carries the computer's flag.
    pub fn player_flag(&mut self, x: usize, y: usize)
        requires
            old(self).wf(),
            x < old(self).width,
            y < old(self).height,
        ensures
            final(self).wf(),
            old(self).state == PvAiState::Playing && !old(self).cell(x as int, y as int).revealed && !old(self).cell(
                x as int,
                y as int,
            ).ai_flag ==> final(self).cells() == old(self).cells().update(
                y as int,
                old(self).cells()[y as int].update(
                    x as int,
                    DuelCell { player_flag: !old(self).cell(x as int, y as int).player_flag, ..old(self).cell(x as int, y as int) },
                ),
            ) && *final(self) == (PvAiGame { grid: final(self).grid, ..*old(self) }),
            !(old(self).state == PvAiState::Playing && !old(self).cell(x as int, y as int).revealed && !old(self).cell(
                x as int,
                y as int,
            ).ai_flag) ==> *final(self) == *old(self),
    {
        if !matches!(self.state, PvAiState::Playing) {
            return;
        }
        assert(self.grid@[y as int]@.len() == self.width);
        let c = self.grid[y][x];
        assert(c == self.cell(x as int, y as int));
        if c.revealed || c.ai_flag {
            return;
        }
        let ghost g0 = *self;
        self.put_scored(x, y, DuelCell { player_flag: !c.player_flag, ..c });
        proof {
            assert forall|i: int, j: int| self.in_bounds(i, j) && (#[trigger] self.cell(i, j)).owner is Some implies self.cell(i, j).revealed by {
                if i != x || j != y {
                    assert(self.cell(i, j) == g0.cell(i, j));
                }
            }
            assert(self.player_score == g0.player_score) by {
                lemma_grid_count_set(g0.cells(), x as int, y as int, DuelCell { player_flag: !c.player_flag, ..c }, |c: DuelCell| owned_by(c, Owner::Player));
                assert(g0.cells()[y as int][x as int] == c);
            }
            assert(self.ai_score == g0.ai_score) by {
                lemma_grid_count_set(g0.cells(), x as int, y as int, DuelCell { player_flag: !c.player_flag, ..c }, |c: DuelCell| owned_by(c, Owner::Ai));
                assert(g0.cells()[y as int][x as int] == c);
            }
        }
    }
}

/// Whether the cell at `q` of board `c` can be opened.
pub open spec fn openable_at(c: Seq<Seq<DuelCell>>, q: (int, int)) -> bool {
    !c[q.1][q.0].revealed && !c[q.1][q.0].player_flag && !c[q.1][q.0].ai_flag
}

impl PvAiGame {
    /// Whether a player chord on (`x`, `y`) fires: play is on, the cell is
    /// open, safe, with mines around it, and as many flags of either side
    /// lie around it.
    pub open spec fn chord_fires(self, x: int, y: int) -> bool {
        &&& self.state == PvAiState::Playing
        &&& self.cell(x, y).revealed
        &&& !self.cell(x, y).is_mine
        &&& self.cell(x, y).adj != 0
        &&& nb_sum(|q: (int, int)| self.flag_here(q), (x, y)) == self.cell(x, y).adj
    }

    /// The player opening the first `k` neighbours of `p` of board `c` in
    /// turn, each one only if it is still openable, stopping once the game
    /// is over.
    pub open spec fn chord_run(self, c: Seq<Seq<DuelCell>>, st: PvAiState, p: (int, int), k: int) -> (Seq<Seq<DuelCell>>, PvAiState)
        decreases k,
    {
        if k <= 0 {
            (c, st)
        } else {
            let r = self.chord_run(c, st, p, k - 1);
            let q = nb(p, k - 1);
            if r.1 == PvAiState::Playing && inside(self.width as int, self.height as int, q) && openable_at(r.0, q) {
                (self.open_on(r.0, q, Owner::Player), if r.0[q.1][q.0].is_mine { PvAiState::AiWon } else { PvAiState::Playing })
            } else {
                r
            }
        }
    }
}

/// Games of the same size open cells alike.
pub proof fn lemma_open_on_same(a: PvAiGame, b: PvAiGame, c: Seq<Seq<DuelCell>>, p: (int, int), o: Owner)
    requires
        a.width == b.width,
        a.height == b.height,
    ensures
        a.open_on(c, p, o) == b.open_on(c, p, o),
{
    let cell = c[p.1][p.0];
    let c1 = c.update(p.1, c[p.1].update(p.0, DuelCell { revealed: true, owner: Some(o), ..cell }));
    assert(a.classic_of(c1) =~= b.classic_of(c1));
}

/// Games of the same size chord alike.
pub proof fn lemma_chord_run_same(a: PvAiGame, b: PvAiGame, c: Seq<Seq<DuelCell>>, st: PvAiState, p: (int, int), k: int)
    requires
        a.width == b.width,
        a.height == b.height,
    ensures
        a.chord_run(c, st, p, k) == b.chord_run(c, st, p, k),
    decreases k,
{
    if k > 0 {
        lemma_chord_run_same(a, b, c, st, p, k - 1);
        let r = a.chord_run(c, st, p, k - 1);
        lemma_open_on_same(a, b, r.0, nb(p, k - 1), Owner::Player);
    }
}

impl PvAiGame {
    /// The player's chord on (`x`, `y`): when it fires, the neighbours are
    /// opened in scan order as `chord_run` says, and unless that ended the
    /// game the win is checked.
    pub fn player_chord(&mut self, x: usize, y: usize)
        requires
            old(self).wf(),
            x < old(self).width,
            y < old(self).height,
        ensures
            final(self).wf(),
            !old(self).chord_fires(x as int, y as int) ==> *final(self) == *old(self),
            old(self).chord_fires(x as int, y as int) ==> {
                let r = old(self).chord_run(old(self).cells(), PvAiState::Playing, (x as int, y as int), 8);
                &&& final(self).cells() == r.0
                &&& final(self).state == if r.1 == PvAiState::Playing {
                    after_check(r.1, r.0, final(self).player_score as int, final(self).ai_score as int)
                } else {
                    r.1
                }
            },
    {
        let ghost g0 = *self;
        let ghost p = (x as int, y as int);
        if !matches!(self.state, PvAiState::Playing) {
            return;
        }
        assert(self.grid@[y as int]@.len() == self.width);
        let c = self.grid[y][x];
        assert(c == self.cell(x as int, y as int));
        if !c.revealed || c.is_mine || c.adj == 0 {
            return;
        }
        if self.flags_around(x, y) != c.adj {
            return;
        }
        assert(g0.chord_fires(x as int, y as int));
        for k in 0..8usize
            invariant
                self.wf(),
                *self == (PvAiGame {
                    grid: self.grid,
                    state: self.state,
                    player_score: self.player_score,
                    ai_score: self.ai_score,
                    ..g0
                }),
                x < g0.width,
                y < g0.height,
                p == (x as int, y as int),
                g0.state == PvAiState::Playing,
                g0 == *old(self),
                g0.chord_fires(x as int, y as int),
                self.state == PvAiState::Playing,
                (self.cells(), self.state) == g0.chord_run(g0.cells(), PvAiState::Playing, p, k as int),
        {
            match neighbor_of(self.width, self.height, x, y, k) {
                Some((nx, ny)) => {
                    assert(self.grid@[ny as int]@.len() == self.width);
                    let nc = self.grid[ny][nx];
                    assert(nc == self.cells()[ny as int][nx as int]);
                    if !nc.revealed && !nc.player_flag && !nc.ai_flag {
                        let ghost before = *self;
                        self.reveal_cell(nx, ny, Owner::Player);
                        proof {
                            lemma_open_on_same(before, g0, before.cells(), nb(p, k as int), Owner::Player);
                        }
                        if !matches!(self.state, PvAiState::Playing) {
                            proof {
                                assert forall|kk: int| k + 1 <= kk <= 8 implies #[trigger] g0.chord_run(
                                    g0.cells(),
                                    PvAiState::Playing,
                                    p,
                                    kk,
                                ) == g0.chord_run(g0.cells(), PvAiState::Playing, p, k + 1) by {
                                    lemma_run_stays(g0, g0.cells(), p, k + 1, kk);
                                }
                            }
                            return;
                        }
                    }
                },
                None => {},
            }
        }
        self.check_win();
    }
}

/// Once a chord has ended the game, the remaining neighbours change nothing.
pub proof fn lemma_run_stays(g: PvAiGame, c: Seq<Seq<DuelCell>>, p: (int, int), k: int, kk: int)
    requires
        0 <= k <= kk,
        g.chord_run(c, PvAiState::Playing, p, k).1 != PvAiState::Playing,
    ensures
        g.chord_run(c, PvAiState::Playing, p, kk) == g.chord_run(c, PvAiState::Playing, p, k),
    decreases kk - k,
{
    if kk > k {
        lemma_run_stays(g, c, p, k, kk - 1);
    }
}

/// What opening `p` keeps: every cell's mine, count and flags; every open
/// cell; and, when `p` is no mine, every closed mine stays closed. The
/// opened cell is open and owned by `o`.
pub proof fn lemma_open_on_facts(g: PvAiGame, c: Seq<Seq<DuelCell>>, p: (int, int), o: Owner)
    requires
        c.len() == g.height,
        forall|j: int| 0 <= j < g.height ==> (#[trigger] c[j]).len() == g.width,
        inside(g.width as int, g.height as int, p),
        !c[p.1][p.0].revealed,
        forall|i: int, j: int| inside(g.width as int, g.height as int, (i, j)) && (#[trigger] c[j][i]).owner is Some ==> c[j][i].revealed,
    ensures
        g.open_on(c, p, o).len() == g.height,
        forall|j: int| 0 <= j < g.height ==> (#[trigger] g.open_on(c, p, o)[j]).len() == g.width,
        forall|i: int, j: int|
            inside(g.width as int, g.height as int, (i, j)) ==> {
                let r = #[trigger] g.open_on(c, p, o)[j][i];
                &&& r.is_mine == c[j][i].is_mine
                &&& r.adj == c[j][i].adj
                &&& r.player_flag == c[j][i].player_flag
                &&& r.ai_flag == c[j][i].ai_flag
                &&& c[j][i].revealed ==> r == c[j][i]
                &&& !c[p.1][p.0].is_mine && c[j][i].is_mine ==> r.revealed == c[j][i].revealed
                &&& (i, j) == p ==> r.revealed && r.owner == Some(o)
            },
{
    let cell = c[p.1][p.0];
    let c1 = c.update(p.1, c[p.1].update(p.0, DuelCell { revealed: true, owner: Some(o), ..cell }));
    let w = g.width as int;
    let h = g.height as int;
    if !cell.is_mine && cell.adj == 0 {
        let f = cascaded(g.classic_of(c1), w, h, p);
        assert forall|i: int, j: int| inside(w, h, (i, j)) && at(f, (i, j)).state == CellState::Revealed && !c1[j][i].revealed implies !c1[j][i].is_mine by {
            let pc = g.classic_of(c1);
            if in_cascade(pc, w, h, p, (i, j)) {
                let ps = choose|ps: Seq<(int, int)>| #[trigger] cascade_path(pc, w, h, p, ps) && ps.last() == (i, j);
                assert(opens(pc, w, h, ps.last()));
            } else {
                assert(at(f, (i, j)) == at(pc, (i, j)));
            }
        }
    }
}

/// After the mines are placed for a first click on (`x`, `y`) and play has
/// started: the game is well formed, the click and the computer's corner
/// hold no mine, the clicked cell can be opened and no mine is open.
pub proof fn lemma_started(g0: PvAiGame, placed: PvAiGame, s: PvAiGame, perm: Seq<(usize, usize)>, x: usize, y: usize)
    requires
        g0.wf(),
        g0.state == PvAiState::Ready,
        x < g0.width,
        y < g0.height,
        g0.placed(placed, perm, x as int, y as int),
        s == (PvAiGame { state: PvAiState::Playing, ..placed }),
    ensures
        s.wf(),
        !s.cell(x as int, y as int).is_mine,
        !s.cell(s.ai_corner.0 as int, s.ai_corner.1 as int).is_mine,
        s.openable(x as int, y as int),
        forall|i: int, j: int| s.in_bounds(i, j) && #[trigger] s.cell(i, j).is_mine ==> !s.cell(i, j).revealed,
        forall|i: int, j: int| #[trigger] s.cell(i, j) == placed.cell(i, j),
{
    let n = if g0.mine_count < perm.len() {
        g0.mine_count as int
    } else {
        perm.len() as int
    };
    lemma_duel_shape(placed, s);
    assert forall|jj: int| 0 <= jj < g0.cells().len() implies (#[trigger] g0.cells()[jj]).len() == s.cells()[jj].len() by {
        assert(g0.grid@[jj]@.len() == g0.width);
        assert(s.grid@[jj]@.len() == g0.width);
    }
    assert forall|jj: int, ii: int| 0 <= jj < g0.cells().len() && 0 <= ii < g0.cells()[jj].len() implies owned_by(
    #[trigger] g0.cells()[jj][ii], Owner::Player) == owned_by(s.cells()[jj][ii], Owner::Player) && owned_by(
        g0.cells()[jj][ii],
        Owner::Ai,
    ) == owned_by(s.cells()[jj][ii], Owner::Ai) by {
        assert(g0.grid@[jj]@.len() == g0.width);
        assert(s.cell(ii, jj) == placed.cell(ii, jj));
    }
    lemma_grid_count_same(g0.cells(), s.cells(), |c: DuelCell| owned_by(c, Owner::Player));
    lemma_grid_count_same(g0.cells(), s.cells(), |c: DuelCell| owned_by(c, Owner::Ai));
    assert forall|i: int, j: int| s.in_bounds(i, j) && (#[trigger] s.cell(i, j)).owner is Some implies s.cell(i, j).revealed by {
        assert(s.cell(i, j) == placed.cell(i, j));
    }
    assert(!s.cell(x as int, y as int).is_mine) by {
        if perm.take(n).contains((x, y)) {
            let t = choose|t: int| 0 <= t < n && #[trigger] perm.take(n)[t] == (x, y);
            assert(perm[t] == (x, y));
            assert(perm.contains((x, y)));
        }
    }
    let co = s.ai_corner;
    assert(!s.cell(co.0 as int, co.1 as int).is_mine) by {
        if perm.take(n).contains(co) {
            let t = choose|t: int| 0 <= t < n && #[trigger] perm.take(n)[t] == co;
            assert(perm[t] == co);
            assert(perm.contains(co));
        }
    }
    assert forall|i: int, j: int| s.in_bounds(i, j) && #[trigger] s.cell(i, j).is_mine implies !s.cell(i, j).revealed by {
        assert(s.cell(i, j) == placed.cell(i, j));
    }
}

/// What one opening keeps, stated over the games before (`a`) and after (`b`).
pub proof fn lemma_after_open(a: PvAiGame, b: PvAiGame, p: (int, int), o: Owner)
    requires
        a.wf(),
        inside(a.width as int, a.height as int, p),
        a.openable(p.0, p.1),
        b.wf(),
        b.width == a.width,
        b.height == a.height,
        b.cells() == a.opened_by(p, o),
    ensures
        forall|i: int, j: int|
            #![trigger b.cell(i, j)]
            b.in_bounds(i, j) ==> b.cell(i, j).is_mine == a.cell(i, j).is_mine && b.cell(i, j).adj == a.cell(i, j).adj && (
            a.cell(i, j).revealed ==> b.cell(i, j) == a.cell(i, j)) && (!a.cell(p.0, p.1).is_mine && a.cell(i, j).is_mine
                ==> b.cell(i, j).revealed == a.cell(i, j).revealed),
        b.cell(p.0, p.1).revealed,
        b.cell(p.0, p.1).owner == Some(o),
{
    assert(a.cells()[p.1][p.0] == a.cell(p.0, p.1));
    assert forall|j: int| 0 <= j < a.height implies (#[trigger] a.cells()[j]).len() == a.width by {
        assert(a.grid@[j]@.len() == a.width);
    }
    assert forall|i: int, j: int| inside(a.width as int, a.height as int, (i, j)) && (#[trigger] a.cells()[j][i]).owner is Some implies a.cells()[j][i].revealed by {
        assert(a.cells()[j][i] == a.cell(i, j));
    }
    lemma_open_on_facts(a, a.cells(), p, o);
    assert forall|i: int, j: int| #![trigger b.cell(i, j)] b.in_bounds(i, j) implies b.cell(i, j).is_mine == a.cell(i, j).is_mine
        && b.cell(i, j).adj == a.cell(i, j).adj && (a.cell(i, j).revealed ==> b.cell(i, j) == a.cell(i, j)) && (!a.cell(
        p.0,
        p.1,
    ).is_mine && a.cell(i, j).is_mine ==> b.cell(i, j).revealed == a.cell(i, j).revealed) by {
        assert(b.cell(i, j) == b.cells()[j][i]);
        assert(a.cell(i, j) == a.cells()[j][i]);
    }
    assert(b.cell(p.0, p.1) == b.cells()[p.1][p.0]);
}

impl PvAiGame {
    /// The player's first click on (`x`, `y`): the mines are placed away
    /// from it and from the computer's corner, play starts, the player
    /// opens the cell, and unless that ended the game the computer opens its
    /// corner; the win is checked after each. Neither opening can hit a mine.
    #[verifier::rlimit(60)]
    pub fn player_first(&mut self, x: usize, y: usize)
        requires
            old(self).wf(),
            old(self).state == PvAiState::Ready,
            x < old(self).width,
            y < old(self).height,
        ensures
            final(self).wf(),
            exists|f: PvAiGame, perm: Seq<(usize, usize)>|
                #[trigger] old(self).placed(f, perm, x as int, y as int) && final(self).ai_corner == f.ai_corner && forall|
                    i: int,
                    j: int,
                | #![trigger final(self).cell(i, j)]
                    final(self).in_bounds(i, j) ==> final(self).cell(i, j).is_mine == f.cell(i, j).is_mine && final(self).cell(
                        i,
                        j,
                    ).adj == f.cell(i, j).adj,
            final(self).cell(x as int, y as int).revealed,
            final(self).cell(x as int, y as int).owner == Some(Owner::Player),
            forall|i: int, j: int| final(self).in_bounds(i, j) && #[trigger] final(self).cell(i, j).is_mine ==> !final(self).cell(i, j).revealed,
            final(self).state != PvAiState::Ready,
    {
        let ghost g0 = *self;
        self.place_mines(x, y);
        let ghost placed = *self;
        self.state = PvAiState::Playing;
        proof {
            let perm = choose|perm: Seq<(usize, usize)>| #[trigger] g0.placed(placed, perm, x as int, y as int);
            lemma_started(g0, placed, *self, perm, x, y);
        }
        let ghost s1 = *self;
        self.reveal_cell(x, y, Owner::Player);
        proof {
            lemma_after_open(s1, *self, (x as int, y as int), Owner::Player);
        }
        if !matches!(self.state, PvAiState::Playing) {
            return;
        }
        let ghost sc = *self;
        self.check_win();
        proof {
            assert forall|i: int, j: int| #[trigger] self.cell(i, j) == sc.cell(i, j) by {}
        }
        if !matches!(self.state, PvAiState::Playing) {
            return;
        }
        let (ax, ay) = self.ai_corner;
        let ghost s2 = *self;
        let opened = self.reveal_cell(ax, ay, Owner::Ai);
        proof {
            if opened {
                lemma_after_open(s2, *self, (ax as int, ay as int), Owner::Ai);
            }
        }
        let ghost sd = *self;
        self.check_win();
        proof {
            assert forall|i: int, j: int| #[trigger] self.cell(i, j) == sd.cell(i, j) by {}
        }
    }
}

} // verus!
