use vstd::prelude::*;
use crate::cascade::{inside, nb, neighbor_of, cascaded, at};
use crate::display::{nb_partial, nb_sum};
use crate::game::{Game, Cell, CellState, GameState, MAX_CELLS, candidate_positions, in_pool, lemma_shuffled};
use crate::random::shuffle_positions;
use crate::sums::{sum, lemma_sum_update, lemma_sum_bounds};
use crate::variant::Variant;

verus! {

/// A cell of RGB: at most one mine, of one colour channel; a flag of one
/// channel; a cell opens on every channel at once.
#[derive(Clone, Copy, Debug, PartialEq, Eq, Structural)]
pub struct RgbCell {
    pub mine: Option<u8>,
    pub revealed: bool,
    pub flag: Option<u8>,
}

/// A fresh cell: closed, no mine, no flag.
pub open spec fn fresh_rgb() -> RgbCell {
    RgbCell { mine: None, revealed: false, flag: None }
}

/// 1 where the cell carries a flag of channel `ch`.
pub open spec fn flag_of(c: RgbCell, ch: int) -> int {
    if c.flag == Some(ch as u8) {
        1
    } else {
        0
    }
}

/// The flags of channel `ch` on a board.
pub open spec fn flag_total(g: Seq<Seq<RgbCell>>, ch: int) -> int {
    board_total(g, |c: RgbCell| flag_of(c, ch))
}

/// The total of `f` over a board.
pub open spec fn board_total(g: Seq<Seq<RgbCell>>, f: spec_fn(RgbCell) -> int) -> int {
    sum(g.map_values(|r: Seq<RgbCell>| sum(r.map_values(f))))
}

/// Replacing one cell changes a board total by the difference.
pub proof fn lemma_board_set(g: Seq<Seq<RgbCell>>, x: int, y: int, c: RgbCell, f: spec_fn(RgbCell) -> int)
    requires
        0 <= y < g.len(),
        0 <= x < g[y].len(),
    ensures
        board_total(g.update(y, g[y].update(x, c)), f) == board_total(g, f) - f(g[y][x]) + f(c),
{
    let r = g[y];
    lemma_sum_update(r.map_values(f), x, f(c));
    assert(r.update(x, c).map_values(f) =~= r.map_values(f).update(x, f(c)));
    let rf = |r: Seq<RgbCell>| sum(r.map_values(f));
    lemma_sum_update(g.map_values(rf), y, rf(r.update(x, c)));
    assert(g.update(y, g[y].update(x, c)).map_values(rf) =~= g.map_values(rf).update(y, rf(r.update(x, c))));
}

/// A total of values in [0, 1] over `h` rows of `w` cells lies in [0, w * h].
pub proof fn lemma_board_bounds(g: Seq<Seq<RgbCell>>, f: spec_fn(RgbCell) -> int, w: int)
    requires
        forall|c: RgbCell| 0 <= #[trigger] f(c) <= 1,
        forall|j: int| 0 <= j < g.len() ==> (#[trigger] g[j]).len() == w,
        0 <= w,
    ensures
        0 <= board_total(g, f) <= g.len() * w,
{
    let rf = |r: Seq<RgbCell>| sum(r.map_values(f));
    assert forall|j: int| 0 <= j < g.len() implies 0 <= #[trigger] g.map_values(rf)[j] <= w by {
        lemma_sum_bounds(g[j].map_values(f), 0, 1);
    }
    lemma_sum_bounds(g.map_values(rf), 0, w);
}

/// A total that is zero on every cell is zero.
pub proof fn lemma_board_zero(g: Seq<Seq<RgbCell>>, f: spec_fn(RgbCell) -> int)
    requires
        forall|j: int, i: int| 0 <= j < g.len() && 0 <= i < g[j].len() ==> f(#[trigger] g[j][i]) == 0,
    ensures
        board_total(g, f) == 0,
{
    let rf = |r: Seq<RgbCell>| sum(r.map_values(f));
    assert forall|j: int| 0 <= j < g.len() implies #[trigger] g.map_values(rf)[j] == 0 by {
        lemma_sum_bounds(g[j].map_values(f), 0, 0);
    }
    lemma_sum_bounds(g.map_values(rf), 0, 0);
}

/// RGB: every mine belongs to one of `n` colour channels, each channel
/// shows its own counts, and a flag must name the right channel.
pub struct RgbGame {
    pub grid: Vec<Vec<RgbCell>>,
    /// `adj[y][x][ch]`: the mines of channel `ch` around (`x`, `y`).
    pub adj: Vec<Vec<Vec<u8>>>,
    pub width: usize,
    pub height: usize,
    pub n: usize,
    /// Mines per channel.
    pub mine_count: usize,
    pub state: GameState,
    /// Flags placed, per channel.
    pub flags: Vec<usize>,
    pub view_channel: usize,
}

impl RgbGame {
    /// The board as a sequence of rows.
    pub open spec fn cells(self) -> Seq<Seq<RgbCell>> {
        self.grid@.map_values(|r: Vec<RgbCell>| r@)
    }

    pub open spec fn cell(self, x: int, y: int) -> RgbCell {
        self.grid@[y]@[x]
    }

    /// The count of channel `ch` stored for (`x`, `y`).
    pub open spec fn adj_at(self, x: int, y: int, ch: int) -> int {
        self.adj@[y]@[x]@[ch] as int
    }

    /// 1 where `q` is on the board and holds a mine of channel `ch`.
    pub open spec fn chan_mine(self, ch: int, q: (int, int)) -> int {
        if inside(self.width as int, self.height as int, q) && self.cell(q.0, q.1).mine == Some(ch as u8) {
            1
        } else {
            0
        }
    }

    /// The mines of channel `ch` around `p`.
    pub open spec fn chan_count(self, ch: int, p: (int, int)) -> int {
        nb_sum(|q: (int, int)| self.chan_mine(ch, q), p)
    }

    /// Shape of the board and of the stored counts.
    pub open spec fn wf_shape(self) -> bool {
        &&& 1 <= self.width <= MAX_CELLS
        &&& 1 <= self.height <= MAX_CELLS
        &&& self.width * self.height <= MAX_CELLS
        &&& 1 <= self.n <= 255
        &&& self.view_channel < self.n
        &&& self.grid@.len() == self.height
        &&& forall|j: int| 0 <= j < self.height ==> (#[trigger] self.grid@[j])@.len() == self.width
        &&& self.adj@.len() == self.height
        &&& forall|j: int| 0 <= j < self.height ==> (#[trigger] self.adj@[j])@.len() == self.width
        &&& forall|i: int, j: int|
            0 <= i < self.width && 0 <= j < self.height ==> (#[trigger] self.adj@[j]@[i])@.len() == self.n
        &&& forall|i: int, j: int, ch: int|
            0 <= i < self.width && 0 <= j < self.height && 0 <= ch < self.n ==> #[trigger] self.adj_at(i, j, ch) <= 8
        &&& forall|i: int, j: int|
            0 <= i < self.width && 0 <= j < self.height ==> match #[trigger] self.cell(i, j).mine {
                Some(m) => m < self.n,
                None => true,
            } && match self.cell(i, j).flag {
                Some(f) => f < self.n,
                None => true,
            }
    }

    /// The shape, the per-channel flag counters equal to the flags on the
    /// board while the game is on, a mine budget that leaves room around the first click, and a
    /// fresh board before the first click.
    pub open spec fn wf(self) -> bool {
        &&& self.wf_shape()
        &&& self.flags@.len() == self.n
        &&& (self.state == GameState::Ready || self.state == GameState::Playing) ==> forall|ch: int|
            0 <= ch < self.n ==> #[trigger] self.flags@[ch] == flag_total(self.cells(), ch)
        &&& self.mine_count == 0 || self.n * self.mine_count + 9 <= self.width * self.height
        &&& self.state == GameState::Ready ==> forall|i: int, j: int|
            0 <= i < self.width && 0 <= j < self.height ==> #[trigger] self.cell(i, j) == fresh_rgb()
    }

    /// A new game of `n` channels: each channel gets `mine_count` mines,
    /// fewer when they would not fit beside the nine cells kept free around
    /// the first click.
    pub fn new(width: usize, height: usize, mine_count: usize, n: usize) -> (g: RgbGame)
        requires
            1 <= width,
            1 <= height,
            width * height <= MAX_CELLS,
            1 <= n <= 255,
        ensures
            g.wf(),
            g.width == width,
            g.height == height,
            g.n == n,
            g.state == GameState::Ready,
            g.view_channel == 0,
            g.mine_count == if width * height > 9 {
                if mine_count < (width * height - 9) / (n as int) {
                    mine_count as int
                } else {
                    (width * height - 9) / (n as int)
                }
            } else {
                0
            },
    {
        let cells = width * height;
        let room = if cells > 9 {
            cells - 9
        } else {
            0
        };
        let cap = room / n;
        let per = if mine_count < cap {
            mine_count
        } else {
            cap
        };
        proof {
            assert(width <= MAX_CELLS) by (nonlinear_arith)
                requires
                    width * height <= MAX_CELLS,
                    height >= 1,
            ;
            assert(height <= MAX_CELLS) by (nonlinear_arith)
                requires
                    width * height <= MAX_CELLS,
                    width >= 1,
            ;
            assert(n * per <= room) by (nonlinear_arith)
                requires
                    per <= cap,
                    cap == room / n,
                    n >= 1,
            ;
        }
        let mut grid: Vec<Vec<RgbCell>> = Vec::new();
        let mut adj: Vec<Vec<Vec<u8>>> = Vec::new();
        for y in 0..height
            invariant
                grid@.len() == y,
                adj@.len() == y,
                forall|j: int| 0 <= j < y ==> (#[trigger] grid@[j])@.len() == width,
                forall|j: int| 0 <= j < y ==> (#[trigger] adj@[j])@.len() == width,
                forall|i: int, j: int| 0 <= j < y && 0 <= i < width ==> #[trigger] grid@[j]@[i] == fresh_rgb(),
                forall|i: int, j: int| 0 <= j < y && 0 <= i < width ==> (#[trigger] adj@[j]@[i])@ == Seq::new(n as nat, |k: int| 0u8),
        {
            let mut row: Vec<RgbCell> = Vec::new();
            let mut arow: Vec<Vec<u8>> = Vec::new();
            for x in 0..width
                invariant
                    row@.len() == x,
                    arow@.len() == x,
                    forall|i: int| 0 <= i < x ==> #[trigger] row@[i] == fresh_rgb(),
                    forall|i: int| 0 <= i < x ==> (#[trigger] arow@[i])@ == Seq::new(n as nat, |k: int| 0u8),
            {
                row.push(RgbCell { mine: None, revealed: false, flag: None });
                let mut counts: Vec<u8> = Vec::new();
                for k in 0..n
                    invariant
                        counts@ == Seq::new(k as nat, |j: int| 0u8),
                {
                    counts.push(0);
                    assert(counts@ =~= Seq::new((k + 1) as nat, |j: int| 0u8));
                }
                arow.push(counts);
            }
            grid.push(row);
            adj.push(arow);
        }
        let mut flags: Vec<usize> = Vec::new();
        for k in 0..n
            invariant
                flags@.len() == k,
                forall|j: int| 0 <= j < k ==> #[trigger] flags@[j] == 0,
        {
            flags.push(0);
        }
        let g = RgbGame { grid, adj, width, height, n, mine_count: per, state: GameState::Ready, flags, view_channel: 0 };
        proof {
            assert forall|ch: int| 0 <= ch < n implies #[trigger] g.flags@[ch] == flag_total(g.cells(), ch) by {
                lemma_board_zero(g.cells(), |c: RgbCell| flag_of(c, ch));
            }
            assert forall|i: int, j: int, ch: int|
                0 <= i < width && 0 <= j < height && 0 <= ch < n implies #[trigger] g.adj_at(i, j, ch) <= 8 by {
                assert(g.adj@[j]@[i]@ == Seq::new(n as nat, |k: int| 0u8));
            }
        }
        g
    }

    /// The mines of each channel around (`x`, `y`).
    fn count_adj(&self, x: usize, y: usize) -> (v: Vec<u8>)
        requires
            self.wf_shape(),
            x < self.width,
            y < self.height,
        ensures
            v@.len() == self.n,
            forall|ch: int| 0 <= ch < self.n ==> #[trigger] v@[ch] == self.chan_count(ch, (x as int, y as int)),
            forall|ch: int| 0 <= ch < self.n ==> #[trigger] v@[ch] <= 8,
    {
        let ghost p = (x as int, y as int);
        let mut counts: Vec<u8> = Vec::new();
        for k in 0..self.n
            invariant
                counts@ == Seq::new(k as nat, |j: int| 0u8),
        {
            counts.push(0);
            assert(counts@ =~= Seq::new((k + 1) as nat, |j: int| 0u8));
        }
        for k in 0..8usize
            invariant
                self.wf_shape(),
                x < self.width,
                y < self.height,
                p == (x as int, y as int),
                counts@.len() == self.n,
                forall|ch: int| 0 <= ch < self.n ==> #[trigger] counts@[ch] == nb_partial(|q: (int, int)| self.chan_mine(ch, q), p, k as nat),
                forall|ch: int| 0 <= ch < self.n ==> #[trigger] counts@[ch] <= k,
        {
            match neighbor_of(self.width, self.height, x, y, k) {
                Some((nx, ny)) => {
                    assert(self.grid@[ny as int]@.len() == self.width);
                    match self.grid[ny][nx].mine {
                        Some(m) => {
                            let ghost before = counts@;
                            assert(self.cell(nx as int, ny as int).mine == Some(m));
                            assert(m < self.n);
                            assert(counts@[m as int] <= k);
                            let c = counts[m as usize];
                            counts.set(m as usize, c + 1);
                            proof {
                                assert forall|ch: int| 0 <= ch < self.n implies #[trigger] counts@[ch] == nb_partial(
                                    |q: (int, int)| self.chan_mine(ch, q),
                                    p,
                                    (k + 1) as nat,
                                ) by {
                                    assert(self.chan_mine(ch, nb(p, k as int)) == if ch == m { 1int } else { 0int });
                                }
                            }
                        },
                        None => {
                            proof {
                                assert forall|ch: int| 0 <= ch < self.n implies #[trigger] counts@[ch] == nb_partial(
                                    |q: (int, int)| self.chan_mine(ch, q),
                                    p,
                                    (k + 1) as nat,
                                ) by {
                                    assert(self.chan_mine(ch, nb(p, k as int)) == 0);
                                }
                            }
                        },
                    }
                },
                None => {
                    proof {
                        assert forall|ch: int| 0 <= ch < self.n implies #[trigger] counts@[ch] == nb_partial(
                            |q: (int, int)| self.chan_mine(ch, q),
                            p,
                            (k + 1) as nat,
                        ) by {
                            assert(self.chan_mine(ch, nb(p, k as int)) == 0);
                        }
                    }
                },
            }
        }
        counts
    }
}

/// The cell holds a mine of channel `ch`.
pub open spec fn has_mine(c: RgbCell, ch: int) -> bool {
    c.mine == Some(ch as u8)
}

/// Cell `q` is among the entries `c * per .. lim` of `perm` (and before
/// `(c + 1) * per`): the entries that channel `c` draws.
pub open spec fn drawn_upto(perm: Seq<(usize, usize)>, per: int, c: int, q: (int, int), lim: int) -> bool {
    exists|k: int|
        c * per <= k < lim && k < (c + 1) * per && 0 <= k < perm.len() && #[trigger] perm[k] == (q.0 as usize, q.1 as usize)
}

/// Cell `q` is one of the `per` entries of `perm` that channel `c` draws.
pub open spec fn drawn_for(perm: Seq<(usize, usize)>, per: int, c: int, q: (int, int)) -> bool {
    drawn_upto(perm, per, c, q, (c + 1) * per)
}

impl RgbGame {
    /// Replace one cell, keeping everything else.
    fn put(&mut self, x: usize, y: usize, c: RgbCell)
        requires
            old(self).wf_shape(),
            x < old(self).width,
            y < old(self).height,
            match c.mine {
                Some(m) => m < old(self).n,
                None => true,
            },
            match c.flag {
                Some(f) => f < old(self).n,
                None => true,
            },
        ensures
            final(self).wf_shape(),
            *final(self) == (RgbGame { grid: final(self).grid, ..*old(self) }),
            final(self).cells() == old(self).cells().update(y as int, old(self).cells()[y as int].update(x as int, c)),
            forall|i: int, j: int|
                #![trigger final(self).cell(i, j)]
                0 <= i < old(self).width && 0 <= j < old(self).height ==> final(self).cell(i, j) == if i == x && j == y {
                    c
                } else {
                    old(self).cell(i, j)
                },
    {
        let ghost g0 = *self;
        let mut row = self.grid[y].clone();
        proof {
            assert(row@ =~= g0.grid@[y as int]@) by {
                assert(row@.len() == g0.grid@[y as int]@.len());
            }
        }
        row.set(x, c);
        self.grid.set(y, row);
        proof {
            assert(self.cells() =~= g0.cells().update(y as int, g0.cells()[y as int].update(x as int, c)));
            assert forall|j: int| 0 <= j < self.height implies (#[trigger] self.grid@[j])@.len() == self.width by {
                assert(g0.grid@[j]@.len() == g0.width);
            }
            assert forall|i: int, j: int| 0 <= i < self.width && 0 <= j < self.height implies match #[trigger] self.cell(
                i,
                j,
            ).mine {
                Some(m) => m < self.n,
                None => true,
            } && match self.cell(i, j).flag {
                Some(f) => f < self.n,
                None => true,
            } by {
                if i != x || j != y {
                    assert(self.cell(i, j) == g0.cell(i, j));
                }
            }
            assert forall|i: int, j: int, ch: int|
                0 <= i < self.width && 0 <= j < self.height && 0 <= ch < self.n implies #[trigger] self.adj_at(i, j, ch) <= 8 by {
                assert(self.adj_at(i, j, ch) == g0.adj_at(i, j, ch));
            }
        }
    }

    /// What the first click on (`fx`, `fy`) placed: `perm` lists every cell
    /// outside the 3x3 block around the click once, in random order; channel
    /// `c` takes the entries `c * per .. (c + 1) * per`, where `per` is the
    /// mine budget per channel; every count is then recomputed and nothing
    /// else changes.
    pub open spec fn placed(self, f: RgbGame, perm: Seq<(usize, usize)>, fx: int, fy: int) -> bool {
        &&& perm.no_duplicates()
        &&& forall|q: (usize, usize)|
            #![trigger perm.contains(q)]
            perm.contains(q) <==> in_pool(self.width as int, self.height as int, fx, fy, 0, (q.0 as int, q.1 as int))
        &&& self.n * self.mine_count <= perm.len()
        &&& f == (RgbGame { grid: f.grid, adj: f.adj, ..self })
        &&& f.wf_shape()
        &&& forall|i: int, j: int|
            0 <= i < self.width && 0 <= j < self.height ==> (#[trigger] f.cell(i, j)).revealed == self.cell(i, j).revealed
                && f.cell(i, j).flag == self.cell(i, j).flag
        &&& forall|i: int, j: int, c: int|
            #![trigger has_mine(f.cell(i, j), c)]
            #![trigger drawn_for(perm, self.mine_count as int, c, (i, j))]
            0 <= i < self.width && 0 <= j < self.height && 0 <= c < self.n ==> (has_mine(f.cell(i, j), c) <==> drawn_for(
                perm,
                self.mine_count as int,
                c,
                (i, j),
            ))
        &&& forall|i: int, j: int, c: int|
            0 <= i < self.width && 0 <= j < self.height && 0 <= c < self.n ==> #[trigger] f.adj_at(i, j, c) == f.chan_count(
                c,
                (i, j),
            )
    }

    /// Recompute every stored count from the mines.
    fn recount(&mut self)
        requires
            old(self).wf_shape(),
        ensures
            final(self).wf_shape(),
            *final(self) == (RgbGame { adj: final(self).adj, ..*old(self) }),
            forall|i: int, j: int, c: int|
                0 <= i < old(self).width && 0 <= j < old(self).height && 0 <= c < old(self).n ==> #[trigger] final(self).adj_at(i, j, c)
                    == final(self).chan_count(c, (i, j)),
    {
        let ghost g0 = *self;
        let mut adj: Vec<Vec<Vec<u8>>> = Vec::new();
        for y in 0..self.height
            invariant
                self.wf_shape(),
                *self == g0,
                adj@.len() == y,
                forall|j: int| 0 <= j < y ==> (#[trigger] adj@[j])@.len() == self.width,
                forall|i: int, j: int| 0 <= j < y && 0 <= i < self.width ==> (#[trigger] adj@[j]@[i])@.len() == self.n,
                forall|i: int, j: int, c: int|
                    0 <= j < y && 0 <= i < self.width && 0 <= c < self.n ==> #[trigger] adj@[j]@[i]@[c] == self.chan_count(c, (i, j))
                        && adj@[j]@[i]@[c] <= 8,
        {
            let mut arow: Vec<Vec<u8>> = Vec::new();
            for x in 0..self.width
                invariant
                    self.wf_shape(),
                    *self == g0,
                    y < self.height,
                    arow@.len() == x,
                    forall|i: int| 0 <= i < x ==> (#[trigger] arow@[i])@.len() == self.n,
                    forall|i: int, c: int|
                        0 <= i < x && 0 <= c < self.n ==> #[trigger] arow@[i]@[c] == self.chan_count(c, (i, y as int)) && arow@[i]@[c]
                            <= 8,
            {
                let v = self.count_adj(x, y);
                arow.push(v);
                proof {
                    assert forall|i: int, c: int|
                        0 <= i < x + 1 && 0 <= c < self.n implies #[trigger] arow@[i]@[c] == self.chan_count(c, (i, y as int))
                        && arow@[i]@[c] <= 8 by {
                        if i == x {
                            assert(arow@[i] == v);
                        }
                    }
                }
            }
            adj.push(arow);
            proof {
                assert forall|i: int, j: int, c: int|
                    0 <= j < y + 1 && 0 <= i < self.width && 0 <= c < self.n implies #[trigger] adj@[j]@[i]@[c] == self.chan_count(
                    c,
                    (i, j),
                ) && adj@[j]@[i]@[c] <= 8 by {
                    if j == y {
                        assert(adj@[j] == arow);
                    }
                }
            }
        }
        self.adj = adj;
        proof {
            assert forall|i: int, j: int, c: int|
                0 <= i < self.width && 0 <= j < self.height && 0 <= c < self.n implies #[trigger] self.adj_at(i, j, c) <= 8 by {
                assert(self.adj@[j]@[i]@[c] <= 8);
            }
            assert forall|i: int, j: int| 0 <= i < self.width && 0 <= j < self.height implies match #[trigger] self.cell(
                i,
                j,
            ).mine {
                Some(m) => m < self.n,
                None => true,
            } && match self.cell(i, j).flag {
                Some(f) => f < self.n,
                None => true,
            } by {
                assert(self.cell(i, j) == g0.cell(i, j));
            }
            assert forall|i: int, j: int, c: int|
                0 <= i < g0.width && 0 <= j < g0.height && 0 <= c < g0.n implies #[trigger] self.adj_at(i, j, c)
                == self.chan_count(c, (i, j)) by {
                assert(self.chan_count(c, (i, j)) == g0.chan_count(c, (i, j))) by {
                    assert((|q: (int, int)| self.chan_mine(c, q)) =~= (|q: (int, int)| g0.chan_mine(c, q)));
                }
            }
        }
    }

    /// Place the mines for a first click on (`fx`, `fy`): the cells outside
    /// the 3x3 block around it, shuffled, are dealt out `mine_count` to each
    /// channel in turn; then every count is recomputed.
    fn place_mines(&mut self, fx: usize, fy: usize)
        requires
            old(self).wf(),
            old(self).state == GameState::Ready,
            fx < old(self).width,
            fy < old(self).height,
        ensures
            exists|perm: Seq<(usize, usize)>| #[trigger] old(self).placed(*final(self), perm, fx as int, fy as int),
    {
        let ghost g0 = *self;
        let mut positions = candidate_positions(self.width, self.height, fx, fy, 0);
        let ghost before = positions@;
        shuffle_positions(&mut positions);
        proof {
            lemma_shuffled(before, positions@);
            assert forall|t: int| 0 <= t < positions@.len() implies inside(
                g0.width as int,
                g0.height as int,
                (#[trigger] positions@[t].0 as int, positions@[t].1 as int),
            ) by {
                assert(positions@.contains(positions@[t]));
                assert(before.contains(positions@[t]));
            }
        }
        let m = positions.len();
        let per = self.mine_count;
        let n = self.n;
        proof {
            if per > 0 {
                assert(n * per <= m);
            } else {
                assert(n * per == 0);
            }
        }
        let ghost perm = positions@;
        for ch in 0..n
            invariant
                self.wf_shape(),
                *self == (RgbGame { grid: self.grid, ..g0 }),
                g0.wf(),
                g0.state == GameState::Ready,
                n == g0.n,
                per == g0.mine_count,
                m == perm.len(),
                perm == positions@,
                perm.no_duplicates(),
                n * per <= m,
                forall|t: int| 0 <= t < perm.len() ==> inside(g0.width as int, g0.height as int, (#[trigger] perm[t].0 as int, perm[t].1 as int)),
                forall|i: int, j: int|
                    0 <= i < g0.width && 0 <= j < g0.height ==> (#[trigger] self.cell(i, j)).revealed == g0.cell(i, j).revealed
                        && self.cell(i, j).flag == g0.cell(i, j).flag,
                forall|i: int, j: int, c: int|
                    #![trigger has_mine(self.cell(i, j), c)]
                    #![trigger drawn_for(perm, per as int, c, (i, j))]
                    0 <= i < g0.width && 0 <= j < g0.height && 0 <= c < n ==> (has_mine(self.cell(i, j), c) <==> c < ch
                        && drawn_for(perm, per as int, c, (i, j))),
                forall|i: int, j: int| 0 <= i < g0.width && 0 <= j < g0.height ==> match (#[trigger] self.cell(i, j)).mine {
                    Some(mm) => mm < ch,
                    None => true,
                },
        {
            proof {
                assert((ch + 1) * per <= n * per) by (nonlinear_arith)
                    requires
                        ch + 1 <= n,
                ;
                assert(ch * per + per == (ch + 1) * per) by (nonlinear_arith);
            }
            let start = ch * per;
            let end = (ch + 1) * per;
            for k in start..end
                invariant
                    self.wf_shape(),
                    *self == (RgbGame { grid: self.grid, ..g0 }),
                    g0.wf(),
                    ch < n,
                    n == g0.n,
                    per == g0.mine_count,
                    start == ch * per,
                    end == (ch + 1) * per,
                    end <= m,
                    m == perm.len(),
                    perm == positions@,
                    perm.no_duplicates(),
                    forall|t: int|
                        0 <= t < perm.len() ==> inside(g0.width as int, g0.height as int, (#[trigger] perm[t].0 as int, perm[t].1 as int)),
                    forall|i: int, j: int|
                        0 <= i < g0.width && 0 <= j < g0.height ==> (#[trigger] self.cell(i, j)).revealed == g0.cell(i, j).revealed
                            && self.cell(i, j).flag == g0.cell(i, j).flag,
                    forall|i: int, j: int, c: int|
                        #![trigger has_mine(self.cell(i, j), c)]
                        #![trigger drawn_for(perm, per as int, c, (i, j))]
                        #![trigger drawn_upto(perm, per as int, c, (i, j), k as int)]
                        0 <= i < g0.width && 0 <= j < g0.height && 0 <= c < n ==> (has_mine(self.cell(i, j), c) <==> (c < ch
                            && drawn_for(perm, per as int, c, (i, j))) || (c == ch && drawn_upto(
                            perm,
                            per as int,
                            c,
                            (i, j),
                            k as int,
                        ))),
                    forall|i: int, j: int| 0 <= i < g0.width && 0 <= j < g0.height ==> match (#[trigger] self.cell(i, j)).mine {
                        Some(mm) => mm <= ch,
                        None => true,
                    },
            {
                let (x, y) = positions[k];
                let ghost q = (x as int, y as int);
                assert(inside(g0.width as int, g0.height as int, (perm[k as int].0 as int, perm[k as int].1 as int)));
                let ghost s0 = *self;
                proof {
                    assert forall|c: int| 0 <= c < n implies !has_mine(s0.cell(q.0, q.1), c) by {
                        if c < ch && drawn_for(perm, per as int, c, q) {
                            let k2 = choose|k2: int|
                                c * per <= k2 < (c + 1) * per && k2 < (c + 1) * per && 0 <= k2 < perm.len() && #[trigger] perm[k2] == (
                                    q.0 as usize,
                                    q.1 as usize,
                                );
                            vstd::arithmetic::mul::lemma_mul_inequality(c + 1, ch as int, per as int);
                            assert(perm[k2] == perm[k as int]);
                        }
                        if c == ch && drawn_upto(perm, per as int, c, q, k as int) {
                            let k2 = choose|k2: int|
                                c * per <= k2 < k && k2 < (c + 1) * per && 0 <= k2 < perm.len() && #[trigger] perm[k2] == (
                                    q.0 as usize,
                                    q.1 as usize,
                                );
                            assert(perm[k2] == perm[k as int]);
                        }
                    }
                }
                assert(self.grid@[y as int]@.len() == self.width);
                let cur = self.grid[y][x];
                proof {
                    assert(ch < 256) by {
                        assert(n <= 255);
                    }
                }
                self.put(x, y, RgbCell { mine: Some(ch as u8), ..cur });
                proof {
                    assert forall|i: int, j: int, c: int|
                        0 <= i < g0.width && 0 <= j < g0.height && 0 <= c < n implies (#[trigger] has_mine(self.cell(i, j), c)
                        <==> (c < ch && drawn_for(perm, per as int, c, (i, j))) || (c == ch && drawn_upto(
                            perm,
                            per as int,
                            c,
                            (i, j),
                            k + 1,
                        ))) by {
                        if (i, j) == q {
                            if c == ch {
                                assert(perm[k as int] == (i as usize, j as usize));
                            } else {
                                if c < ch && drawn_for(perm, per as int, c, (i, j)) {
                                    assert(has_mine(s0.cell(i, j), c));
                                }
                                assert((c as u8) != (ch as u8));
                            }
                        } else {
                            assert(self.cell(i, j) == s0.cell(i, j));
                            if c == ch && drawn_upto(perm, per as int, c, (i, j), k + 1) {
                                let k2 = choose|k2: int|
                                    c * per <= k2 < k + 1 && k2 < (c + 1) * per && 0 <= k2 < perm.len() && #[trigger] perm[k2] == (
                                        i as usize,
                                        j as usize,
                                    );
                                if k2 == k {
                                    assert((i as usize, j as usize) == (x, y));
                                    assert(false);
                                }
                                assert(drawn_upto(perm, per as int, c, (i, j), k as int));
                            }
                            if c == ch && drawn_upto(perm, per as int, c, (i, j), k as int) {
                                let k2 = choose|k2: int|
                                    c * per <= k2 < k && k2 < (c + 1) * per && 0 <= k2 < perm.len() && #[trigger] perm[k2] == (
                                        i as usize,
                                        j as usize,
                                    );
                                assert(drawn_upto(perm, per as int, c, (i, j), k + 1));
                            }
                        }
                    }
                }
            }
            proof {
                assert forall|i: int, j: int, c: int|
                    0 <= i < g0.width && 0 <= j < g0.height && 0 <= c < n implies (#[trigger] has_mine(self.cell(i, j), c) <==> c
                    < ch + 1 && drawn_for(perm, per as int, c, (i, j))) by {
                    assert(has_mine(self.cell(i, j), c) <==> (c < ch && drawn_for(perm, per as int, c, (i, j))) || (c == ch
                        && drawn_upto(perm, per as int, c, (i, j), end as int)));
                }
                assert forall|i: int, j: int| 0 <= i < g0.width && 0 <= j < g0.height implies match (#[trigger] self.cell(i, j)).mine {
                    Some(mm) => mm < ch + 1,
                    None => true,
                } by {}
            }
        }
        let ghost mined = *self;
        self.recount();
        proof {
            assert forall|i: int, j: int| 0 <= i < g0.width && 0 <= j < g0.height implies (#[trigger] self.cell(i, j)).revealed
                == g0.cell(i, j).revealed && self.cell(i, j).flag == g0.cell(i, j).flag by {
                assert(self.cell(i, j) == mined.cell(i, j));
            }
            assert forall|i: int, j: int, c: int|
                0 <= i < g0.width && 0 <= j < g0.height && 0 <= c < g0.n implies (#[trigger] has_mine(self.cell(i, j), c)
                <==> drawn_for(perm, g0.mine_count as int, c, (i, j))) by {
                assert(self.cell(i, j) == mined.cell(i, j));
                assert(has_mine(mined.cell(i, j), c) <==> drawn_for(perm, per as int, c, (i, j)));
            }
            assert(g0.placed(*self, perm, fx as int, fy as int));
        }
    }
}

/// How a cell of RGB looks to the classic cascade on channel counts `a`:
/// open cells are revealed, flagged cells flagged, a mine of any channel a
/// mine.
pub open spec fn proj_cell(c: RgbCell, a: int) -> Cell {
    Cell {
        state: if c.revealed {
            CellState::Revealed
        } else if c.flag is Some {
            CellState::Flagged
        } else {
            CellState::Hidden
        },
        mines: if c.mine is Some {
            1
        } else {
            0
        },
        is_negative: false,
        adjacent_mines: a as i8,
    }
}

/// Every mine is shown.
pub open spec fn all_mines_shown(c: Seq<Seq<RgbCell>>) -> Seq<Seq<RgbCell>> {
    Seq::new(
        c.len(),
        |y: int| Seq::new(c[y].len(), |x: int| if c[y][x].mine is Some { RgbCell { revealed: true, ..c[y][x] } } else { c[y][x] }),
    )
}

/// Every mine carries the flag of its channel and every other cell is open.
pub open spec fn rgb_win(c: Seq<Seq<RgbCell>>) -> bool {
    forall|j: int, i: int|
        0 <= j < c.len() && 0 <= i < c[j].len() ==> match (#[trigger] c[j][i]).mine {
            Some(m) => c[j][i].flag == Some(m),
            None => c[j][i].revealed,
        }
}

/// The cell at `p` changed to `v`.
pub open spec fn set_at(c: Seq<Seq<RgbCell>>, p: (int, int), v: RgbCell) -> Seq<Seq<RgbCell>> {
    c.update(p.1, c[p.1].update(p.0, v))
}

impl RgbGame {
    /// The board `c` as the classic cascade sees it on channel `ch`.
    pub open spec fn proj_with(self, c: Seq<Seq<RgbCell>>, ch: int) -> Seq<Seq<Cell>> {
        Seq::new(
            self.height as nat,
            |y: int| Seq::new(self.width as nat, |x: int| proj_cell(c[y][x], self.adj_at(x, y, ch))),
        )
    }

    /// The board `c` after a cascade from `p` on the viewed channel: a cell
    /// is open exactly when the classic cascade leaves it revealed.
    pub open spec fn cascade_cells(self, c: Seq<Seq<RgbCell>>, p: (int, int)) -> Seq<Seq<RgbCell>> {
        let f = cascaded(self.proj_with(c, self.view_channel as int), self.width as int, self.height as int, p);
        Seq::new(
            c.len(),
            |y: int| Seq::new(c[y].len(), |x: int| RgbCell { revealed: at(f, (x, y)).state == CellState::Revealed, ..c[y][x] }),
        )
    }

    /// A click on `p` of the board `c` in state `st` once the mines are
    /// placed: the cells, the state and whether anything happened. Nothing
    /// happens unless the game is on and the cell closed and unflagged; a
    /// mine loses and shows every mine; otherwise the cell opens, a cell
    /// with no mine of the viewed channel around it cascades, and the game
    /// is won by `rgb_win`.
    pub open spec fn open_rgb(self, c: Seq<Seq<RgbCell>>, st: GameState, p: (int, int)) -> (Seq<Seq<RgbCell>>, GameState, bool) {
        let cell = c[p.1][p.0];
        if st != GameState::Playing || cell.revealed || cell.flag is Some {
            (c, st, false)
        } else if cell.mine is Some {
            (all_mines_shown(c), GameState::Lost, true)
        } else {
            let c1 = set_at(c, p, RgbCell { revealed: true, ..cell });
            let c2 = if self.adj_at(p.0, p.1, self.view_channel as int) == 0 {
                self.cascade_cells(c1, p)
            } else {
                c1
            };
            (c2, if rgb_win(c2) { GameState::Won } else { GameState::Playing }, true)
        }
    }
}

/// Boards with the same flags have the same flag totals.
pub proof fn lemma_same_flags(a: Seq<Seq<RgbCell>>, b: Seq<Seq<RgbCell>>, n: int)
    requires
        a.len() == b.len(),
        forall|j: int| 0 <= j < a.len() ==> (#[trigger] a[j]).len() == b[j].len(),
        forall|j: int, i: int| 0 <= j < a.len() && 0 <= i < a[j].len() ==> (#[trigger] a[j][i]).flag == b[j][i].flag,
    ensures
        forall|ch: int| 0 <= ch < n ==> #[trigger] flag_total(a, ch) == flag_total(b, ch),
{
    assert forall|ch: int| 0 <= ch < n implies #[trigger] flag_total(a, ch) == flag_total(b, ch) by {
        let f = |c: RgbCell| flag_of(c, ch);
        let rf = |r: Seq<RgbCell>| sum(r.map_values(f));
        assert forall|j: int| 0 <= j < a.len() implies #[trigger] a.map_values(rf)[j] == b.map_values(rf)[j] by {
            assert(a[j].map_values(f) =~= b[j].map_values(f));
        }
        assert(a.map_values(rf) =~= b.map_values(rf));
    }
}

impl RgbGame {
    /// The board as the classic cascade sees it on the viewed channel.
    fn shadow(&self) -> (g: Game)
        requires
            self.wf_shape(),
        ensures
            g.wf_shape(),
            g.width == self.width,
            g.height == self.height,
            g.cells() == self.proj_with(self.cells(), self.view_channel as int),
    {
        let ch = self.view_channel;
        let mut grid: Vec<Vec<Cell>> = Vec::new();
        for y in 0..self.height
            invariant
                self.wf_shape(),
                ch == self.view_channel,
                grid@.len() == y,
                forall|j: int| 0 <= j < y ==> (#[trigger] grid@[j])@ == self.proj_with(self.cells(), ch as int)[j],
        {
            assert(self.grid@[y as int]@.len() == self.width);
            assert(self.adj@[y as int]@.len() == self.width);
            let mut row: Vec<Cell> = Vec::new();
            for x in 0..self.width
                invariant
                    self.wf_shape(),
                    ch == self.view_channel,
                    y < self.height,
                    self.grid@[y as int]@.len() == self.width,
                    self.adj@[y as int]@.len() == self.width,
                    row@.len() == x,
                    forall|i: int| 0 <= i < x ==> #[trigger] row@[i] == proj_cell(self.cell(i, y as int), self.adj_at(i, y as int, ch as int)),
            {
                let c = self.grid[y][x];
                assert(self.adj@[y as int]@[x as int]@.len() == self.n);
                let a = self.adj[y][x][ch];
                assert(self.adj_at(x as int, y as int, ch as int) <= 8);
                let st = if c.revealed {
                    CellState::Revealed
                } else if c.flag.is_some() {
                    CellState::Flagged
                } else {
                    CellState::Hidden
                };
                let mines: u8 = if c.mine.is_some() {
                    1
                } else {
                    0
                };
                row.push(Cell { state: st, mines, is_negative: false, adjacent_mines: a as i8 });
            }
            proof {
                assert(row@ =~= self.proj_with(self.cells(), ch as int)[y as int]);
            }
            grid.push(row);
        }
        let g = Game {
            grid,
            width: self.width,
            height: self.height,
            mine_count: 0,
            state: GameState::Playing,
            flags_placed: 0,
            variant: Variant::Rgb,
            endless: false,
            density_mines: 0,
            density_cells: 1,
        };
        proof {
            assert(g.cells() =~= self.proj_with(self.cells(), ch as int));
            assert forall|y: int| 0 <= y < g.height implies (#[trigger] g.grid@[y])@.len() == g.width by {
                assert(g.grid@[y]@ == self.proj_with(self.cells(), ch as int)[y]);
            }
            assert forall|x: int, y: int| g.in_bounds(x, y) implies #[trigger] g.cell(x, y).mines <= 3 by {
                assert(g.grid@[y]@ == self.proj_with(self.cells(), ch as int)[y]);
            }
        }
        g
    }

    /// Open every cell that the classic cascade from (`x`, `y`) on the
    /// viewed channel reaches.
    fn cascade(&mut self, x: usize, y: usize)
        requires
            old(self).wf_shape(),
            x < old(self).width,
            y < old(self).height,
        ensures
            final(self).wf_shape(),
            *final(self) == (RgbGame { grid: final(self).grid, ..*old(self) }),
            final(self).cells() == old(self).cascade_cells(old(self).cells(), (x as int, y as int)),
    {
        let ghost g0 = *self;
        let mut sh = self.shadow();
        sh.cascade_reveal(x, y);
        let ghost f = cascaded(g0.proj_with(g0.cells(), g0.view_channel as int), g0.width as int, g0.height as int, (x as int, y as int));
        assert(sh.cells() == f);
        let ghost target = g0.cascade_cells(g0.cells(), (x as int, y as int));
        let hh = self.height;
        let ww = self.width;
        for j in 0..hh
            invariant
                hh == g0.height,
                ww == g0.width,
                self.wf_shape(),
                *self == (RgbGame { grid: self.grid, ..g0 }),
                g0.wf_shape(),
                sh.wf_shape(),
                sh.width == g0.width,
                sh.height == g0.height,
                sh.cells() == f,
                f == cascaded(g0.proj_with(g0.cells(), g0.view_channel as int), g0.width as int, g0.height as int, (x as int, y as int)),
                target == g0.cascade_cells(g0.cells(), (x as int, y as int)),
                forall|i: int, jj: int|
                    0 <= i < g0.width && 0 <= jj < g0.height ==> #[trigger] self.cell(i, jj) == if jj < j {
                        target[jj][i]
                    } else {
                        g0.cell(i, jj)
                    },
        {
            for i in 0..ww
                invariant
                    hh == g0.height,
                    ww == g0.width,
                    self.wf_shape(),
                    *self == (RgbGame { grid: self.grid, ..g0 }),
                    g0.wf_shape(),
                    sh.wf_shape(),
                    sh.width == g0.width,
                    sh.height == g0.height,
                    sh.cells() == f,
                    f == cascaded(g0.proj_with(g0.cells(), g0.view_channel as int), g0.width as int, g0.height as int, (x as int, y as int)),
                    j < g0.height,
                    target == g0.cascade_cells(g0.cells(), (x as int, y as int)),
                    forall|ii: int, jj: int|
                        0 <= ii < g0.width && 0 <= jj < g0.height ==> #[trigger] self.cell(ii, jj) == if jj < j || (jj == j
                            && ii < i) {
                            target[jj][ii]
                        } else {
                            g0.cell(ii, jj)
                        },
            {
                assert(sh.grid@[j as int]@.len() == sh.width);
                assert(self.grid@[j as int]@.len() == self.width);
                let open = matches!(sh.grid[j][i].state, CellState::Revealed);
                let c = self.grid[j][i];
                proof {
                    assert(self.cell(i as int, j as int) == g0.cell(i as int, j as int));
                    assert(g0.cells()[j as int].len() == g0.width) by {
                        assert(g0.grid@[j as int]@.len() == g0.width);
                    }
                    assert(g0.cells().len() == g0.height);
                    assert(sh.cell(i as int, j as int) == at(f, (i as int, j as int)));
                    assert(open == (at(f, (i as int, j as int)).state == CellState::Revealed));
                    assert(target[j as int][i as int] == RgbCell { revealed: open, ..g0.cell(i as int, j as int) });
                    assert(c == g0.cell(i as int, j as int));
                }
                self.put(i, j, RgbCell { revealed: open, ..c });
            }
        }
        proof {
            assert forall|jj: int| 0 <= jj < g0.height implies #[trigger] self.cells()[jj] =~= target[jj] by {
                assert forall|ii: int| 0 <= ii < g0.width implies self.cells()[jj][ii] == target[jj][ii] by {
                    assert(self.cell(ii, jj) == target[jj][ii]);
                }
            }
            assert(self.cells() =~= target);
        }
    }

    /// Show every mine.
    fn reveal_all_mines(&mut self)
        requires
            old(self).wf_shape(),
        ensures
            final(self).wf_shape(),
            *final(self) == (RgbGame { grid: final(self).grid, ..*old(self) }),
            final(self).cells() == all_mines_shown(old(self).cells()),
    {
        let ghost g0 = *self;
        let ghost target = all_mines_shown(g0.cells());
        let hh = self.height;
        let ww = self.width;
        for j in 0..hh
            invariant
                hh == g0.height,
                ww == g0.width,
                self.wf_shape(),
                *self == (RgbGame { grid: self.grid, ..g0 }),
                g0.wf_shape(),
                target == all_mines_shown(g0.cells()),
                forall|i: int, jj: int|
                    0 <= i < g0.width && 0 <= jj < g0.height ==> #[trigger] self.cell(i, jj) == if jj < j {
                        target[jj][i]
                    } else {
                        g0.cell(i, jj)
                    },
        {
            for i in 0..ww
                invariant
                    hh == g0.height,
                    ww == g0.width,
                    self.wf_shape(),
                    *self == (RgbGame { grid: self.grid, ..g0 }),
                    g0.wf_shape(),
                    j < g0.height,
                    target == all_mines_shown(g0.cells()),
                    forall|ii: int, jj: int|
                        0 <= ii < g0.width && 0 <= jj < g0.height ==> #[trigger] self.cell(ii, jj) == if jj < j || (jj == j
                            && ii < i) {
                            target[jj][ii]
                        } else {
                            g0.cell(ii, jj)
                        },
            {
                assert(self.grid@[j as int]@.len() == self.width);
                let c = self.grid[j][i];
                assert(self.cell(i as int, j as int) == g0.cell(i as int, j as int));
                assert(c == g0.cell(i as int, j as int));
                assert(g0.cells()[j as int].len() == g0.width) by {
                    assert(g0.grid@[j as int]@.len() == g0.width);
                }
                if c.mine.is_some() {
                    self.put(i, j, RgbCell { revealed: true, ..c });
                }
            }
        }
        proof {
            assert forall|jj: int| 0 <= jj < g0.height implies #[trigger] self.cells()[jj] =~= target[jj] by {
                assert(g0.cells()[jj].len() == g0.width) by {
                    assert(g0.grid@[jj]@.len() == g0.width);
                }
                assert forall|ii: int| 0 <= ii < g0.width implies self.cells()[jj][ii] == target[jj][ii] by {
                    assert(self.cell(ii, jj) == target[jj][ii]);
                }
            }
            assert(self.cells() =~= target);
        }
    }

    /// Whether every mine carries the flag of its channel and every other
    /// cell is open.
    fn won(&self) -> (r: bool)
        requires
            self.wf_shape(),
        ensures
            r == rgb_win(self.cells()),
    {
        for j in 0..self.height
            invariant
                self.wf_shape(),
                forall|jj: int, i: int|
                    0 <= jj < j && 0 <= i < self.width ==> match (#[trigger] self.cells()[jj][i]).mine {
                        Some(m) => self.cells()[jj][i].flag == Some(m),
                        None => self.cells()[jj][i].revealed,
                    },
        {
            assert(self.grid@[j as int]@.len() == self.width);
            for i in 0..self.width
                invariant
                    self.wf_shape(),
                    j < self.height,
                    self.grid@[j as int]@.len() == self.width,
                    forall|jj: int, ii: int|
                        (0 <= jj < j && 0 <= ii < self.width) || (jj == j && 0 <= ii < i) ==> match (#[trigger] self.cells()[jj][ii]).mine {
                            Some(m) => self.cells()[jj][ii].flag == Some(m),
                            None => self.cells()[jj][ii].revealed,
                        },
            {
                let c = self.grid[j][i];
                assert(self.cells()[j as int][i as int] == c);
                let ok = match c.mine {
                    Some(m) => c.flag == Some(m),
                    None => c.revealed,
                };
                if !ok {
                    return false;
                }
            }
        }
        proof {
            assert forall|jj: int, i: int| 0 <= jj < self.cells().len() && 0 <= i < self.cells()[jj].len() implies match (
            #[trigger] self.cells()[jj][i]).mine {
                Some(m) => self.cells()[jj][i].flag == Some(m),
                None => self.cells()[jj][i].revealed,
            } by {
                assert(self.grid@[jj]@.len() == self.width);
            }
        }
        true
    }
}

/// 1 where `q` is on the `w` by `h` board `c` and flagged for channel `ch`.
pub open spec fn flag_here(c: Seq<Seq<RgbCell>>, w: int, h: int, ch: int, q: (int, int)) -> int {
    if inside(w, h, q) && c[q.1][q.0].flag == Some(ch as u8) {
        1
    } else {
        0
    }
}

impl RgbGame {
    /// Whether a chord on `p` of board `c` in state `st` fires: the game is
    /// on, the cell open with mines of the viewed channel around it, as many
    /// neighbours flagged for that channel as it counts, and each of them a
    /// mine of that channel.
    pub open spec fn chord_fires(self, c: Seq<Seq<RgbCell>>, st: GameState, p: (int, int)) -> bool {
        let ch = self.view_channel as int;
        let w = self.width as int;
        let h = self.height as int;
        &&& st == GameState::Playing
        &&& c[p.1][p.0].revealed
        &&& self.adj_at(p.0, p.1, ch) != 0
        &&& nb_sum(|q: (int, int)| flag_here(c, w, h, ch, q), p) == self.adj_at(p.0, p.1, ch)
        &&& forall|k: int|
            0 <= k < 8 && #[trigger] flag_here(c, w, h, ch, nb(p, k)) == 1 ==> c[nb(p, k).1][nb(p, k).0].mine == Some(ch as u8)
    }

    /// Opening the first `k` neighbours of `p` in turn, each one only if it
    /// is still closed and unflagged when its turn comes; the flag says
    /// whether any was.
    pub open spec fn chord_run(self, c: Seq<Seq<RgbCell>>, st: GameState, p: (int, int), k: int) -> (Seq<Seq<RgbCell>>, GameState, bool)
        decreases k,
    {
        if k <= 0 {
            (c, st, false)
        } else {
            let r = self.chord_run(c, st, p, k - 1);
            let q = nb(p, k - 1);
            if inside(self.width as int, self.height as int, q) && r.0[q.1][q.0].flag is None && !r.0[q.1][q.0].revealed {
                let o = self.open_rgb(r.0, r.1, q);
                (o.0, o.1, true)
            } else {
                r
            }
        }
    }
}

/// Games with the same board shape, counts and viewed channel open cells
/// alike.
pub proof fn lemma_open_same(a: RgbGame, b: RgbGame, c: Seq<Seq<RgbCell>>, st: GameState, p: (int, int))
    requires
        a.width == b.width,
        a.height == b.height,
        a.adj == b.adj,
        a.view_channel == b.view_channel,
    ensures
        a.open_rgb(c, st, p) == b.open_rgb(c, st, p),
{
    assert forall|c1: Seq<Seq<RgbCell>>| #[trigger] a.proj_with(c1, a.view_channel as int) == b.proj_with(
        c1,
        b.view_channel as int,
    ) by {
        let ch = a.view_channel as int;
        assert forall|yy: int| 0 <= yy < a.height implies #[trigger] a.proj_with(c1, ch)[yy] =~= b.proj_with(c1, ch)[yy] by {
            assert forall|xx: int| 0 <= xx < a.width implies a.adj_at(xx, yy, ch) == b.adj_at(xx, yy, ch) by {}
        }
        assert(a.proj_with(c1, ch) =~= b.proj_with(c1, ch));
    }
}

/// Games with the same board shape, counts and viewed channel chord alike.
pub proof fn lemma_chord_same(a: RgbGame, b: RgbGame, c: Seq<Seq<RgbCell>>, st: GameState, p: (int, int), k: int)
    requires
        a.width == b.width,
        a.height == b.height,
        a.adj == b.adj,
        a.view_channel == b.view_channel,
    ensures
        a.chord_run(c, st, p, k) == b.chord_run(c, st, p, k),
    decreases k,
{
    if k > 0 {
        lemma_chord_same(a, b, c, st, p, k - 1);
        let r = a.chord_run(c, st, p, k - 1);
        lemma_open_same(a, b, r.0, r.1, nb(p, k - 1));
    }
}

/// Games with the same board shape, counts and viewed channel cascade alike.
pub proof fn lemma_cascade_same(a: RgbGame, b: RgbGame, c: Seq<Seq<RgbCell>>, p: (int, int))
    requires
        a.width == b.width,
        a.height == b.height,
        a.adj == b.adj,
        a.view_channel == b.view_channel,
    ensures
        a.cascade_cells(c, p) == b.cascade_cells(c, p),
{
    let ch = a.view_channel as int;
    assert forall|yy: int| 0 <= yy < a.height implies #[trigger] a.proj_with(c, ch)[yy] =~= b.proj_with(c, ch)[yy] by {
        assert forall|xx: int| 0 <= xx < a.width implies a.adj_at(xx, yy, ch) == b.adj_at(xx, yy, ch) by {}
    }
    assert(a.proj_with(c, ch) =~= b.proj_with(c, ch));
}

/// The shape conditions look only at the board, the counts and the sizes.
pub proof fn lemma_shape_same(a: RgbGame, b: RgbGame)
    requires
        a.wf_shape(),
        b.grid == a.grid,
        b.adj == a.adj,
        b.width == a.width,
        b.height == a.height,
        b.n == a.n,
        b.view_channel == a.view_channel,
    ensures
        b.wf_shape(),
        b.cells() == a.cells(),
{
    assert forall|i: int, j: int| 0 <= i < b.width && 0 <= j < b.height implies match #[trigger] b.cell(i, j).mine {
        Some(m) => m < b.n,
        None => true,
    } && match b.cell(i, j).flag {
        Some(f) => f < b.n,
        None => true,
    } by {
        assert(b.cell(i, j) == a.cell(i, j));
    }
    assert forall|i: int, j: int, ch: int|
        0 <= i < b.width && 0 <= j < b.height && 0 <= ch < b.n implies #[trigger] b.adj_at(i, j, ch) <= 8 by {
        assert(b.adj_at(i, j, ch) == a.adj_at(i, j, ch));
    }
}

impl RgbGame {
    /// A click on (`x`, `y`). The first click places the mines away from the
    /// 3x3 block around it and starts play, so it never loses; then
    /// `open_rgb` says what happens. Returns whether anything happened.
    pub fn reveal_cell(&mut self, x: usize, y: usize) -> (r: bool)
        requires
            old(self).wf(),
        ensures
            final(self).wf(),
            *final(self) == (RgbGame {
                grid: final(self).grid,
                adj: final(self).adj,
                state: final(self).state,
                ..*old(self)
            }),
            !(x < old(self).width && y < old(self).height) ==> *final(self) == *old(self) && !r,
            x < old(self).width && y < old(self).height && old(self).state != GameState::Ready ==> final(self).adj == old(
                self,
            ).adj && (final(self).cells(), final(self).state, r) == old(self).open_rgb(
                old(self).cells(),
                old(self).state,
                (x as int, y as int),
            ),
            x < old(self).width && y < old(self).height && old(self).state == GameState::Ready ==> exists|
                f: RgbGame,
                perm: Seq<(usize, usize)>,
            |
                #[trigger] old(self).placed(f, perm, x as int, y as int) && final(self).adj == f.adj && (
                    final(self).cells(),
                    final(self).state,
                    r,
                ) == f.open_rgb(f.cells(), GameState::Playing, (x as int, y as int)),
            x < old(self).width && y < old(self).height && old(self).state == GameState::Ready ==> final(self).state
                != GameState::Lost,
    {
        let ghost g0 = *self;
        if x >= self.width || y >= self.height {
            return false;
        }
        let ghost mut placed = *self;
        if matches!(self.state, GameState::Ready) {
            self.place_mines(x, y);
            proof {
                placed = *self;
                let perm = choose|perm: Seq<(usize, usize)>| #[trigger] g0.placed(placed, perm, x as int, y as int);
                assert(placed.wf_shape());
                assert(placed.cells().len() == g0.cells().len());
                assert forall|j: int| 0 <= j < g0.cells().len() implies (#[trigger] g0.cells()[j]).len() == placed.cells()[j].len() by {
                    assert(g0.grid@[j]@.len() == g0.width);
                    assert(placed.grid@[j]@.len() == g0.width);
                }
                assert forall|j: int, i: int| 0 <= j < g0.cells().len() && 0 <= i < g0.cells()[j].len() implies (
                #[trigger] g0.cells()[j][i]).flag == placed.cells()[j][i].flag by {
                    assert(g0.grid@[j]@.len() == g0.width);
                    assert(placed.cell(i, j).flag == g0.cell(i, j).flag);
                }
                lemma_same_flags(g0.cells(), placed.cells(), g0.n as int);
            }
            self.state = GameState::Playing;
            proof {
                lemma_shape_same(placed, *self);
            }
        }
        let ghost s1 = *self;
        assert(self.wf());
        if !matches!(self.state, GameState::Playing) {
            return false;
        }
        assert(self.grid@[y as int]@.len() == self.width);
        let c = self.grid[y][x];
        assert(c == self.cell(x as int, y as int));
        if c.revealed || c.flag.is_some() {
            return false;
        }
        proof {
            if g0.state == GameState::Ready {
                let perm = choose|perm: Seq<(usize, usize)>| #[trigger] g0.placed(placed, perm, x as int, y as int);
                assert(c.mine is None) by {
                    if c.mine is Some {
                        let m = c.mine->0;
                        assert(has_mine(placed.cell(x as int, y as int), m as int));
                        assert(drawn_for(perm, g0.mine_count as int, m as int, (x as int, y as int)));
                        let k = choose|k: int|
                            m * g0.mine_count <= k < (m + 1) * g0.mine_count && k < (m + 1) * g0.mine_count && 0 <= k < perm.len()
                                && #[trigger] perm[k] == (x, y);
                        assert(perm.contains((x, y)));
                    }
                }
            }
        }
        self.put(x, y, RgbCell { revealed: true, ..c });
        let ghost c1 = self.cells();
        proof {
            assert(c1 == set_at(s1.cells(), (x as int, y as int), RgbCell { revealed: true, ..c }));
        }
        match c.mine {
            Some(_) => {
                let ghost s2 = *self;
                self.state = GameState::Lost;
                proof {
                    lemma_shape_same(s2, *self);
                }
                self.reveal_all_mines();
                proof {
                    assert(all_mines_shown(c1) =~= all_mines_shown(s1.cells())) by {
                        assert forall|j: int| 0 <= j < c1.len() implies #[trigger] all_mines_shown(c1)[j] =~= all_mines_shown(
                            s1.cells(),
                        )[j] by {}
                    }
                }
            },
            None => {
                let ch = self.view_channel;
                assert(self.adj@[y as int]@.len() == self.width);
                assert(self.adj@[y as int]@[x as int]@.len() == self.n);
                let ghost s2 = *self;
                if self.adj[y][x][ch] == 0 {
                    self.cascade(x, y);
                    proof {
                        lemma_cascade_same(s2, s1, c1, (x as int, y as int));
                    }
                }
                if self.won() {
                    let ghost s3 = *self;
                    self.state = GameState::Won;
                    proof {
                        lemma_shape_same(s3, *self);
                    }
                }
                proof {
                    assert(s1.cells().len() == self.cells().len());
                    assert forall|j: int| 0 <= j < s1.cells().len() implies (#[trigger] s1.cells()[j]).len() == self.cells()[j].len() by {
                        assert(s1.grid@[j]@.len() == s1.width);
                        assert(self.grid@[j]@.len() == s1.width);
                    }
                    assert forall|j: int, i: int| 0 <= j < s1.cells().len() && 0 <= i < s1.cells()[j].len() implies (
                    #[trigger] s1.cells()[j][i]).flag == self.cells()[j][i].flag by {
                        assert(s1.grid@[j]@.len() == s1.width);
                    }
                    lemma_same_flags(s1.cells(), self.cells(), self.n as int);
                }
            },
        }
        proof {
            if g0.state == GameState::Ready {
                let perm = choose|perm: Seq<(usize, usize)>| #[trigger] g0.placed(placed, perm, x as int, y as int);
                lemma_open_same(s1, placed, s1.cells(), GameState::Playing, (x as int, y as int));
                assert(s1.cells() == placed.cells());
                assert(g0.placed(placed, perm, x as int, y as int) && self.adj == placed.adj);
            }
        }
        true
    }
}

impl RgbGame {
    /// A right click on (`x`, `y`) while the game is on, for the viewed
    /// channel `ch`: a closed unflagged cell gets a flag of `ch`, a flag of
    /// `ch` comes off; a flag on a mine of another channel loses; a flag on
    /// a mine of `ch` opens that cell. Returns whether anything changed.
    pub fn toggle_flag(&mut self, x: usize, y: usize) -> (r: bool)
        requires
            old(self).wf(),
        ensures
            final(self).wf(),
            *final(self) == (RgbGame { grid: final(self).grid, state: final(self).state, flags: final(self).flags, ..*old(self) }),
            r == (x < old(self).width && y < old(self).height && old(self).state == GameState::Playing && !old(self).cell(
                x as int,
                y as int,
            ).revealed && (old(self).cell(x as int, y as int).flag is None || old(self).cell(x as int, y as int).flag == Some(
                old(self).view_channel as u8,
            ))),
            !r ==> *final(self) == *old(self),
            ({
                let cell = old(self).cell(x as int, y as int);
                let ch = old(self).view_channel;
                r && cell.flag is None && cell.mine is Some && cell.mine != Some(ch as u8) ==> final(self).cells() == all_mines_shown(
                    set_at(old(self).cells(), (x as int, y as int), RgbCell { flag: Some(ch as u8), ..cell }),
                ) && final(self).state == GameState::Lost && final(self).flags == old(self).flags
            }),
            ({
                let cell = old(self).cell(x as int, y as int);
                let ch = old(self).view_channel;
                let c1 = set_at(
                    old(self).cells(),
                    (x as int, y as int),
                    RgbCell { flag: Some(ch as u8), revealed: cell.mine == Some(ch as u8), ..cell },
                );
                r && cell.flag is None && !(cell.mine is Some && cell.mine != Some(ch as u8)) ==> final(self).cells() == c1
                    && final(self).flags@ == old(self).flags@.update(ch as int, (old(self).flags@[ch as int] + 1) as usize) && final(self).state
                    == if rgb_win(c1) {
                    GameState::Won
                } else {
                    GameState::Playing
                }
            }),
            ({
                let cell = old(self).cell(x as int, y as int);
                let ch = old(self).view_channel;
                let c1 = set_at(old(self).cells(), (x as int, y as int), RgbCell { flag: None, ..cell });
                r && cell.flag is Some ==> final(self).cells() == c1 && final(self).flags@ == old(self).flags@.update(
                    ch as int,
                    (old(self).flags@[ch as int] - 1) as usize,
                ) && final(self).state == if rgb_win(c1) {
                    GameState::Won
                } else {
                    GameState::Playing
                }
            }),
    {
        let ghost g0 = *self;
        if x >= self.width || y >= self.height {
            return false;
        }
        if !matches!(self.state, GameState::Playing) {
            return false;
        }
        let ch = self.view_channel;
        let chb = ch as u8;
        assert(self.grid@[y as int]@.len() == self.width);
        let c = self.grid[y][x];
        assert(c == self.cell(x as int, y as int));
        if c.revealed {
            return false;
        }
        let adding = c.flag.is_none();
        if !adding {
            match c.flag {
                Some(f) => {
                    if f != chb {
                        return false;
                    }
                },
                None => {},
            }
        }
        let ghost p = (x as int, y as int);
        if adding {
            match c.mine {
                Some(m) => {
                    if m != chb {
                        self.put(x, y, RgbCell { flag: Some(chb), ..c });
                        let ghost s2 = *self;
                        self.state = GameState::Lost;
                        proof {
                            lemma_shape_same(s2, *self);
                        }
                        self.reveal_all_mines();
                        return true;
                    }
                },
                None => {},
            }
        }
        let nc = if adding {
            RgbCell { flag: Some(chb), revealed: c.mine == Some(chb), ..c }
        } else {
            RgbCell { flag: None, ..c }
        };
        proof {
            assert(c.mine == Some(chb) <==> (c.mine is Some && c.mine->0 == chb));
            assert(g0.cells()[y as int].len() == g0.width) by {
                assert(g0.grid@[y as int]@.len() == g0.width);
            }
            assert forall|k: int| 0 <= k < g0.n implies #[trigger] flag_total(set_at(g0.cells(), p, nc), k) == flag_total(
                g0.cells(),
                k,
            ) - flag_of(c, k) + flag_of(nc, k) by {
                lemma_board_set(g0.cells(), x as int, y as int, nc, |cc: RgbCell| flag_of(cc, k));
            }
            assert forall|cc: RgbCell| 0 <= #[trigger] flag_of(cc, ch as int) <= 1 by {}
            assert forall|j: int| 0 <= j < g0.cells().len() implies (#[trigger] g0.cells()[j]).len() == g0.width by {
                assert(g0.grid@[j]@.len() == g0.width);
            }
            lemma_board_bounds(g0.cells(), |cc: RgbCell| flag_of(cc, ch as int), g0.width as int);
            assert(flag_total(set_at(g0.cells(), p, nc), ch as int) >= 0) by {
                assert forall|j: int| 0 <= j < set_at(g0.cells(), p, nc).len() implies (#[trigger] set_at(g0.cells(), p, nc)[j]).len()
                    == g0.width by {
                    assert(g0.grid@[j]@.len() == g0.width);
                }
                lemma_board_bounds(set_at(g0.cells(), p, nc), |cc: RgbCell| flag_of(cc, ch as int), g0.width as int);
            }
            assert(g0.flags@[ch as int] == flag_total(g0.cells(), ch as int));
            assert(g0.height * g0.width <= MAX_CELLS) by (nonlinear_arith)
                requires
                    g0.width * g0.height <= MAX_CELLS,
            ;
        }
        self.put(x, y, nc);
        let ghost sp = *self;
        let old_count = self.flags[ch];
        if adding {
            self.flags.set(ch, old_count + 1);
        } else {
            self.flags.set(ch, old_count - 1);
        }
        let ghost s3 = *self;
        proof {
            lemma_shape_same(sp, *self);
            assert forall|k: int| 0 <= k < self.n implies #[trigger] self.flags@[k] == flag_total(self.cells(), k) by {
                if k != ch {
                    assert((k as u8) != chb);
                    assert(flag_of(c, k) == flag_of(nc, k));
                }
            }
        }
        if self.won() {
            self.state = GameState::Won;
            proof {
                lemma_shape_same(s3, *self);
            }
        }
        true
    }

    /// Chord on (`x`, `y`): when `chord_fires`, open each neighbour that is
    /// still closed and unflagged when its turn comes, in scan order.
    /// Returns whether any was.
    pub fn chord(&mut self, x: usize, y: usize) -> (r: bool)
        requires
            old(self).wf(),
            x < old(self).width,
            y < old(self).height,
        ensures
            final(self).wf(),
            *final(self) == (RgbGame { grid: final(self).grid, state: final(self).state, ..*old(self) }),
            !old(self).chord_fires(old(self).cells(), old(self).state, (x as int, y as int)) ==> !r && *final(self) == *old(
                self,
            ),
            old(self).chord_fires(old(self).cells(), old(self).state, (x as int, y as int)) ==> (
                final(self).cells(),
                final(self).state,
                r,
            ) == old(self).chord_run(old(self).cells(), old(self).state, (x as int, y as int), 8),
    {
        let ghost g0 = *self;
        let ghost p = (x as int, y as int);
        let ghost w = self.width as int;
        let ghost h = self.height as int;
        if !matches!(self.state, GameState::Playing) {
            return false;
        }
        assert(self.grid@[y as int]@.len() == self.width);
        let c = self.grid[y][x];
        assert(c == self.cell(x as int, y as int));
        if !c.revealed {
            return false;
        }
        let ch = self.view_channel;
        let chb = ch as u8;
        assert(self.adj@[y as int]@.len() == self.width);
        assert(self.adj@[y as int]@[x as int]@.len() == self.n);
        let adj = self.adj[y][x][ch];
        if adj == 0 {
            return false;
        }
        let ghost ff = |q: (int, int)| flag_here(g0.cells(), w, h, ch as int, q);
        let mut flag_count: u8 = 0;
        for k in 0..8usize
            invariant
                *self == g0,
                g0.wf(),
                x < g0.width,
                y < g0.height,
                p == (x as int, y as int),
                w == g0.width,
                h == g0.height,
                ch == g0.view_channel,
                chb == ch as u8,
                ff == (|q: (int, int)| flag_here(g0.cells(), w, h, ch as int, q)),
                flag_count == nb_partial(ff, p, k as nat),
                flag_count <= k,
        {
            match neighbor_of(self.width, self.height, x, y, k) {
                Some((nx, ny)) => {
                    assert(self.grid@[ny as int]@.len() == self.width);
                    if self.grid[ny][nx].flag == Some(chb) {
                        flag_count = flag_count + 1;
                    }
                },
                None => {},
            }
        }
        if flag_count != adj {
            return false;
        }
        for k in 0..8usize
            invariant
                *self == g0,
                g0.wf(),
                x < g0.width,
                y < g0.height,
                p == (x as int, y as int),
                w == g0.width,
                h == g0.height,
                ch == g0.view_channel,
                chb == ch as u8,
                forall|j: int|
                    0 <= j < k && #[trigger] flag_here(g0.cells(), w, h, ch as int, nb(p, j)) == 1 ==> g0.cells()[nb(p, j).1][nb(
                        p,
                        j,
                    ).0].mine == Some(ch as u8),
        {
            match neighbor_of(self.width, self.height, x, y, k) {
                Some((nx, ny)) => {
                    assert(self.grid@[ny as int]@.len() == self.width);
                    let nc = self.grid[ny][nx];
                    assert(nc == g0.cells()[ny as int][nx as int]);
                    if nc.flag == Some(chb) && nc.mine != Some(chb) {
                        proof {
                            assert(flag_here(g0.cells(), w, h, ch as int, nb(p, k as int)) == 1);
                            assert(!g0.chord_fires(g0.cells(), g0.state, p));
                        }
                        return false;
                    }
                },
                None => {},
            }
        }
        assert(g0.chord_fires(g0.cells(), g0.state, p));
        let mut changed = false;
        for k in 0..8usize
            invariant
                self.wf(),
                *self == (RgbGame { grid: self.grid, state: self.state, ..g0 }),
                g0.wf(),
                x < g0.width,
                y < g0.height,
                p == (x as int, y as int),
                w == g0.width,
                h == g0.height,
                self.state != GameState::Ready,
                (self.cells(), self.state, changed) == g0.chord_run(g0.cells(), g0.state, p, k as int),
        {
            match neighbor_of(self.width, self.height, x, y, k) {
                Some((nx, ny)) => {
                    assert(self.grid@[ny as int]@.len() == self.width);
                    let nc = self.grid[ny][nx];
                    if nc.flag.is_none() && !nc.revealed {
                        let ghost before = *self;
                        self.reveal_cell(nx, ny);
                        changed = true;
                        proof {
                            lemma_open_same(before, g0, before.cells(), before.state, nb(p, k as int));
                        }
                    }
                },
                None => {},
            }
        }
        changed
    }

    /// Show this game's state and counters on the common game record: the
    /// mine counter shows the viewed channel.
    pub fn sync_to(&self, game: &mut Game)
        requires
            self.wf(),
        ensures
            *final(game) == (Game {
                state: self.state,
                mine_count: self.mine_count,
                flags_placed: self.flags@[self.view_channel as int],
                ..*old(game)
            }),
    {
        game.state = self.state;
        game.mine_count = self.mine_count;
        game.flags_placed = self.flags[self.view_channel];
    }

    /// View the next channel, after the last the first.
    pub fn next_channel(&mut self)
        requires
            old(self).wf(),
        ensures
            final(self).wf(),
            *final(self) == (RgbGame { view_channel: final(self).view_channel, ..*old(self) }),
            final(self).view_channel == (old(self).view_channel + 1) % (old(self).n as int),
    {
        let ghost g0 = *self;
        self.view_channel = (self.view_channel + 1) % self.n;
        proof {
            assert forall|i: int, j: int| 0 <= i < self.width && 0 <= j < self.height implies match #[trigger] self.cell(i, j).mine {
                Some(m) => m < self.n,
                None => true,
            } && match self.cell(i, j).flag {
                Some(f) => f < self.n,
                None => true,
            } by {
                assert(self.cell(i, j) == g0.cell(i, j));
            }
            assert forall|i: int, j: int, ch: int|
                0 <= i < self.width && 0 <= j < self.height && 0 <= ch < self.n implies #[trigger] self.adj_at(i, j, ch) <= 8 by {
                assert(self.adj_at(i, j, ch) == g0.adj_at(i, j, ch));
            }
            assert forall|ch: int| 0 <= ch < self.n implies #[trigger] self.flags@[ch] == flag_total(self.cells(), ch) || !(
            self.state == GameState::Ready || self.state == GameState::Playing) by {
                assert(self.cells() == g0.cells());
            }
            assert forall|i: int, j: int| 0 <= i < self.width && 0 <= j < self.height implies #[trigger] self.cell(i, j)
                == fresh_rgb() || self.state != GameState::Ready by {
                assert(self.cell(i, j) == g0.cell(i, j));
            }
        }
    }
}

/// The number of colour channels a custom game may have: 2 to 20.
pub fn clamp_colours(n: usize) -> (r: usize)
    ensures
        r == if n < 2 {
            2
        } else if n > 20 {
            20
        } else {
            n as int
        },
{
    if n < 2 {
        2
    } else if n > 20 {
        20
    } else {
        n
    }
}

} // verus!
