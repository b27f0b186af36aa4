use vstd::prelude::*;
use crate::cascade::{adjacent, inside, nb, neighbor_of};
use crate::game::{Game, Cell, CellState, GameState, MAX_CELLS, ipos};
use crate::infection::{among_first, lemma_nb_adjacent};
use crate::minelayer::{marks, mark, lemma_marks_set, lemma_marks_bounds, lemma_marks_none};
use crate::random::random_below;
use crate::display::{nb_partial, nb_sum};

verus! {

/// Positions that share a side.
pub open spec fn ortho(p: (int, int), q: (int, int)) -> bool {
    (p.0 == q.0 && (p.1 - q.1 == 1 || q.1 - p.1 == 1)) || (p.1 == q.1 && (p.0 - q.0 == 1 || q.0 - p.0 == 1))
}

/// Kudzu: vines that cover hidden cells, spread every move and are cut
/// back where the player uncovers cells.
pub struct KudzuState {
    pub kudzu: Vec<Vec<bool>>,
    pub width: usize,
    pub height: usize,
}

impl KudzuState {
    /// Whether (`x`, `y`) holds a vine.
    pub open spec fn kz(self, x: int, y: int) -> bool {
        self.kudzu@[y]@[x]
    }

    pub open spec fn in_bounds(self, x: int, y: int) -> bool {
        0 <= x < self.width && 0 <= y < self.height
    }

    /// The vines as a sequence of rows.
    pub open spec fn rows(self) -> Seq<Seq<bool>> {
        self.kudzu@.map_values(|r: Vec<bool>| r@)
    }

    /// Dimensions and row lengths.
    pub open spec fn wf(self) -> bool {
        &&& 1 <= self.width
        &&& 1 <= self.height
        &&& self.width * self.height <= MAX_CELLS
        &&& self.width <= MAX_CELLS
        &&& self.height <= MAX_CELLS
        &&& self.kudzu@.len() == self.height
        &&& forall|j: int| 0 <= j < self.height ==> (#[trigger] self.kudzu@[j])@.len() == self.width
    }

    /// The same vines on the same board.
    pub open spec fn same_vines(self, other: KudzuState) -> bool {
        forall|x: int, y: int| self.in_bounds(x, y) ==> #[trigger] self.kz(x, y) == other.kz(x, y)
    }

    /// An empty board of vines.
    pub fn new(width: usize, height: usize) -> (k: KudzuState)
        requires
            1 <= width,
            1 <= height,
            width * height <= MAX_CELLS,
        ensures
            k.wf(),
            k.width == width,
            k.height == height,
            forall|x: int, y: int| k.in_bounds(x, y) ==> !#[trigger] k.kz(x, y),
    {
        let mut rows: Vec<Vec<bool>> = Vec::new();
        for y in 0..height
            invariant
                rows@.len() == y,
                forall|j: int| 0 <= j < y ==> (#[trigger] rows@[j])@.len() == width,
                forall|i: int, j: int| 0 <= i < width && 0 <= j < y ==> !#[trigger] rows@[j]@[i],
        {
            let mut row: Vec<bool> = Vec::new();
            for x in 0..width
                invariant
                    row@.len() == x,
                    forall|i: int| 0 <= i < x ==> !#[trigger] row@[i],
            {
                row.push(false);
            }
            rows.push(row);
        }
        proof {
            assert(width <= MAX_CELLS) by (nonlinear_arith) requires width * height <= MAX_CELLS, height >= 1;
            assert(height <= MAX_CELLS) by (nonlinear_arith) requires width * height <= MAX_CELLS, width >= 1;
        }
        KudzuState { kudzu: rows, width, height }
    }

    /// Set or clear the vine on one cell.
    fn set(&mut self, x: usize, y: usize, v: bool)
        requires
            old(self).wf(),
            old(self).in_bounds(x as int, y as int),
        ensures
            final(self).wf(),
            final(self).width == old(self).width,
            final(self).height == old(self).height,
            forall|i: int, j: int|
                final(self).in_bounds(i, j) ==> #[trigger] final(self).kz(i, j) == if i == x && j == y {
                    v
                } else {
                    old(self).kz(i, j)
                },
    {
        self.kudzu[y].set(x, v);
    }

    /// The first vine: one random cell.
    pub fn init_random(&mut self)
        requires
            old(self).wf(),
        ensures
            final(self).wf(),
            final(self).width == old(self).width,
            final(self).height == old(self).height,
            exists|x: int, y: int|
                #![trigger final(self).kz(x, y)]
                old(self).in_bounds(x, y) && final(self).kz(x, y) && forall|i: int, j: int|
                    final(self).in_bounds(i, j) && (i, j) != (x, y) ==> #[trigger] final(self).kz(i, j) == old(self).kz(i, j),
    {
        let x = random_below(self.width);
        let y = random_below(self.height);
        self.set(x, y, true);
        assert(self.kz(x as int, y as int));
    }

    /// Whether no vine is left.
    pub fn is_empty(&self) -> (r: bool)
        requires
            self.wf(),
        ensures
            r == forall|x: int, y: int| self.in_bounds(x, y) ==> !#[trigger] self.kz(x, y),
    {
        for y in 0..self.height
            invariant
                self.wf(),
                forall|i: int, j: int| self.in_bounds(i, j) && j < y ==> !#[trigger] self.kz(i, j),
        {
            assert(self.kudzu@[y as int]@.len() == self.width);
            for x in 0..self.width
                invariant
                    self.wf(),
                    y < self.height,
                    self.kudzu@[y as int]@.len() == self.width,
                    forall|i: int, j: int| self.in_bounds(i, j) && (j < y || (j == y && i < x)) ==> !#[trigger] self.kz(i, j),
            {
                if self.kudzu[y][x] {
                    assert(self.kz(x as int, y as int));
                    return false;
                }
            }
        }
        true
    }

    /// When the player uncovers (`x`, `y`): if it or a cell beside it holds
    /// a vine, the vines on it and on the cells beside it are cut.
    pub fn remove_around_reveal(&mut self, x: usize, y: usize)
        requires
            old(self).wf(),
            old(self).in_bounds(x as int, y as int),
        ensures
            final(self).wf(),
            final(self).width == old(self).width,
            final(self).height == old(self).height,
            ({
                let p = (x as int, y as int);
                let fire = old(self).kz(x as int, y as int) || exists|i: int, j: int|
                    #![trigger old(self).kz(i, j)]
                    old(self).in_bounds(i, j) && ortho(p, (i, j)) && old(self).kz(i, j);
                forall|i: int, j: int|
                    final(self).in_bounds(i, j) ==> #[trigger] final(self).kz(i, j) == if fire && ((i, j) == p || ortho(p, (i, j))) {
                        false
                    } else {
                        old(self).kz(i, j)
                    }
            }),
    {
        let ghost k0 = *self;
        let ghost p = (x as int, y as int);
        assert(self.kudzu@[y as int]@.len() == self.width);
        let up = y > 0 && self.kudzu[y - 1][x];
        proof {
            if y > 0 {
                assert(self.kudzu@[y - 1]@.len() == self.width);
            }
        }
        let down = y + 1 < self.height && self.kudzu[y + 1][x];
        proof {
            if y + 1 < self.height {
                assert(self.kudzu@[y + 1]@.len() == self.width);
            }
        }
        let left = x > 0 && self.kudzu[y][x - 1];
        let right = x + 1 < self.width && self.kudzu[y][x + 1];
        let fire = self.kudzu[y][x] || up || down || left || right;
        proof {
            let f = k0.kz(x as int, y as int) || exists|i: int, j: int|
                #![trigger k0.kz(i, j)]
                k0.in_bounds(i, j) && ortho(p, (i, j)) && k0.kz(i, j);
            if f {
                if !k0.kz(x as int, y as int) {
                    let (i, j) = choose|i: int, j: int|
                        #![trigger k0.kz(i, j)]
                        k0.in_bounds(i, j) && ortho(p, (i, j)) && k0.kz(i, j);
                    assert(fire);
                }
            }
            if up {
                assert(k0.kz(x as int, y - 1));
            }
            if down {
                assert(k0.kz(x as int, y + 1));
            }
            if left {
                assert(k0.kz(x - 1, y as int));
            }
            if right {
                assert(k0.kz(x + 1, y as int));
            }
            assert(fire == f);
        }
        if fire {
            self.set(x, y, false);
            if y > 0 {
                self.set(x, y - 1, false);
            }
            if y + 1 < self.height {
                self.set(x, y + 1, false);
            }
            if x > 0 {
                self.set(x - 1, y, false);
            }
            if x + 1 < self.width {
                self.set(x + 1, y, false);
            }
        }
    }

    /// Cut every vine on a revealed cell.
    pub fn clean_revealed(&mut self, game: &Game)
        requires
            old(self).wf(),
            game.wf_shape(),
            game.width == old(self).width,
            game.height == old(self).height,
        ensures
            final(self).wf(),
            final(self).width == old(self).width,
            final(self).height == old(self).height,
            forall|i: int, j: int|
                final(self).in_bounds(i, j) ==> #[trigger] final(self).kz(i, j) == (old(self).kz(i, j) && game.cell(i, j).state
                    != CellState::Revealed),
    {
        let ghost k0 = *self;
        let h = self.height;
        let w = self.width;
        for y in 0..h
            invariant
                self.wf(),
                game.wf_shape(),
                h == self.height,
                w == self.width,
                game.width == w,
                game.height == h,
                forall|i: int, j: int|
                    self.in_bounds(i, j) ==> #[trigger] self.kz(i, j) == if j < y {
                        k0.kz(i, j) && game.cell(i, j).state != CellState::Revealed
                    } else {
                        k0.kz(i, j)
                    },
        {
            for x in 0..w
                invariant
                    self.wf(),
                    game.wf_shape(),
                    h == self.height,
                    w == self.width,
                    game.width == w,
                    game.height == h,
                    y < h,
                    forall|i: int, j: int|
                        self.in_bounds(i, j) ==> #[trigger] self.kz(i, j) == if j < y || (j == y && i < x) {
                            k0.kz(i, j) && game.cell(i, j).state != CellState::Revealed
                        } else {
                            k0.kz(i, j)
                        },
            {
                assert(self.kudzu@[y as int]@.len() == w);
                assert(game.grid@[y as int]@.len() == w);
                if self.kudzu[y][x] && matches!(game.grid[y][x].state, CellState::Revealed) {
                    self.set(x, y, false);
                }
            }
        }
    }
}

/// The game board with every hidden cell under a vine flagged, so that a
/// cascade passes it by.
pub open spec fn masked_board(g: Game, k: KudzuState, f: Game) -> bool {
    &&& f == (Game { grid: f.grid, ..g })
    &&& f.wf_shape()
    &&& forall|i: int, j: int|
        #![trigger f.cell(i, j)]
        g.in_bounds(i, j) ==> f.cell(i, j) == if k.kz(i, j) && g.cell(i, j).state == CellState::Hidden {
            Cell { state: CellState::Flagged, ..g.cell(i, j) }
        } else {
            g.cell(i, j)
        }
}

impl KudzuState {
    /// Flag every hidden cell under a vine, so that a cascade passes it by;
    /// returns those cells.
    pub fn mask_for_cascade(&self, game: &mut Game) -> (masked: Vec<(usize, usize)>)
        requires
            self.wf(),
            old(game).wf_shape(),
            old(game).width == self.width,
            old(game).height == self.height,
        ensures
            masked_board(*old(game), *self, *final(game)),
            forall|q: (usize, usize)|
                #[trigger] masked@.contains(q) <==> old(game).in_bounds(q.0 as int, q.1 as int) && self.kz(q.0 as int, q.1 as int)
                    && old(game).cell(q.0 as int, q.1 as int).state == CellState::Hidden,
            masked@.no_duplicates(),
    {
        let ghost g0 = *game;
        let mut masked: Vec<(usize, usize)> = Vec::new();
        let h = self.height;
        let w = self.width;
        for y in 0..h
            invariant
                self.wf(),
                h == self.height,
                w == self.width,
                game.wf_shape(),
                *game == (Game { grid: game.grid, ..g0 }),
                g0.width == w,
                g0.height == h,
                masked@.no_duplicates(),
                forall|k: int| 0 <= k < masked@.len() ==> (#[trigger] masked@[k]).1 < y,
                forall|q: (usize, usize)|
                    #[trigger] masked@.contains(q) <==> q.1 < y && g0.in_bounds(q.0 as int, q.1 as int) && self.kz(q.0 as int, q.1 as int)
                        && g0.cell(q.0 as int, q.1 as int).state == CellState::Hidden,
                forall|i: int, j: int|
                    #![trigger game.cell(i, j)]
                    g0.in_bounds(i, j) ==> game.cell(i, j) == if j < y && self.kz(i, j) && g0.cell(i, j).state == CellState::Hidden {
                        Cell { state: CellState::Flagged, ..g0.cell(i, j) }
                    } else {
                        g0.cell(i, j)
                    },
        {
            for x in 0..w
                invariant
                    self.wf(),
                    h == self.height,
                    w == self.width,
                    y < h,
                    game.wf_shape(),
                    *game == (Game { grid: game.grid, ..g0 }),
                    g0.width == w,
                    g0.height == h,
                    masked@.no_duplicates(),
                    forall|k: int| 0 <= k < masked@.len() ==> (#[trigger] masked@[k]).1 < y || (masked@[k].1 == y && masked@[k].0 < x),
                    forall|q: (usize, usize)|
                        #[trigger] masked@.contains(q) <==> (q.1 < y || (q.1 == y && q.0 < x)) && g0.in_bounds(q.0 as int, q.1 as int)
                            && self.kz(q.0 as int, q.1 as int) && g0.cell(q.0 as int, q.1 as int).state == CellState::Hidden,
                    forall|i: int, j: int|
                        #![trigger game.cell(i, j)]
                        g0.in_bounds(i, j) ==> game.cell(i, j) == if (j < y || (j == y && i < x)) && self.kz(i, j) && g0.cell(i, j).state
                            == CellState::Hidden {
                            Cell { state: CellState::Flagged, ..g0.cell(i, j) }
                        } else {
                            g0.cell(i, j)
                        },
            {
                assert(self.kudzu@[y as int]@.len() == w);
                assert(game.grid@[y as int]@.len() == w);
                let c = game.grid[y][x];
                assert(c == game.cell(x as int, y as int));
                if self.kudzu[y][x] && matches!(c.state, CellState::Hidden) {
                    game.set_state(x, y, CellState::Flagged);
                    let ghost before = masked@;
                    masked.push((x, y));
                    proof {
                        assert forall|a: int, b: int| 0 <= a < b < masked@.len() implies masked@[a] != masked@[b] by {
                            if b == masked@.len() - 1 {
                                assert(before[a].1 < y || (before[a].1 == y && before[a].0 < x));
                            }
                        }
                        assert forall|q: (usize, usize)|
                            #[trigger] masked@.contains(q) <==> (q.1 < y || (q.1 == y && q.0 < x + 1)) && g0.in_bounds(q.0 as int, q.1 as int)
                                && self.kz(q.0 as int, q.1 as int) && g0.cell(q.0 as int, q.1 as int).state == CellState::Hidden by {
                            if masked@.contains(q) {
                                let k = choose|k: int| 0 <= k < masked@.len() && masked@[k] == q;
                                if k < before.len() {
                                    assert(before.contains(q));
                                }
                            }
                            if (q.1 < y || (q.1 == y && q.0 < x + 1)) && g0.in_bounds(q.0 as int, q.1 as int) && self.kz(q.0 as int, q.1 as int)
                                && g0.cell(q.0 as int, q.1 as int).state == CellState::Hidden {
                                if q == (x, y) {
                                    assert(masked@[masked@.len() - 1] == q);
                                } else {
                                    assert(before.contains(q));
                                    let k = choose|k: int| 0 <= k < before.len() && before[k] == q;
                                    assert(masked@[k] == q);
                                }
                            }
                        }
                    }
                } else {
                    proof {
                        assert forall|q: (usize, usize)|
                            #[trigger] masked@.contains(q) <==> (q.1 < y || (q.1 == y && q.0 < x + 1)) && g0.in_bounds(q.0 as int, q.1 as int)
                                && self.kz(q.0 as int, q.1 as int) && g0.cell(q.0 as int, q.1 as int).state == CellState::Hidden by {
                            if masked@.contains(q) {
                                let k = choose|k: int| 0 <= k < masked@.len() && masked@[k] == q;
                                assert(masked@[k].1 < y || (masked@[k].1 == y && masked@[k].0 < x));
                            }
                            if q == (x, y) {
                                assert(game.cell(x as int, y as int) == g0.cell(x as int, y as int));
                            }
                        }
                    }
                }
            }
        }
        masked
    }

    /// Put the cells flagged by `mask_for_cascade` back to hidden, unless
    /// something revealed them meanwhile.
    pub fn unmask_cascade(masked: Vec<(usize, usize)>, game: &mut Game)
        requires
            old(game).wf_shape(),
            forall|k: int| 0 <= k < masked@.len() ==> old(game).in_bounds(#[trigger] masked@[k].0 as int, masked@[k].1 as int),
        ensures
            final(game).wf_shape(),
            *final(game) == (Game { grid: final(game).grid, ..*old(game) }),
            forall|i: int, j: int|
                #![trigger final(game).cell(i, j)]
                old(game).in_bounds(i, j) ==> final(game).cell(i, j) == if masked@.contains((i as usize, j as usize))
                    && old(game).cell(i, j).state == CellState::Flagged {
                    Cell { state: CellState::Hidden, ..old(game).cell(i, j) }
                } else {
                    old(game).cell(i, j)
                },
    {
        let ghost g0 = *game;
        let n = masked.len();
        for k in 0..n
            invariant
                n == masked@.len(),
                game.wf_shape(),
                *game == (Game { grid: game.grid, ..g0 }),
                forall|t: int| 0 <= t < n ==> g0.in_bounds(#[trigger] masked@[t].0 as int, masked@[t].1 as int),
                forall|i: int, j: int|
                    #![trigger game.cell(i, j)]
                    g0.in_bounds(i, j) ==> game.cell(i, j) == if masked@.take(k as int).contains((i as usize, j as usize))
                        && g0.cell(i, j).state == CellState::Flagged {
                        Cell { state: CellState::Hidden, ..g0.cell(i, j) }
                    } else {
                        g0.cell(i, j)
                    },
        {
            let (x, y) = masked[k];
            assert(g0.in_bounds(masked@[k as int].0 as int, masked@[k as int].1 as int));
            assert(game.grid@[y as int]@.len() == game.width);
            let c = game.grid[y][x];
            assert(c == game.cell(x as int, y as int));
            if matches!(c.state, CellState::Flagged) {
                game.set_state(x, y, CellState::Hidden);
            }
            proof {
                assert forall|i: int, j: int| g0.in_bounds(i, j) implies (#[trigger] masked@.take(k + 1).contains((i as usize, j as usize))
                    <==> masked@.take(k as int).contains((i as usize, j as usize)) || (i, j) == (x as int, y as int)) by {
                    let s1 = masked@.take(k + 1);
                    let s0 = masked@.take(k as int);
                    let q = (i as usize, j as usize);
                    if s1.contains(q) {
                        let t = choose|t: int| 0 <= t < s1.len() && s1[t] == q;
                        if t < k {
                            assert(s0[t] == q);
                        }
                    }
                    if s0.contains(q) {
                        let t = choose|t: int| 0 <= t < s0.len() && s0[t] == q;
                        assert(s1[t] == q);
                    }
                    if (i, j) == (x as int, y as int) {
                        assert(s1[k as int] == q);
                    }
                }
            }
        }
        assert(masked@.take(n as int) =~= masked@);
    }
}

/// Masking the vines and putting the masked cells back, with nothing in
/// between, gives the board back as it was.
pub proof fn lemma_mask_round_trip(g: Game, k: KudzuState, m: Game, masked: Seq<(usize, usize)>, f: Game)
    requires
        g.wf_shape(),
        masked_board(g, k, m),
        forall|q: (usize, usize)|
            #[trigger] masked.contains(q) <==> g.in_bounds(q.0 as int, q.1 as int) && k.kz(q.0 as int, q.1 as int)
                && g.cell(q.0 as int, q.1 as int).state == CellState::Hidden,
        f == (Game { grid: f.grid, ..m }),
        forall|i: int, j: int|
            #![trigger f.cell(i, j)]
            m.in_bounds(i, j) ==> f.cell(i, j) == if masked.contains((i as usize, j as usize)) && m.cell(i, j).state
                == CellState::Flagged {
                Cell { state: CellState::Hidden, ..m.cell(i, j) }
            } else {
                m.cell(i, j)
            },
    ensures
        forall|i: int, j: int| g.in_bounds(i, j) ==> #[trigger] f.cell(i, j) == g.cell(i, j),
{
    assert forall|i: int, j: int| g.in_bounds(i, j) implies #[trigger] f.cell(i, j) == g.cell(i, j) by {
        assert(m.cell(i, j) == if k.kz(i, j) && g.cell(i, j).state == CellState::Hidden {
            Cell { state: CellState::Flagged, ..g.cell(i, j) }
        } else {
            g.cell(i, j)
        });
        let q = (i as usize, j as usize);
        assert(q.0 as int == i && q.1 as int == j);
    }
}

/// A cell where a vine may grow: on the board, free of vines and hidden.
pub open spec fn free_cell(k: KudzuState, game: Game, q: (int, int)) -> bool {
    k.in_bounds(q.0, q.1) && !k.kz(q.0, q.1) && game.cell(q.0, q.1).state == CellState::Hidden
}

/// The grid of visited marks holds a mark at `q`.
pub open spec fn seen(v: Seq<Vec<bool>>, q: (int, int)) -> bool {
    v[q.1]@[q.0]
}

/// Every marked cell has all its neighbours marked.
pub open spec fn closed_marks(v: Seq<Vec<bool>>, w: int, h: int) -> bool {
    forall|p: (int, int), k: int|
        inside(w, h, p) && seen(v, p) && 0 <= k < 8 && inside(w, h, #[trigger] nb(p, k)) ==> seen(v, nb(p, k))
}

/// The larger of the two coordinate distances.
pub open spec fn cheb(p: (int, int), q: (int, int)) -> int {
    let dx = if p.0 >= q.0 { p.0 - q.0 } else { q.0 - p.0 };
    let dy = if p.1 >= q.1 { p.1 - q.1 } else { q.1 - p.1 };
    if dx >= dy { dx } else { dy }
}

/// On a board whose marks are closed under neighbours, marking one cell
/// marks them all (every cell is reached by king's moves).
pub proof fn lemma_all_seen(v: Seq<Vec<bool>>, w: int, h: int, s: (int, int), q: (int, int))
    requires
        closed_marks(v, w, h),
        inside(w, h, s),
        seen(v, s),
        inside(w, h, q),
    ensures
        seen(v, q),
    decreases cheb(s, q),
{
    if q != s {
        let px = if q.0 > s.0 { q.0 - 1 } else if q.0 < s.0 { q.0 + 1 } else { q.0 };
        let py = if q.1 > s.1 { q.1 - 1 } else if q.1 < s.1 { q.1 + 1 } else { q.1 };
        let p = (px, py);
        lemma_all_seen(v, w, h, s, p);
        lemma_nb_adjacent(p, q);
        assert(adjacent(p, q));
        let k = choose|k: int| 0 <= k < 8 && #[trigger] nb(p, k) == q;
        assert(seen(v, nb(p, k)));
    }
}

/// The Chebyshev distance from `s` to a listed position.
pub open spec fn dist_to(s: (int, int), e: (usize, usize)) -> int {
    cheb(s, (e.0 as int, e.1 as int))
}

/// One king's step from `p` toward `s`.
pub open spec fn step_toward(s: (int, int), p: (int, int)) -> (int, int) {
    (if p.0 > s.0 {
        p.0 - 1
    } else if p.0 < s.0 {
        p.0 + 1
    } else {
        p.0
    }, if p.1 > s.1 {
        p.1 - 1
    } else if p.1 < s.1 {
        p.1 + 1
    } else {
        p.1
    })
}

/// A step toward `s` stays on the board, is a neighbour, and is one closer.
pub proof fn lemma_step_toward(w: int, h: int, s: (int, int), p: (int, int))
    requires
        inside(w, h, s),
        inside(w, h, p),
        p != s,
    ensures
        inside(w, h, step_toward(s, p)),
        adjacent(step_toward(s, p), p),
        cheb(s, step_toward(s, p)) == cheb(s, p) - 1,
{
}

/// A neighbour is at most one farther from `s`, or one nearer.
pub proof fn lemma_cheb_nb(s: (int, int), v: (int, int), j: int)
    requires
        0 <= j < 8,
    ensures
        cheb(s, v) - 1 <= cheb(s, nb(v, j)) <= cheb(s, v) + 1,
{
}

/// Neighbour `t` of `c` is a way back toward `s` on the `w` by `h` board:
/// on the board and one step nearer.
pub open spec fn back_step(w: int, h: int, s: (int, int), c: (int, int), t: int) -> bool {
    0 <= t < 8 && inside(w, h, nb(c, t)) && cheb(s, nb(c, t)) == cheb(s, c) - 1
}

/// Where a breadth-first search from `s` over the `w` by `h` board, taking
/// neighbours in scan order, first reaches `c` among the cells at its
/// distance: the rank of the earliest cell that reaches it, times eight,
/// plus which neighbour of that cell `c` is. The start has rank zero.
pub open spec fn bfs_rank(w: int, h: int, s: (int, int), c: (int, int)) -> int
    decreases cheb(s, c), 9int,
{
    if cheb(s, c) <= 0 {
        0
    } else {
        match bfs_best(w, h, s, c, 8) {
            Some(r) => r,
            None => 0,
        }
    }
}

/// The least rank that `c` gets through one of its first `k` ways back.
pub open spec fn bfs_best(w: int, h: int, s: (int, int), c: (int, int), k: int) -> Option<int>
    decreases cheb(s, c), k,
{
    if k <= 0 || cheb(s, c) <= 0 {
        None
    } else {
        let rest = bfs_best(w, h, s, c, k - 1);
        if back_step(w, h, s, c, k - 1) {
            let r = 8 * bfs_rank(w, h, s, nb(c, k - 1)) + (8 - k);
            match rest {
                Some(q) => if q <= r {
                    Some(q)
                } else {
                    Some(r)
                },
                None => Some(r),
            }
        } else {
            rest
        }
    }
}

/// The rank `c` gets through its way back `t`.
pub open spec fn rank_via(w: int, h: int, s: (int, int), c: (int, int), t: int) -> int {
    8 * bfs_rank(w, h, s, nb(c, t)) + (7 - t)
}

/// The best of the first `k` ways back is one of them and no worse than
/// any of them.
pub proof fn lemma_bfs_best(w: int, h: int, s: (int, int), c: (int, int), k: int)
    requires
        0 <= k <= 8,
        cheb(s, c) > 0,
    ensures
        bfs_best(w, h, s, c, k) is None <==> forall|t: int| 0 <= t < k ==> !back_step(w, h, s, c, t),
        bfs_best(w, h, s, c, k) is Some ==> {
            let m = bfs_best(w, h, s, c, k).unwrap();
            &&& exists|t: int| 0 <= t < k && back_step(w, h, s, c, t) && m == rank_via(w, h, s, c, t)
            &&& forall|t: int| 0 <= t < k && back_step(w, h, s, c, t) ==> m <= rank_via(w, h, s, c, t)
        },
    decreases k,
{
    if k > 0 {
        lemma_bfs_best(w, h, s, c, k - 1);
        if back_step(w, h, s, c, k - 1) {
            assert(rank_via(w, h, s, c, k - 1) == 8 * bfs_rank(w, h, s, nb(c, k - 1)) + (8 - k));
        }
    }
}

/// Away from the start, a cell's rank is the least it gets through a way
/// back, and it has one.
pub proof fn lemma_rank_parts(w: int, h: int, s: (int, int), c: (int, int))
    requires
        inside(w, h, s),
        inside(w, h, c),
        c != s,
    ensures
        exists|t: int| back_step(w, h, s, c, t) && bfs_rank(w, h, s, c) == rank_via(w, h, s, c, t),
        forall|t: int| back_step(w, h, s, c, t) ==> bfs_rank(w, h, s, c) <= rank_via(w, h, s, c, t),
{
    lemma_step_toward(w, h, s, c);
    let p = step_toward(s, c);
    lemma_nb_adjacent(c, p);
    let t0 = choose|t: int| 0 <= t < 8 && #[trigger] nb(c, t) == p;
    assert(back_step(w, h, s, c, t0));
    lemma_bfs_best(w, h, s, c, 8);
}

/// Neighbour `7 - t` of neighbour `t` is the cell itself.
pub proof fn lemma_nb_back(c: (int, int), t: int)
    requires
        0 <= t < 8,
    ensures
        nb(nb(c, t), 7 - t) == c,
{
}

/// The search rank of a listed position.
pub open spec fn qrank(w: int, h: int, s: (int, int), e: (usize, usize)) -> int {
    bfs_rank(w, h, s, (e.0 as int, e.1 as int))
}

/// The queue `q` is in search order: by distance from `s`, then by rank.
pub open spec fn in_search_order(w: int, h: int, s: (int, int), q: Seq<(usize, usize)>) -> bool {
    forall|t1: int, t2: int|
        0 <= t1 < t2 < q.len() ==> dist_to(s, #[trigger] q[t1]) < dist_to(s, #[trigger] q[t2]) || (dist_to(s, q[t1])
            == dist_to(s, q[t2]) && qrank(w, h, s, q[t1]) < qrank(w, h, s, q[t2]))
}

/// While the search looks at the neighbours of `v` (the cell it took last,
/// at `head - 1`) from number `k` on, an unseen cell one farther from `s`
/// than `v` ranks exactly eight times `v` plus `k` if it is neighbour `k`,
/// and higher otherwise.
pub proof fn lemma_rank_found(
    w: int,
    h: int,
    s: (int, int),
    q: Seq<(usize, usize)>,
    vis: Seq<Vec<bool>>,
    head: int,
    v: (int, int),
    k: int,
    c: (int, int),
)
    requires
        inside(w, h, s),
        inside(w, h, c),
        inside(w, h, v),
        0 <= k < 8,
        1 <= head <= q.len(),
        (q[head - 1].0 as int, q[head - 1].1 as int) == v,
        !seen(vis, c),
        c != s,
        cheb(s, c) == cheb(s, v) + 1,
        forall|p: (int, int)| inside(w, h, p) && #[trigger] cheb(s, p) <= cheb(s, v) ==> seen(vis, p),
        forall|p: (int, int)| inside(w, h, p) && #[trigger] seen(vis, p) ==> exists|t: int|
            0 <= t < q.len() && (#[trigger] q[t].0 as int, q[t].1 as int) == p,
        forall|t: int, j: int|
            0 <= t < head - 1 && 0 <= j < 8 && inside(w, h, #[trigger] nb((q[t].0 as int, q[t].1 as int), j)) ==> seen(
                vis,
                nb((q[t].0 as int, q[t].1 as int), j),
            ),
        forall|j: int| 0 <= j < k && inside(w, h, #[trigger] nb(v, j)) ==> seen(vis, nb(v, j)),
        in_search_order(w, h, s, q),
    ensures
        c == nb(v, k) ==> bfs_rank(w, h, s, c) == 8 * bfs_rank(w, h, s, v) + k,
        c != nb(v, k) ==> bfs_rank(w, h, s, c) > 8 * bfs_rank(w, h, s, v) + k,
{
    let rv = bfs_rank(w, h, s, v);
    lemma_rank_parts(w, h, s, c);
    assert forall|t: int| back_step(w, h, s, c, t) implies {
        let p = nb(c, t);
        &&& p == v ==> 7 - t >= k && c == nb(v, 7 - t) && rank_via(w, h, s, c, t) == 8 * rv + (7 - t)
        &&& p != v ==> rank_via(w, h, s, c, t) > 8 * rv + 7
    } by {
        let p = nb(c, t);
        lemma_nb_back(c, t);
        assert(seen(vis, p));
        let tp = choose|tp: int| 0 <= tp < q.len() && (#[trigger] q[tp].0 as int, q[tp].1 as int) == p;
        if tp < head - 1 {
            assert(seen(vis, nb((q[tp].0 as int, q[tp].1 as int), 7 - t)));
            assert(false);
        } else if tp == head - 1 {
            assert(p == v);
            if 7 - t < k {
                assert(seen(vis, nb(v, 7 - t)));
                assert(false);
            }
        } else {
            assert(dist_to(s, q[head - 1]) < dist_to(s, q[tp]) || (dist_to(s, q[head - 1]) == dist_to(s, q[tp]) && qrank(
                w,
                h,
                s,
                q[head - 1],
            ) < qrank(w, h, s, q[tp])));
            assert(p != v) by {
                if p == v {
                    assert(dist_to(s, q[head - 1]) == dist_to(s, q[tp]));
                }
            }
        }
    }
    let t0 = choose|t: int| back_step(w, h, s, c, t) && bfs_rank(w, h, s, c) == rank_via(w, h, s, c, t);
    if c == nb(v, k) {
        lemma_nb_back(v, k);
        assert(back_step(w, h, s, c, 7 - k));
        assert(nb(c, 7 - k) == v);
        if nb(c, t0) == v {
            assert(c == nb(v, 7 - t0));
        }
    } else {
        if nb(c, t0) == v {
            if 7 - t0 == k {
                assert(c == nb(v, k));
            }
        }
    }
}

/// Putting at the end of a queue in search order a cell one farther than
/// `v` (taken last, at `head - 1`) and ranked above everything behind `v`
/// at that distance keeps the queue in search order.
pub proof fn lemma_push_in_order(
    w: int,
    h: int,
    s: (int, int),
    q: Seq<(usize, usize)>,
    e: (usize, usize),
    head: int,
    v: (int, int),
    k: int,
)
    requires
        in_search_order(w, h, s, q),
        1 <= head <= q.len(),
        (q[head - 1].0 as int, q[head - 1].1 as int) == v,
        forall|t: int| head <= t < q.len() ==> dist_to(s, #[trigger] q[t]) <= cheb(s, v) + 1,
        forall|t: int|
            head <= t < q.len() && dist_to(s, #[trigger] q[t]) == cheb(s, v) + 1 ==> qrank(w, h, s, q[t]) < 8 * bfs_rank(
                w,
                h,
                s,
                v,
            ) + k,
        dist_to(s, e) == cheb(s, v) + 1,
        qrank(w, h, s, e) == 8 * bfs_rank(w, h, s, v) + k,
    ensures
        in_search_order(w, h, s, q.push(e)),
        forall|t: int|
            head <= t < q.push(e).len() && dist_to(s, #[trigger] q.push(e)[t]) == cheb(s, v) + 1 ==> qrank(
                w,
                h,
                s,
                q.push(e)[t],
            ) < 8 * bfs_rank(w, h, s, v) + k + 1,
{
    let r = q.push(e);
    assert forall|t1: int, t2: int|
        0 <= t1 < t2 < r.len() implies dist_to(s, #[trigger] r[t1]) < dist_to(s, #[trigger] r[t2]) || (dist_to(s, r[t1])
            == dist_to(s, r[t2]) && qrank(w, h, s, r[t1]) < qrank(w, h, s, r[t2])) by {
        assert(r[t1] == q[t1]);
        if t2 < q.len() {
            assert(r[t2] == q[t2]);
        } else {
            let last = q.len() - 1;
            if last >= head {
                assert(dist_to(s, q[last]) <= cheb(s, v) + 1);
            }
            if t1 < last {
                assert(dist_to(s, q[t1]) < dist_to(s, q[last]) || (dist_to(s, q[t1]) == dist_to(s, q[last]) && qrank(w, h, s, q[t1])
                    < qrank(w, h, s, q[last])));
            }
            if t1 >= head {
                assert(dist_to(s, q[t1]) <= cheb(s, v) + 1);
            }
        }
    }
    assert forall|t: int|
        head <= t < r.len() && dist_to(s, #[trigger] r[t]) == cheb(s, v) + 1 implies qrank(w, h, s, r[t]) < 8 * bfs_rank(w, h, s, v)
            + k + 1 by {
        if t < q.len() {
            assert(r[t] == q[t]);
        }
    }
}

impl KudzuState {
    /// Search outward from (`sx`, `sy`), ring by ring over all cells, for a
    /// free cell (hidden, without a vine): where a vine caged by revealed
    /// cells escapes to. The cell found is a nearest one in Chebyshev
    /// distance. None when no cell but the start is free.
    #[verifier::spinoff_prover]
    #[verifier::rlimit(60)]
    pub fn nearest_hidden(&self, sx: usize, sy: usize, game: &Game) -> (r: Option<(usize, usize)>)
        requires
            self.wf(),
            game.wf_shape(),
            game.width == self.width,
            game.height == self.height,
            self.in_bounds(sx as int, sy as int),
        ensures
            match r {
                Some(t) => {
                    &&& free_cell(*self, *game, (t.0 as int, t.1 as int))
                    &&& t != (sx, sy)
                    &&& forall|i: int, j: int|
                        (i, j) != (sx as int, sy as int) && #[trigger] free_cell(*self, *game, (i, j)) ==> cheb(
                            (sx as int, sy as int),
                            (t.0 as int, t.1 as int),
                        ) <= cheb((sx as int, sy as int), (i, j))
                    &&& forall|i: int, j: int|
                        (i, j) != (sx as int, sy as int) && (i, j) != (t.0 as int, t.1 as int) && #[trigger] free_cell(
                            *self,
                            *game,
                            (i, j),
                        ) ==> cheb((sx as int, sy as int), (t.0 as int, t.1 as int)) < cheb((sx as int, sy as int), (i, j)) || (
                        cheb((sx as int, sy as int), (t.0 as int, t.1 as int)) == cheb((sx as int, sy as int), (i, j))
                            && bfs_rank(self.width as int, self.height as int, (sx as int, sy as int), (t.0 as int, t.1 as int))
                            < bfs_rank(self.width as int, self.height as int, (sx as int, sy as int), (i, j)))
                },
                None => forall|i: int, j: int| (i, j) != (sx as int, sy as int) ==> !#[trigger] free_cell(*self, *game, (i, j)),
            },
    {
        let w = self.width;
        let h = self.height;
        let ghost s = (sx as int, sy as int);
        let mut visited: Vec<Vec<bool>> = Vec::new();
        for y in 0..h
            invariant
                visited@.len() == y,
                forall|j: int| 0 <= j < y ==> (#[trigger] visited@[j])@.len() == w,
                forall|i: int, j: int| 0 <= i < w && 0 <= j < y ==> !#[trigger] visited@[j]@[i],
        {
            let mut row: Vec<bool> = Vec::new();
            for x in 0..w
                invariant
                    row@.len() == x,
                    forall|i: int| 0 <= i < x ==> !#[trigger] row@[i],
            {
                row.push(false);
            }
            visited.push(row);
        }
        let ghost vm0 = visited@.map_values(|r: Vec<bool>| r@);
        proof {
            assert forall|j: int, i: int| 0 <= j < vm0.len() && 0 <= i < vm0[j].len() implies !(#[trigger] vm0[j][i]) by {}
            lemma_marks_none(vm0);
            lemma_marks_set(vm0, sx as int, sy as int, true);
        }
        let ghost vis0 = visited@;
        visited[sy].set(sx, true);
        assert(visited@.map_values(|r: Vec<bool>| r@) =~= vm0.update(sy as int, vm0[sy as int].update(sx as int, true)));
        let mut queue: Vec<(usize, usize)> = Vec::new();
        queue.push((sx, sy));
        let mut head: usize = 0;
        proof {
            assert(queue@[0] == (sx, sy));
            assert forall|p: (int, int)| inside(w as int, h as int, p) && #[trigger] seen(visited@, p) implies p == s by {
                if p.1 != s.1 {
                    assert(visited@[p.1] == vis0[p.1]);
                } else {
                    assert(!vis0[p.1]@[p.0]);
                }
            }
            assert forall|p: (int, int)| inside(w as int, h as int, p) && #[trigger] seen(visited@, p) implies exists|t: int|
                0 <= t < queue@.len() && (#[trigger] queue@[t].0 as int, queue@[t].1 as int) == p by {
                assert((queue@[0].0 as int, queue@[0].1 as int) == p);
            }
            assert(w * h >= 1) by (nonlinear_arith) requires w >= 1, h >= 1;
        }
        while head < queue.len()
            invariant
                self.wf(),
                game.wf_shape(),
                game.width == w,
                game.height == h,
                w == self.width,
                h == self.height,
                s == (sx as int, sy as int),
                self.in_bounds(sx as int, sy as int),
                visited@.len() == h,
                forall|j: int| 0 <= j < h ==> (#[trigger] visited@[j])@.len() == w,
                seen(visited@, s),
                head <= queue@.len(),
                queue@.len() <= w * h,
                queue@.len() == marks(visited@.map_values(|r: Vec<bool>| r@)),
                1 <= queue@.len(),
                queue@[0] == (sx, sy),
                head == 0 ==> queue@.len() == 1,
                forall|t: int| 0 <= t < queue@.len() ==> inside(w as int, h as int, (#[trigger] queue@[t].0 as int, queue@[t].1 as int))
                    && seen(visited@, (queue@[t].0 as int, queue@[t].1 as int)),
                forall|p: (int, int)|
                    inside(w as int, h as int, p) && #[trigger] seen(visited@, p) && p != s ==> !free_cell(*self, *game, p),
                forall|p: (int, int), k: int|
                    inside(w as int, h as int, p) && #[trigger] seen(visited@, p) && 0 <= k < 8 && inside(w as int, h as int, #[trigger] nb(p, k))
                        && !seen(visited@, nb(p, k)) ==> exists|t: int| head <= t < queue@.len() && (#[trigger] queue@[t].0 as int, queue@[t].1 as int) == p,
                forall|p: (int, int)| inside(w as int, h as int, p) && #[trigger] seen(visited@, p) ==> exists|t: int|
                    0 <= t < queue@.len() && (#[trigger] queue@[t].0 as int, queue@[t].1 as int) == p,
                forall|t1: int, t2: int|
                    0 <= t1 <= t2 < queue@.len() ==> dist_to(s, #[trigger] queue@[t1]) <= dist_to(s, #[trigger] queue@[t2]),
                head >= 1 ==> forall|t: int| head <= t < queue@.len() ==> dist_to(s, #[trigger] queue@[t]) <= dist_to(s, queue@[head - 1]) + 1,
                head >= 1 ==> forall|p: (int, int)|
                    inside(w as int, h as int, p) && #[trigger] cheb(s, p) <= dist_to(s, queue@[head - 1]) ==> seen(visited@, p),
                in_search_order(w as int, h as int, s, queue@),
                head >= 1 ==> forall|t: int|
                    head <= t < queue@.len() && dist_to(s, #[trigger] queue@[t]) == dist_to(s, queue@[head - 1]) + 1 ==> qrank(
                        w as int,
                        h as int,
                        s,
                        queue@[t],
                    ) < 8 * qrank(w as int, h as int, s, queue@[head - 1]) + 8,
                forall|t: int, j: int|
                    0 <= t < head && 0 <= j < 8 && inside(w as int, h as int, #[trigger] nb((queue@[t].0 as int, queue@[t].1 as int), j))
                        ==> seen(visited@, nb((queue@[t].0 as int, queue@[t].1 as int), j)),
            decreases w * h - queue@.len(), queue@.len() - head,
        {
            let (x, y) = queue[head];
            let ghost v = (x as int, y as int);
            assert(inside(w as int, h as int, (queue@[head as int].0 as int, queue@[head as int].1 as int)));
            proof {
                assert forall|p: (int, int)| inside(w as int, h as int, p) && #[trigger] cheb(s, p) <= dist_to(s, queue@[head as int])
                    implies seen(visited@, p) by {
                    if head == 0 {
                        assert(p == s);
                    } else {
                        let u = queue@[head - 1];
                        assert(dist_to(s, u) <= dist_to(s, queue@[head as int]));
                        assert(dist_to(s, queue@[head as int]) <= dist_to(s, u) + 1);
                        if cheb(s, p) > dist_to(s, u) {
                            lemma_step_toward(w as int, h as int, s, p);
                            let pp = step_toward(s, p);
                            assert(cheb(s, pp) <= dist_to(s, u));
                            assert(seen(visited@, pp));
                            let t = choose|t: int| 0 <= t < queue@.len() && (#[trigger] queue@[t].0 as int, queue@[t].1 as int) == pp;
                            if t >= head {
                                assert(dist_to(s, queue@[head as int]) <= dist_to(s, queue@[t]));
                                assert(false);
                            }
                            lemma_nb_adjacent(pp, p);
                            let j = choose|j: int| 0 <= j < 8 && #[trigger] nb(pp, j) == p;
                            assert(nb((queue@[t].0 as int, queue@[t].1 as int), j) == p);
                        }
                    }
                }
                assert forall|t: int| head + 1 <= t < queue@.len() implies dist_to(s, #[trigger] queue@[t]) <= dist_to(s, queue@[head as int]) + 1 by {
                    if head >= 1 {
                        assert(dist_to(s, queue@[head - 1]) <= dist_to(s, queue@[head as int]));
                    }
                }
                assert forall|t: int|
                    head + 1 <= t < queue@.len() && dist_to(s, #[trigger] queue@[t]) == dist_to(s, queue@[head as int]) + 1
                        implies qrank(w as int, h as int, s, queue@[t]) < 8 * qrank(w as int, h as int, s, queue@[head as int]) + 0 by {
                    if head >= 1 {
                        let u = queue@[head - 1];
                        assert(dist_to(s, u) < dist_to(s, queue@[head as int]) || (dist_to(s, u) == dist_to(s, queue@[head as int])
                            && qrank(w as int, h as int, s, u) < qrank(w as int, h as int, s, queue@[head as int])));
                        assert(dist_to(s, queue@[t]) <= dist_to(s, u) + 1);
                    }
                }
            }
            head = head + 1;
            let ghost q_before = queue@;
            for k in 0..8usize
                invariant
                    self.wf(),
                    game.wf_shape(),
                    game.width == w,
                    game.height == h,
                    w == self.width,
                    h == self.height,
                    s == (sx as int, sy as int),
                    v == (x as int, y as int),
                    inside(w as int, h as int, v),
                    inside(w as int, h as int, s),
                    visited@.len() == h,
                    forall|j: int| 0 <= j < h ==> (#[trigger] visited@[j])@.len() == w,
                    seen(visited@, s),
                    seen(visited@, v),
                    0 < head <= q_before.len(),
                    q_before.len() <= queue@.len(),
                    queue@.len() <= w * h,
                    queue@[head - 1] == (x, y),
                    queue@[0] == (sx, sy),
                    forall|t: int| 0 <= t < q_before.len() ==> #[trigger] queue@[t] == q_before[t],
                    queue@.len() == marks(visited@.map_values(|r: Vec<bool>| r@)),
                    forall|t: int| 0 <= t < queue@.len() ==> inside(w as int, h as int, (#[trigger] queue@[t].0 as int, queue@[t].1 as int))
                        && seen(visited@, (queue@[t].0 as int, queue@[t].1 as int)),
                    forall|p: (int, int)|
                        inside(w as int, h as int, p) && #[trigger] seen(visited@, p) && p != s ==> !free_cell(*self, *game, p),
                    forall|j: int| 0 <= j < k && inside(w as int, h as int, #[trigger] nb(v, j)) ==> seen(visited@, nb(v, j)),
                    forall|p: (int, int), kk: int|
                        inside(w as int, h as int, p) && #[trigger] seen(visited@, p) && 0 <= kk < 8 && inside(w as int, h as int, #[trigger] nb(p, kk))
                            && !seen(visited@, nb(p, kk)) ==> p == v || exists|t: int| head <= t < queue@.len() && (#[trigger] queue@[t].0 as int, queue@[t].1 as int) == p,
                    forall|p: (int, int)| inside(w as int, h as int, p) && #[trigger] seen(visited@, p) ==> exists|t: int|
                        0 <= t < queue@.len() && (#[trigger] queue@[t].0 as int, queue@[t].1 as int) == p,
                    forall|t1: int, t2: int|
                        0 <= t1 <= t2 < queue@.len() ==> dist_to(s, #[trigger] queue@[t1]) <= dist_to(s, #[trigger] queue@[t2]),
                    forall|t: int| head <= t < queue@.len() ==> dist_to(s, #[trigger] queue@[t]) <= cheb(s, v) + 1,
                    forall|p: (int, int)| inside(w as int, h as int, p) && #[trigger] cheb(s, p) <= cheb(s, v) ==> seen(visited@, p),
                    in_search_order(w as int, h as int, s, queue@),
                    forall|t: int|
                        head <= t < queue@.len() && dist_to(s, #[trigger] queue@[t]) == cheb(s, v) + 1 ==> qrank(
                            w as int,
                            h as int,
                            s,
                            queue@[t],
                        ) < 8 * bfs_rank(w as int, h as int, s, v) + k,
                    forall|t: int, j: int|
                        0 <= t < head - 1 && 0 <= j < 8 && inside(w as int, h as int, #[trigger] nb((queue@[t].0 as int, queue@[t].1 as int), j))
                            ==> seen(visited@, nb((queue@[t].0 as int, queue@[t].1 as int), j)),
            {
                match neighbor_of(w, h, x, y, k) {
                    Some((nx, ny)) => {
                        assert(visited@[ny as int]@.len() == w);
                        if !visited[ny][nx] {
                            let ghost n = (nx as int, ny as int);
                            proof {
                                lemma_cheb_nb(s, v, k as int);
                                if cheb(s, n) <= cheb(s, v) {
                                    assert(seen(visited@, n));
                                }
                            }
                            let ghost vm = visited@.map_values(|r: Vec<bool>| r@);
                            proof {
                                lemma_marks_set(vm, nx as int, ny as int, true);
                                assert forall|j: int| 0 <= j < vm.len() implies (#[trigger] vm[j]).len() == w by {}
                                lemma_marks_bounds(vm.update(ny as int, vm[ny as int].update(nx as int, true)), w as int);
                                assert(vm[ny as int][nx as int] == false);
                            }
                            let ghost vis_before = visited@;
                            visited[ny].set(nx, true);
                            assert(visited@.map_values(|r: Vec<bool>| r@) =~= vm.update(ny as int, vm[ny as int].update(nx as int, true)));
                            proof {
                                assert forall|p: (int, int)| inside(w as int, h as int, p) implies #[trigger] seen(visited@, p)
                                    == (seen(vis_before, p) || p == (nx as int, ny as int)) by {
                                    if p.1 != ny as int {
                                        assert(visited@[p.1] == vis_before[p.1]);
                                    }
                                }
                            }
                            assert(self.kudzu@[ny as int]@.len() == w);
                            assert(game.grid@[ny as int]@.len() == w);
                            if !self.kudzu[ny][nx] && matches!(game.grid[ny][nx].state, CellState::Hidden) {
                                proof {
                                    assert(free_cell(*self, *game, (nx as int, ny as int)));
                                    assert(!seen(vis_before, (nx as int, ny as int)));
                                    assert forall|i: int, j: int|
                                        (i, j) != s && #[trigger] free_cell(*self, *game, (i, j)) implies cheb(s, n) <= cheb(s, (i, j)) by {
                                        if cheb(s, (i, j)) < cheb(s, n) {
                                            assert(seen(vis_before, (i, j)));
                                        }
                                    }
                                    assert(n != s);
                                    assert(cheb(s, n) == cheb(s, v) + 1);
                                    lemma_rank_found(w as int, h as int, s, queue@, vis_before, head as int, v, k as int, n);
                                    assert forall|i: int, j: int|
                                        (i, j) != s && (i, j) != n && #[trigger] free_cell(*self, *game, (i, j)) implies cheb(s, n) < cheb(s, (i, j)) || (
                                        cheb(s, n) == cheb(s, (i, j)) && bfs_rank(w as int, h as int, s, n) < bfs_rank(w as int, h as int, s, (i, j))) by {
                                        if cheb(s, (i, j)) <= cheb(s, v) {
                                            assert(seen(vis_before, (i, j)));
                                        }
                                        if cheb(s, (i, j)) == cheb(s, n) {
                                            assert(!seen(vis_before, (i, j)));
                                            lemma_rank_found(w as int, h as int, s, queue@, vis_before, head as int, v, k as int, (i, j));
                                        }
                                    }
                                }
                                return Some((nx, ny));
                            }
                            let ghost qb = queue@;
                            proof {
                                assert(h * w == w * h) by (nonlinear_arith);
                                assert(n != s);
                                assert(cheb(s, n) == cheb(s, v) + 1);
                                lemma_rank_found(w as int, h as int, s, queue@, vis_before, head as int, v, k as int, n);
                            }
                            queue.push((nx, ny));
                            proof {
                                lemma_push_in_order(w as int, h as int, s, qb, (nx, ny), head as int, v, k as int);
                                assert(queue@ == qb.push((nx, ny)));
                            }
                            proof {
                                assert(queue@[queue@.len() - 1] == (nx, ny));
                                assert forall|p: (int, int), kk: int|
                                    inside(w as int, h as int, p) && #[trigger] seen(visited@, p) && 0 <= kk < 8 && inside(w as int, h as int, #[trigger] nb(p, kk))
                                        && !seen(visited@, nb(p, kk)) implies p == v || exists|t: int| head <= t < queue@.len() && (#[trigger] queue@[t].0 as int, queue@[t].1 as int) == p by {
                                    if p == (nx as int, ny as int) {
                                        assert(queue@[queue@.len() - 1] == (nx, ny));
                                    } else {
                                        assert(seen(vis_before, p));
                                        assert(!seen(vis_before, nb(p, kk)));
                                        if p != v {
                                            let t = choose|t: int| head <= t < qb.len() && (#[trigger] qb[t].0 as int, qb[t].1 as int) == p;
                                            assert(queue@[t] == qb[t]);
                                        }
                                    }
                                }
                                assert forall|t: int| 0 <= t < queue@.len() implies inside(w as int, h as int, (#[trigger] queue@[t].0 as int, queue@[t].1 as int))
                                    && seen(visited@, (queue@[t].0 as int, queue@[t].1 as int)) by {
                                    if t < qb.len() {
                                        assert(queue@[t] == qb[t]);
                                    }
                                }
                                assert forall|p: (int, int)| inside(w as int, h as int, p) && #[trigger] seen(visited@, p) implies exists|t: int|
                                    0 <= t < queue@.len() && (#[trigger] queue@[t].0 as int, queue@[t].1 as int) == p by {
                                    if p != n {
                                        assert(seen(vis_before, p));
                                        let t = choose|t: int| 0 <= t < qb.len() && (#[trigger] qb[t].0 as int, qb[t].1 as int) == p;
                                        assert(queue@[t] == qb[t]);
                                    }
                                }
                                assert forall|t1: int, t2: int|
                                    0 <= t1 <= t2 < queue@.len() implies dist_to(s, #[trigger] queue@[t1]) <= dist_to(s, #[trigger] queue@[t2]) by {
                                    if t2 == qb.len() {
                                        if t1 < qb.len() {
                                            assert(queue@[t1] == qb[t1]);
                                            let last = qb.len() - 1;
                                            assert(queue@[last] == qb[last]);
                                            assert(dist_to(s, qb[t1]) <= dist_to(s, qb[last]));
                                            if last >= head {
                                                assert(dist_to(s, qb[last]) <= cheb(s, v) + 1);
                                            } else {
                                                assert(last == head - 1);
                                                assert(qb[last] == (x, y));
                                            }
                                        }
                                    } else {
                                        assert(queue@[t1] == qb[t1]);
                                        assert(queue@[t2] == qb[t2]);
                                    }
                                }
                                assert forall|t: int| head <= t < queue@.len() implies dist_to(s, #[trigger] queue@[t]) <= cheb(s, v) + 1 by {
                                    if t < qb.len() {
                                        assert(queue@[t] == qb[t]);
                                    }
                                }
                                assert forall|t: int, j: int|
                                    0 <= t < head - 1 && 0 <= j < 8 && inside(w as int, h as int, #[trigger] nb((queue@[t].0 as int, queue@[t].1 as int), j))
                                        implies seen(visited@, nb((queue@[t].0 as int, queue@[t].1 as int), j)) by {
                                    assert(queue@[t] == qb[t]);
                                }
                            }
                        }
                    },
                    None => {},
                }
            }
            proof {
                assert forall|p: (int, int), kk: int|
                    inside(w as int, h as int, p) && #[trigger] seen(visited@, p) && 0 <= kk < 8 && inside(w as int, h as int, #[trigger] nb(p, kk))
                        && !seen(visited@, nb(p, kk)) implies exists|t: int| head <= t < queue@.len() && (#[trigger] queue@[t].0 as int, queue@[t].1 as int) == p by {
                    if p == v {
                        assert(seen(visited@, nb(v, kk)));
                    }
                }
                assert forall|t: int, j: int|
                    0 <= t < head && 0 <= j < 8 && inside(w as int, h as int, #[trigger] nb((queue@[t].0 as int, queue@[t].1 as int), j))
                        implies seen(visited@, nb((queue@[t].0 as int, queue@[t].1 as int), j)) by {
                    if t == head - 1 {
                        assert((queue@[t].0 as int, queue@[t].1 as int) == v);
                    }
                }
            }
        }
        proof {
            assert(closed_marks(visited@, w as int, h as int));
            assert forall|i: int, j: int| (i, j) != (sx as int, sy as int) implies !#[trigger] free_cell(*self, *game, (i, j)) by {
                if inside(w as int, h as int, (i, j)) {
                    lemma_all_seen(visited@, w as int, h as int, s, (i, j));
                }
            }
        }
        None
    }
}

/// Some neighbour of `v` is free.
pub open spec fn has_free_nb(k: KudzuState, game: Game, v: (int, int)) -> bool {
    exists|j: int| 0 <= j < 8 && free_cell(k, game, #[trigger] nb(v, j))
}

/// Some cell other than `v` is free.
pub open spec fn has_free_elsewhere(k: KudzuState, game: Game, v: (int, int)) -> bool {
    exists|i: int, j: int| (i, j) != v && #[trigger] free_cell(k, game, (i, j))
}

/// The vine on `v` got its new shoot among the cells `s`: on a free
/// neighbour if it has one, else on a free cell elsewhere if there is one.
pub open spec fn served(k: KudzuState, game: Game, v: (int, int), s: Seq<(int, int)>) -> bool {
    &&& has_free_nb(k, game, v) ==> exists|j: int|
        0 <= j < 8 && free_cell(k, game, #[trigger] nb(v, j)) && s.contains(nb(v, j))
    &&& !has_free_nb(k, game, v) && has_free_elsewhere(k, game, v) ==> exists|i: int, j: int|
        (i, j) != v && #[trigger] free_cell(k, game, (i, j)) && s.contains((i, j))
}

/// `t` is a shoot that the vine on `v` may send: a free neighbour when it
/// has one, else the free cell elsewhere that a breadth-first search from
/// `v` reaches first: the nearest in Chebyshev distance, and among those
/// the one of least search rank.
pub open spec fn shoot_of(k: KudzuState, game: Game, v: (int, int), t: (int, int)) -> bool {
    &&& free_cell(k, game, t)
    &&& t != v
    &&& if has_free_nb(k, game, v) {
        adjacent(v, t)
    } else {
        forall|i: int, j: int|
            (i, j) != v && (i, j) != t && #[trigger] free_cell(k, game, (i, j)) ==> cheb(v, t) < cheb(v, (i, j)) || (cheb(v, t)
                == cheb(v, (i, j)) && bfs_rank(k.width as int, k.height as int, v, t) < bfs_rank(
                k.width as int,
                k.height as int,
                v,
                (i, j),
            ))
    }
}

/// The shoots `s` were sent one each by the distinct vines `o`.
pub open spec fn shoots_from(k: KudzuState, game: Game, s: Seq<(int, int)>, o: Seq<(int, int)>) -> bool {
    &&& s.len() == o.len()
    &&& o.no_duplicates()
    &&& forall|n: int| 0 <= n < o.len() ==> #[trigger] vine_shoot(k, game, o[n], s[n])
}

/// The vine on `v` may send the shoot `t`.
pub open spec fn vine_shoot(k: KudzuState, game: Game, v: (int, int), t: (int, int)) -> bool {
    k.in_bounds(v.0, v.1) && k.kz(v.0, v.1) && shoot_of(k, game, v, t)
}

impl KudzuState {
    /// The free neighbours of (`x`, `y`), in scan order.
    fn free_neighbours(&self, x: usize, y: usize, game: &Game) -> (v: Vec<(usize, usize)>)
        requires
            self.wf(),
            game.wf_shape(),
            game.width == self.width,
            game.height == self.height,
            self.in_bounds(x as int, y as int),
        ensures
            forall|t: int| 0 <= t < v@.len() ==> free_cell(*self, *game, (#[trigger] v@[t].0 as int, v@[t].1 as int))
                && adjacent((x as int, y as int), (v@[t].0 as int, v@[t].1 as int)),
            forall|j: int| 0 <= j < 8 && free_cell(*self, *game, #[trigger] nb((x as int, y as int), j)) ==> ipos(v@).contains(
                nb((x as int, y as int), j),
            ),
    {
        let ghost p = (x as int, y as int);
        let mut v: Vec<(usize, usize)> = Vec::new();
        for k in 0..8usize
            invariant
                self.wf(),
                game.wf_shape(),
                game.width == self.width,
                game.height == self.height,
                self.in_bounds(x as int, y as int),
                p == (x as int, y as int),
                forall|t: int| 0 <= t < v@.len() ==> free_cell(*self, *game, (#[trigger] v@[t].0 as int, v@[t].1 as int))
                    && adjacent(p, (v@[t].0 as int, v@[t].1 as int)),
                forall|j: int| 0 <= j < k && free_cell(*self, *game, #[trigger] nb(p, j)) ==> ipos(v@).contains(nb(p, j)),
        {
            proof {
                lemma_nb_adjacent(p, nb(p, k as int));
                assert(among_first(p, nb(p, k as int), 8)) by {
                    assert(nb(p, k as int) == nb(p, k as int));
                }
            }
            match neighbor_of(self.width, self.height, x, y, k) {
                Some((nx, ny)) => {
                    assert(self.kudzu@[ny as int]@.len() == self.width);
                    assert(game.grid@[ny as int]@.len() == self.width);
                    if !self.kudzu[ny][nx] && matches!(game.grid[ny][nx].state, CellState::Hidden) {
                        let ghost before = v@;
                        v.push((nx, ny));
                        proof {
                            assert(ipos(v@)[v@.len() - 1] == nb(p, k as int));
                            assert forall|j: int| 0 <= j < k + 1 && free_cell(*self, *game, #[trigger] nb(p, j)) implies ipos(v@).contains(nb(p, j)) by {
                                if j < k {
                                    assert(ipos(before).contains(nb(p, j)));
                                    let t = choose|t: int| 0 <= t < ipos(before).len() && ipos(before)[t] == nb(p, j);
                                    assert(ipos(v@)[t] == nb(p, j));
                                }
                            }
                        }
                    }
                },
                None => {},
            }
        }
        v
    }

    /// Every vine sends out one shoot: onto a random free neighbour, or, if
    /// it has none, onto the nearest free cell of the board; the shoots are
    /// planted after all vines have chosen.
    pub fn spread(&mut self, game: &Game)
        requires
            old(self).wf(),
            game.wf_shape(),
            game.width == old(self).width,
            game.height == old(self).height,
        ensures
            final(self).wf(),
            final(self).width == old(self).width,
            final(self).height == old(self).height,
            forall|i: int, j: int| old(self).in_bounds(i, j) && #[trigger] old(self).kz(i, j) ==> final(self).kz(i, j),
            forall|i: int, j: int|
                old(self).in_bounds(i, j) && #[trigger] final(self).kz(i, j) ==> old(self).kz(i, j) || free_cell(*old(self), *game, (i, j)),
            forall|i: int, j: int|
                old(self).in_bounds(i, j) && #[trigger] old(self).kz(i, j) ==> spread_reached(*old(self), *final(self), *game, (i, j)),
            exists|sh: Seq<(int, int)>, o: Seq<(int, int)>|
                #[trigger] shoots_from(*old(self), *game, sh, o) && forall|i: int, j: int|
                    old(self).in_bounds(i, j) ==> #[trigger] final(self).kz(i, j) == (old(self).kz(i, j) || sh.contains((i, j))),
    {
        let ghost k0 = *self;
        let w = self.width;
        let h = self.height;
        let mut to_add: Vec<(usize, usize)> = Vec::new();
        let ghost mut o: Seq<(int, int)> = Seq::empty();
        for y in 0..h
            invariant
                o.len() == to_add@.len(),
                o.no_duplicates(),
                forall|n: int| 0 <= n < o.len() ==> (#[trigger] o[n]).1 < y,
                forall|n: int|
                    0 <= n < o.len() ==> #[trigger] vine_shoot(
                        k0,
                        *game,
                        o[n],
                        ipos(to_add@)[n],
                    ),
                *self == k0,
                self.wf(),
                game.wf_shape(),
                game.width == w,
                game.height == h,
                w == self.width,
                h == self.height,
                forall|t: int| 0 <= t < to_add@.len() ==> free_cell(k0, *game, (#[trigger] to_add@[t].0 as int, to_add@[t].1 as int)),
                forall|i: int, j: int| self.in_bounds(i, j) && j < y && #[trigger] k0.kz(i, j) ==> served(k0, *game, (i, j), ipos(to_add@)),
        {
            for x in 0..w
                invariant
                    o.len() == to_add@.len(),
                    o.no_duplicates(),
                    forall|n: int| 0 <= n < o.len() ==> (#[trigger] o[n]).1 < y || (o[n].1 == y && o[n].0 < x),
                    forall|n: int|
                        0 <= n < o.len() ==> #[trigger] vine_shoot(
                            k0,
                            *game,
                            o[n],
                            ipos(to_add@)[n],
                        ),
                    *self == k0,
                    self.wf(),
                    game.wf_shape(),
                    game.width == w,
                    game.height == h,
                    w == self.width,
                    h == self.height,
                    y < h,
                    forall|t: int| 0 <= t < to_add@.len() ==> free_cell(k0, *game, (#[trigger] to_add@[t].0 as int, to_add@[t].1 as int)),
                    forall|i: int, j: int|
                        self.in_bounds(i, j) && (j < y || (j == y && i < x)) && #[trigger] k0.kz(i, j) ==> served(k0, *game, (i, j), ipos(to_add@)),
            {
                assert(self.kudzu@[y as int]@.len() == w);
                if self.kudzu[y][x] {
                    let ghost v = (x as int, y as int);
                    let ghost before = to_add@;
                    let cands = self.free_neighbours(x, y, game);
                    if cands.len() > 0 {
                        let r = random_below(cands.len());
                        let t = cands[r];
                        to_add.push(t);
                        proof {
                            o = o.push(v);
                            let tq = (t.0 as int, t.1 as int);
                            assert(free_cell(k0, *game, tq) && adjacent(v, tq));
                            lemma_nb_adjacent(v, tq);
                            let j = choose|j: int| 0 <= j < 8 && #[trigger] nb(v, j) == tq;
                            assert(ipos(to_add@)[to_add@.len() - 1] == tq);
                            assert(ipos(to_add@).contains(nb(v, j)));
                            assert(has_free_nb(k0, *game, v));
                        }
                    } else {
                        proof {
                            assert(!has_free_nb(k0, *game, v)) by {
                                if has_free_nb(k0, *game, v) {
                                    let j = choose|j: int| 0 <= j < 8 && free_cell(k0, *game, #[trigger] nb(v, j));
                                    assert(ipos(cands@).contains(nb(v, j)));
                                }
                            }
                        }
                        match self.nearest_hidden(x, y, game) {
                            Some(t) => {
                                to_add.push(t);
                                proof {
                                    o = o.push(v);
                                    assert(ipos(to_add@)[to_add@.len() - 1] == (t.0 as int, t.1 as int));
                                    assert(ipos(to_add@).contains((t.0 as int, t.1 as int)));
                                    assert((t.0 as int, t.1 as int) != v);
                                }
                            },
                            None => {
                                proof {
                                    assert(!has_free_elsewhere(k0, *game, v));
                                }
                            },
                        }
                    }
                    proof {
                        assert forall|t: int| 0 <= t < to_add@.len() implies free_cell(k0, *game, (#[trigger] to_add@[t].0 as int, to_add@[t].1 as int)) by {
                            if t < before.len() {
                                assert(to_add@[t] == before[t]);
                            }
                        }
                        assert forall|n: int|
                            0 <= n < o.len() implies #[trigger] vine_shoot(
                                k0,
                                *game,
                                o[n],
                                ipos(to_add@)[n],
                            ) by {
                            if n < before.len() {
                                assert(ipos(to_add@)[n] == ipos(before)[n]);
                            }
                        }
                        assert forall|q: (int, int)| ipos(before).contains(q) implies #[trigger] ipos(to_add@).contains(q) by {
                            let a = choose|a: int| 0 <= a < ipos(before).len() && ipos(before)[a] == q;
                            assert(to_add@[a] == before[a]);
                            assert(ipos(to_add@)[a] == q);
                        }
                        assert forall|i: int, j: int|
                            self.in_bounds(i, j) && (j < y || (j == y && i < x + 1)) && #[trigger] k0.kz(i, j) implies served(k0, *game, (i, j), ipos(to_add@)) by {
                            if (i, j) != v {
                                lemma_served_grow(k0, *game, (i, j), ipos(before), ipos(to_add@));
                            }
                        }
                    }
                }
            }
        }
        let n = to_add.len();
        for t in 0..n
            invariant
                n == to_add@.len(),
                self.wf(),
                self.width == w,
                self.height == h,
                k0.width == w,
                k0.height == h,
                forall|q: int| 0 <= q < n ==> free_cell(k0, *game, (#[trigger] to_add@[q].0 as int, to_add@[q].1 as int)),
                forall|i: int, j: int|
                    self.in_bounds(i, j) ==> #[trigger] self.kz(i, j) == (k0.kz(i, j) || ipos(to_add@).take(t as int).contains((i, j))),
        {
            let (nx, ny) = to_add[t];
            assert(free_cell(k0, *game, (to_add@[t as int].0 as int, to_add@[t as int].1 as int)));
            self.set(nx, ny, true);
            proof {
                assert forall|i: int, j: int| self.in_bounds(i, j) implies (#[trigger] ipos(to_add@).take(t + 1).contains((i, j))
                    <==> ipos(to_add@).take(t as int).contains((i, j)) || (i, j) == (nx as int, ny as int)) by {
                    let s1 = ipos(to_add@).take(t + 1);
                    let s0 = ipos(to_add@).take(t as int);
                    if s1.contains((i, j)) {
                        let a = choose|a: int| 0 <= a < s1.len() && s1[a] == (i, j);
                        if a < t {
                            assert(s0[a] == (i, j));
                        }
                    }
                    if s0.contains((i, j)) {
                        let a = choose|a: int| 0 <= a < s0.len() && s0[a] == (i, j);
                        assert(s1[a] == (i, j));
                    }
                    if (i, j) == (nx as int, ny as int) {
                        assert(s1[t as int] == (i, j));
                    }
                }
            }
        }
        proof {
            assert(ipos(to_add@).take(n as int) =~= ipos(to_add@));
            assert(shoots_from(k0, *game, ipos(to_add@), o));
            assert forall|i: int, j: int| k0.in_bounds(i, j) && #[trigger] k0.kz(i, j) implies spread_reached(k0, *self, *game, (i, j)) by {
                lemma_served_final(k0, *self, *game, (i, j), ipos(to_add@));
            }
            assert forall|i: int, j: int| k0.in_bounds(i, j) && #[trigger] self.kz(i, j) implies k0.kz(i, j) || free_cell(k0, *game, (i, j)) by {
                if !k0.kz(i, j) {
                    let a = choose|a: int| 0 <= a < ipos(to_add@).len() && ipos(to_add@)[a] == (i, j);
                    assert(free_cell(k0, *game, (to_add@[a].0 as int, to_add@[a].1 as int)));
                }
            }
        }
    }
}

/// What a spread did for the vine on `v`: if it had a free neighbour, one of
/// its free neighbours now holds a vine; if it had none but a free cell was
/// left elsewhere, one such cell now holds a vine.
pub open spec fn spread_reached(k: KudzuState, f: KudzuState, game: Game, v: (int, int)) -> bool {
    &&& has_free_nb(k, game, v) ==> exists|j: int|
        0 <= j < 8 && free_cell(k, game, #[trigger] nb(v, j)) && f.kz(nb(v, j).0, nb(v, j).1)
    &&& !has_free_nb(k, game, v) && has_free_elsewhere(k, game, v) ==> exists|i: int, j: int|
        (i, j) != v && #[trigger] free_cell(k, game, (i, j)) && f.kz(i, j)
}

/// Being served stays true as shoots are added.
pub proof fn lemma_served_grow(k: KudzuState, game: Game, v: (int, int), s0: Seq<(int, int)>, s1: Seq<(int, int)>)
    requires
        served(k, game, v, s0),
        forall|q: (int, int)| s0.contains(q) ==> #[trigger] s1.contains(q),
    ensures
        served(k, game, v, s1),
{
    if has_free_nb(k, game, v) {
        let j = choose|j: int| 0 <= j < 8 && free_cell(k, game, #[trigger] nb(v, j)) && s0.contains(nb(v, j));
        assert(s1.contains(nb(v, j)));
    }
    if !has_free_nb(k, game, v) && has_free_elsewhere(k, game, v) {
        let (i, j) = choose|i: int, j: int| (i, j) != v && #[trigger] free_cell(k, game, (i, j)) && s0.contains((i, j));
        assert(s1.contains((i, j)));
    }
}

/// A served vine reached its shoot once the shoots are planted.
pub proof fn lemma_served_final(k: KudzuState, f: KudzuState, game: Game, v: (int, int), s: Seq<(int, int)>)
    requires
        served(k, game, v, s),
        forall|i: int, j: int| k.in_bounds(i, j) ==> #[trigger] f.kz(i, j) == (k.kz(i, j) || s.contains((i, j))),
    ensures
        spread_reached(k, f, game, v),
{
    if has_free_nb(k, game, v) {
        let j = choose|j: int| 0 <= j < 8 && free_cell(k, game, #[trigger] nb(v, j)) && s.contains(nb(v, j));
        assert(f.kz(nb(v, j).0, nb(v, j).1));
    }
    if !has_free_nb(k, game, v) && has_free_elsewhere(k, game, v) {
        let (i, j) = choose|i: int, j: int| (i, j) != v && #[trigger] free_cell(k, game, (i, j)) && s.contains((i, j));
        assert(f.kz(i, j));
    }
}

/// 1 where a vine covers a mined cell on the board, else 0.
pub open spec fn covered_mine(k: KudzuState, game: Game, q: (int, int)) -> int {
    if k.in_bounds(q.0, q.1) && k.kz(q.0, q.1) && game.cell(q.0, q.1).mines > 0 {
        1
    } else {
        0
    }
}

/// The number a revealed cell shows under Kudzu: its count less the mines
/// that vines cover around it.
pub open spec fn spec_kudzu_number(k: KudzuState, game: Game, x: int, y: int) -> int {
    game.cell(x, y).adjacent_mines - nb_sum(|q: (int, int)| covered_mine(k, game, q), (x, y))
}

/// Whether no vine is left on the board.
pub open spec fn vines_gone(k: KudzuState) -> bool {
    forall|x: int, y: int| k.in_bounds(x, y) ==> !#[trigger] k.kz(x, y)
}

impl KudzuState {
    /// The mines that vines cover among the neighbours of (`x`, `y`).
    pub fn covered_mines(&self, game: &Game, x: usize, y: usize) -> (r: i8)
        requires
            self.wf(),
            game.wf_shape(),
            game.width == self.width,
            game.height == self.height,
            self.in_bounds(x as int, y as int),
        ensures
            r == nb_sum(|q: (int, int)| covered_mine(*self, *game, q), (x as int, y as int)),
            0 <= r <= 8,
    {
        let ghost f = |q: (int, int)| covered_mine(*self, *game, q);
        let ghost p = (x as int, y as int);
        let mut c: i8 = 0;
        for kk in 0..8usize
            invariant
                self.wf(),
                game.wf_shape(),
                game.width == self.width,
                game.height == self.height,
                self.in_bounds(x as int, y as int),
                f == (|q: (int, int)| covered_mine(*self, *game, q)),
                p == (x as int, y as int),
                c == nb_partial(f, p, kk as nat),
                0 <= c <= kk,
        {
            match neighbor_of(self.width, self.height, x, y, kk) {
                Some((nx, ny)) => {
                    assert(self.kudzu@[ny as int]@.len() == self.width);
                    assert(game.grid@[ny as int]@.len() == self.width);
                    if self.kudzu[ny][nx] && game.grid[ny][nx].mines > 0 {
                        c = c + 1;
                    }
                },
                None => {},
            }
        }
        c
    }

    /// The number a revealed cell (`x`, `y`) shows: its count less the mines
    /// that vines cover around it.
    pub fn kudzu_number(&self, game: &Game, x: usize, y: usize) -> (r: i8)
        requires
            self.wf(),
            game.wf_shape(),
            game.width == self.width,
            game.height == self.height,
            self.in_bounds(x as int, y as int),
            game.cell(x as int, y as int).adjacent_mines >= -120,
        ensures
            r == spec_kudzu_number(*self, *game, x as int, y as int),
            r <= game.cell(x as int, y as int).adjacent_mines,
            vines_gone(*self) ==> r == game.cell(x as int, y as int).adjacent_mines,
    {
        proof {
            law_kudzu_number_hides_covered(*self, *game, x as int, y as int);
        }
        let c = self.covered_mines(game, x, y);
        assert(game.grid@[y as int]@.len() == self.width);
        game.grid[y][x].adjacent_mines - c
    }
}

/// A game still going, or just won, is lost once no vine is left.
pub fn kudzu_liveness_check(game: &mut Game, k: &KudzuState)
    requires
        old(game).wf_shape(),
        k.wf(),
    ensures
        final(game).wf_shape(),
        (old(game).state == GameState::Playing || old(game).state == GameState::Won) && vines_gone(*k) ==> *final(game)
            == (Game { state: GameState::Lost, ..*old(game) }),
        !((old(game).state == GameState::Playing || old(game).state == GameState::Won) && vines_gone(*k)) ==> *final(game)
            == *old(game),
{
    let live = matches!(game.state, GameState::Playing | GameState::Won);
    if live && k.is_empty() {
        game.set_game_state(GameState::Lost);
    }
}

/// Kudzu shows a cell's count less the mines that vines cover around it:
/// never more than the count, at most eight less, and the count itself
/// once no vine is left.
pub proof fn law_kudzu_number_hides_covered(k: KudzuState, game: Game, x: int, y: int)
    ensures
        game.cell(x, y).adjacent_mines - 8 <= spec_kudzu_number(k, game, x, y) <= game.cell(x, y).adjacent_mines,
        vines_gone(k) ==> spec_kudzu_number(k, game, x, y) == game.cell(x, y).adjacent_mines,
{
    let f = |q: (int, int)| covered_mine(k, game, q);
    reveal_with_fuel(nb_partial, 9);
    assert(0 <= nb_sum(f, (x, y)) <= 8);
    if vines_gone(k) {
        assert forall|j: int| 0 <= j < 8 implies #[trigger] f(nb((x, y), j)) == 0 by {
            let q = nb((x, y), j);
            if k.in_bounds(q.0, q.1) {
                assert(!k.kz(q.0, q.1));
            }
        }
        assert(f(nb((x, y), 0)) == 0);
        assert(f(nb((x, y), 1)) == 0);
        assert(f(nb((x, y), 2)) == 0);
        assert(f(nb((x, y), 3)) == 0);
        assert(f(nb((x, y), 4)) == 0);
        assert(f(nb((x, y), 5)) == 0);
        assert(f(nb((x, y), 6)) == 0);
        assert(f(nb((x, y), 7)) == 0);
    }
}

} // verus!
