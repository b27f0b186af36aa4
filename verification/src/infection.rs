use vstd::prelude::*;
use crate::cascade::{adjacent, inside, nb, nbs_where};
use crate::game::{Game, Cell, CellState, GameState, MAX_CELLS, grid_mines, grid_units, ipos};
use crate::random::{random_below, random_chance};

verus! {

/// Every cell's mines are positive (Infection has no negative mines).
pub open spec fn no_negatives(g: Game) -> bool {
    forall|i: int, j: int| g.in_bounds(i, j) ==> !(#[trigger] g.cell(i, j)).is_negative
}

/// Every count of a mine-free cell leaves room for one more.
pub open spec fn counts_below_max(g: Game) -> bool {
    forall|i: int, j: int| g.in_bounds(i, j) && (#[trigger] g.cell(i, j)).mines == 0 ==> g.cell(i, j).adjacent_mines < 127
}

/// The `k`-th neighbour of `p` in scan order is one of the first `n`.
pub open spec fn among_first(p: (int, int), q: (int, int), n: int) -> bool {
    exists|j: int| 0 <= j < n && #[trigger] nb(p, j) == q
}

/// The eight neighbours in scan order are the adjacent positions.
pub proof fn lemma_nb_adjacent(p: (int, int), q: (int, int))
    ensures
        adjacent(p, q) <==> among_first(p, q, 8),
{
    if adjacent(p, q) {
        let dx = q.0 - p.0 + 1;
        let dy = q.1 - p.1 + 1;
        let k = if dy == 0 {
            dx
        } else if dy == 1 {
            if dx == 0 {
                3
            } else {
                4
            }
        } else {
            5 + dx
        };
        assert(nb(p, k) == q);
    }
}

/// `a` comes before `b` in row-major order.
pub open spec fn row_major_before(a: (int, int), b: (int, int)) -> bool {
    a.1 < b.1 || (a.1 == b.1 && a.0 < b.0)
}

/// Every cell listed by `nbs_where(p, k, ok)` satisfies `ok` and is one of
/// the first `k` neighbours of `p`.
pub proof fn lemma_nbs_where(p: (int, int), k: nat, ok: spec_fn((int, int)) -> bool)
    ensures
        forall|i: int|
            0 <= i < nbs_where(p, k, ok).len() ==> ok(#[trigger] nbs_where(p, k, ok)[i]) && among_first(
                p,
                nbs_where(p, k, ok)[i],
                k as int,
            ),
    decreases k,
{
    if k > 0 {
        lemma_nbs_where(p, (k - 1) as nat, ok);
        let rest = nbs_where(p, (k - 1) as nat, ok);
        assert forall|i: int| 0 <= i < nbs_where(p, k, ok).len() implies ok(#[trigger] nbs_where(p, k, ok)[i]) && among_first(
            p,
            nbs_where(p, k, ok)[i],
            k as int,
        ) by {
            if i < rest.len() {
                assert(nbs_where(p, k, ok)[i] == rest[i]);
                let j = choose|j: int| 0 <= j < k - 1 && #[trigger] nb(p, j) == rest[i];
                assert(0 <= j < k && nb(p, j) == nbs_where(p, k, ok)[i]);
            } else {
                assert(nbs_where(p, k, ok)[i] == nb(p, k - 1));
            }
        }
    }
}

impl Game {
    /// Where an infection may put a mine: a hidden mine-free cell on the
    /// board.
    pub open spec fn infection_target(self) -> spec_fn((int, int)) -> bool {
        |q: (int, int)| self.in_bounds(q.0, q.1) && self.cell(q.0, q.1).state == CellState::Hidden && self.cell(q.0, q.1).mines == 0
    }

    /// The infection targets around (`x`, `y`), in scan order.
    pub open spec fn infection_targets(self, x: int, y: int) -> Seq<(int, int)> {
        nbs_where((x, y), 8, self.infection_target())
    }

    /// (`i`, `j`) was hidden before the move (`was_hidden`) and is now a
    /// revealed number.
    pub open spec fn newly_revealed_at(self, was_hidden: Seq<Vec<bool>>, i: int, j: int) -> bool {
        &&& self.in_bounds(i, j)
        &&& was_hidden[j]@[i]
        &&& self.cell(i, j).state == CellState::Revealed
        &&& self.cell(i, j).adjacent_mines > 0
    }

    /// `s` lists, in row-major order and once each, the cells that the move
    /// revealed as numbers.
    pub open spec fn lists_newly_revealed(self, was_hidden: Seq<Vec<bool>>, s: Seq<(int, int)>) -> bool {
        &&& forall|k: int| 0 <= k < s.len() ==> self.newly_revealed_at(was_hidden, (#[trigger] s[k]).0, s[k].1)
        &&& forall|i: int, j: int| #[trigger] self.newly_revealed_at(was_hidden, i, j) ==> s.contains((i, j))
        &&& forall|k1: int, k2: int| 0 <= k1 < k2 < s.len() ==> row_major_before(#[trigger] s[k1], #[trigger] s[k2])
    }

    /// `f` comes from this board by one infection attempt from `c`: nothing
    /// happens, or `c` shows a positive count and a new mine appears on one of
    /// its infection targets.
    pub open spec fn infection_step(self, f: Game, c: (int, int)) -> bool {
        ||| f == self
        ||| self.cell(c.0, c.1).adjacent_mines > 0 && exists|k: int|
            #![trigger self.infection_targets(c.0, c.1)[k]]
            0 <= k < self.infection_targets(c.0, c.1).len() && self.infected(
                f,
                self.infection_targets(c.0, c.1)[k].0,
                self.infection_targets(c.0, c.1)[k].1,
            )
    }

    /// The boards `t` lead from this one to `f` by one infection attempt
    /// from each cell of `s` in turn.
    pub open spec fn infection_run(self, s: Seq<(int, int)>, t: Seq<Game>, f: Game) -> bool {
        &&& t.len() == s.len() + 1
        &&& t[0] == self
        &&& t[s.len() as int] == f
        &&& forall|k: int| 0 <= k < s.len() ==> #[trigger] t[k].infection_step(t[k + 1], s[k])
    }

    /// How many cells the move revealed as numbers.
    pub open spec fn newly_revealed_count(self, was_hidden: Seq<Vec<bool>>) -> nat {
        Set::new(|q: (int, int)| self.newly_revealed_at(was_hidden, q.0, q.1)).len()
    }

    /// `f` is this board with one mine put on the mine-free cell
    /// (`mx`, `my`), the mine counted, and one added to the count of every
    /// mine-free neighbour.
    pub open spec fn infected(self, f: Game, mx: int, my: int) -> bool {
        &&& f == (Game { grid: f.grid, mine_count: (self.mine_count + 1) as usize, ..self })
        &&& forall|i: int, j: int|
            #![trigger f.cell(i, j)]
            f.in_bounds(i, j) ==> f.cell(i, j) == if (i, j) == (mx, my) {
                Cell { mines: 1, ..self.cell(i, j) }
            } else if adjacent((mx, my), (i, j)) && self.cell(i, j).mines == 0 {
                Cell { adjacent_mines: (self.cell(i, j).adjacent_mines + 1) as i8, ..self.cell(i, j) }
            } else {
                self.cell(i, j)
            }
    }

    /// Which cells are hidden, as a grid of flags (taken before a move, so
    /// that Infection knows which cells the move revealed).
    pub fn hidden_map(&self) -> (m: Vec<Vec<bool>>)
        requires
            self.wf_shape(),
        ensures
            m@.len() == self.height,
            forall|j: int| 0 <= j < self.height ==> (#[trigger] m@[j])@.len() == self.width,
            forall|i: int, j: int|
                self.in_bounds(i, j) ==> m@[j]@[i] == (#[trigger] self.cell(i, j).state == CellState::Hidden),
    {
        let mut m: Vec<Vec<bool>> = Vec::new();
        for y in 0..self.height
            invariant
                self.wf_shape(),
                m@.len() == y,
                forall|j: int| 0 <= j < y ==> (#[trigger] m@[j])@.len() == self.width,
                forall|i: int, j: int|
                    0 <= i < self.width && 0 <= j < y ==> m@[j]@[i] == (#[trigger] self.cell(i, j).state == CellState::Hidden),
        {
            let mut row: Vec<bool> = Vec::new();
            for x in 0..self.width
                invariant
                    self.wf_shape(),
                    y < self.height,
                    row@.len() == x,
                    forall|i: int| 0 <= i < x ==> row@[i] == (#[trigger] self.cell(i, y as int).state == CellState::Hidden),
            {
                assert(self.grid@[y as int]@.len() == self.width);
                row.push(matches!(self.grid[y][x].state, CellState::Hidden));
            }
            m.push(row);
        }
        m
    }

    /// The hidden mine-free neighbours of (`x`, `y`), in scan order: where an
    /// infection from there may put a mine.
    pub fn infection_candidates(&self, x: usize, y: usize) -> (v: Vec<(usize, usize)>)
        requires
            self.wf_shape(),
            self.in_bounds(x as int, y as int),
        ensures
            forall|k: int|
                0 <= k < v@.len() ==> {
                    let q = (#[trigger] v@[k].0 as int, v@[k].1 as int);
                    &&& self.in_bounds(q.0, q.1)
                    &&& adjacent((x as int, y as int), q)
                    &&& self.cell(q.0, q.1).state == CellState::Hidden
                    &&& self.cell(q.0, q.1).mines == 0
                },
            forall|k: int|
                0 <= k < 8 && inside(self.width as int, self.height as int, #[trigger] nb((x as int, y as int), k))
                    && self.cell(nb((x as int, y as int), k).0, nb((x as int, y as int), k).1).state == CellState::Hidden
                    && self.cell(nb((x as int, y as int), k).0, nb((x as int, y as int), k).1).mines == 0 ==> ipos(
                    v@,
                ).contains(nb((x as int, y as int), k)),
            ipos(v@) == self.infection_targets(x as int, y as int),
    {
        let ghost p = (x as int, y as int);
        let mut v: Vec<(usize, usize)> = Vec::new();
        let mut k: usize = 0;
        while k < 8
            invariant
                0 <= k <= 8,
                self.wf_shape(),
                self.in_bounds(x as int, y as int),
                p == (x as int, y as int),
                forall|i: int|
                    0 <= i < v@.len() ==> {
                        let q = (#[trigger] v@[i].0 as int, v@[i].1 as int);
                        &&& self.in_bounds(q.0, q.1)
                        &&& adjacent(p, q)
                        &&& self.cell(q.0, q.1).state == CellState::Hidden
                        &&& self.cell(q.0, q.1).mines == 0
                    },
                forall|j: int|
                    0 <= j < k && inside(self.width as int, self.height as int, #[trigger] nb(p, j))
                        && self.cell(nb(p, j).0, nb(p, j).1).state == CellState::Hidden
                        && self.cell(nb(p, j).0, nb(p, j).1).mines == 0 ==> ipos(v@).contains(nb(p, j)),
                ipos(v@) == nbs_where(p, k as nat, self.infection_target()),
            decreases 8 - k,
        {
            assert(nbs_where(p, (k + 1) as nat, self.infection_target()) == if self.infection_target()(nb(p, k as int)) {
                nbs_where(p, k as nat, self.infection_target()).push(nb(p, k as int))
            } else {
                nbs_where(p, k as nat, self.infection_target())
            });
            proof {
                lemma_nb_adjacent(p, nb(p, k as int));
            }
            match self.neighbor(x, y, k) {
                Some((nx, ny)) => {
                    assert(self.grid@[ny as int]@.len() == self.width);
                    let c = self.grid[ny][nx];
                    if matches!(c.state, CellState::Hidden) && c.mines == 0 {
                        let ghost before = v@;
                        v.push((nx, ny));
                        proof {
                            assert(ipos(v@) =~= ipos(before).push(nb(p, k as int)));
                            assert(ipos(v@)[v@.len() - 1] == nb(p, k as int));
                            assert forall|j: int|
                                0 <= j < k && inside(self.width as int, self.height as int, #[trigger] nb(p, j))
                                    && self.cell(nb(p, j).0, nb(p, j).1).state == CellState::Hidden
                                    && self.cell(nb(p, j).0, nb(p, j).1).mines == 0 implies ipos(v@).contains(nb(p, j)) by {
                                assert(ipos(before).contains(nb(p, j)));
                                let i = choose|i: int| 0 <= i < ipos(before).len() && ipos(before)[i] == nb(p, j);
                                assert(ipos(v@)[i] == nb(p, j));
                            }
                        }
                    }
                },
                None => {},
            }
            k = k + 1;
        }
        v
    }

    /// Put one mine on the mine-free cell (`mx`, `my`), count it, and add one
    /// to the count of every mine-free neighbour.
    pub fn infect_at(&mut self, mx: usize, my: usize)
        requires
            old(self).wf(),
            old(self).in_bounds(mx as int, my as int),
            old(self).cell(mx as int, my as int).mines == 0,
            old(self).mine_count < 3 * MAX_CELLS,
            counts_below_max(*old(self)),
        ensures
            final(self).wf(),
            old(self).infected(*final(self), mx as int, my as int),
            grid_mines(final(self).cells()) == grid_mines(old(self).cells()) + 1,
            old(self).adjacency_consistent() && !old(self).cell(mx as int, my as int).is_negative
                ==> final(self).adjacency_consistent(),
    {
        let ghost g0 = *self;
        let ghost m = (mx as int, my as int);
        let neg = self.grid[my][mx].is_negative;
        assert(self.grid@[my as int]@.len() == self.width);
        self.set_mine(mx, my, 1, neg);
        let mc = self.mine_count + 1;
        self.set_mine_count(mc);
        let ghost g1 = *self;
        let mut k: usize = 0;
        while k < 8
            invariant
                0 <= k <= 8,
                self.wf_shape(),
                m == (mx as int, my as int),
                g1.in_bounds(mx as int, my as int),
                *self == (Game { grid: self.grid, ..g1 }),
                grid_units(self.cells()) == grid_units(g1.cells()),
                grid_mines(self.cells()) == grid_mines(g1.cells()),
                forall|i: int, j: int|
                    #![trigger self.cell(i, j)]
                    self.in_bounds(i, j) ==> self.cell(i, j) == if among_first(m, (i, j), k as int) && g1.cell(i, j).mines == 0 {
                        Cell { adjacent_mines: (g1.cell(i, j).adjacent_mines + 1) as i8, ..g1.cell(i, j) }
                    } else {
                        g1.cell(i, j)
                    },
                forall|i: int, j: int| g1.in_bounds(i, j) && (#[trigger] g1.cell(i, j)).mines == 0 ==> g1.cell(i, j).adjacent_mines < 127,
            decreases 8 - k,
        {
            match self.neighbor(mx, my, k) {
                Some((nx, ny)) => {
                    assert(self.grid@[ny as int]@.len() == self.width);
                    let c = self.grid[ny][nx];
                    let ghost q = (nx as int, ny as int);
                    proof {
                        assert(nb(m, k as int) == q);
                        if among_first(m, q, k as int) {
                            let j = choose|j: int| 0 <= j < k && #[trigger] nb(m, j) == q;
                            assert(nb(m, j) == nb(m, k as int));
                            assert(false);
                        }
                    }
                    assert(c == self.cell(q.0, q.1));
                    assert(self.cell(q.0, q.1) == g1.cell(q.0, q.1));
                    assert(g1.in_bounds(q.0, q.1));
                    if c.mines == 0 {
                        let v = c.adjacent_mines + 1;
                        self.set_adjacent(nx, ny, v);
                    }
                    proof {
                        assert forall|i: int, j: int| #![trigger self.cell(i, j)] self.in_bounds(i, j) implies (among_first(m, (i, j), k + 1)
                            <==> among_first(m, (i, j), k as int) || (i, j) == q) by {
                            if among_first(m, (i, j), k + 1) {
                                let jj = choose|jj: int| 0 <= jj < k + 1 && #[trigger] nb(m, jj) == (i, j);
                                if jj < k {
                                    assert(among_first(m, (i, j), k as int));
                                }
                            }
                            if among_first(m, (i, j), k as int) {
                                let jj = choose|jj: int| 0 <= jj < k && #[trigger] nb(m, jj) == (i, j);
                                assert(among_first(m, (i, j), k + 1));
                            }
                            if (i, j) == q {
                                assert(nb(m, k as int) == (i, j));
                                assert(among_first(m, (i, j), k + 1));
                            }
                        }
                    }
                },
                None => {
                    proof {
                        assert forall|i: int, j: int| #![trigger self.cell(i, j)] self.in_bounds(i, j) implies (among_first(m, (i, j), k + 1)
                            <==> among_first(m, (i, j), k as int)) by {
                            if among_first(m, (i, j), k + 1) {
                                let jj = choose|jj: int| 0 <= jj < k + 1 && #[trigger] nb(m, jj) == (i, j);
                                if jj < k {
                                    assert(among_first(m, (i, j), k as int));
                                } else {
                                    assert(!inside(self.width as int, self.height as int, nb(m, k as int)));
                                }
                            }
                            if among_first(m, (i, j), k as int) {
                                let jj = choose|jj: int| 0 <= jj < k && #[trigger] nb(m, jj) == (i, j);
                                assert(among_first(m, (i, j), k + 1));
                            }
                        }
                    }
                },
            }
            k = k + 1;
        }
        proof {
            assert forall|i: int, j: int| #![trigger self.cell(i, j)] self.in_bounds(i, j) implies (among_first(m, (i, j), 8)
                <==> adjacent(m, (i, j))) by {
                lemma_nb_adjacent(m, (i, j));
            }
            assert(self.counter_ok());
            if g0.adjacency_consistent() && !g0.cell(mx as int, my as int).is_negative {
                assert forall|a: int, b: int| (a, b) != m implies #[trigger] self.weight_at(a, b) == g0.weight_at(a, b) by {
                    if self.in_bounds(a, b) {
                        assert(self.cell(a, b).mines == g0.cell(a, b).mines);
                    }
                }
                assert(self.weight_at(mx as int, my as int) == 1);
                assert(g0.weight_at(mx as int, my as int) == 0);
                assert forall|x: int, y: int| self.in_bounds(x, y) && #[trigger] self.cell(x, y).mines == 0 implies self.cell(
                    x,
                    y,
                ).adjacent_mines == self.adj_count(x, y) by {
                    assert((x, y) != m);
                    assert(g0.cell(x, y).mines == 0);
                    if adjacent(m, (x, y)) {
                        assert(adjacent((x, y), m));
                    }
                }
            }
        }
    }

    /// The infection from the numbered cell (`x`, `y`) once its roll has come
    /// up: a new mine appears on the `pick`-th infection target around it in
    /// scan order. Nothing happens when the cell shows no positive count or
    /// has fewer targets. Returns whether a mine appeared.
    pub fn infect_with(&mut self, x: usize, y: usize, pick: usize) -> (r: bool)
        requires
            old(self).wf(),
            old(self).in_bounds(x as int, y as int),
            old(self).mine_count < 3 * MAX_CELLS,
            counts_below_max(*old(self)),
        ensures
            final(self).wf(),
            r <==> old(self).cell(x as int, y as int).adjacent_mines > 0 && pick < old(self).infection_targets(
                x as int,
                y as int,
            ).len(),
            !r ==> *final(self) == *old(self),
            r ==> old(self).infected(
                *final(self),
                old(self).infection_targets(x as int, y as int)[pick as int].0,
                old(self).infection_targets(x as int, y as int)[pick as int].1,
            ),
            r ==> final(self).mine_count == old(self).mine_count + 1 && grid_mines(final(self).cells())
                == grid_mines(old(self).cells()) + 1,
            *final(self) == (Game { grid: final(self).grid, mine_count: final(self).mine_count, ..*old(self) }),
            old(self).adjacency_consistent() && no_negatives(*old(self)) ==> final(self).adjacency_consistent(),
    {
        assert(self.grid@[y as int]@.len() == self.width);
        if self.grid[y][x].adjacent_mines <= 0 {
            return false;
        }
        let candidates = self.infection_candidates(x, y);
        if pick >= candidates.len() {
            return false;
        }
        let (mx, my) = candidates[pick];
        assert((mx as int, my as int) == ipos(candidates@)[pick as int]);
        self.infect_at(mx, my);
        true
    }

    /// After revealing a numbered cell (`x`, `y`): with a chance of one in
    /// five, a new mine appears on a random hidden mine-free neighbour.
    /// Returns whether one did.
    pub fn try_infect(&mut self, x: usize, y: usize) -> (r: bool)
        requires
            old(self).wf(),
            old(self).in_bounds(x as int, y as int),
            old(self).mine_count < 3 * MAX_CELLS,
            counts_below_max(*old(self)),
        ensures
            final(self).wf(),
            !r ==> *final(self) == *old(self),
            r ==> old(self).cell(x as int, y as int).adjacent_mines > 0,
            r ==> exists|mx: int, my: int|
                #![trigger old(self).infected(*final(self), mx, my)]
                old(self).in_bounds(mx, my) && adjacent((x as int, y as int), (mx, my)) && old(self).cell(
                    mx,
                    my,
                ).state == CellState::Hidden && old(self).cell(mx, my).mines == 0 && old(self).infected(
                    *final(self),
                    mx,
                    my,
                ),
            r ==> exists|k: int|
                #![trigger old(self).infection_targets(x as int, y as int)[k]]
                0 <= k < old(self).infection_targets(x as int, y as int).len() && old(self).infected(
                    *final(self),
                    old(self).infection_targets(x as int, y as int)[k].0,
                    old(self).infection_targets(x as int, y as int)[k].1,
                ),
            r ==> final(self).mine_count == old(self).mine_count + 1 && grid_mines(final(self).cells())
                == grid_mines(old(self).cells()) + 1,
            *final(self) == (Game { grid: final(self).grid, mine_count: final(self).mine_count, ..*old(self) }),
            old(self).adjacency_consistent() && no_negatives(*old(self)) ==> final(self).adjacency_consistent(),
    {
        assert(self.grid@[y as int]@.len() == self.width);
        if self.grid[y][x].adjacent_mines <= 0 {
            return false;
        }
        if !random_chance(1, 5) {
            return false;
        }
        let n = self.infection_candidates(x, y).len();
        if n == 0 {
            return false;
        }
        let pick = random_below(n);
        let r = self.infect_with(x, y, pick);
        proof {
            if r {
                let t = old(self).infection_targets(x as int, y as int);
                lemma_nbs_where((x as int, y as int), 8, old(self).infection_target());
                assert(old(self).infection_target()(t[pick as int]));
                lemma_nb_adjacent((x as int, y as int), t[pick as int]);
            }
        }
        r
    }

    /// The cells that were hidden before the move (`was_hidden`) and now are
    /// revealed numbers, in row-major order.
    fn newly_revealed(&self, was_hidden: &Vec<Vec<bool>>) -> (v: Vec<(usize, usize)>)
        requires
            self.wf_shape(),
            was_hidden@.len() == self.height,
            forall|j: int| 0 <= j < self.height ==> (#[trigger] was_hidden@[j])@.len() == self.width,
        ensures
            v@.len() <= self.width * self.height,
            forall|k: int|
                0 <= k < v@.len() ==> self.newly_revealed_at(was_hidden@, (#[trigger] v@[k]).0 as int, v@[k].1 as int),
            forall|i: int, j: int| #[trigger] self.newly_revealed_at(was_hidden@, i, j) ==> ipos(v@).contains((i, j)),
            forall|k1: int, k2: int|
                0 <= k1 < k2 < v@.len() ==> row_major_before(#[trigger] ipos(v@)[k1], #[trigger] ipos(v@)[k2]),
    {
        let mut v: Vec<(usize, usize)> = Vec::new();
        let mut y: usize = 0;
        while y < self.height
            invariant
                self.wf_shape(),
                was_hidden@.len() == self.height,
                forall|j: int| 0 <= j < self.height ==> (#[trigger] was_hidden@[j])@.len() == self.width,
                y <= self.height,
                v@.len() <= y * self.width,
                forall|k: int|
                    0 <= k < v@.len() ==> self.newly_revealed_at(was_hidden@, (#[trigger] v@[k]).0 as int, v@[k].1 as int),
                forall|k: int| 0 <= k < v@.len() ==> (#[trigger] ipos(v@)[k]).1 < y,
                forall|i: int, j: int| #[trigger] self.newly_revealed_at(was_hidden@, i, j) && j < y ==> ipos(v@).contains((i, j)),
                forall|k1: int, k2: int|
                    0 <= k1 < k2 < v@.len() ==> row_major_before(#[trigger] ipos(v@)[k1], #[trigger] ipos(v@)[k2]),
            decreases self.height - y,
        {
            let mut x: usize = 0;
            while x < self.width
                invariant
                    self.wf_shape(),
                    was_hidden@.len() == self.height,
                    forall|j: int| 0 <= j < self.height ==> (#[trigger] was_hidden@[j])@.len() == self.width,
                    y < self.height,
                    x <= self.width,
                    v@.len() <= y * self.width + x,
                    forall|k: int|
                        0 <= k < v@.len() ==> self.newly_revealed_at(was_hidden@, (#[trigger] v@[k]).0 as int, v@[k].1 as int),
                    forall|k: int| 0 <= k < v@.len() ==> row_major_before(#[trigger] ipos(v@)[k], (x as int, y as int)),
                    forall|i: int, j: int|
                        #[trigger] self.newly_revealed_at(was_hidden@, i, j) && row_major_before((i, j), (x as int, y as int))
                            ==> ipos(v@).contains((i, j)),
                    forall|k1: int, k2: int|
                        0 <= k1 < k2 < v@.len() ==> row_major_before(#[trigger] ipos(v@)[k1], #[trigger] ipos(v@)[k2]),
                decreases self.width - x,
            {
                assert(self.grid@[y as int]@.len() == self.width);
                assert(was_hidden@[y as int]@.len() == self.width);
                let c = self.grid[y][x];
                if was_hidden[y][x] && matches!(c.state, CellState::Revealed) && c.adjacent_mines > 0 {
                    let ghost before = v@;
                    v.push((x, y));
                    proof {
                        assert(ipos(v@) =~= ipos(before).push((x as int, y as int)));
                        assert forall|i: int, j: int|
                            #[trigger] self.newly_revealed_at(was_hidden@, i, j) && row_major_before((i, j), (x + 1, y as int))
                                implies ipos(v@).contains((i, j)) by {
                            if row_major_before((i, j), (x as int, y as int)) {
                                assert(ipos(before).contains((i, j)));
                                let t = choose|t: int| 0 <= t < ipos(before).len() && ipos(before)[t] == (i, j);
                                assert(ipos(v@)[t] == (i, j));
                            } else {
                                assert(ipos(v@)[v@.len() - 1] == (i, j));
                            }
                        }
                    }
                } else {
                    proof {
                        assert forall|i: int, j: int|
                            #[trigger] self.newly_revealed_at(was_hidden@, i, j) && row_major_before((i, j), (x + 1, y as int))
                                implies ipos(v@).contains((i, j)) by {
                            if !row_major_before((i, j), (x as int, y as int)) {
                                assert((i, j) == (x as int, y as int));
                            }
                        }
                    }
                }
                x = x + 1;
            }
            assert((y + 1) * self.width == y * self.width + self.width) by (nonlinear_arith);
            y = y + 1;
        }
        assert(self.height * self.width == self.width * self.height) by (nonlinear_arith);
        v
    }

    /// After a move: every cell that the move revealed as a number (it was
    /// hidden in `was_hidden`) tries to infect a neighbour, in row-major
    /// order, while the game is live.
    pub fn infect_after_reveal(&mut self, was_hidden: &Vec<Vec<bool>>)
        requires
            old(self).wf(),
            old(self).adjacency_consistent(),
            no_negatives(*old(self)),
            old(self).mine_count + old(self).width * old(self).height < 3 * MAX_CELLS,
            was_hidden@.len() == old(self).height,
            forall|j: int| 0 <= j < old(self).height ==> (#[trigger] was_hidden@[j])@.len() == old(self).width,
        ensures
            final(self).wf(),
            final(self).adjacency_consistent(),
            no_negatives(*final(self)),
            *final(self) == (Game { grid: final(self).grid, mine_count: final(self).mine_count, ..*old(self) }),
            final(self).mine_count - old(self).mine_count == grid_mines(final(self).cells()) - grid_mines(
                old(self).cells(),
            ),
            forall|i: int, j: int|
                #![trigger final(self).cell(i, j)]
                final(self).in_bounds(i, j) ==> final(self).cell(i, j).state == old(self).cell(i, j).state && (
                final(self).cell(i, j).mines == old(self).cell(i, j).mines || (old(self).cell(i, j).mines == 0
                    && old(self).cell(i, j).state == CellState::Hidden && final(self).cell(i, j).mines == 1)),
            forall|i: int, j: int|
                final(self).in_bounds(i, j) && #[trigger] final(self).cell(i, j).mines != old(self).cell(i, j).mines
                    ==> exists|c: int, d: int|
                    #[trigger] old(self).newly_revealed_at(was_hidden@, c, d) && adjacent((c, d), (i, j)),
            final(self).mine_count <= old(self).mine_count + old(self).newly_revealed_count(was_hidden@),
            old(self).state != GameState::Playing ==> *final(self) == *old(self),
            old(self).state == GameState::Playing ==> exists|s: Seq<(int, int)>, t: Seq<Game>|
                #[trigger] old(self).lists_newly_revealed(was_hidden@, s) && #[trigger] old(self).infection_run(
                    s,
                    t,
                    *final(self),
                ),
    {
        let ghost g0 = *self;
        // Infecting never ends the game, so one look at the state suffices.
        if !matches!(self.state, GameState::Playing) {
            return;
        }
        let seeds = self.newly_revealed(was_hidden);
        proof {
            let s = ipos(seeds@);
            assert(s.no_duplicates()) by {
                assert forall|k1: int, k2: int| 0 <= k1 < s.len() && 0 <= k2 < s.len() && k1 != k2 implies s[k1] != s[k2] by {
                    if k1 < k2 {
                        assert(row_major_before(s[k1], s[k2]));
                    } else {
                        assert(row_major_before(s[k2], s[k1]));
                    }
                }
            }
            s.unique_seq_to_set();
            assert(s.to_set() =~= Set::new(|q: (int, int)| g0.newly_revealed_at(was_hidden@, q.0, q.1))) by {
                assert forall|q: (int, int)| s.to_set().contains(q) implies g0.newly_revealed_at(was_hidden@, q.0, q.1) by {
                    let k = choose|k: int| 0 <= k < s.len() && s[k] == q;
                    assert(g0.newly_revealed_at(was_hidden@, seeds@[k].0 as int, seeds@[k].1 as int));
                }
                assert forall|q: (int, int)| g0.newly_revealed_at(was_hidden@, q.0, q.1) implies s.to_set().contains(q) by {
                    assert(s.contains((q.0, q.1)));
                }
            }
        }
        let n = seeds.len();
        let ghost sq = ipos(seeds@);
        let ghost mut trace: Seq<Game> = seq![*self];
        for i in 0..n
            invariant
                g0.state == GameState::Playing,
                sq == ipos(seeds@),
                trace.len() == i + 1,
                trace[0] == g0,
                trace[i as int] == *self,
                forall|k: int| 0 <= k < i ==> #[trigger] trace[k].infection_step(trace[k + 1], sq[k]),
                n == seeds@.len(),
                n <= g0.width * g0.height,
                g0.mine_count + g0.width * g0.height < 3 * MAX_CELLS,
                self.wf(),
                self.adjacency_consistent(),
                no_negatives(*self),
                *self == (Game { grid: self.grid, mine_count: self.mine_count, ..g0 }),
                self.mine_count <= g0.mine_count + i,
                self.mine_count - g0.mine_count == grid_mines(self.cells()) - grid_mines(g0.cells()),
                forall|a: int, b: int|
                    #![trigger self.cell(a, b)]
                    self.in_bounds(a, b) ==> self.cell(a, b).state == g0.cell(a, b).state && (self.cell(a, b).mines
                        == g0.cell(a, b).mines || (g0.cell(a, b).mines == 0 && g0.cell(a, b).state == CellState::Hidden
                        && self.cell(a, b).mines == 1)),
                forall|k: int| 0 <= k < n ==> g0.newly_revealed_at(was_hidden@, (#[trigger] seeds@[k]).0 as int, seeds@[k].1 as int),
                forall|a: int, b: int|
                    self.in_bounds(a, b) && #[trigger] self.cell(a, b).mines != g0.cell(a, b).mines ==> exists|c: int, d: int|
                        #[trigger] g0.newly_revealed_at(was_hidden@, c, d) && adjacent((c, d), (a, b)),
        {
            let (cx, cy) = seeds[i];
            proof {
                assert forall|a: int, b: int| self.in_bounds(a, b) && (#[trigger] self.cell(a, b)).mines == 0 implies self.cell(a, b).adjacent_mines < 127 by {
                    assert(-3 <= self.weight_at(a - 1, b - 1) <= 3);
                    assert(-3 <= self.weight_at(a, b - 1) <= 3);
                    assert(-3 <= self.weight_at(a + 1, b - 1) <= 3);
                    assert(-3 <= self.weight_at(a - 1, b) <= 3);
                    assert(-3 <= self.weight_at(a + 1, b) <= 3);
                    assert(-3 <= self.weight_at(a - 1, b + 1) <= 3);
                    assert(-3 <= self.weight_at(a, b + 1) <= 3);
                    assert(-3 <= self.weight_at(a + 1, b + 1) <= 3);
                }
            }
            let ghost before = *self;
            let r = self.try_infect(cx, cy);
            proof {
                assert(sq[i as int] == (cx as int, cy as int));
                assert(before.infection_step(*self, (cx as int, cy as int)));
                let ghost old_trace = trace;
                trace = trace.push(*self);
                assert forall|k: int| 0 <= k < i + 1 implies #[trigger] trace[k].infection_step(trace[k + 1], sq[k]) by {
                    if k < i {
                        assert(trace[k] == old_trace[k]);
                        assert(trace[k + 1] == old_trace[k + 1]);
                    }
                }
                if r {
                    let (mx, my) = choose|mx: int, my: int|
                        #![trigger before.infected(*self, mx, my)]
                        before.in_bounds(mx, my) && adjacent((cx as int, cy as int), (mx, my)) && before.cell(
                            mx,
                            my,
                        ).state == CellState::Hidden && before.cell(mx, my).mines == 0 && before.infected(*self, mx, my);
                    assert forall|a: int, b: int| #![trigger self.cell(a, b)] self.in_bounds(a, b) implies self.cell(a, b).state == g0.cell(a, b).state && (self.cell(a, b).mines
                        == g0.cell(a, b).mines || (g0.cell(a, b).mines == 0 && g0.cell(a, b).state == CellState::Hidden
                        && self.cell(a, b).mines == 1)) && !self.cell(a, b).is_negative by {
                        assert(before.cell(a, b).state == g0.cell(a, b).state);
                        assert(!before.cell(a, b).is_negative);
                    }
                    assert(g0.newly_revealed_at(was_hidden@, cx as int, cy as int));
                    assert forall|a: int, b: int|
                        self.in_bounds(a, b) && #[trigger] self.cell(a, b).mines != g0.cell(a, b).mines implies exists|c: int, d: int|
                        #[trigger] g0.newly_revealed_at(was_hidden@, c, d) && adjacent((c, d), (a, b)) by {
                        if (a, b) == (mx, my) {
                            assert(g0.newly_revealed_at(was_hidden@, cx as int, cy as int) && adjacent((cx as int, cy as int), (a, b)));
                        } else {
                            assert(self.cell(a, b).mines == before.cell(a, b).mines);
                        }
                    }
                }
            }
        }
        proof {
            assert(g0.lists_newly_revealed(was_hidden@, sq));
            assert(g0.infection_run(sq, trace, *self));
        }
    }
}

} // verus!
