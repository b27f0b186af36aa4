use vstd::prelude::*;
use crate::cascade::{inside, adjacent, nb, nbs_where};
use crate::game::{Game, CellState, GameState, grid_mines, grid_units, ipos, in_pool};
use crate::random::{random_below, shuffle_positions};
use crate::game::lemma_shuffled;

verus! {

/// A cell a mine could drift onto: on the board, mine-free at the start
/// and not revealed.
pub open spec fn open_spot(g: Game, q: (int, int)) -> bool {
    g.in_bounds(q.0, q.1) && g.cell(q.0, q.1).mines == 0 && g.cell(q.0, q.1).state != CellState::Revealed
}

/// When a listed neighbour passes the test, the list is not empty.
pub proof fn lemma_nbs_where_nonempty(p: (int, int), k: nat, ok: spec_fn((int, int)) -> bool, t: int)
    requires
        0 <= t < k,
        ok(nb(p, t)),
    ensures
        nbs_where(p, k, ok).len() > 0,
    decreases k,
{
    if t < k - 1 {
        lemma_nbs_where_nonempty(p, (k - 1) as nat, ok, t);
    }
}

/// Whether a mine may drift from `o` to `d` on board `g`: it stays, or it
/// moves to a neighbouring cell that held no mine and is not revealed.
pub open spec fn drift_ok(g: Game, o: (int, int), d: (int, int)) -> bool {
    d == o || (g.in_bounds(d.0, d.1) && adjacent(o, d) && g.cell(d.0, d.1).mines == 0 && g.cell(
        d.0,
        d.1,
    ).state != CellState::Revealed)
}

impl Game {
    /// What a drift did: the mine on each cell `from[k]` (every mined cell,
    /// once) went to `to[k]` (all distinct, each allowed by `drift_ok`),
    /// keeping its size and sign; a mine stayed only when no neighbouring
    /// open spot was left by the mines before it; every other cell is
    /// mine-free, and loses its sign if it held a mine; cell states are
    /// unchanged.
    pub open spec fn drifted(self, f: Game, from: Seq<(int, int)>, to: Seq<(int, int)>) -> bool {
        &&& from.len() == to.len()
        &&& from.no_duplicates()
        &&& to.no_duplicates()
        &&& forall|i: int, j: int|
            #![trigger self.cell(i, j)]
            self.in_bounds(i, j) ==> (from.contains((i, j)) <==> self.cell(i, j).mines > 0)
        &&& forall|k: int|
            0 <= k < from.len() ==> self.in_bounds(#[trigger] from[k].0, from[k].1) && drift_ok(
                self,
                from[k],
                to[k],
            )
        &&& forall|k: int|
            0 <= k < to.len() ==> f.cell(#[trigger] to[k].0, to[k].1).mines == self.cell(
                from[k].0,
                from[k].1,
            ).mines && f.cell(to[k].0, to[k].1).is_negative == self.cell(from[k].0, from[k].1).is_negative
        &&& forall|k: int, t: int|
            0 <= k < to.len() && #[trigger] to[k] == from[k] && 0 <= t < 8 && open_spot(self, #[trigger] nb(from[k], t))
                ==> to.take(k).contains(nb(from[k], t))
        &&& forall|i: int, j: int|
            #![trigger f.cell(i, j)]
            self.in_bounds(i, j) ==> f.cell(i, j).state == self.cell(i, j).state && (to.contains((i, j))
                || (f.cell(i, j).mines == 0 && f.cell(i, j).is_negative == (self.cell(i, j).mines == 0
                && self.cell(i, j).is_negative)))
    }

    /// Where a mine may drift to: a cell on the board that held no mine at the
    /// start of the drift (`had`), is not revealed and holds no mine now.
    pub open spec fn drift_free(self, had: Seq<Vec<bool>>) -> spec_fn((int, int)) -> bool {
        |q: (int, int)|
            self.in_bounds(q.0, q.1) && !had[q.1]@[q.0] && self.cell(q.0, q.1).state != CellState::Revealed && self.cell(
                q.0,
                q.1,
            ).mines == 0
    }

    /// Which cells hold a mine, as a grid of flags.
    fn mine_map(&self) -> (had: Vec<Vec<bool>>)
        requires
            self.wf_shape(),
        ensures
            had@.len() == self.height,
            forall|j: int| 0 <= j < self.height ==> (#[trigger] had@[j])@.len() == self.width,
            forall|i: int, j: int|
                self.in_bounds(i, j) ==> had@[j]@[i] == (#[trigger] self.cell(i, j).mines > 0),
    {
        let mut had: Vec<Vec<bool>> = Vec::new();
        for y in 0..self.height
            invariant
                self.wf_shape(),
                had@.len() == y,
                forall|j: int| 0 <= j < y ==> (#[trigger] had@[j])@.len() == self.width,
                forall|i: int, j: int|
                    0 <= i < self.width && 0 <= j < y ==> had@[j]@[i] == (#[trigger] self.cell(i, j).mines > 0),
        {
            let mut row: Vec<bool> = Vec::new();
            for x in 0..self.width
                invariant
                    self.wf_shape(),
                    y < self.height,
                    row@.len() == x,
                    forall|i: int| 0 <= i < x ==> row@[i] == (#[trigger] self.cell(i, y as int).mines > 0),
            {
                assert(self.grid@[y as int]@.len() == self.width);
                row.push(self.grid[y][x].mines > 0);
            }
            had.push(row);
        }
        had
    }

    /// The cells that hold a mine, in row-major order.
    fn mined_positions(&self) -> (v: Vec<(usize, usize)>)
        requires
            self.wf_shape(),
        ensures
            v@.no_duplicates(),
            forall|k: int| 0 <= k < v@.len() ==> self.in_bounds(#[trigger] v@[k].0 as int, v@[k].1 as int),
            forall|q: (usize, usize)| #[trigger] v@.contains(q) <==> self.in_bounds(q.0 as int, q.1 as int)
                && self.cell(q.0 as int, q.1 as int).mines > 0,
    {
        let all = self.pool(0, 0, 2);
        let ghost w = self.width as int;
        let ghost h = self.height as int;
        let mut v: Vec<(usize, usize)> = Vec::new();
        for i in 0..all.len()
            invariant
                self.wf_shape(),
                w == self.width,
                h == self.height,
                all@.no_duplicates(),
                forall|k: int| 0 <= k < all@.len() ==> inside(w, h, (#[trigger] all@[k].0 as int, all@[k].1 as int)),
                forall|q: (usize, usize)| #![trigger all@.contains(q)] all@.contains(q) <==> in_pool(w, h, 0, 0, 2, (q.0 as int, q.1 as int)),
                v@.no_duplicates(),
                forall|q: (usize, usize)| #![trigger v@.contains(q)] v@.contains(q) <==> (exists|k: int| 0 <= k < i && all@[k] == q) && self.cell(q.0 as int, q.1 as int).mines > 0,
        {
            let (x, y) = all[i];
            assert(inside(w, h, (all@[i as int].0 as int, all@[i as int].1 as int)));
            assert(self.grid@[y as int]@.len() == self.width);
            if self.grid[y][x].mines > 0 {
                proof {
                    if v@.contains((x, y)) {
                        let k = choose|k: int| 0 <= k < i && all@[k] == (x, y);
                        assert(all@[k] == all@[i as int]);
                    }
                }
                let ghost old_v = v@;
                v.push((x, y));
                proof {
                    assert forall|q: (usize, usize)| #![trigger v@.contains(q)] v@.contains(q) <==> (exists|k: int| 0 <= k < i + 1 && all@[k] == q) && self.cell(q.0 as int, q.1 as int).mines > 0 by {
                        if v@.contains(q) {
                            let j = choose|j: int| 0 <= j < v@.len() && v@[j] == q;
                            if j < old_v.len() {
                                assert(old_v[j] == q);
                                assert(old_v.contains(q));
                                let k = choose|k: int| 0 <= k < i && all@[k] == q;
                                assert(0 <= k < i + 1 && all@[k] == q);
                            } else {
                                assert(all@[i as int] == q);
                            }
                        }
                        if (exists|k: int| 0 <= k < i + 1 && all@[k] == q) && self.cell(q.0 as int, q.1 as int).mines > 0 {
                            let k = choose|k: int| 0 <= k < i + 1 && all@[k] == q;
                            if k < i {
                                assert(old_v.contains(q));
                                let j = choose|j: int| 0 <= j < old_v.len() && old_v[j] == q;
                                assert(v@[j] == q);
                            } else {
                                assert(v@[v@.len() - 1] == q);
                            }
                        }
                    }
                }
            } else {
                proof {
                    assert forall|q: (usize, usize)| #![trigger v@.contains(q)] v@.contains(q) <==> (exists|k: int| 0 <= k < i + 1 && all@[k] == q) && self.cell(q.0 as int, q.1 as int).mines > 0 by {
                        if (exists|k: int| 0 <= k < i + 1 && all@[k] == q) && self.cell(q.0 as int, q.1 as int).mines > 0 {
                            let k = choose|k: int| 0 <= k < i + 1 && all@[k] == q;
                            if k == i {
                                assert(self.cell(x as int, y as int).mines == 0);
                            }
                            assert(exists|k: int| 0 <= k < i && all@[k] == q);
                        }
                    }
                }
            }
        }
        proof {
            assert forall|q: (usize, usize)| #[trigger] v@.contains(q) <==> self.in_bounds(q.0 as int, q.1 as int)
                && self.cell(q.0 as int, q.1 as int).mines > 0 by {
                if v@.contains(q) {
                    let k = choose|k: int| 0 <= k < all@.len() && all@[k] == q;
                    assert(all@.contains(q));
                }
                if self.in_bounds(q.0 as int, q.1 as int) && self.cell(q.0 as int, q.1 as int).mines > 0 {
                    assert(all@.contains(q));
                    let k = choose|k: int| 0 <= k < all@.len() && all@[k] == q;
                }
            }
            assert forall|k: int| 0 <= k < v@.len() implies self.in_bounds(#[trigger] v@[k].0 as int, v@[k].1 as int) by {
                assert(v@.contains(v@[k]));
            }
        }
        v
    }

    /// The free neighbours of (`x`, `y`) in scan order: on the board, mine-free
    /// at the start of the drift (`had`), not revealed and not yet taken.
    fn drift_targets(&self, had: &Vec<Vec<bool>>, x: usize, y: usize) -> (t: Vec<(usize, usize)>)
        requires
            self.wf_shape(),
            x < self.width,
            y < self.height,
            had@.len() == self.height,
            forall|j: int| 0 <= j < self.height ==> (#[trigger] had@[j])@.len() == self.width,
        ensures
            forall|k: int|
                0 <= k < t@.len() ==> {
                    let q = (#[trigger] t@[k].0 as int, t@[k].1 as int);
                    &&& self.in_bounds(q.0, q.1)
                    &&& adjacent((x as int, y as int), q)
                    &&& !had@[q.1]@[q.0]
                    &&& self.cell(q.0, q.1).state != CellState::Revealed
                    &&& self.cell(q.0, q.1).mines == 0
                },
            ipos(t@) == nbs_where((x as int, y as int), 8, self.drift_free(had@)),
    {
        let ghost p = (x as int, y as int);
        let mut t: Vec<(usize, usize)> = Vec::new();
        for k in 0..8usize
            invariant
                self.wf_shape(),
                x < self.width,
                y < self.height,
                had@.len() == self.height,
                forall|j: int| 0 <= j < self.height ==> (#[trigger] had@[j])@.len() == self.width,
                forall|i: int|
                    0 <= i < t@.len() ==> {
                        let q = (#[trigger] t@[i].0 as int, t@[i].1 as int);
                        &&& self.in_bounds(q.0, q.1)
                        &&& adjacent((x as int, y as int), q)
                        &&& !had@[q.1]@[q.0]
                        &&& self.cell(q.0, q.1).state != CellState::Revealed
                        &&& self.cell(q.0, q.1).mines == 0
                    },
                p == (x as int, y as int),
                ipos(t@) == nbs_where(p, k as nat, self.drift_free(had@)),
        {
            assert(nbs_where(p, (k + 1) as nat, self.drift_free(had@)) == if self.drift_free(had@)(nb(p, k as int)) {
                nbs_where(p, k as nat, self.drift_free(had@)).push(nb(p, k as int))
            } else {
                nbs_where(p, k as nat, self.drift_free(had@))
            });
            match self.neighbor(x, y, k) {
                Some((nx, ny)) => {
                    assert(had@[ny as int]@.len() == self.width);
                    assert(self.grid@[ny as int]@.len() == self.width);
                    let c = self.grid[ny][nx];
                    if !had[ny][nx] && !matches!(c.state, CellState::Revealed) && c.mines == 0 {
                        let ghost before = t@;
                        t.push((nx, ny));
                        assert(ipos(t@) =~= ipos(before).push(nb(p, k as int)));
                    }
                },
                None => {},
            }
        }
        t
    }

    /// Every mine slides to a random free neighbouring cell (one that held no
    /// mine, is not revealed and is not taken by a mine that moved before it,
    /// the mines taken in random order), or stays where it is if it has none;
    /// then every cell is recounted. The mine total is kept.
    #[verifier::rlimit(50)]
    pub fn drift_mines(&mut self)
        requires
            old(self).wf(),
        ensures
            final(self).wf(),
            final(self).same_fields(*old(self)),
            grid_mines(final(self).cells()) == grid_mines(old(self).cells()),
            final(self).adjacency_consistent(),
            exists|from: Seq<(int, int)>, to: Seq<(int, int)>| #[trigger] old(self).drifted(*final(self), from, to),
    {
        let ghost g0 = *self;
        let ghost w = self.width as int;
        let ghost h = self.height as int;
        let had = self.mine_map();
        let mut mines = self.mined_positions();
        let ghost before = mines@;
        shuffle_positions(&mut mines);
        proof {
            lemma_shuffled(before, mines@);
            assert forall|k: int| 0 <= k < mines@.len() implies g0.in_bounds(#[trigger] mines@[k].0 as int, mines@[k].1 as int)
                && g0.cell(mines@[k].0 as int, mines@[k].1 as int).mines > 0 by {
                assert(mines@.contains(mines@[k]));
                assert(before.contains(mines@[k]));
            }
        }
        let ghost from = ipos(mines@);
        let ghost mut to: Seq<(int, int)> = Seq::empty();
        let n = mines.len();
        proof {
            assert(from.subrange(0, n as int) =~= from);
            assert forall|i: int, j: int| #![trigger self.cell(i, j)] g0.in_bounds(i, j) && g0.cell(i, j).mines > 0 implies from.subrange(0, n as int).contains((i, j)) by {
                let q = (i as usize, j as usize);
                assert(before.contains(q));
                assert(mines@.contains(q));
                let kk = choose|kk: int| 0 <= kk < mines@.len() && mines@[kk] == q;
                assert(from[kk] == (i, j));
            }
        }
        for k in 0..n
            invariant
                n == mines@.len(),
                from == ipos(mines@),
                self.wf_shape(),
                self.same_fields(g0),
                w == self.width,
                h == self.height,
                grid_units(self.cells()) == grid_units(g0.cells()),
                grid_mines(self.cells()) == grid_mines(g0.cells()),
                had@.len() == h,
                forall|j: int| 0 <= j < h ==> (#[trigger] had@[j])@.len() == w,
                forall|i: int, j: int| g0.in_bounds(i, j) ==> had@[j]@[i] == (#[trigger] g0.cell(i, j).mines > 0),
                mines@.no_duplicates(),
                forall|j: int| 0 <= j < n ==> g0.in_bounds(#[trigger] mines@[j].0 as int, mines@[j].1 as int)
                    && g0.cell(mines@[j].0 as int, mines@[j].1 as int).mines > 0,
                to.len() == k,
                to.no_duplicates(),
                forall|j: int| 0 <= j < k ==> drift_ok(g0, from[j], #[trigger] to[j]) && g0.in_bounds(to[j].0, to[j].1),
                forall|j: int, t: int|
                    0 <= j < k && #[trigger] to[j] == from[j] && 0 <= t < 8 && open_spot(g0, #[trigger] nb(from[j], t))
                        ==> to.take(j).contains(nb(from[j], t)),
                forall|j: int|
                    0 <= j < k ==> self.cell(#[trigger] to[j].0, to[j].1).mines == g0.cell(from[j].0, from[j].1).mines
                        && self.cell(to[j].0, to[j].1).is_negative == g0.cell(from[j].0, from[j].1).is_negative,
                forall|j: int|
                    k <= j < n ==> self.cell(#[trigger] from[j].0, from[j].1).mines == g0.cell(from[j].0, from[j].1).mines
                        && self.cell(from[j].0, from[j].1).is_negative == g0.cell(from[j].0, from[j].1).is_negative,
                forall|i: int, j: int|
                    #![trigger self.cell(i, j)]
                    g0.in_bounds(i, j) ==> {
                        &&& self.cell(i, j).state == g0.cell(i, j).state
                        &&& self.cell(i, j).adjacent_mines == g0.cell(i, j).adjacent_mines
                        &&& (to.contains((i, j)) || from.subrange(k as int, n as int).contains((i, j))
                            || (self.cell(i, j).mines == 0 && self.cell(i, j).is_negative == (g0.cell(i, j).mines
                            == 0 && g0.cell(i, j).is_negative)))
                    },
        {
            let (ox, oy) = mines[k];
            let ghost o = (ox as int, oy as int);
            assert(from[k as int] == o);
            assert(self.grid@[oy as int]@.len() == self.width);
            let m = self.grid[oy][ox].mines;
            let neg = self.grid[oy][ox].is_negative;
            assert(m == g0.cell(ox as int, oy as int).mines);
            let ghost before_clear = *self;
            self.set_mine(ox, oy, 0, false);
            let targets = self.drift_targets(&had, ox, oy);
            let (dx, dy) = if targets.len() == 0 {
                (ox, oy)
            } else {
                let r = random_below(targets.len());
                targets[r]
            };
            let ghost d = (dx as int, dy as int);
            proof {
                if targets.len() == 0 {
                    assert forall|t: int| 0 <= t < 8 && open_spot(g0, #[trigger] nb(o, t)) implies to.contains(nb(o, t)) by {
                        let c = nb(o, t);
                        if !to.contains(c) {
                            assert(c != o);
                            assert(!from.subrange(k as int, n as int).contains(c)) by {
                                if from.subrange(k as int, n as int).contains(c) {
                                    let jj = choose|jj: int| 0 <= jj < n - k && from.subrange(k as int, n as int)[jj] == c;
                                    assert(from[k + jj] == c);
                                }
                            }
                            assert(before_clear.cell(c.0, c.1).mines == 0);
                            assert(self.cell(c.0, c.1).mines == 0);
                            assert(!had@[c.1]@[c.0]);
                            assert(self.drift_free(had@)(c));
                            lemma_nbs_where_nonempty(o, 8, self.drift_free(had@), t);
                            assert(false);
                        }
                    }
                }
                if d != o {
                    let r = choose|r: int| 0 <= r < targets@.len() && targets@[r] == (dx, dy);
                    assert(targets@[r] == (dx, dy)) ;
                }
                assert(g0.in_bounds(dx as int, dy as int));
                // The destination is free now.
                assert(self.cell(dx as int, dy as int).mines == 0);
                // No earlier move went to `d`, and no later mine starts there.
                assert forall|j: int| 0 <= j < k implies #[trigger] to[j] != d by {
                    if d == o {
                        if to[j] == from[j] {
                            assert(from[j] != from[k as int]);
                        } else {
                            assert(g0.cell(to[j].0, to[j].1).mines == 0);
                        }
                    } else {
                        assert(before_clear.cell(to[j].0, to[j].1).mines == g0.cell(from[j].0, from[j].1).mines);
                        if to[j] == o {
                            assert(to[j] == from[j] || g0.cell(to[j].0, to[j].1).mines == 0);
                            assert(from[j] != from[k as int]);
                        }
                        assert(self.cell(to[j].0, to[j].1).mines > 0);
                    }
                }
                assert forall|j: int| k < j < n implies #[trigger] from[j] != d by {
                    assert(from[j] != from[k as int]);
                }
            }
            let ghost before_set = *self;
            self.set_mine(dx, dy, m, neg);
            proof {
                let old_to = to;
                to = to.push(d);
                assert forall|j: int| 0 <= j < k + 1 implies drift_ok(g0, from[j], #[trigger] to[j]) && g0.in_bounds(to[j].0, to[j].1) by {
                    if j == k {
                        assert(to[j] == d);
                    } else {
                        assert(to[j] == old_to[j]);
                    }
                }
                assert forall|j: int| 0 <= j < k + 1 implies self.cell(#[trigger] to[j].0, to[j].1).mines == g0.cell(from[j].0, from[j].1).mines
                    && self.cell(to[j].0, to[j].1).is_negative == g0.cell(from[j].0, from[j].1).is_negative by {
                    if j < k {
                        assert(to[j] == old_to[j]);
                        assert(old_to[j] != d);
                        if old_to[j] == o {
                            assert(false);
                        }
                    }
                }
                assert forall|j: int| k + 1 <= j < n implies self.cell(#[trigger] from[j].0, from[j].1).mines == g0.cell(from[j].0, from[j].1).mines
                    && self.cell(from[j].0, from[j].1).is_negative == g0.cell(from[j].0, from[j].1).is_negative by {
                    assert(from[j] != from[k as int]);
                    assert(from[j] != d);
                }
                assert forall|i: int, j: int|
                    #![trigger self.cell(i, j)]
                    g0.in_bounds(i, j) implies {
                        &&& self.cell(i, j).state == g0.cell(i, j).state
                        &&& self.cell(i, j).adjacent_mines == g0.cell(i, j).adjacent_mines
                        &&& (to.contains((i, j)) || from.subrange(k + 1, n as int).contains((i, j))
                            || (self.cell(i, j).mines == 0 && self.cell(i, j).is_negative == (g0.cell(i, j).mines
                            == 0 && g0.cell(i, j).is_negative)))
                    } by {
                    let q = (i, j);
                    assert(before_clear.cell(i, j).state == g0.cell(i, j).state);
                    if q == d {
                        assert(to[k as int] == q);
                    } else if q == o {
                        assert(g0.cell(i, j).mines > 0);
                    } else {
                        if old_to.contains(q) {
                            let jj = choose|jj: int| 0 <= jj < old_to.len() && old_to[jj] == q;
                            assert(to[jj] == q);
                        } else if from.subrange(k as int, n as int).contains(q) {
                            let jj = choose|jj: int| 0 <= jj < n - k && from.subrange(k as int, n as int)[jj] == q;
                            assert(jj != 0);
                            assert(from.subrange(k + 1, n as int)[jj - 1] == q);
                        }
                    }
                }
                assert forall|a: int, b: int| 0 <= a < b < to.len() implies to[a] != to[b] by {
                    if b == k {
                        assert(old_to[a] == to[a]);
                    } else {
                        assert(old_to[a] != old_to[b]);
                    }
                }
                assert forall|j: int, t: int|
                    0 <= j < k + 1 && #[trigger] to[j] == from[j] && 0 <= t < 8 && open_spot(g0, #[trigger] nb(from[j], t))
                        implies to.take(j).contains(nb(from[j], t)) by {
                    if j < k {
                        assert(to[j] == old_to[j]);
                        assert(to.take(j) =~= old_to.take(j));
                    } else {
                        assert(to.take(j) =~= old_to);
                        assert(d == o);
                    }
                }
            }
        }
        let ghost moved = *self;
        self.recompute_all_adjacency();
        proof {
            assert forall|i: int, j: int| #![trigger self.cell(i, j)] g0.in_bounds(i, j) implies (from.contains((i, j)) <==> g0.cell(i, j).mines > 0) by {
                let q = (i as usize, j as usize);
                if from.contains((i, j)) {
                    let kk = choose|kk: int| 0 <= kk < from.len() && from[kk] == (i, j);
                    assert(mines@[kk].0 as int == i && mines@[kk].1 as int == j);
                }
                if g0.cell(i, j).mines > 0 {
                    assert(before.contains(q));
                    assert(mines@.contains(q));
                    let kk = choose|kk: int| 0 <= kk < mines@.len() && mines@[kk] == q;
                    assert(from[kk] == (i, j));
                }
            }
            assert forall|a: int, b: int| 0 <= a < b < from.len() implies from[a] != from[b] by {
                assert(mines@[a] != mines@[b]);
            }
            assert(from.subrange(n as int, n as int).len() == 0);
            assert forall|i: int, j: int| #![trigger self.cell(i, j)] g0.in_bounds(i, j) implies self.cell(i, j).state == g0.cell(i, j).state
                && (to.contains((i, j)) || (self.cell(i, j).mines == 0 && self.cell(i, j).is_negative == (g0.cell(i, j).mines == 0
                && g0.cell(i, j).is_negative))) by {
                assert(moved.cell(i, j).mines == self.cell(i, j).mines);
                if from.subrange(n as int, n as int).contains((i, j)) {
                    let jj = choose|jj: int| 0 <= jj < 0 && from.subrange(n as int, n as int)[jj] == (i, j);
                }
            }
            assert forall|kk: int| 0 <= kk < to.len() implies self.cell(#[trigger] to[kk].0, to[kk].1).mines == g0.cell(from[kk].0, from[kk].1).mines
                && self.cell(to[kk].0, to[kk].1).is_negative == g0.cell(from[kk].0, from[kk].1).is_negative by {
                assert(moved.cell(to[kk].0, to[kk].1).mines == self.cell(to[kk].0, to[kk].1).mines);
            }
            assert forall|kk: int| 0 <= kk < from.len() implies g0.in_bounds(#[trigger] from[kk].0, from[kk].1) by {
                assert(g0.in_bounds(mines@[kk].0 as int, mines@[kk].1 as int));
            }
            assert(g0.drifted(*self, from, to));
        }
    }
}

/// Drift moves the mines on every third action.
pub const DRIFT_EVERY: u8 = 3;

/// Drift after a player's action: while play is on, the action is counted
/// and every third one drifts the mines as `drift_mines` says (the count
/// starting again). Returns whether the mines drifted.
pub fn drift_on_move(game: &mut Game, counter: &mut u8) -> (drifted: bool)
    requires
        old(game).wf(),
        *old(counter) < DRIFT_EVERY,
    ensures
        final(game).wf(),
        *final(counter) < DRIFT_EVERY,
        old(game).state != GameState::Playing ==> *final(game) == *old(game) && *final(counter) == *old(counter) && !drifted,
        old(game).state == GameState::Playing ==> {
            &&& drifted == (*old(counter) + 1 == DRIFT_EVERY)
            &&& *final(counter) == if drifted { 0 } else { *old(counter) + 1 }
            &&& !drifted ==> *final(game) == *old(game)
            &&& drifted ==> final(game).same_fields(*old(game)) && grid_mines(final(game).cells()) == grid_mines(old(game).cells())
                && final(game).adjacency_consistent()
                && exists|from: Seq<(int, int)>, to: Seq<(int, int)>| #[trigger] old(game).drifted(*final(game), from, to)
        },
{
    if !matches!(game.state, GameState::Playing) {
        return false;
    }
    let c = *counter + 1;
    if c >= DRIFT_EVERY {
        *counter = 0;
        game.drift_mines();
        true
    } else {
        *counter = c;
        false
    }
}

} // verus!
