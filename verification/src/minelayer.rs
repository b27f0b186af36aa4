use vstd::prelude::*;
use crate::cascade::nb;
use crate::display::{nb_partial, nb_sum};
use crate::game::{Game, MAX_CELLS};
use crate::sums::{sum, lemma_sum_update, lemma_sum_bounds};

verus! {

/// 1 for a marked cell.
pub open spec fn mark(b: bool) -> int {
    if b {
        1
    } else {
        0
    }
}

/// The number of marked cells of a grid of marks.
pub open spec fn marks(g: Seq<Seq<bool>>) -> int {
    sum(g.map_values(|r: Seq<bool>| sum(r.map_values(|b: bool| mark(b)))))
}

/// Changing one mark changes the count by the difference.
pub proof fn lemma_marks_set(g: Seq<Seq<bool>>, x: int, y: int, b: bool)
    requires
        0 <= y < g.len(),
        0 <= x < g[y].len(),
    ensures
        marks(g.update(y, g[y].update(x, b))) == marks(g) - mark(g[y][x]) + mark(b),
{
    let f = |b: bool| mark(b);
    let rf = |r: Seq<bool>| sum(r.map_values(f));
    let r = g[y];
    lemma_sum_update(r.map_values(f), x, f(b));
    assert(r.update(x, b).map_values(f) =~= r.map_values(f).update(x, f(b)));
    lemma_sum_update(g.map_values(rf), y, rf(r.update(x, b)));
    assert(g.update(y, r.update(x, b)).map_values(rf) =~= g.map_values(rf).update(y, rf(r.update(x, b))));
}

/// A grid of `h` rows of `w` marks holds between none and all of them.
pub proof fn lemma_marks_bounds(g: Seq<Seq<bool>>, w: int)
    requires
        0 <= w,
        forall|j: int| 0 <= j < g.len() ==> (#[trigger] g[j]).len() == w,
    ensures
        0 <= marks(g) <= g.len() * w,
{
    let f = |b: bool| mark(b);
    let rf = |r: Seq<bool>| sum(r.map_values(f));
    assert forall|j: int| 0 <= j < g.len() implies 0 <= #[trigger] g.map_values(rf)[j] <= w by {
        lemma_sum_bounds(g[j].map_values(f), 0, 1);
    }
    lemma_sum_bounds(g.map_values(rf), 0, w);
}

/// A board of no marks counts none.
pub proof fn lemma_marks_none(g: Seq<Seq<bool>>)
    requires
        forall|j: int, i: int| 0 <= j < g.len() && 0 <= i < g[j].len() ==> !(#[trigger] g[j][i]),
    ensures
        marks(g) == 0,
{
    let f = |b: bool| mark(b);
    let rf = |r: Seq<bool>| sum(r.map_values(f));
    assert forall|j: int| 0 <= j < g.len() implies #[trigger] g.map_values(rf)[j] == 0 by {
        lemma_sum_bounds(g[j].map_values(f), 0, 0);
    }
    lemma_sum_bounds(g.map_values(rf), 0, 0);
}

/// Whether the grid of markers `m`, `w` by `h`, holds one on `q`.
pub open spec fn marker_at(m: Seq<Seq<bool>>, w: int, h: int, q: (int, int)) -> bool {
    0 <= q.0 < w && 0 <= q.1 < h && m[q.1][q.0]
}

/// Minelayer: the whole board is shown from the start, each cell with the
/// number of mines on it and around it; the player places a marker on each
/// mine, and every marker takes one off each neighbour's number.
pub struct Ml {
    pub width: usize,
    pub height: usize,
    /// Mines on each cell and its eight neighbours.
    pub base: Vec<Vec<i32>>,
    /// The player's markers.
    pub placed: Vec<Vec<bool>>,
    pub total_mines: usize,
    pub placed_count: usize,
    pub won: bool,
}

impl Ml {
    /// The markers as a sequence of rows.
    pub open spec fn marks_of(self) -> Seq<Seq<bool>> {
        self.placed@.map_values(|r: Vec<bool>| r@)
    }

    /// The number a cell shows: its starting number less its marked neighbours.
    pub open spec fn spec_display(self, x: int, y: int) -> int {
        let m = self.marks_of();
        let w = self.width as int;
        let h = self.height as int;
        self.base@[y]@[x] - nb_sum(|q: (int, int)| mark(marker_at(m, w, h, q)), (x, y))
    }

    /// Every cell is marked or shows zero.
    pub open spec fn all_settled(self) -> bool {
        forall|x: int, y: int|
            0 <= x < self.width && 0 <= y < self.height ==> #[trigger] self.placed@[y]@[x] || self.spec_display(x, y)
                == 0
    }

    /// Dimensions, row lengths, small starting numbers, and a marker count
    /// that equals the markers on the board.
    pub open spec fn wf(self) -> bool {
        &&& 1 <= self.width
        &&& 1 <= self.height
        &&& self.width * self.height <= MAX_CELLS
        &&& self.width <= MAX_CELLS
        &&& self.height <= MAX_CELLS
        &&& self.base@.len() == self.height
        &&& self.placed@.len() == self.height
        &&& forall|y: int| 0 <= y < self.height ==> (#[trigger] self.base@[y])@.len() == self.width
        &&& forall|y: int| 0 <= y < self.height ==> (#[trigger] self.placed@[y])@.len() == self.width
        &&& forall|x: int, y: int|
            0 <= x < self.width && 0 <= y < self.height ==> 0 <= #[trigger] self.base@[y]@[x] <= 27
        &&& self.placed_count == marks(self.marks_of())
    }

    /// The Minelayer view of a board whose mines are placed: every cell's
    /// number counts the mines on it and around it; no markers yet.
    pub fn from_game(game: &Game) -> (ml: Ml)
        requires
            game.wf_shape(),
        ensures
            ml.wf(),
            ml.width == game.width,
            ml.height == game.height,
            ml.total_mines == game.mine_count,
            ml.placed_count == 0,
            !ml.won,
            forall|x: int, y: int|
                game.in_bounds(x, y) ==> #[trigger] ml.base@[y]@[x] == game.block_mines((x, y)) && !ml.placed@[y]@[x],
    {
        let w = game.width;
        let h = game.height;
        let mut base: Vec<Vec<i32>> = Vec::new();
        let mut placed: Vec<Vec<bool>> = Vec::new();
        for y in 0..h
            invariant
                game.wf_shape(),
                w == game.width,
                h == game.height,
                base@.len() == y,
                placed@.len() == y,
                forall|j: int| 0 <= j < y ==> (#[trigger] base@[j])@.len() == w,
                forall|j: int| 0 <= j < y ==> (#[trigger] placed@[j])@.len() == w,
                forall|i: int, j: int|
                    0 <= i < w && 0 <= j < y ==> #[trigger] base@[j]@[i] == game.block_mines((i, j)) && !placed@[j]@[i]
                        && 0 <= base@[j]@[i] <= 27,
        {
            let mut brow: Vec<i32> = Vec::new();
            let mut prow: Vec<bool> = Vec::new();
            for x in 0..w
                invariant
                    game.wf_shape(),
                    w == game.width,
                    h == game.height,
                    y < h,
                    brow@.len() == x,
                    prow@.len() == x,
                    forall|i: int| 0 <= i < x ==> #[trigger] brow@[i] == game.block_mines((i, y as int)) && !prow@[i]
                        && 0 <= brow@[i] <= 27,
            {
                let n = game.closed_count(x, y);
                brow.push(n as i32);
                prow.push(false);
            }
            let ghost b0 = base@;
            let ghost p0 = placed@;
            let ghost bv = brow@;
            let ghost pv = prow@;
            base.push(brow);
            placed.push(prow);
            proof {
                assert(base@[y as int]@ == bv);
                assert(placed@[y as int]@ == pv);
                assert forall|i: int, j: int|
                    0 <= i < w && 0 <= j < y + 1 implies #[trigger] base@[j]@[i] == game.block_mines((i, j)) && !placed@[j]@[i]
                        && 0 <= base@[j]@[i] <= 27 by {
                    if j < y {
                        assert(base@[j] == b0[j]);
                        assert(placed@[j] == p0[j]);
                    }
                }
            }
        }
        let ml = Ml {
            width: w,
            height: h,
            base,
            placed,
            total_mines: game.mine_count,
            placed_count: 0,
            won: false,
        };
        assert(forall|i: int, j: int| 0 <= i < w && 0 <= j < h ==> #[trigger] base@[j]@[i] == game.block_mines((i, j)) && !placed@[j]@[i]);
        proof {
            assert forall|j: int, i: int| 0 <= j < ml.marks_of().len() && 0 <= i < ml.marks_of()[j].len() implies !(#[trigger] ml.marks_of()[j][i]) by {
                assert(ml.marks_of()[j] == ml.placed@[j]@);
                assert(base@[j]@[i] == game.block_mines((i, j)));
            }
            lemma_marks_none(ml.marks_of());
        }
        ml
    }

    /// The number that (`x`, `y`) shows.
    pub fn display_count(&self, x: usize, y: usize) -> (r: i32)
        requires
            self.wf(),
            x < self.width,
            y < self.height,
        ensures
            r == self.spec_display(x as int, y as int),
    {
        let ghost m = self.marks_of();
        let ghost w = self.width as int;
        let ghost h = self.height as int;
        let ghost f = |q: (int, int)| mark(marker_at(m, w, h, q));
        let ghost p = (x as int, y as int);
        assert(self.base@[y as int]@.len() == self.width);
        let mut n = self.base[y][x];
        let mut k: usize = 0;
        while k < 8
            invariant
                0 <= k <= 8,
                self.wf(),
                x < self.width,
                y < self.height,
                m == self.marks_of(),
                w == self.width,
                h == self.height,
                f == (|q: (int, int)| mark(marker_at(m, w, h, q))),
                p == (x as int, y as int),
                n == self.base@[y as int]@[x as int] - nb_partial(f, p, k as nat),
                0 <= self.base@[y as int]@[x as int] <= 27,
                nb_partial(f, p, k as nat) <= k,
                0 <= nb_partial(f, p, k as nat),
            decreases 8 - k,
        {
            proof {
                assert(nb_partial(f, p, (k + 1) as nat) == nb_partial(f, p, k as nat) + f(nb(p, k as int)));
            }
            let (dx, dy) = crate::cascade::offset_of(k);
            if (dx == 0 && x == 0) || (dy == 0 && y == 0) {
            } else if x + dx - 1 < self.width && y + dy - 1 < self.height {
                let nx = x + dx - 1;
                let ny = y + dy - 1;
                assert(self.placed@[ny as int]@.len() == self.width);
                assert(m[ny as int] == self.placed@[ny as int]@);
                if self.placed[ny][nx] {
                    n = n - 1;
                }
            }
            k = k + 1;
        }
        n
    }

    /// Whether every cell is marked or shows zero.
    fn settled(&self) -> (r: bool)
        requires
            self.wf(),
        ensures
            r == self.all_settled(),
    {
        let h = self.height;
        let w = self.width;
        for y in 0..h
            invariant
                self.wf(),
                h == self.height,
                w == self.width,
                forall|i: int, j: int| 0 <= i < w && 0 <= j < y ==> #[trigger] self.placed@[j]@[i] || self.spec_display(i, j) == 0,
        {
            assert(self.placed@[y as int]@.len() == w);
            for x in 0..w
                invariant
                    self.wf(),
                    h == self.height,
                    w == self.width,
                    y < h,
                    self.placed@[y as int]@.len() == w,
                    forall|i: int, j: int|
                        0 <= i < w && 0 <= j < y + 1 && (j < y || i < x) ==> #[trigger] self.placed@[j]@[i] || self.spec_display(i, j) == 0,
            {
                if !self.placed[y][x] && self.display_count(x, y) != 0 {
                    return false;
                }
            }
        }
        true
    }

    /// Put a marker on (`x`, `y`) or take it off, unless the game is won.
    /// When the markers number as many as the mines, the game is won if
    /// every cell is marked or shows zero.
    pub fn toggle(&mut self, x: usize, y: usize)
        requires
            old(self).wf(),
            x < old(self).width,
            y < old(self).height,
        ensures
            final(self).wf(),
            old(self).won ==> *final(self) == *old(self),
            !old(self).won ==> {
                &&& final(self).marks_of() == old(self).marks_of().update(
                    y as int,
                    old(self).marks_of()[y as int].update(x as int, !old(self).placed@[y as int]@[x as int]),
                )
                &&& final(self).placed_count == if old(self).placed@[y as int]@[x as int] {
                    old(self).placed_count - 1
                } else {
                    old(self).placed_count + 1
                }
                &&& final(self).won == (final(self).placed_count == final(self).total_mines && final(self).all_settled())
                &&& final(self).base == old(self).base
                &&& final(self).width == old(self).width
                &&& final(self).height == old(self).height
                &&& final(self).total_mines == old(self).total_mines
            },
    {
        if self.won {
            return;
        }
        let ghost m0 = self.marks_of();
        assert(self.placed@[y as int]@.len() == self.width);
        let was = self.placed[y][x];
        proof {
            lemma_marks_set(m0, x as int, y as int, !was);
            assert forall|j: int| 0 <= j < m0.len() implies (#[trigger] m0[j]).len() == self.width by {
                assert(self.placed@[j]@.len() == self.width);
            }
            lemma_marks_bounds(m0, self.width as int);
            lemma_marks_bounds(m0.update(y as int, m0[y as int].update(x as int, !was)), self.width as int);
            assert(self.height * self.width == self.width * self.height) by (nonlinear_arith);
        }
        self.placed[y].set(x, !was);
        if was {
            self.placed_count = self.placed_count - 1;
        } else {
            self.placed_count = self.placed_count + 1;
        }
        proof {
            assert(self.marks_of() =~= m0.update(y as int, m0[y as int].update(x as int, !was)));
        }
        if self.placed_count == self.total_mines {
            let ghost before = *self;
            let s = self.settled();
            self.won = s;
            assert(self.all_settled() == before.all_settled());
        }
    }

    /// The markers still to place; negative when there are too many.
    pub fn mines_remaining(&self) -> (r: i64)
        requires
            self.wf(),
            self.total_mines <= MAX_CELLS * 3,
        ensures
            r == self.total_mines - self.placed_count,
    {
        proof {
            assert forall|j: int| 0 <= j < self.marks_of().len() implies (#[trigger] self.marks_of()[j]).len() == self.width by {
                assert(self.placed@[j]@.len() == self.width);
            }
            lemma_marks_bounds(self.marks_of(), self.width as int);
            assert(self.height * self.width == self.width * self.height) by (nonlinear_arith);
        }
        self.total_mines as i64 - self.placed_count as i64
    }
}

/// Placing the markers exactly on the mines of a board of single mines
/// settles every cell: each unmarked cell then shows zero.
pub proof fn lemma_markers_on_mines_settle(ml: Ml, game: Game)
    requires
        game.wf_shape(),
        ml.wf(),
        ml.width == game.width,
        ml.height == game.height,
        forall|x: int, y: int| game.in_bounds(x, y) ==> #[trigger] ml.base@[y]@[x] == game.block_mines((x, y)),
        forall|x: int, y: int| game.in_bounds(x, y) ==> #[trigger] ml.placed@[y]@[x] == (game.cell(x, y).mines > 0),
        forall|x: int, y: int| game.in_bounds(x, y) ==> #[trigger] game.cell(x, y).mines <= 1,
    ensures
        ml.all_settled(),
{
    let m = ml.marks_of();
    let w = ml.width as int;
    let h = ml.height as int;
    let fm = |q: (int, int)| mark(marker_at(m, w, h, q));
    let gm = |q: (int, int)| game.mines_on(q);
    assert forall|q: (int, int)| #[trigger] fm(q) == gm(q) by {
        if game.in_bounds(q.0, q.1) {
            assert(m[q.1] == ml.placed@[q.1]@);
            assert(ml.placed@[q.1]@[q.0] == (game.cell(q.0, q.1).mines > 0));
            assert(game.cell(q.0, q.1).mines <= 1);
        }
    }
    assert forall|x: int, y: int| 0 <= x < ml.width && 0 <= y < ml.height implies #[trigger] ml.placed@[y]@[x]
        || ml.spec_display(x, y) == 0 by {
        let p = (x, y);
        reveal_with_fuel(nb_partial, 9);
        assert(fm(nb(p, 0)) == gm(nb(p, 0)));
        assert(fm(nb(p, 1)) == gm(nb(p, 1)));
        assert(fm(nb(p, 2)) == gm(nb(p, 2)));
        assert(fm(nb(p, 3)) == gm(nb(p, 3)));
        assert(fm(nb(p, 4)) == gm(nb(p, 4)));
        assert(fm(nb(p, 5)) == gm(nb(p, 5)));
        assert(fm(nb(p, 6)) == gm(nb(p, 6)));
        assert(fm(nb(p, 7)) == gm(nb(p, 7)));
        assert(nb_sum(fm, p) == nb_sum(gm, p));
        assert(ml.base@[y]@[x] == game.block_mines(p));
        assert(ml.placed@[y]@[x] == (game.cell(x, y).mines > 0));
    }
}

} // verus!
