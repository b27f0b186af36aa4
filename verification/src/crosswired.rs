use vstd::prelude::*;
use crate::cascade::{inside, nb, neighbor_of};
use crate::display::{nb_partial, nb_sum};
use crate::game::{Game, GameState, MAX_CELLS, candidate_positions, in_pool, in_zone, ipos, lemma_shuffled};
use crate::random::shuffle_positions;
use crate::sums::{sum, lemma_sum_update, lemma_sum_bounds};

verus! {

/// What the player sees of a Cross-wired cell.
#[derive(Clone, Copy, Debug, PartialEq, Eq, Structural)]
pub enum CwState {
    Hidden,
    Flagged,
    Revealed,
}

/// A cell of one of the two Cross-wired boards; `adj` counts the mines
/// around it on the other board.
#[derive(Clone, Copy, Debug, PartialEq, Eq, Structural)]
pub struct CwCell {
    pub is_mine: bool,
    pub state: CwState,
    pub adj: u8,
}

impl CwCell {
    /// A hidden cell with no mine.
    pub fn new() -> (c: CwCell)
        ensures
            c == (CwCell { is_mine: false, state: CwState::Hidden, adj: 0 }),
    {
        CwCell { is_mine: false, state: CwState::Hidden, adj: 0 }
    }
}

/// A board as a sequence of rows.
pub open spec fn bview(b: Seq<Vec<CwCell>>) -> Seq<Seq<CwCell>> {
    b.map_values(|r: Vec<CwCell>| r@)
}

/// The total of `f` over all cells of a board.
pub open spec fn cw_total(g: Seq<Seq<CwCell>>, f: spec_fn(CwCell) -> int) -> int {
    sum(g.map_values(|r: Seq<CwCell>| sum(r.map_values(f))))
}

/// 1 for a revealed mine-free cell.
pub open spec fn revealed_safe(c: CwCell) -> int {
    if c.state == CwState::Revealed && !c.is_mine {
        1
    } else {
        0
    }
}

/// 1 for a flagged cell.
pub open spec fn flagged(c: CwCell) -> int {
    if c.state == CwState::Flagged {
        1
    } else {
        0
    }
}

/// Replacing one cell changes a total by the difference.
pub proof fn lemma_cw_set(g: Seq<Seq<CwCell>>, x: int, y: int, c: CwCell, f: spec_fn(CwCell) -> int)
    requires
        0 <= y < g.len(),
        0 <= x < g[y].len(),
    ensures
        cw_total(g.update(y, g[y].update(x, c)), f) == cw_total(g, f) - f(g[y][x]) + f(c),
{
    let rf = |r: Seq<CwCell>| sum(r.map_values(f));
    let r = g[y];
    lemma_sum_update(r.map_values(f), x, f(c));
    assert(r.update(x, c).map_values(f) =~= r.map_values(f).update(x, f(c)));
    lemma_sum_update(g.map_values(rf), y, rf(r.update(x, c)));
    assert(g.update(y, r.update(x, c)).map_values(rf) =~= g.map_values(rf).update(y, rf(r.update(x, c))));
}

/// A total of values in [0, 1] over `h` rows of `w` cells lies in [0, `h` * `w`].
pub proof fn lemma_cw_bounds(g: Seq<Seq<CwCell>>, w: int, f: spec_fn(CwCell) -> int)
    requires
        0 <= w,
        forall|j: int| 0 <= j < g.len() ==> (#[trigger] g[j]).len() == w,
        forall|c: CwCell| 0 <= #[trigger] f(c) <= 1,
    ensures
        0 <= cw_total(g, f) <= g.len() * w,
{
    let rf = |r: Seq<CwCell>| sum(r.map_values(f));
    assert forall|j: int| 0 <= j < g.len() implies 0 <= #[trigger] g.map_values(rf)[j] <= w by {
        lemma_sum_bounds(g[j].map_values(f), 0, 1);
    }
    lemma_sum_bounds(g.map_values(rf), 0, w);
}

/// A total that is zero on every cell is zero.
pub proof fn lemma_cw_zero(g: Seq<Seq<CwCell>>, f: spec_fn(CwCell) -> int)
    requires
        forall|j: int, i: int| 0 <= j < g.len() && 0 <= i < g[j].len() ==> f(#[trigger] g[j][i]) == 0,
    ensures
        cw_total(g, f) == 0,
{
    let rf = |r: Seq<CwCell>| sum(r.map_values(f));
    assert forall|j: int| 0 <= j < g.len() implies #[trigger] g.map_values(rf)[j] == 0 by {
        lemma_sum_bounds(g[j].map_values(f), 0, 0);
    }
    lemma_sum_bounds(g.map_values(rf), 0, 0);
}

/// A board of `h` rows of `w` cells.
pub open spec fn board_shaped(b: Seq<Vec<CwCell>>, w: int, h: int) -> bool {
    b.len() == h && forall|j: int| 0 <= j < h ==> (#[trigger] b[j])@.len() == w
}

/// 1 where board `b` (`w` by `h`) holds a mine at `q`.
pub open spec fn mine_at(b: Seq<Seq<CwCell>>, w: int, h: int, q: (int, int)) -> int {
    if inside(w, h, q) && b[q.1][q.0].is_mine {
        1
    } else {
        0
    }
}

/// The mines of board `b` around (`x`, `y`).
pub open spec fn mines_around(b: Seq<Seq<CwCell>>, w: int, h: int, x: int, y: int) -> int {
    nb_sum(|q: (int, int)| mine_at(b, w, h, q), (x, y))
}

/// Set one cell of a board.
fn board_put(b: &mut Vec<Vec<CwCell>>, x: usize, y: usize, c: CwCell)
    requires
        y < old(b)@.len(),
        x < old(b)@[y as int]@.len(),
    ensures
        bview(final(b)@) == bview(old(b)@).update(y as int, bview(old(b)@)[y as int].update(x as int, c)),
        final(b)@.len() == old(b)@.len(),
        forall|j: int| 0 <= j < final(b)@.len() ==> (#[trigger] final(b)@[j])@.len() == old(b)@[j]@.len(),
{
    b[y].set(x, c);
    assert(bview(b@) =~= bview(old(b)@).update(y as int, bview(old(b)@)[y as int].update(x as int, c)));
}

/// The mines of a board around (`x`, `y`), counted.
fn count_mines_around(b: &Vec<Vec<CwCell>>, w: usize, h: usize, x: usize, y: usize) -> (r: u8)
    requires
        board_shaped(b@, w as int, h as int),
        x < w,
        y < h,
    ensures
        r == mines_around(bview(b@), w as int, h as int, x as int, y as int),
        r <= 8,
{
    let ghost f = |q: (int, int)| mine_at(bview(b@), w as int, h as int, q);
    let ghost p = (x as int, y as int);
    let mut n: u8 = 0;
    let mut k: usize = 0;
    while k < 8
        invariant
            0 <= k <= 8,
            board_shaped(b@, w as int, h as int),
            x < w,
            y < h,
            f == (|q: (int, int)| mine_at(bview(b@), w as int, h as int, q)),
            p == (x as int, y as int),
            n == nb_partial(f, p, k as nat),
            n <= k,
        decreases 8 - k,
    {
        proof {
            assert(nb_partial(f, p, (k + 1) as nat) == nb_partial(f, p, k as nat) + f(nb(p, k as int)));
        }
        match neighbor_of(w, h, x, y, k) {
            Some((nx, ny)) => {
                assert(b@[ny as int]@.len() == w);
                assert(bview(b@)[ny as int][nx as int] == b@[ny as int]@[nx as int]);
                if b[ny][nx].is_mine {
                    n = n + 1;
                }
            },
            None => {},
        }
        k = k + 1;
    }
    n
}

/// Cross-wired: two boards side by side; each cell counts the mines around
/// it on the other board. No cascade and no chord; the game is won when
/// every mine-free cell of both boards is revealed.
pub struct CwGame {
    pub a: Vec<Vec<CwCell>>,
    pub b: Vec<Vec<CwCell>>,
    pub width: usize,
    pub height: usize,
    /// Mines per board.
    pub mine_count: usize,
    pub state: GameState,
    pub flags_placed: usize,
    pub safe_revealed: usize,
    pub total_safe: usize,
}

impl CwGame {
    /// Board `k` (0 is the left one) as a sequence of rows.
    pub open spec fn board(self, k: int) -> Seq<Seq<CwCell>> {
        if k == 0 {
            bview(self.a@)
        } else {
            bview(self.b@)
        }
    }

    /// The cell at (`x`, `y`) of board `k`.
    pub open spec fn at(self, k: int, x: int, y: int) -> CwCell {
        self.board(k)[y][x]
    }

    pub open spec fn in_bounds(self, x: int, y: int) -> bool {
        0 <= x < self.width && 0 <= y < self.height
    }

    /// Each board's counts are the mines around the cell on the other board.
    pub open spec fn counts_right(self) -> bool {
        forall|x: int, y: int|
            self.in_bounds(x, y) ==> #[trigger] self.at(0, x, y).adj == mines_around(
                self.board(1),
                self.width as int,
                self.height as int,
                x,
                y,
            ) && self.at(1, x, y).adj == mines_around(self.board(0), self.width as int, self.height as int, x, y)
    }

    /// Dimensions and row lengths, the counters equal to what the boards
    /// hold, and a fresh game: every cell hidden and mine-free before the
    /// first click.
    pub open spec fn wf(self) -> bool {
        &&& 1 <= self.width
        &&& 1 <= self.height
        &&& self.width * self.height <= MAX_CELLS
        &&& self.width <= MAX_CELLS
        &&& self.height <= MAX_CELLS
        &&& board_shaped(self.a@, self.width as int, self.height as int)
        &&& board_shaped(self.b@, self.width as int, self.height as int)
        &&& self.mine_count < self.width * self.height
        &&& self.total_safe == (self.width * self.height - self.mine_count) * 2
        &&& self.safe_revealed == cw_total(self.board(0), |c: CwCell| revealed_safe(c)) + cw_total(
            self.board(1),
            |c: CwCell| revealed_safe(c),
        )
        &&& self.flag_count() <= self.flags_placed
        &&& (self.state == GameState::Ready || self.state == GameState::Playing) ==> self.flags_placed
            == self.flag_count()
        &&& self.flags_placed <= 2 * MAX_CELLS
        &&& self.state == GameState::Ready ==> forall|k: int, x: int, y: int|
            0 <= k < 2 && self.in_bounds(x, y) ==> (#[trigger] self.at(k, x, y)).state == CwState::Hidden
                && !self.at(k, x, y).is_mine
    }

    /// A new game: two blank boards with room for at most every cell but one
    /// of mines each.
    pub fn new(width: usize, height: usize, mine_count: usize) -> (g: CwGame)
        requires
            1 <= width,
            1 <= height,
            width * height <= MAX_CELLS,
        ensures
            g.wf(),
            g.width == width,
            g.height == height,
            g.mine_count == if mine_count < width * height - 1 {
                mine_count as int
            } else {
                width * height - 1
            },
            g.state == GameState::Ready,
            g.flags_placed == 0,
            g.safe_revealed == 0,
            forall|k: int, x: int, y: int|
                0 <= k < 2 && g.in_bounds(x, y) ==> #[trigger] g.at(k, x, y) == CwCell::new_spec(),
    {
        assert(width * height >= 1) by (nonlinear_arith) requires width >= 1, height >= 1;
        let cells = width * height;
        let mc = if mine_count < cells - 1 { mine_count } else { cells - 1 };
        let a = blank_board(width, height);
        let b = blank_board(width, height);
        let g = CwGame {
            a,
            b,
            width,
            height,
            mine_count: mc,
            state: GameState::Ready,
            flags_placed: 0,
            safe_revealed: 0,
            total_safe: (cells - mc) * 2,
        };
        proof {
            assert(width <= MAX_CELLS) by (nonlinear_arith) requires width * height <= MAX_CELLS, height >= 1;
            assert(height <= MAX_CELLS) by (nonlinear_arith) requires width * height <= MAX_CELLS, width >= 1;
            assert forall|j: int, i: int| 0 <= j < g.board(0).len() && 0 <= i < g.board(0)[j].len() implies revealed_safe(#[trigger] g.board(0)[j][i]) == 0 && flagged(g.board(0)[j][i]) == 0 by {
                assert(g.board(0)[j] == g.a@[j]@);
            }
            assert forall|j: int, i: int| 0 <= j < g.board(1).len() && 0 <= i < g.board(1)[j].len() implies revealed_safe(#[trigger] g.board(1)[j][i]) == 0 && flagged(g.board(1)[j][i]) == 0 by {
                assert(g.board(1)[j] == g.b@[j]@);
            }
            lemma_cw_zero(g.board(0), |c: CwCell| revealed_safe(c));
            lemma_cw_zero(g.board(1), |c: CwCell| revealed_safe(c));
            lemma_cw_zero(g.board(0), |c: CwCell| flagged(c));
            lemma_cw_zero(g.board(1), |c: CwCell| flagged(c));
        }
        g
    }
}

impl CwCell {
    /// A hidden cell with no mine.
    pub open spec fn new_spec() -> CwCell {
        CwCell { is_mine: false, state: CwState::Hidden, adj: 0 }
    }
}

/// A board of blank cells.
fn blank_board(w: usize, h: usize) -> (b: Vec<Vec<CwCell>>)
    ensures
        board_shaped(b@, w as int, h as int),
        forall|j: int, i: int| 0 <= j < h && 0 <= i < w ==> #[trigger] b@[j]@[i] == CwCell::new_spec(),
{
    let mut b: Vec<Vec<CwCell>> = Vec::new();
    for y in 0..h
        invariant
            b@.len() == y,
            forall|j: int| 0 <= j < y ==> (#[trigger] b@[j])@.len() == w,
            forall|j: int, i: int| 0 <= j < y && 0 <= i < w ==> #[trigger] b@[j]@[i] == CwCell::new_spec(),
    {
        let mut row: Vec<CwCell> = Vec::new();
        for x in 0..w
            invariant
                row@.len() == x,
                forall|i: int| 0 <= i < x ==> #[trigger] row@[i] == CwCell::new_spec(),
        {
            row.push(CwCell::new());
        }
        b.push(row);
    }
    b
}

/// Put a mine on the first `n` positions of `ps`; nothing else changes.
fn lay_board(b: &mut Vec<Vec<CwCell>>, w: usize, h: usize, ps: &Vec<(usize, usize)>, n: usize)
    requires
        board_shaped(old(b)@, w as int, h as int),
        n <= ps@.len(),
        forall|i: int| 0 <= i < ps@.len() ==> inside(w as int, h as int, (#[trigger] ps@[i].0 as int, ps@[i].1 as int)),
    ensures
        board_shaped(final(b)@, w as int, h as int),
        forall|i: int, j: int|
            0 <= i < w && 0 <= j < h ==> #[trigger] bview(final(b)@)[j][i] == if ipos(ps@).subrange(0, n as int).contains((i, j)) {
                CwCell { is_mine: true, ..bview(old(b)@)[j][i] }
            } else {
                bview(old(b)@)[j][i]
            },
{
    let ghost b0 = bview(b@);
    let mut k: usize = 0;
    while k < n
        invariant
            0 <= k <= n,
            n <= ps@.len(),
            board_shaped(b@, w as int, h as int),
            b0.len() == h,
            forall|i: int| 0 <= i < ps@.len() ==> inside(w as int, h as int, (#[trigger] ps@[i].0 as int, ps@[i].1 as int)),
            forall|i: int, j: int|
                0 <= i < w && 0 <= j < h ==> #[trigger] bview(b@)[j][i] == if ipos(ps@).subrange(0, k as int).contains((i, j)) {
                    CwCell { is_mine: true, ..b0[j][i] }
                } else {
                    b0[j][i]
                },
        decreases n - k,
    {
        let (x, y) = ps[k];
        assert(inside(w as int, h as int, (ps@[k as int].0 as int, ps@[k as int].1 as int)));
        assert(b@[y as int]@.len() == w);
        let c = b[y][x];
        assert(c == bview(b@)[y as int][x as int]);
        let ghost before = bview(b@);
        board_put(b, x, y, CwCell { is_mine: true, ..c });
        proof {
            assert(ipos(ps@)[k as int] == (x as int, y as int));
            assert forall|i: int, j: int|
                0 <= i < w && 0 <= j < h implies #[trigger] bview(b@)[j][i] == if ipos(ps@).subrange(0, k + 1).contains((i, j)) {
                    CwCell { is_mine: true, ..b0[j][i] }
                } else {
                    b0[j][i]
                } by {
                let s1 = ipos(ps@).subrange(0, k + 1);
                let s0 = ipos(ps@).subrange(0, k as int);
                assert(s1 == s0.push((x as int, y as int)));
                if (i, j) != (x as int, y as int) {
                    assert(s1.contains((i, j)) == s0.contains((i, j))) by {
                        if s1.contains((i, j)) {
                            let t = choose|t: int| 0 <= t < s1.len() && s1[t] == (i, j);
                            assert(s0[t] == (i, j));
                        }
                        if s0.contains((i, j)) {
                            let t = choose|t: int| 0 <= t < s0.len() && s0[t] == (i, j);
                            assert(s1[t] == (i, j));
                        }
                    }
                } else {
                    assert(s1[k as int] == (i, j));
                }
            }
        }
        k = k + 1;
    }
}

/// The distinct positions `chosen`, as many as `mc`, drawn for one board of
/// a first click on (`fx`, `fy`): never the clicked cell, and on the clicked
/// board (`zone_free`) outside the 3x3 block around it.
pub open spec fn drawn(chosen: Seq<(usize, usize)>, w: int, h: int, fx: int, fy: int, mc: int, zone_free: bool) -> bool {
    &&& chosen.no_duplicates()
    &&& chosen.len() == mc
    &&& forall|k: int| 0 <= k < chosen.len() ==> in_pool(w, h, fx, fy, 1, (#[trigger] chosen[k].0 as int, chosen[k].1 as int))
    &&& zone_free ==> forall|k: int| 0 <= k < chosen.len() ==> !in_zone(fx, fy, (#[trigger] chosen[k].0 as int, chosen[k].1 as int))
}

/// Draw the mine positions of one board for a first click on (`fx`, `fy`):
/// outside the 3x3 block when `zone` and there is room, else anywhere but
/// the clicked cell.
fn draw_positions(w: usize, h: usize, fx: usize, fy: usize, mc: usize, zone: bool) -> (r: (Vec<(usize, usize)>, Ghost<bool>))
    requires
        w * h <= MAX_CELLS,
        w <= MAX_CELLS,
        h <= MAX_CELLS,
        fx < w,
        fy < h,
        mc < w * h,
    ensures
        r.0@.len() >= mc,
        drawn(r.0@.subrange(0, mc as int), w as int, h as int, fx as int, fy as int, mc as int, r.1@),
        zone && crate::game::pool_set(w as int, h as int, fx as int, fy as int, 0).len() >= mc ==> r.1@,
        forall|i: int| 0 <= i < r.0@.len() ==> inside(w as int, h as int, (#[trigger] r.0@[i].0 as int, r.0@[i].1 as int)),
{
    let mut positions = candidate_positions(w, h, fx, fy, if zone { 0 } else { 1 });
    let ghost mut zone_free = zone;
    proof {
        if zone {
            positions@.unique_seq_to_set();
            assert(positions@.to_set() =~= crate::game::pool_set(w as int, h as int, fx as int, fy as int, 0));
        }
    }
    if positions.len() < mc {
        positions = candidate_positions(w, h, fx, fy, 1);
        proof {
            zone_free = false;
        }
    }
    let ghost before = positions@;
    assert(positions@.len() >= mc) by {
        assert(w * h >= 1);
    }
    shuffle_positions(&mut positions);
    proof {
        lemma_shuffled(before, positions@);
        assert forall|i: int| 0 <= i < positions@.len() implies inside(w as int, h as int, (#[trigger] positions@[i].0 as int, positions@[i].1 as int)) by {
            assert(positions@.contains(positions@[i]));
        }
        let chosen = positions@.subrange(0, mc as int);
        assert forall|k: int| 0 <= k < chosen.len() implies in_pool(w as int, h as int, fx as int, fy as int, 1, (#[trigger] chosen[k].0 as int, chosen[k].1 as int))
            && (zone_free ==> !in_zone(fx as int, fy as int, (chosen[k].0 as int, chosen[k].1 as int))) by {
            assert(positions@.contains(positions@[k]));
            assert(before.contains(positions@[k]));
        }
    }
    (positions, Ghost(zone_free))
}

impl CwGame {
    /// Everything but the Ready clause of `wf`.
    pub open spec fn wf_core(self) -> bool {
        &&& 1 <= self.width
        &&& 1 <= self.height
        &&& self.width * self.height <= MAX_CELLS
        &&& self.width <= MAX_CELLS
        &&& self.height <= MAX_CELLS
        &&& board_shaped(self.a@, self.width as int, self.height as int)
        &&& board_shaped(self.b@, self.width as int, self.height as int)
        &&& self.mine_count < self.width * self.height
        &&& self.total_safe == (self.width * self.height - self.mine_count) * 2
        &&& self.safe_revealed == cw_total(self.board(0), |c: CwCell| revealed_safe(c)) + cw_total(
            self.board(1),
            |c: CwCell| revealed_safe(c),
        )
        &&& self.flag_count() <= self.flags_placed
        &&& (self.state == GameState::Ready || self.state == GameState::Playing) ==> self.flags_placed
            == self.flag_count()
        &&& self.flags_placed <= 2 * MAX_CELLS
    }

    /// The flags on both boards.
    pub open spec fn flag_count(self) -> int {
        cw_total(self.board(0), |c: CwCell| flagged(c)) + cw_total(self.board(1), |c: CwCell| flagged(c))
    }

    /// Set every count: each cell counts the mines around it on the other board.
    fn compute_adj(&mut self)
        requires
            old(self).wf_core(),
        ensures
            final(self).wf_core(),
            final(self).counts_right(),
            *final(self) == (CwGame { a: final(self).a, b: final(self).b, ..*old(self) }),
            forall|k: int, x: int, y: int|
                0 <= k < 2 && old(self).in_bounds(x, y) ==> same_but_adj(#[trigger] final(self).at(k, x, y), old(self).at(k, x, y)),
    {
        let ghost g0 = *self;
        let w = self.width;
        let h = self.height;
        for y in 0..h
            invariant
                w == self.width,
                h == self.height,
                *self == (CwGame { a: self.a, b: self.b, ..g0 }),
                board_shaped(self.a@, w as int, h as int),
                board_shaped(self.b@, w as int, h as int),
                forall|k: int, i: int, j: int|
                    0 <= k < 2 && self.in_bounds(i, j) ==> same_but_adj(#[trigger] self.at(k, i, j), g0.at(k, i, j)),
                forall|i: int, j: int|
                    self.in_bounds(i, j) && j < y ==> #[trigger] self.at(0, i, j).adj == mines_around(g0.board(1), w as int, h as int, i, j)
                        && self.at(1, i, j).adj == mines_around(g0.board(0), w as int, h as int, i, j),
        {
            for x in 0..w
                invariant
                    w == self.width,
                    h == self.height,
                    y < h,
                    *self == (CwGame { a: self.a, b: self.b, ..g0 }),
                    board_shaped(self.a@, w as int, h as int),
                    board_shaped(self.b@, w as int, h as int),
                    forall|k: int, i: int, j: int|
                        0 <= k < 2 && self.in_bounds(i, j) ==> same_but_adj(#[trigger] self.at(k, i, j), g0.at(k, i, j)),
                    forall|i: int, j: int|
                        self.in_bounds(i, j) && (j < y || (j == y && i < x)) ==> #[trigger] self.at(0, i, j).adj == mines_around(g0.board(1), w as int, h as int, i, j)
                            && self.at(1, i, j).adj == mines_around(g0.board(0), w as int, h as int, i, j),
            {
                proof {
                    assert forall|k: int| 0 <= k < 2 implies #[trigger] mine_grid_eq(self.board(k), g0.board(k), w as int, h as int) by {
                        assert forall|q: (int, int)| #[trigger] mine_at(self.board(k), w as int, h as int, q) == mine_at(g0.board(k), w as int, h as int, q) by {
                            if inside(w as int, h as int, q) {
                                assert(self.at(k, q.0, q.1).is_mine == g0.at(k, q.0, q.1).is_mine);
                            }
                        }
                        assert((|q: (int, int)| mine_at(self.board(k), w as int, h as int, q)) =~= (|q: (int, int)| mine_at(g0.board(k), w as int, h as int, q)));
                    }
                    assert(mine_grid_eq(self.board(0), g0.board(0), w as int, h as int));
                    assert(mine_grid_eq(self.board(1), g0.board(1), w as int, h as int));
                }
                let from_a = count_mines_around(&self.a, w, h, x, y);
                let from_b = count_mines_around(&self.b, w, h, x, y);
                assert(self.a@[y as int]@.len() == w);
                assert(self.b@[y as int]@.len() == w);
                let ca = self.a[y][x];
                let cb = self.b[y][x];
                let ghost before = *self;
                board_put(&mut self.a, x, y, CwCell { adj: from_b, ..ca });
                board_put(&mut self.b, x, y, CwCell { adj: from_a, ..cb });
                proof {
                    assert(ca == before.at(0, x as int, y as int));
                    assert(cb == before.at(1, x as int, y as int));
                    assert(self.at(0, x as int, y as int).adj == from_b);
                    assert(self.at(1, x as int, y as int).adj == from_a);
                    assert(from_b == mines_around(g0.board(1), w as int, h as int, x as int, y as int));
                    assert(from_a == mines_around(g0.board(0), w as int, h as int, x as int, y as int));
                    assert forall|k: int, i: int, j: int| 0 <= k < 2 && self.in_bounds(i, j) && (i, j) != (x as int, y as int) implies
                        #[trigger] self.at(k, i, j) == before.at(k, i, j) by {}
                    assert forall|k: int, i: int, j: int|
                        0 <= k < 2 && self.in_bounds(i, j) implies same_but_adj(#[trigger] self.at(k, i, j), g0.at(k, i, j)) by {
                        assert(same_but_adj(before.at(k, i, j), g0.at(k, i, j)));
                    }
                }
            }
        }
        proof {
            assert forall|k: int| 0 <= k < 2 implies #[trigger] mine_grid_eq(self.board(k), g0.board(k), self.width as int, self.height as int) by {
                assert forall|q: (int, int)| #[trigger] mine_at(self.board(k), w as int, h as int, q) == mine_at(g0.board(k), w as int, h as int, q) by {
                    if inside(w as int, h as int, q) {
                        assert(self.at(k, q.0, q.1).is_mine == g0.at(k, q.0, q.1).is_mine);
                    }
                }
                assert((|q: (int, int)| mine_at(self.board(k), w as int, h as int, q)) =~= (|q: (int, int)| mine_at(g0.board(k), w as int, h as int, q)));
            }
            assert(mine_grid_eq(self.board(0), g0.board(0), w as int, h as int));
            assert(mine_grid_eq(self.board(1), g0.board(1), w as int, h as int));
            // The counters: no cell changed state or mine.
            assert forall|k: int, i: int, j: int| 0 <= k < 2 && 0 <= i < w && 0 <= j < h implies
                same_but_adj(#[trigger] self.board(k)[j][i], g0.board(k)[j][i]) by {
                assert(same_but_adj(self.at(k, i, j), g0.at(k, i, j)));
            }
            assert forall|j: int| 0 <= j < h implies (#[trigger] self.board(0)[j]).len() == w && self.board(1)[j].len() == w
                && g0.board(0)[j].len() == w && g0.board(1)[j].len() == w by {
                assert(self.a@[j]@.len() == w);
                assert(self.b@[j]@.len() == w);
                assert(g0.a@[j]@.len() == w);
                assert(g0.b@[j]@.len() == w);
            }
            assert forall|c: CwCell, d: CwCell| same_but_adj(c, d) implies #[trigger] revealed_safe(c) == #[trigger] revealed_safe(d) && flagged(c) == flagged(d) by {}
            lemma_same_total(g0.board(0), self.board(0), w as int, h as int, |c: CwCell| revealed_safe(c));
            lemma_same_total(g0.board(1), self.board(1), w as int, h as int, |c: CwCell| revealed_safe(c));
            lemma_same_total(g0.board(0), self.board(0), w as int, h as int, |c: CwCell| flagged(c));
            lemma_same_total(g0.board(1), self.board(1), w as int, h as int, |c: CwCell| flagged(c));
        }
    }
}

/// `c` is `d` with perhaps another count.
pub open spec fn same_but_adj(c: CwCell, d: CwCell) -> bool {
    c == CwCell { adj: c.adj, ..d }
}

/// Two boards with the same mines in the same places.
pub open spec fn mine_grid_eq(a: Seq<Seq<CwCell>>, b: Seq<Seq<CwCell>>, w: int, h: int) -> bool {
    (|q: (int, int)| mine_at(a, w, h, q)) == (|q: (int, int)| mine_at(b, w, h, q))
}

/// Boards whose cells differ only in their counts have the same totals of
/// any value that ignores the counts.
pub proof fn lemma_same_total(a: Seq<Seq<CwCell>>, b: Seq<Seq<CwCell>>, w: int, h: int, f: spec_fn(CwCell) -> int)
    requires
        a.len() == h,
        b.len() == h,
        forall|j: int| 0 <= j < h ==> (#[trigger] a[j]).len() == w && b[j].len() == w,
        forall|i: int, j: int| 0 <= i < w && 0 <= j < h ==> same_but_adj(#[trigger] b[j][i], a[j][i]),
        forall|c: CwCell, d: CwCell| same_but_adj(c, d) ==> #[trigger] f(c) == #[trigger] f(d),
    ensures
        cw_total(a, f) == cw_total(b, f),
{
    let rf = |r: Seq<CwCell>| sum(r.map_values(f));
    assert forall|j: int| 0 <= j < h implies #[trigger] a.map_values(rf)[j] == b.map_values(rf)[j] by {
        assert forall|i: int| 0 <= i < w implies #[trigger] a[j].map_values(f)[i] == b[j].map_values(f)[i] by {
            assert(same_but_adj(b[j][i], a[j][i]));
        }
        assert(a[j].map_values(f) =~= b[j].map_values(f));
    }
    assert(a.map_values(rf) =~= b.map_values(rf));
}

/// Reveal every mine of a board; nothing else changes.
fn reveal_board_mines(b: &mut Vec<Vec<CwCell>>, w: usize, h: usize)
    requires
        board_shaped(old(b)@, w as int, h as int),
    ensures
        board_shaped(final(b)@, w as int, h as int),
        forall|i: int, j: int|
            0 <= i < w && 0 <= j < h ==> #[trigger] bview(final(b)@)[j][i] == if bview(old(b)@)[j][i].is_mine {
                CwCell { state: CwState::Revealed, ..bview(old(b)@)[j][i] }
            } else {
                bview(old(b)@)[j][i]
            },
        cw_total(bview(final(b)@), |c: CwCell| revealed_safe(c)) == cw_total(bview(old(b)@), |c: CwCell| revealed_safe(c)),
        cw_total(bview(final(b)@), |c: CwCell| flagged(c)) <= cw_total(bview(old(b)@), |c: CwCell| flagged(c)),
{
    let ghost b0 = bview(b@);
    for y in 0..h
        invariant
            board_shaped(b@, w as int, h as int),
            b0.len() == h,
            forall|i: int, j: int|
                0 <= i < w && 0 <= j < h ==> #[trigger] bview(b@)[j][i] == if j < y && b0[j][i].is_mine {
                    CwCell { state: CwState::Revealed, ..b0[j][i] }
                } else {
                    b0[j][i]
                },
            cw_total(bview(b@), |c: CwCell| revealed_safe(c)) == cw_total(b0, |c: CwCell| revealed_safe(c)),
            cw_total(bview(b@), |c: CwCell| flagged(c)) <= cw_total(b0, |c: CwCell| flagged(c)),
    {
        for x in 0..w
            invariant
                board_shaped(b@, w as int, h as int),
                b0.len() == h,
                y < h,
                forall|i: int, j: int|
                    0 <= i < w && 0 <= j < h ==> #[trigger] bview(b@)[j][i] == if (j < y || (j == y && i < x)) && b0[j][i].is_mine {
                        CwCell { state: CwState::Revealed, ..b0[j][i] }
                    } else {
                        b0[j][i]
                    },
                cw_total(bview(b@), |c: CwCell| revealed_safe(c)) == cw_total(b0, |c: CwCell| revealed_safe(c)),
                cw_total(bview(b@), |c: CwCell| flagged(c)) <= cw_total(b0, |c: CwCell| flagged(c)),
        {
            assert(b@[y as int]@.len() == w);
            let c = b[y][x];
            if c.is_mine {
                let nc = CwCell { state: CwState::Revealed, ..c };
                proof {
                    assert(c == bview(b@)[y as int][x as int]);
                    lemma_cw_set(bview(b@), x as int, y as int, nc, |c: CwCell| revealed_safe(c));
                    lemma_cw_set(bview(b@), x as int, y as int, nc, |c: CwCell| flagged(c));
                }
                board_put(b, x, y, nc);
            }
        }
    }
}

impl CwGame {
    /// Board `k`'s mines are exactly on the positions `chosen`.
    pub open spec fn mines_on(self, k: int, chosen: Seq<(usize, usize)>) -> bool {
        forall|x: int, y: int| self.in_bounds(x, y) ==> #[trigger] self.at(k, x, y).is_mine == ipos(chosen).contains((x, y))
    }

    /// `f` is this fresh game with the mines placed for a first click on
    /// (`fx`, `fy`) of board `first`: each board gets `mine_count` mines,
    /// never on the clicked position, and the clicked board none in the 3x3
    /// block around it while there is room; then every count is set.
    pub open spec fn placed_for(self, f: CwGame, fx: int, fy: int, first: int) -> bool {
        &&& f.wf_core()
        &&& f.counts_right()
        &&& f == (CwGame { a: f.a, b: f.b, ..self })
        &&& forall|k: int, x: int, y: int|
            0 <= k < 2 && self.in_bounds(x, y) ==> (#[trigger] f.at(k, x, y)).state == CwState::Hidden
        &&& exists|ca: Seq<(usize, usize)>, cb: Seq<(usize, usize)>, za: bool, zb: bool|
            #![trigger drawn(ca, self.width as int, self.height as int, fx, fy, self.mine_count as int, za), drawn(cb, self.width as int, self.height as int, fx, fy, self.mine_count as int, zb)]
            drawn(ca, self.width as int, self.height as int, fx, fy, self.mine_count as int, za) && drawn(
                cb,
                self.width as int,
                self.height as int,
                fx,
                fy,
                self.mine_count as int,
                zb,
            ) && (first == 0 && crate::game::pool_set(self.width as int, self.height as int, fx, fy, 0).len()
                >= self.mine_count ==> za) && (first == 1 && crate::game::pool_set(
                self.width as int,
                self.height as int,
                fx,
                fy,
                0,
            ).len() >= self.mine_count ==> zb) && f.mines_on(0, ca) && f.mines_on(1, cb)
    }

    /// Place both boards' mines for a first click on (`fx`, `fy`) of board
    /// `first`, then set every count.
    fn place_mines(&mut self, fx: usize, fy: usize, first: usize)
        requires
            old(self).wf(),
            old(self).state == GameState::Ready,
            fx < old(self).width,
            fy < old(self).height,
        ensures
            old(self).placed_for(*final(self), fx as int, fy as int, first as int),
    {
        let ghost g0 = *self;
        let w = self.width;
        let h = self.height;
        let mc = self.mine_count;
        let (pa, za) = draw_positions(w, h, fx, fy, mc, first == 0);
        lay_board(&mut self.a, w, h, &pa, mc);
        let (pb, zb) = draw_positions(w, h, fx, fy, mc, first == 1);
        lay_board(&mut self.b, w, h, &pb, mc);
        let ghost laid = *self;
        proof {
            assert forall|k: int, x: int, y: int| 0 <= k < 2 && self.in_bounds(x, y) implies (#[trigger] self.at(k, x, y)).state == CwState::Hidden by {
                assert(g0.at(k, x, y).state == CwState::Hidden);
            }
            assert forall|k: int, j: int, i: int| 0 <= k < 2 && 0 <= j < self.board(k).len() && 0 <= i < self.board(k)[j].len() implies
                revealed_safe(#[trigger] self.board(k)[j][i]) == 0 && flagged(self.board(k)[j][i]) == 0 by {
                if k == 0 {
                    assert(self.board(k)[j] == self.a@[j]@);
                } else {
                    assert(self.board(k)[j] == self.b@[j]@);
                }
                assert(self.at(k, i, j).state == CwState::Hidden);
            }
            assert forall|j: int, i: int| 0 <= j < self.board(0).len() && 0 <= i < self.board(0)[j].len() implies
                revealed_safe(#[trigger] self.board(0)[j][i]) == 0 && flagged(self.board(0)[j][i]) == 0 by {}
            assert forall|j: int, i: int| 0 <= j < self.board(1).len() && 0 <= i < self.board(1)[j].len() implies
                revealed_safe(#[trigger] self.board(1)[j][i]) == 0 && flagged(self.board(1)[j][i]) == 0 by {}
            lemma_cw_zero(self.board(0), |c: CwCell| revealed_safe(c));
            lemma_cw_zero(self.board(1), |c: CwCell| revealed_safe(c));
            lemma_cw_zero(self.board(0), |c: CwCell| flagged(c));
            lemma_cw_zero(self.board(1), |c: CwCell| flagged(c));
            assert forall|j: int, i: int| 0 <= j < g0.board(0).len() && 0 <= i < g0.board(0)[j].len() implies
                revealed_safe(#[trigger] g0.board(0)[j][i]) == 0 && flagged(g0.board(0)[j][i]) == 0 by {
                assert(g0.board(0)[j] == g0.a@[j]@);
                assert(g0.at(0, i, j).state == CwState::Hidden);
            }
            assert forall|j: int, i: int| 0 <= j < g0.board(1).len() && 0 <= i < g0.board(1)[j].len() implies
                revealed_safe(#[trigger] g0.board(1)[j][i]) == 0 && flagged(g0.board(1)[j][i]) == 0 by {
                assert(g0.board(1)[j] == g0.b@[j]@);
                assert(g0.at(1, i, j).state == CwState::Hidden);
            }
            lemma_cw_zero(g0.board(0), |c: CwCell| revealed_safe(c));
            lemma_cw_zero(g0.board(1), |c: CwCell| revealed_safe(c));
            lemma_cw_zero(g0.board(0), |c: CwCell| flagged(c));
            lemma_cw_zero(g0.board(1), |c: CwCell| flagged(c));
        }
        self.compute_adj();
        proof {
            let ca = pa@.subrange(0, mc as int);
            let cb = pb@.subrange(0, mc as int);
            assert(ipos(pa@).subrange(0, mc as int) =~= ipos(ca));
            assert(ipos(pb@).subrange(0, mc as int) =~= ipos(cb));
            assert forall|x: int, y: int| self.in_bounds(x, y) implies #[trigger] self.at(0, x, y).is_mine == ipos(ca).contains((x, y))
                && self.at(1, x, y).is_mine == ipos(cb).contains((x, y)) by {
                assert(same_but_adj(self.at(0, x, y), laid.at(0, x, y)));
                assert(same_but_adj(self.at(1, x, y), laid.at(1, x, y)));
                assert(laid.at(0, x, y) == bview(laid.a@)[y][x]);
                assert(laid.at(1, x, y) == bview(laid.b@)[y][x]);
                assert(!g0.at(0, x, y).is_mine);
                assert(!g0.at(1, x, y).is_mine);
                assert(g0.at(0, x, y) == bview(g0.a@)[y][x]);
                assert(g0.at(1, x, y) == bview(g0.b@)[y][x]);
            }
            assert(self.mines_on(0, ca));
            assert forall|x: int, y: int| self.in_bounds(x, y) implies #[trigger] self.at(1, x, y).is_mine == ipos(cb).contains((x, y)) by {
                assert(self.at(0, x, y).is_mine == ipos(ca).contains((x, y)));
            }
            assert(self.mines_on(1, cb));
            assert(drawn(ca, w as int, h as int, fx as int, fy as int, mc as int, za@));
            assert(drawn(cb, w as int, h as int, fx as int, fy as int, mc as int, zb@));
            assert(g0.placed_for(*self, fx as int, fy as int, first as int));
        }
    }
}

impl CwGame {
    /// The board a click on `board` goes to: 0 is the left one, any other
    /// number the right one.
    pub open spec fn board_index(board: usize) -> int {
        if board == 0 {
            0
        } else {
            1
        }
    }

    /// `f` and `r` are what a click on (`x`, `y`) of board `k` does to this
    /// game once its mines are placed: nothing unless the game is live and
    /// the cell hidden; a mine loses and shows every mine of both boards;
    /// otherwise the cell is revealed, counted, and the game won when every
    /// mine-free cell is.
    pub open spec fn opened(self, f: CwGame, r: bool, k: int, x: int, y: int) -> bool {
        let c = self.at(k, x, y);
        if self.state != GameState::Playing || c.state != CwState::Hidden {
            !r && f == self
        } else if c.is_mine {
            &&& r
            &&& f == (CwGame { a: f.a, b: f.b, state: GameState::Lost, ..self })
            &&& forall|k2: int, i: int, j: int|
                0 <= k2 < 2 && self.in_bounds(i, j) ==> #[trigger] f.at(k2, i, j) == if self.at(k2, i, j).is_mine {
                    CwCell { state: CwState::Revealed, ..self.at(k2, i, j) }
                } else {
                    self.at(k2, i, j)
                }
        } else {
            &&& r
            &&& f == (CwGame {
                a: f.a,
                b: f.b,
                safe_revealed: (self.safe_revealed + 1) as usize,
                state: if self.safe_revealed + 1 >= self.total_safe {
                    GameState::Won
                } else {
                    GameState::Playing
                },
                ..self
            })
            &&& forall|k2: int, i: int, j: int|
                0 <= k2 < 2 && self.in_bounds(i, j) ==> #[trigger] f.at(k2, i, j) == if k2 == k && i == x && j == y {
                    CwCell { state: CwState::Revealed, ..self.at(k2, i, j) }
                } else {
                    self.at(k2, i, j)
                }
        }
    }

    /// Set the state of one cell of board `k`; the counters are the caller's.
    fn put_state(&mut self, k: usize, x: usize, y: usize, st: CwState)
        requires
            old(self).wf_core(),
            old(self).in_bounds(x as int, y as int),
        ensures
            *final(self) == (CwGame { a: final(self).a, b: final(self).b, ..*old(self) }),
            board_shaped(final(self).a@, old(self).width as int, old(self).height as int),
            board_shaped(final(self).b@, old(self).width as int, old(self).height as int),
            forall|k2: int, i: int, j: int|
                0 <= k2 < 2 && old(self).in_bounds(i, j) ==> #[trigger] final(self).at(k2, i, j) == if k2 == CwGame::board_index(k) && i == x && j == y {
                    CwCell { state: st, ..old(self).at(k2, i, j) }
                } else {
                    old(self).at(k2, i, j)
                },
            final(self).board(CwGame::board_index(k)) == old(self).board(CwGame::board_index(k)).update(
                y as int,
                old(self).board(CwGame::board_index(k))[y as int].update(
                    x as int,
                    CwCell { state: st, ..old(self).at(CwGame::board_index(k), x as int, y as int) },
                ),
            ),
            final(self).board(1 - CwGame::board_index(k)) == old(self).board(1 - CwGame::board_index(k)),
    {
        if k == 0 {
            assert(self.a@[y as int]@.len() == self.width);
            let c = self.a[y][x];
            board_put(&mut self.a, x, y, CwCell { state: st, ..c });
        } else {
            assert(self.b@[y as int]@.len() == self.width);
            let c = self.b[y][x];
            board_put(&mut self.b, x, y, CwCell { state: st, ..c });
        }
    }

    /// A left click on (`x`, `y`) of board `board`. The first click places
    /// the mines around it and starts play; then `opened` says what happens.
    /// Returns whether anything happened.
    pub fn reveal_cell(&mut self, x: usize, y: usize, board: usize) -> (r: bool)
        requires
            old(self).wf(),
            old(self).in_bounds(x as int, y as int),
        ensures
            final(self).wf(),
            old(self).state != GameState::Ready ==> old(self).opened(
                *final(self),
                r,
                CwGame::board_index(board),
                x as int,
                y as int,
            ),
            old(self).state == GameState::Ready ==> exists|p: CwGame|
                #[trigger] old(self).placed_for(p, x as int, y as int, board as int) && (CwGame {
                    state: GameState::Playing,
                    ..p
                }).opened(*final(self), r, CwGame::board_index(board), x as int, y as int),
    {
        let ghost g0 = *self;
        let ghost k = CwGame::board_index(board);
        if matches!(self.state, GameState::Ready) {
            self.place_mines(x, y, board);
            self.state = GameState::Playing;
        }
        let ghost start = *self;
        if !matches!(self.state, GameState::Playing) {
            return false;
        }
        assert(self.a@[y as int]@.len() == self.width);
        assert(self.b@[y as int]@.len() == self.width);
        let c = if board == 0 { self.a[y][x] } else { self.b[y][x] };
        assert(c == self.at(k, x as int, y as int));
        if !matches!(c.state, CwState::Hidden) {
            return false;
        }
        proof {
            lemma_cw_set(start.board(k), x as int, y as int, CwCell { state: CwState::Revealed, ..c }, |c: CwCell| revealed_safe(c));
            lemma_cw_set(start.board(k), x as int, y as int, CwCell { state: CwState::Revealed, ..c }, |c: CwCell| flagged(c));
        }
        self.put_state(board, x, y, CwState::Revealed);
        let ghost opened1 = *self;
        if c.is_mine {
            self.state = GameState::Lost;
            let w = self.width;
            let h = self.height;
            reveal_board_mines(&mut self.a, w, h);
            reveal_board_mines(&mut self.b, w, h);
            proof {
                assert forall|k2: int, i: int, j: int| 0 <= k2 < 2 && start.in_bounds(i, j) implies #[trigger] self.at(k2, i, j) == if start.at(k2, i, j).is_mine {
                    CwCell { state: CwState::Revealed, ..start.at(k2, i, j) }
                } else {
                    start.at(k2, i, j)
                } by {
                    assert(opened1.at(k2, i, j) == if k2 == k && i == x && j == y {
                        CwCell { state: CwState::Revealed, ..start.at(k2, i, j) }
                    } else {
                        start.at(k2, i, j)
                    });
                    if k2 == 0 {
                        assert(self.at(k2, i, j) == bview(self.a@)[j][i]);
                        assert(opened1.at(k2, i, j) == bview(opened1.a@)[j][i]);
                    } else {
                        assert(self.at(k2, i, j) == bview(self.b@)[j][i]);
                        assert(opened1.at(k2, i, j) == bview(opened1.b@)[j][i]);
                    }
                }
                assert(start.opened(*self, true, k, x as int, y as int));
            }
            return true;
        }
        proof {
            let nb = self.board(k);
            assert forall|j: int| 0 <= j < nb.len() implies (#[trigger] nb[j]).len() == self.width by {
                if k == 0 {
                    assert(nb[j] == self.a@[j]@);
                } else {
                    assert(nb[j] == self.b@[j]@);
                }
            }
            let ob = self.board(1 - k);
            assert forall|j: int| 0 <= j < ob.len() implies (#[trigger] ob[j]).len() == self.width by {
                if k == 0 {
                    assert(ob[j] == self.b@[j]@);
                } else {
                    assert(ob[j] == self.a@[j]@);
                }
            }
            assert forall|c: CwCell| 0 <= #[trigger] revealed_safe(c) <= 1 by {}
            lemma_cw_bounds(nb, self.width as int, |c: CwCell| revealed_safe(c));
            lemma_cw_bounds(ob, self.width as int, |c: CwCell| revealed_safe(c));
            assert(self.height * self.width == self.width * self.height) by (nonlinear_arith);
        }
        self.safe_revealed = self.safe_revealed + 1;
        if self.safe_revealed >= self.total_safe {
            self.state = GameState::Won;
        }
        proof {
            assert(start.opened(*self, true, k, x as int, y as int));
        }
        true
    }

    /// Cycle the flag on (`x`, `y`) of board `board` while the game is live:
    /// hidden to flagged to hidden. Returns whether anything changed.
    pub fn toggle_flag(&mut self, x: usize, y: usize, board: usize) -> (r: bool)
        requires
            old(self).wf(),
            old(self).in_bounds(x as int, y as int),
        ensures
            final(self).wf(),
            r == (old(self).state == GameState::Playing && old(self).at(CwGame::board_index(board), x as int, y as int).state
                != CwState::Revealed),
            !r ==> *final(self) == *old(self),
            r ==> {
                let k = CwGame::board_index(board);
                let s = old(self).at(k, x as int, y as int).state;
                let t = if s == CwState::Hidden { CwState::Flagged } else { CwState::Hidden };
                &&& *final(self) == (CwGame {
                    a: final(self).a,
                    b: final(self).b,
                    flags_placed: if s == CwState::Hidden {
                        (old(self).flags_placed + 1) as usize
                    } else {
                        (old(self).flags_placed - 1) as usize
                    },
                    ..*old(self)
                })
                &&& forall|k2: int, i: int, j: int|
                    0 <= k2 < 2 && old(self).in_bounds(i, j) ==> #[trigger] final(self).at(k2, i, j) == if k2 == k && i == x && j == y {
                        CwCell { state: t, ..old(self).at(k2, i, j) }
                    } else {
                        old(self).at(k2, i, j)
                    }
            },
    {
        let ghost k = CwGame::board_index(board);
        if !matches!(self.state, GameState::Playing) {
            return false;
        }
        assert(self.a@[y as int]@.len() == self.width);
        assert(self.b@[y as int]@.len() == self.width);
        let c = if board == 0 { self.a[y][x] } else { self.b[y][x] };
        assert(c == self.at(k, x as int, y as int));
        let t = match c.state {
            CwState::Hidden => CwState::Flagged,
            CwState::Flagged => CwState::Hidden,
            CwState::Revealed => {
                return false;
            },
        };
        let ghost start = *self;
        proof {
            lemma_cw_set(start.board(k), x as int, y as int, CwCell { state: t, ..c }, |c: CwCell| revealed_safe(c));
            lemma_cw_set(start.board(k), x as int, y as int, CwCell { state: t, ..c }, |c: CwCell| flagged(c));
            let nb = start.board(k);
            let ob = start.board(1 - k);
            assert forall|j: int| 0 <= j < nb.len() implies (#[trigger] nb[j]).len() == self.width by {
                if k == 0 {
                    assert(nb[j] == self.a@[j]@);
                } else {
                    assert(nb[j] == self.b@[j]@);
                }
            }
            assert forall|j: int| 0 <= j < ob.len() implies (#[trigger] ob[j]).len() == self.width by {
                if k == 0 {
                    assert(ob[j] == self.b@[j]@);
                } else {
                    assert(ob[j] == self.a@[j]@);
                }
            }
            assert forall|c: CwCell| 0 <= #[trigger] flagged(c) <= 1 by {}
            lemma_cw_bounds(nb.update(y as int, nb[y as int].update(x as int, CwCell { state: t, ..c })), self.width as int, |c: CwCell| flagged(c));
            lemma_cw_bounds(ob, self.width as int, |c: CwCell| flagged(c));
            assert(self.height * self.width == self.width * self.height) by (nonlinear_arith);
        }
        self.put_state(board, x, y, t);
        if matches!(c.state, CwState::Hidden) {
            self.flags_placed = self.flags_placed + 1;
        } else {
            self.flags_placed = self.flags_placed - 1;
        }
        true
    }

    /// Show this game's state and counters on the common game record: the
    /// mine counter counts both boards' mines.
    pub fn sync_to(&self, game: &mut Game)
        requires
            self.wf(),
        ensures
            *final(game) == (Game {
                state: self.state,
                mine_count: (self.mine_count * 2) as usize,
                flags_placed: self.flags_placed,
                ..*old(game)
            }),
    {
        game.state = self.state;
        game.mine_count = self.mine_count * 2;
        game.flags_placed = self.flags_placed;
    }
}

} // verus!
