use vstd::prelude::*;
use crate::game::{Cell, CellState, GameState, flag_sign_weight, flag_is_correct};
use crate::sums::{sum, lemma_sum_update, lemma_sum_nonneg};

verus! {

/// The cell at position `p` = (column, row).
pub open spec fn at(c: Seq<Seq<Cell>>, p: (int, int)) -> Cell {
    c[p.1][p.0]
}

/// `p` lies on a `w` by `h` board.
pub open spec fn inside(w: int, h: int, p: (int, int)) -> bool {
    0 <= p.0 < w && 0 <= p.1 < h
}

/// `p` and `q` are distinct and touch (the eight-neighbourhood).
pub open spec fn adjacent(p: (int, int), q: (int, int)) -> bool {
    p != q && p.0 - 1 <= q.0 <= p.0 + 1 && p.1 - 1 <= q.1 <= p.1 + 1
}

/// A cell that a cascade opens: on the board, hidden and mine-free.
pub open spec fn opens(c: Seq<Seq<Cell>>, w: int, h: int, p: (int, int)) -> bool {
    inside(w, h, p) && at(c, p).state == CellState::Hidden && at(c, p).mines == 0
}

/// A cell through which a cascade spreads: one that it opens and that has
/// no mine around it.
pub open spec fn spreads(c: Seq<Seq<Cell>>, w: int, h: int, p: (int, int)) -> bool {
    opens(c, w, h, p) && at(c, p).adjacent_mines == 0
}

/// `ps` is a path along which a cascade from `s` travels: it starts next to
/// `s`, each step goes to a neighbour, every cell but the last is one the
/// cascade spreads through, and the last is one it opens.
pub open spec fn cascade_path(c: Seq<Seq<Cell>>, w: int, h: int, s: (int, int), ps: Seq<(int, int)>) -> bool {
    &&& ps.len() >= 1
    &&& adjacent(s, ps[0])
    &&& forall|i: int|
        0 <= i < ps.len() - 1 ==> spreads(c, w, h, #[trigger] ps[i]) && adjacent(ps[i], ps[i + 1])
    &&& opens(c, w, h, ps.last())
}

/// `p` is opened by the cascade from `s`.
pub open spec fn in_cascade(c: Seq<Seq<Cell>>, w: int, h: int, s: (int, int), p: (int, int)) -> bool {
    exists|ps: Seq<(int, int)>| #[trigger] cascade_path(c, w, h, s, ps) && ps.last() == p
}

/// The board after a cascade from `s`: every cell the cascade opens is revealed.
pub open spec fn cascaded(c: Seq<Seq<Cell>>, w: int, h: int, s: (int, int)) -> Seq<Seq<Cell>> {
    Seq::new(
        c.len(),
        |y: int|
            Seq::new(
                c[y].len(),
                |x: int|
                    if in_cascade(c, w, h, s, (x, y)) {
                        Cell { state: CellState::Revealed, ..c[y][x] }
                    } else {
                        c[y][x]
                    },
            ),
    )
}

/// A board of `h` rows of `w` cells.
pub open spec fn shaped(c: Seq<Seq<Cell>>, w: int, h: int) -> bool {
    c.len() == h && forall|y: int| 0 <= y < h ==> (#[trigger] c[y]).len() == w
}

/// Between `a` and `b` cells only went from hidden to revealed.
pub open spec fn monotone(a: Seq<Seq<Cell>>, b: Seq<Seq<Cell>>, w: int, h: int) -> bool {
    forall|p: (int, int)|
        inside(w, h, p) ==> #[trigger] at(b, p) == at(a, p) || (at(a, p).state == CellState::Hidden
            && at(b, p) == Cell { state: CellState::Revealed, ..at(a, p) })
}

/// Every cell that differs between `c0` and `c` is one that the cascade from
/// `s` opens, now revealed.
pub open spec fn cascade_sound(c0: Seq<Seq<Cell>>, c: Seq<Seq<Cell>>, w: int, h: int, s: (int, int)) -> bool {
    forall|p: (int, int)|
        inside(w, h, p) ==> #[trigger] at(c, p) == at(c0, p) || (at(c, p) == Cell {
            state: CellState::Revealed,
            ..at(c0, p)
        } && in_cascade(c0, w, h, s, p))
}

/// No neighbour of `q` is still waiting to be opened.
pub open spec fn closed_at(c: Seq<Seq<Cell>>, w: int, h: int, q: (int, int)) -> bool {
    &&& !opens(c, w, h, (q.0 - 1, q.1 - 1))
    &&& !opens(c, w, h, (q.0, q.1 - 1))
    &&& !opens(c, w, h, (q.0 + 1, q.1 - 1))
    &&& !opens(c, w, h, (q.0 - 1, q.1))
    &&& !opens(c, w, h, (q.0 + 1, q.1))
    &&& !opens(c, w, h, (q.0 - 1, q.1 + 1))
    &&& !opens(c, w, h, (q.0, q.1 + 1))
    &&& !opens(c, w, h, (q.0 + 1, q.1 + 1))
}

/// Indicator of a hidden cell.
pub open spec fn hidden_ind(c: Cell) -> int {
    if c.state == CellState::Hidden {
        1
    } else {
        0
    }
}

/// Number of hidden cells of a board.
pub open spec fn hidden_count(g: Seq<Seq<Cell>>) -> int {
    sum(g.map_values(|r: Seq<Cell>| sum(r.map_values(|c: Cell| hidden_ind(c)))))
}

/// Replacing one cell changes the hidden count by the difference.
pub proof fn lemma_hidden_set(g: Seq<Seq<Cell>>, x: int, y: int, c: Cell)
    requires
        0 <= y < g.len(),
        0 <= x < g[y].len(),
    ensures
        hidden_count(g.update(y, g[y].update(x, c))) == hidden_count(g) - hidden_ind(g[y][x])
            + hidden_ind(c),
{
    let r = g[y];
    let f = |c: Cell| hidden_ind(c);
    lemma_sum_update(r.map_values(f), x, f(c));
    assert(r.update(x, c).map_values(f) =~= r.map_values(f).update(x, f(c)));
    let rf = |r: Seq<Cell>| sum(r.map_values(|c: Cell| hidden_ind(c)));
    lemma_sum_update(g.map_values(rf), y, rf(r.update(x, c)));
    assert(g.update(y, g[y].update(x, c)).map_values(rf) =~= g.map_values(rf).update(
        y,
        rf(r.update(x, c)),
    ));
}

/// The hidden count is never negative.
pub proof fn lemma_hidden_nonneg(g: Seq<Seq<Cell>>)
    ensures
        0 <= hidden_count(g),
{
    let f = |c: Cell| hidden_ind(c);
    let rf = |r: Seq<Cell>| sum(r.map_values(|c: Cell| hidden_ind(c)));
    assert forall|j: int| 0 <= j < g.len() implies 0 <= #[trigger] g.map_values(rf)[j] by {
        lemma_sum_nonneg(g[j].map_values(f));
    }
    lemma_sum_nonneg(g.map_values(rf));
}

/// Closure survives later openings.
pub proof fn lemma_closed_mono(a: Seq<Seq<Cell>>, b: Seq<Seq<Cell>>, w: int, h: int, q: (int, int))
    requires
        monotone(a, b, w, h),
        closed_at(a, w, h, q),
    ensures
        closed_at(b, w, h, q),
{
    assert(at(b, (q.0 - 1, q.1 - 1)) == at(a, (q.0 - 1, q.1 - 1)) || !opens(b, w, h, (q.0 - 1, q.1 - 1)));
    assert(at(b, (q.0, q.1 - 1)) == at(a, (q.0, q.1 - 1)) || !opens(b, w, h, (q.0, q.1 - 1)));
    assert(at(b, (q.0 + 1, q.1 - 1)) == at(a, (q.0 + 1, q.1 - 1)) || !opens(b, w, h, (q.0 + 1, q.1 - 1)));
    assert(at(b, (q.0 - 1, q.1)) == at(a, (q.0 - 1, q.1)) || !opens(b, w, h, (q.0 - 1, q.1)));
    assert(at(b, (q.0 + 1, q.1)) == at(a, (q.0 + 1, q.1)) || !opens(b, w, h, (q.0 + 1, q.1)));
    assert(at(b, (q.0 - 1, q.1 + 1)) == at(a, (q.0 - 1, q.1 + 1)) || !opens(b, w, h, (q.0 - 1, q.1 + 1)));
    assert(at(b, (q.0, q.1 + 1)) == at(a, (q.0, q.1 + 1)) || !opens(b, w, h, (q.0, q.1 + 1)));
    assert(at(b, (q.0 + 1, q.1 + 1)) == at(a, (q.0 + 1, q.1 + 1)) || !opens(b, w, h, (q.0 + 1, q.1 + 1)));
}

/// A closed cell leaves none of its neighbours to open.
pub proof fn lemma_closed_adjacent(c: Seq<Seq<Cell>>, w: int, h: int, q: (int, int), r: (int, int))
    requires
        closed_at(c, w, h, q),
        adjacent(q, r),
    ensures
        !opens(c, w, h, r),
{
    if r.1 == q.1 - 1 {
        if r.0 == q.0 - 1 {
            assert(r == (q.0 - 1, q.1 - 1));
        } else if r.0 == q.0 {
            assert(r == (q.0, q.1 - 1));
        } else {
            assert(r == (q.0 + 1, q.1 - 1));
        }
    } else if r.1 == q.1 {
        if r.0 == q.0 - 1 {
            assert(r == (q.0 - 1, q.1));
        } else {
            assert(r == (q.0 + 1, q.1));
        }
    } else {
        if r.0 == q.0 - 1 {
            assert(r == (q.0 - 1, q.1 + 1));
        } else if r.0 == q.0 {
            assert(r == (q.0, q.1 + 1));
        } else {
            assert(r == (q.0 + 1, q.1 + 1));
        }
    }
}

/// Monotone steps compose.
pub proof fn lemma_monotone_trans(a: Seq<Seq<Cell>>, b: Seq<Seq<Cell>>, c: Seq<Seq<Cell>>, w: int, h: int)
    requires
        monotone(a, b, w, h),
        monotone(b, c, w, h),
    ensures
        monotone(a, c, w, h),
{
    assert forall|p: (int, int)| inside(w, h, p) implies #[trigger] at(c, p) == at(a, p) || (at(a, p).state
        == CellState::Hidden && at(c, p) == Cell { state: CellState::Revealed, ..at(a, p) }) by {
        assert(at(b, p) == at(a, p) || at(b, p) == Cell { state: CellState::Revealed, ..at(a, p) });
        assert(at(c, p) == at(b, p) || (at(b, p).state == CellState::Hidden && at(c, p) == Cell {
            state: CellState::Revealed,
            ..at(b, p)
        }));
    }
}

/// Extending a cascade path through a cell it spreads through.
pub proof fn lemma_path_extend(c: Seq<Seq<Cell>>, w: int, h: int, s: (int, int), ps: Seq<(int, int)>, q: (int, int))
    requires
        cascade_path(c, w, h, s, ps),
        spreads(c, w, h, ps.last()),
        adjacent(ps.last(), q),
        opens(c, w, h, q),
    ensures
        cascade_path(c, w, h, s, ps.push(q)),
        ps.push(q).last() == q,
{
    let qs = ps.push(q);
    assert forall|i: int| 0 <= i < qs.len() - 1 implies spreads(c, w, h, #[trigger] qs[i]) && adjacent(
        qs[i],
        qs[i + 1],
    ) by {
        if i < ps.len() - 1 {
            assert(qs[i] == ps[i] && qs[i + 1] == ps[i + 1]);
        } else {
            assert(qs[i] == ps.last());
        }
    }
}

/// The cascade is complete: if `s` and every changed cell with no mine
/// around it are closed on the final board `f`, and `f` only opened cells of
/// `c0`, then the last cell of every cascade path is revealed on `f`.
pub proof fn lemma_cascade_complete(
    c0: Seq<Seq<Cell>>,
    f: Seq<Seq<Cell>>,
    w: int,
    h: int,
    s: (int, int),
    ps: Seq<(int, int)>,
)
    requires
        monotone(c0, f, w, h),
        closed_at(f, w, h, s),
        forall|q: (int, int)|
            inside(w, h, q) && #[trigger] at(f, q) != at(c0, q) && at(c0, q).adjacent_mines == 0
                ==> closed_at(f, w, h, q),
        cascade_path(c0, w, h, s, ps),
    ensures
        at(f, ps.last()) == (Cell { state: CellState::Revealed, ..at(c0, ps.last()) }),
    decreases ps.len(),
{
    let p = ps.last();
    if ps.len() == 1 {
        lemma_closed_adjacent(f, w, h, s, p);
    } else {
        let qs = ps.drop_last();
        assert forall|i: int| 0 <= i < qs.len() - 1 implies spreads(c0, w, h, #[trigger] qs[i])
            && adjacent(qs[i], qs[i + 1]) by {
            assert(qs[i] == ps[i] && qs[i + 1] == ps[i + 1]);
        }
        let q = qs.last();
        assert(q == ps[ps.len() - 2]);
        assert(spreads(c0, w, h, q));
        assert(cascade_path(c0, w, h, s, qs));
        lemma_cascade_complete(c0, f, w, h, s, qs);
        assert(at(f, q) != at(c0, q));
        lemma_closed_adjacent(f, w, h, q, p);
    }
}

/// With soundness and completeness the final board is exactly the cascaded one.
pub proof fn lemma_cascade_exact(c0: Seq<Seq<Cell>>, f: Seq<Seq<Cell>>, w: int, h: int, s: (int, int))
    requires
        shaped(c0, w, h),
        shaped(f, w, h),
        monotone(c0, f, w, h),
        cascade_sound(c0, f, w, h, s),
        closed_at(f, w, h, s),
        forall|q: (int, int)|
            inside(w, h, q) && #[trigger] at(f, q) != at(c0, q) && at(c0, q).adjacent_mines == 0
                ==> closed_at(f, w, h, q),
    ensures
        f == cascaded(c0, w, h, s),
{
    let g = cascaded(c0, w, h, s);
    assert forall|y: int| 0 <= y < h implies #[trigger] f[y] =~= g[y] by {
        assert forall|x: int| 0 <= x < w implies f[y][x] == g[y][x] by {
            let p = (x, y);
            assert(at(f, p) == f[y][x]);
            if in_cascade(c0, w, h, s, p) {
                let ps = choose|ps: Seq<(int, int)>| #[trigger] cascade_path(c0, w, h, s, ps) && ps.last() == p;
                lemma_cascade_complete(c0, f, w, h, s, ps);
            }
        }
    }
    assert(f =~= g);
}

/// Between `a` and `b`, every changed cell with no mine around it (as of
/// `c0`) is closed on `b`.
pub open spec fn closes_changed(a: Seq<Seq<Cell>>, b: Seq<Seq<Cell>>, c0: Seq<Seq<Cell>>, w: int, h: int) -> bool {
    forall|q: (int, int)|
        inside(w, h, q) && #[trigger] at(b, q) != at(a, q) && at(c0, q).adjacent_mines == 0
            ==> closed_at(b, w, h, q)
}

/// A cell that is not waiting to be opened stays so.
pub proof fn lemma_not_opens_mono(a: Seq<Seq<Cell>>, b: Seq<Seq<Cell>>, w: int, h: int, p: (int, int))
    requires
        monotone(a, b, w, h),
        !opens(a, w, h, p),
    ensures
        !opens(b, w, h, p),
{
    if inside(w, h, p) {
        assert(at(b, p) == at(a, p) || at(b, p).state == CellState::Revealed);
    }
}

/// Closure of changed cells composes along monotone steps.
pub proof fn lemma_closes_trans(
    a: Seq<Seq<Cell>>,
    b: Seq<Seq<Cell>>,
    c: Seq<Seq<Cell>>,
    c0: Seq<Seq<Cell>>,
    w: int,
    h: int,
)
    requires
        closes_changed(a, b, c0, w, h),
        closes_changed(b, c, c0, w, h),
        monotone(b, c, w, h),
    ensures
        closes_changed(a, c, c0, w, h),
{
    assert forall|q: (int, int)|
        inside(w, h, q) && #[trigger] at(c, q) != at(a, q) && at(c0, q).adjacent_mines
            == 0 implies closed_at(c, w, h, q) by {
        if at(b, q) != at(a, q) {
            lemma_closed_mono(b, c, w, h, q);
        } else {
            assert(at(c, q) != at(b, q));
        }
    }
}

/// The neighbour offsets in scan order (`dx`, `dy` in 0..=2 stand for -1..=1).
pub open spec fn offset(k: int) -> (int, int) {
    if k == 0 {
        (0, 0)
    } else if k == 1 {
        (1, 0)
    } else if k == 2 {
        (2, 0)
    } else if k == 3 {
        (0, 1)
    } else if k == 4 {
        (2, 1)
    } else if k == 5 {
        (0, 2)
    } else if k == 6 {
        (1, 2)
    } else {
        (2, 2)
    }
}

/// The `k`-th neighbour of `p` in scan order.
pub open spec fn nb(p: (int, int), k: int) -> (int, int) {
    (p.0 + offset(k).0 - 1, p.1 + offset(k).1 - 1)
}

/// The neighbours of `p` among the first `k` in scan order that satisfy
/// `ok`, in scan order.
pub open spec fn nbs_where(p: (int, int), k: nat, ok: spec_fn((int, int)) -> bool) -> Seq<(int, int)>
    decreases k,
{
    if k == 0 {
        Seq::empty()
    } else {
        let rest = nbs_where(p, (k - 1) as nat, ok);
        if ok(nb(p, k - 1)) {
            rest.push(nb(p, k - 1))
        } else {
            rest
        }
    }
}

/// The `k`-th offset, executable.
pub fn offset_of(k: usize) -> (r: (usize, usize))
    requires
        k < 8,
    ensures
        r.0 == offset(k as int).0,
        r.1 == offset(k as int).1,
        r.0 <= 2,
        r.1 <= 2,
        !(r.0 == 1 && r.1 == 1),
{
    if k == 0 {
        (0, 0)
    } else if k == 1 {
        (1, 0)
    } else if k == 2 {
        (2, 0)
    } else if k == 3 {
        (0, 1)
    } else if k == 4 {
        (2, 1)
    } else if k == 5 {
        (0, 2)
    } else if k == 6 {
        (1, 2)
    } else {
        (2, 2)
    }
}

/// The `k`-th neighbour of (`x`, `y`) in scan order on a `w` by `h` board,
/// if it is on the board.
pub fn neighbor_of(w: usize, h: usize, x: usize, y: usize, k: usize) -> (r: Option<(usize, usize)>)
    requires
        x < w,
        y < h,
        k < 8,
    ensures
        match r {
            Some(q) => inside(w as int, h as int, nb((x as int, y as int), k as int)) && (q.0 as int, q.1 as int)
                == nb((x as int, y as int), k as int),
            None => !inside(w as int, h as int, nb((x as int, y as int), k as int)),
        },
{
    let (dx, dy) = offset_of(k);
    if (dx == 0 && x == 0) || (dy == 0 && y == 0) {
        return None;
    }
    if dx == 2 && x + 1 >= w {
        return None;
    }
    if dy == 2 && y + 1 >= h {
        return None;
    }
    Some((x + dx - 1, y + dy - 1))
}

/// The board with every cell that holds a mine revealed.
pub open spec fn mines_revealed(c: Seq<Seq<Cell>>) -> Seq<Seq<Cell>> {
    Seq::new(
        c.len(),
        |y: int|
            Seq::new(
                c[y].len(),
                |x: int|
                    if c[y][x].mines > 0 {
                        Cell { state: CellState::Revealed, ..c[y][x] }
                    } else {
                        c[y][x]
                    },
            ),
    )
}

/// Every mine-free cell of a `w` by `h` board is revealed.
pub open spec fn safe_all_revealed(c: Seq<Seq<Cell>>, w: int, h: int) -> bool {
    forall|p: (int, int)|
        inside(w, h, p) && #[trigger] at(c, p).mines == 0 ==> at(c, p).state == CellState::Revealed
}

/// The board with the cell at `p` revealed.
pub open spec fn revealed_at(c: Seq<Seq<Cell>>, p: (int, int)) -> Seq<Seq<Cell>> {
    c.update(p.1, c[p.1].update(p.0, Cell { state: CellState::Revealed, ..at(c, p) }))
}

/// What a left click on `p` does to a board whose mines are placed: the
/// cells, the game state and whether anything happened. A hidden mine-free
/// cell is revealed, a zero spreads the cascade, and uncovering the last
/// safe cell wins (unless the game is endless); a mine loses and shows all
/// mines.
pub open spec fn open_result(
    c: Seq<Seq<Cell>>,
    w: int,
    h: int,
    st: GameState,
    endless: bool,
    p: (int, int),
) -> (Seq<Seq<Cell>>, GameState, bool) {
    if !inside(w, h, p) || st != GameState::Playing || at(c, p).state != CellState::Hidden {
        (c, st, false)
    } else if at(c, p).mines > 0 {
        (mines_revealed(c), GameState::Lost, true)
    } else {
        let c1 = revealed_at(c, p);
        let c2 = if at(c, p).adjacent_mines == 0 {
            cascaded(c1, w, h, p)
        } else {
            c1
        };
        let st2 = if !endless && safe_all_revealed(c2, w, h) {
            GameState::Won
        } else {
            GameState::Playing
        };
        (c2, st2, true)
    }
}

/// Open the hidden neighbours of `p` in scan order, from the `k`-th on, each
/// with `open_result`; returns the board, the state and whether any opening
/// did something.
pub open spec fn sweep(
    c: Seq<Seq<Cell>>,
    w: int,
    h: int,
    st: GameState,
    endless: bool,
    p: (int, int),
    k: nat,
) -> (Seq<Seq<Cell>>, GameState, bool)
    decreases 8 - k,
{
    if k >= 8 {
        (c, st, false)
    } else {
        let q = nb(p, k as int);
        let first = if inside(w, h, q) && at(c, q).state == CellState::Hidden {
            open_result(c, w, h, st, endless, q)
        } else {
            (c, st, false)
        };
        let rest = sweep(first.0, w, h, first.1, endless, p, k + 1);
        (rest.0, rest.1, first.2 || rest.2)
    }
}

/// The signed flag weight at `q`, zero off the board.
pub open spec fn flag_at(c: Seq<Seq<Cell>>, w: int, h: int, q: (int, int)) -> int {
    if inside(w, h, q) {
        flag_sign_weight(at(c, q).state)
    } else {
        0
    }
}

/// The signed flag weight of the first `k` neighbours of `p` in scan order.
pub open spec fn flag_partial(c: Seq<Seq<Cell>>, w: int, h: int, p: (int, int), k: nat) -> int
    decreases k,
{
    if k == 0 {
        0
    } else {
        flag_partial(c, w, h, p, (k - 1) as nat) + flag_at(c, w, h, nb(p, k - 1))
    }
}

/// The signed flag weight around `p`.
pub open spec fn flag_sum(c: Seq<Seq<Cell>>, w: int, h: int, p: (int, int)) -> int {
    flag_partial(c, w, h, p, 8)
}

/// Every flag around `p` sits on the kind of mine it claims.
pub open spec fn flags_correct_around(c: Seq<Seq<Cell>>, w: int, h: int, p: (int, int)) -> bool {
    forall|k: int| 0 <= k < 8 && inside(w, h, #[trigger] nb(p, k)) ==> flag_is_correct(at(c, nb(p, k)))
}

/// The weight of `k` flags lies in `[-k, 3k]`.
pub proof fn lemma_flag_partial_bounds(c: Seq<Seq<Cell>>, w: int, h: int, p: (int, int), k: nat)
    ensures
        -(k as int) <= flag_partial(c, w, h, p, k) <= 3 * k,
    decreases k,
{
    if k > 0 {
        lemma_flag_partial_bounds(c, w, h, p, (k - 1) as nat);
    }
}

} // verus!
