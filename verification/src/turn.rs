//! A left click on a square board: the cell opens (on Chain only where
//! the chain reaches), or an open number chords, and then, while play goes on, the board's own rule acts after
//! the move: the board turns a quarter (Rotation), a row or column shifts
//! (Crosswalk), mines spread from the numbers just uncovered (Infection),
//! or every third move the mines drift (Drift).

use vstd::prelude::*;
use crate::cascade::{inside, at, shaped, open_result, sweep, mines_revealed, revealed_at, cascaded, in_cascade};
use crate::game::{Game, Cell, CellState, GameState, MAX_CELLS, grid_mines};
use crate::infection::no_negatives;
use crate::drift::DRIFT_EVERY;
use crate::kudzu_turn::{click_opened, chord_opened, lemma_at_cell};
use crate::variant::Variant;

verus! {

/// `b` is `a` (both `w` by `h`) with at most the cells' states changed.
pub open spec fn only_states(a: Seq<Seq<Cell>>, b: Seq<Seq<Cell>>, w: int, h: int) -> bool {
    &&& shaped(b, w, h)
    &&& forall|p: (int, int)| inside(w, h, p) ==> #[trigger] at(b, p) == (Cell { state: at(b, p).state, ..at(a, p) })
}

/// Opening a cell changes nothing but the states of cells.
pub proof fn lemma_open_only_states(c: Seq<Seq<Cell>>, w: int, h: int, st: GameState, endless: bool, p: (int, int))
    requires
        shaped(c, w, h),
    ensures
        only_states(c, open_result(c, w, h, st, endless, p).0, w, h),
{
    if !inside(w, h, p) || st != GameState::Playing || at(c, p).state != CellState::Hidden {
    } else if at(c, p).mines > 0 {
        let m = mines_revealed(c);
        assert forall|y: int| 0 <= y < h implies (#[trigger] m[y]).len() == w by {}
    } else {
        let c1 = revealed_at(c, p);
        assert forall|y: int| 0 <= y < h implies (#[trigger] c1[y]).len() == w by {
            if y != p.1 {
                assert(c1[y] == c[y]);
            }
        }
        assert forall|q: (int, int)| inside(w, h, q) implies #[trigger] at(c1, q) == (Cell { state: at(c1, q).state, ..at(c, q) }) by {
            if q.1 != p.1 {
                assert(c1[q.1] == c[q.1]);
            }
        }
        if at(c, p).adjacent_mines == 0 {
            let c2 = cascaded(c1, w, h, p);
            assert forall|y: int| 0 <= y < h implies (#[trigger] c2[y]).len() == w by {}
            assert forall|q: (int, int)| inside(w, h, q) implies #[trigger] at(c2, q) == (Cell { state: at(c2, q).state, ..at(c, q) }) by {
                assert(at(c1, q) == (Cell { state: at(c1, q).state, ..at(c, q) }));
                if in_cascade(c1, w, h, p, q) {
                    assert(at(c2, q) == (Cell { state: CellState::Revealed, ..at(c1, q) }));
                } else {
                    assert(at(c2, q) == at(c1, q));
                }
            }
        }
    }
}

/// Opening the neighbours of a cell in turn changes nothing but the
/// states of cells.
pub proof fn lemma_sweep_only_states(
    c: Seq<Seq<Cell>>,
    w: int,
    h: int,
    st: GameState,
    endless: bool,
    p: (int, int),
    k: nat,
)
    requires
        shaped(c, w, h),
    ensures
        only_states(c, sweep(c, w, h, st, endless, p, k).0, w, h),
    decreases 8 - k,
{
    if k < 8 {
        let q = crate::cascade::nb(p, k as int);
        let first = if inside(w, h, q) && at(c, q).state == CellState::Hidden {
            open_result(c, w, h, st, endless, q)
        } else {
            (c, st, false)
        };
        if inside(w, h, q) && at(c, q).state == CellState::Hidden {
            lemma_open_only_states(c, w, h, st, endless, q);
        }
        lemma_sweep_only_states(first.0, w, h, first.1, endless, p, k + 1);
        let rest = sweep(first.0, w, h, first.1, endless, p, k + 1);
        assert forall|r: (int, int)| inside(w, h, r) implies #[trigger] at(rest.0, r) == (Cell { state: at(rest.0, r).state, ..at(c, r) }) by {
            assert(at(first.0, r) == (Cell { state: at(first.0, r).state, ..at(c, r) }));
            assert(at(rest.0, r) == (Cell { state: at(rest.0, r).state, ..at(first.0, r) }));
        }
    }
}

/// A board whose cells changed only in state keeps its mines, and with
/// them its counts and the absence of negative mines.
pub proof fn lemma_layout_from_states(a: Game, b: Game)
    requires
        a.wf_shape(),
        b.wf_shape(),
        b.width == a.width,
        b.height == a.height,
        only_states(a.cells(), b.cells(), a.width as int, a.height as int),
    ensures
        b.same_layout(a),
        forall|i: int, j: int|
            b.in_bounds(i, j) ==> #[trigger] b.cell(i, j).adjacent_mines == a.cell(i, j).adjacent_mines,
        a.adjacency_consistent() ==> b.adjacency_consistent(),
        no_negatives(a) ==> no_negatives(b),
{
    lemma_at_cell(a);
    lemma_at_cell(b);
    let w = a.width as int;
    let h = a.height as int;
    assert forall|i: int, j: int| b.in_bounds(i, j) implies #[trigger] b.cell(i, j) == (Cell { state: b.cell(i, j).state, ..a.cell(i, j) }) by {
        assert(at(b.cells(), (i, j)) == (Cell { state: at(b.cells(), (i, j)).state, ..at(a.cells(), (i, j)) }));
    }
    if a.adjacency_consistent() {
        assert forall|i: int, j: int| b.in_bounds(i, j) && #[trigger] b.cell(i, j).mines == 0 implies b.cell(i, j).adjacent_mines
            == b.adj_count(i, j) by {
            assert(b.cell(i, j) == (Cell { state: b.cell(i, j).state, ..a.cell(i, j) }));
            b.lemma_same_layout_adj(a, i, j);
        }
    }
}

/// `hid` marks which cells of `g` are hidden.
pub open spec fn hidden_map(g: Game, hid: Seq<Vec<bool>>) -> bool {
    &&& hid.len() == g.height
    &&& forall|j: int| 0 <= j < g.height ==> (#[trigger] hid[j])@.len() == g.width
    &&& forall|i: int, j: int| g.in_bounds(i, j) ==> hid[j]@[i] == (#[trigger] g.cell(i, j).state == CellState::Hidden)
}

/// Which cells of the board are hidden, as a grid of flags.
pub fn hidden_cells(g: &Game) -> (hid: Vec<Vec<bool>>)
    requires
        g.wf_shape(),
    ensures
        hidden_map(*g, hid@),
{
    let mut hid: Vec<Vec<bool>> = Vec::new();
    for y in 0..g.height
        invariant
            g.wf_shape(),
            hid@.len() == y,
            forall|j: int| 0 <= j < y ==> (#[trigger] hid@[j])@.len() == g.width,
            forall|i: int, j: int|
                0 <= i < g.width && 0 <= j < y ==> hid@[j]@[i] == (#[trigger] g.cell(i, j).state == CellState::Hidden),
    {
        let mut row: Vec<bool> = Vec::new();
        for x in 0..g.width
            invariant
                g.wf_shape(),
                y < g.height,
                row@.len() == x,
                forall|i: int| 0 <= i < x ==> row@[i] == (#[trigger] g.cell(i, y as int).state == CellState::Hidden),
        {
            assert(g.grid@[y as int]@.len() == g.width);
            row.push(matches!(g.grid[y][x].state, CellState::Hidden));
        }
        hid.push(row);
    }
    hid
}

/// `f` is `m` turned a quarter clockwise: width and height swap, and the
/// cell at (`i`, `j`) comes from (`j`, height - 1 - `i`).
pub open spec fn turned(m: Game, f: Game) -> bool {
    &&& f == (Game { grid: f.grid, width: m.height, height: m.width, ..m })
    &&& forall|i: int, j: int| f.in_bounds(i, j) ==> #[trigger] f.cell(i, j) == m.cell(j, m.height - 1 - i)
}

/// `f` is `m` with one row or column shifted by one, as Crosswalk shifts.
pub open spec fn shifted(m: Game, f: Game) -> bool {
    &&& f.same_fields(m)
    &&& exists|rows: bool, index: int, forward: bool|
        #![trigger m.shift_outcome(f, rows, index, forward)]
        0 <= index < (if rows { m.height } else { m.width }) && m.shift_outcome(f, rows, index, forward)
}

/// `f` is `m` after one infection attempt from each cell that the move
/// uncovered as a number (`hid`: the cells hidden before the move), in
/// row-major order.
pub open spec fn spread_infection(m: Game, hid: Seq<Vec<bool>>, f: Game) -> bool {
    &&& f == (Game { grid: f.grid, mine_count: f.mine_count, ..m })
    &&& exists|s: Seq<(int, int)>, t: Seq<Game>|
        #[trigger] m.lists_newly_revealed(hid, s) && #[trigger] m.infection_run(s, t, f)
}

/// Drift's count of moves goes from `c` to `fc`: every third move the
/// count starts again and the mines of `m` drift, giving `f`; otherwise
/// the board stays.
pub open spec fn drift_counted(m: Game, c: u8, f: Game, fc: u8) -> bool {
    if c + 1 == DRIFT_EVERY {
        &&& fc == 0
        &&& f.same_fields(m)
        &&& grid_mines(f.cells()) == grid_mines(m.cells())
        &&& f.adjacency_consistent()
        &&& exists|from: Seq<(int, int)>, to: Seq<(int, int)>| #[trigger] m.drifted(f, from, to)
    } else {
        fc == c + 1 && f == m
    }
}

/// What the board's own rule does after a move that left `m`, giving `f`
/// (`hid`: the cells hidden before the move; `c` and `fc`: Drift's count of
/// moves before and after). It acts only while play goes on, and only on
/// Rotation, Crosswalk, Infection and Drift boards; Drift's count moves on
/// Drift boards alone.
pub open spec fn after_move(m: Game, hid: Seq<Vec<bool>>, c: u8, f: Game, fc: u8) -> bool {
    if m.state != GameState::Playing {
        f == m && fc == c
    } else if m.variant == Variant::Rotation {
        turned(m, f) && fc == c
    } else if m.variant == Variant::Crosswalk {
        shifted(m, f) && fc == c
    } else if m.variant == Variant::Infection {
        spread_infection(m, hid, f) && fc == c
    } else if m.variant == Variant::Drift {
        drift_counted(m, c, f, fc)
    } else {
        f == m && fc == c
    }
}

/// A left click on (`x`, `y`) of a square board, `drift` being Drift's
/// count of moves and `last` the last cell that Chain counts as clicked.
/// In a game over nothing happens. On an open cell it chords; if the chord
/// opened nothing, that is all, and otherwise the cell becomes the last
/// clicked. On a covered cell of a Chain board out of the chain's reach
/// nothing happens either; elsewhere the cell becomes the last clicked and
/// opens (the first click places the mines). After a move the board's own
/// rule acts as `after_move` says. Returns whether the click opened anything.
pub fn play_turn(game: &mut Game, drift: &mut u8, last: &mut Option<(usize, usize)>, x: usize, y: usize) -> (acted: bool)
    requires
        old(game).wf(),
        *old(drift) < DRIFT_EVERY,
        x < old(game).width,
        y < old(game).height,
        old(game).variant == Variant::Infection ==> old(game).adjacency_consistent() && no_negatives(*old(game))
            && old(game).mine_count + old(game).width * old(game).height < 3 * MAX_CELLS,
    ensures
        final(game).wf(),
        *final(drift) < DRIFT_EVERY,
        !(old(game).state == GameState::Ready || old(game).state == GameState::Playing) ==> *final(last) == *old(last),
        old(game).state == GameState::Ready && old(game).cell(x as int, y as int).state != CellState::Revealed ==> *final(last)
            == Some((x, y)),
        (old(game).state == GameState::Ready || old(game).state == GameState::Playing) && old(game).cell(x as int, y as int).state
            == CellState::Revealed ==> *final(last) == if acted { Some((x, y)) } else { *old(last) },
        (old(game).state == GameState::Ready || old(game).state == GameState::Playing) && old(game).cell(x as int, y as int).state
            != CellState::Revealed && old(game).variant == Variant::Chain && !old(game).spec_is_reachable(
            x as int,
            y as int,
            *old(last),
        ) ==> *final(game) == *old(game) && *final(drift) == *old(drift) && *final(last) == *old(last) && !acted,
        final(game).variant == old(game).variant,
        old(game).variant == Variant::Infection ==> final(game).adjacency_consistent() && no_negatives(*final(game)),
        !(old(game).state == GameState::Ready || old(game).state == GameState::Playing) ==> *final(game) == *old(game)
            && *final(drift) == *old(drift) && !acted,
        (old(game).state == GameState::Ready || old(game).state == GameState::Playing) && old(game).cell(x as int, y as int).state
            == CellState::Revealed ==> exists|m: Game, hid: Seq<Vec<bool>>|
            #![trigger chord_opened(*old(game), m, x as int, y as int, acted), hidden_map(*old(game), hid)]
            chord_opened(*old(game), m, x as int, y as int, acted) && hidden_map(*old(game), hid) && if acted {
                after_move(m, hid, *old(drift), *final(game), *final(drift))
            } else {
                *final(game) == m && *final(drift) == *old(drift)
            },
        (old(game).state == GameState::Ready || old(game).state == GameState::Playing) && old(game).cell(x as int, y as int).state
            != CellState::Revealed && (old(game).variant != Variant::Chain || old(game).spec_is_reachable(
            x as int,
            y as int,
            *old(last),
        )) ==> *final(last) == Some((x, y)) && exists|m: Game, hid: Seq<Vec<bool>>|
            #![trigger click_opened(*old(game), m, x as int, y as int, acted), hidden_map(*old(game), hid)]
            click_opened(*old(game), m, x as int, y as int, acted) && hidden_map(*old(game), hid) && after_move(
                m,
                hid,
                *old(drift),
                *final(game),
                *final(drift),
            ),
{
    if !matches!(game.state, GameState::Ready | GameState::Playing) {
        return false;
    }
    let ghost g0 = *game;
    let ghost c0 = *drift;
    let ghost w = g0.width as int;
    let ghost h = g0.height as int;
    let hid = hidden_cells(game);
    assert(game.grid@[y as int]@.len() == game.width);
    let acted: bool;
    if matches!(game.grid[y][x].state, CellState::Revealed) {
        acted = game.chord(x, y);
        proof {
            let m = *game;
            lemma_at_cell(g0);
            if g0.chord_fires(x as int, y as int) {
                crate::turn::lemma_sweep_only_states(g0.cells(), w, h, g0.state, g0.endless, (x as int, y as int), 0);
                lemma_layout_from_states(g0, m);
            }
            assert(chord_opened(g0, m, x as int, y as int, acted));
            assert(hidden_map(g0, hid@));
        }
        if !acted {
            return false;
        }
        *last = Some((x, y));
    } else {
        if matches!(game.variant, Variant::Chain) {
            let has_5x5 = match *last {
                Some(p) => game.any_in_5x5(p),
                None => false,
            };
            if !game.is_reachable(x, y, *last, has_5x5) {
                return false;
            }
        }
        *last = Some((x, y));
        acted = game.reveal_cell(x, y);
        proof {
            let m = *game;
            lemma_at_cell(g0);
            if g0.state != GameState::Ready {
                lemma_open_only_states(g0.cells(), w, h, g0.state, g0.endless, (x as int, y as int));
                lemma_layout_from_states(g0, m);
            } else {
                let p = choose|p: Game|
                    #[trigger] g0.placed_for(p, x as int, y as int) && (m.cells(), m.state, acted) == open_result(
                        p.cells(),
                        w,
                        h,
                        GameState::Playing,
                        g0.endless,
                        (x as int, y as int),
                    );
                lemma_at_cell(p);
                lemma_open_only_states(p.cells(), w, h, GameState::Playing, g0.endless, (x as int, y as int));
                lemma_layout_from_states(p, m);
                if g0.variant == Variant::Infection {
                    let chosen = choose|chosen: Seq<(usize, usize)>| #[trigger] g0.placed_singles(p, chosen, x as int, y as int);
                    assert forall|i: int, j: int| p.in_bounds(i, j) implies !(#[trigger] p.cell(i, j)).is_negative by {
                        assert(!g0.cell(i, j).is_negative);
                    }
                }
            }
            assert(click_opened(g0, m, x as int, y as int, acted));
            assert(hidden_map(g0, hid@));
        }
    }
    let ghost m = *game;
    if matches!(game.state, GameState::Playing) {
        match game.variant {
            Variant::Rotation => game.rotate_90_cw(),
            Variant::Crosswalk => game.apply_shift(),
            Variant::Infection => game.infect_after_reveal(&hid),
            Variant::Drift => {
                crate::drift::drift_on_move(game, drift);
            },
            _ => {},
        }
    }
    proof {
        assert(after_move(m, hid@, c0, *game, *drift));
    }
    acted
}

} // verus!
