//! A click on the Kudzu board: the vines cut, the cell opened with the
//! vines masked, the vines cleaned and spread while play goes on, and the
//! check that some vine is left.

use vstd::prelude::*;
use crate::cascade::{inside, at, shaped, open_result, sweep, mines_revealed, revealed_at, cascaded, in_cascade, cascade_path};
use crate::game::{Game, Cell, CellState, GameState, grid_units, row_units, flag_units};
use crate::kudzu::{KudzuState, ortho, masked_board, free_cell, spread_reached, shoots_from, vines_gone, kudzu_liveness_check, lemma_mask_round_trip};
use crate::sums::{sum, lemma_sum_le};

verus! {

/// From `a` to `b` (both `w` by `h`) every cell kept its state, or went
/// from hidden to revealed, or was revealed in a game that ended lost
/// (`st`).
pub open spec fn states_opened(a: Seq<Seq<Cell>>, b: Seq<Seq<Cell>>, w: int, h: int, st: GameState) -> bool {
    &&& shaped(b, w, h)
    &&& forall|p: (int, int)|
        inside(w, h, p) ==> {
            ||| (#[trigger] at(b, p)).state == at(a, p).state
            ||| at(a, p).state == CellState::Hidden && at(b, p).state == CellState::Revealed
            ||| st == GameState::Lost && at(b, p).state == CellState::Revealed
        }
}

/// Opening a cell only opens cells: hidden ones, or mines once lost.
pub proof fn lemma_open_states(c: Seq<Seq<Cell>>, w: int, h: int, st: GameState, endless: bool, p: (int, int))
    requires
        shaped(c, w, h),
    ensures
        states_opened(c, open_result(c, w, h, st, endless, p).0, w, h, open_result(c, w, h, st, endless, p).1),
        open_result(c, w, h, st, endless, p).1 == GameState::Lost ==> st == GameState::Lost || st == GameState::Playing,
        st != GameState::Playing ==> open_result(c, w, h, st, endless, p) == (c, st, false),
        !open_result(c, w, h, st, endless, p).2 ==> open_result(c, w, h, st, endless, p) == (c, st, false),
{
    if !inside(w, h, p) || st != GameState::Playing || at(c, p).state != CellState::Hidden {
    } else if at(c, p).mines > 0 {
        let m = mines_revealed(c);
        assert forall|q: (int, int)| inside(w, h, q) implies (#[trigger] at(m, q)).state == at(c, q).state || at(m, q).state
            == CellState::Revealed by {}
    } else {
        let c1 = revealed_at(c, p);
        assert(shaped(c1, w, h)) by {
            assert forall|y: int| 0 <= y < h implies (#[trigger] c1[y]).len() == w by {
                if y != p.1 {
                    assert(c1[y] == c[y]);
                }
            }
        }
        assert forall|q: (int, int)| inside(w, h, q) implies (#[trigger] at(c1, q)).state == at(c, q).state || (at(c, q).state
            == CellState::Hidden && at(c1, q).state == CellState::Revealed) by {
            if q.1 != p.1 {
                assert(c1[q.1] == c[q.1]);
            }
        }
        if at(c, p).adjacent_mines == 0 {
            let c2 = cascaded(c1, w, h, p);
            assert forall|q: (int, int)| inside(w, h, q) implies (#[trigger] at(c2, q)).state == at(c, q).state || (at(c, q).state
                == CellState::Hidden && at(c2, q).state == CellState::Revealed) by {
                if in_cascade(c1, w, h, p, q) {
                    let ps = choose|ps: Seq<(int, int)>| #[trigger] cascade_path(c1, w, h, p, ps) && ps.last() == q;
                    assert(at(c1, q).state == CellState::Hidden);
                    if q.1 != p.1 {
                        assert(c1[q.1] == c[q.1]);
                    } else if q.0 != p.0 {
                        assert(c1[q.1][q.0] == c[q.1][q.0]);
                    }
                }
            }
        }
    }
}

/// Opening the neighbours of a cell in turn only opens cells; a game
/// already over stays as it is.
pub proof fn lemma_sweep_states(
    c: Seq<Seq<Cell>>,
    w: int,
    h: int,
    st: GameState,
    endless: bool,
    p: (int, int),
    k: nat,
)
    requires
        shaped(c, w, h),
    ensures
        states_opened(c, sweep(c, w, h, st, endless, p, k).0, w, h, sweep(c, w, h, st, endless, p, k).1),
        st != GameState::Playing ==> sweep(c, w, h, st, endless, p, k) == (c, st, false),
        sweep(c, w, h, st, endless, p, k).1 == GameState::Lost ==> st == GameState::Lost || st == GameState::Playing,
        !sweep(c, w, h, st, endless, p, k).2 ==> sweep(c, w, h, st, endless, p, k) == (c, st, false),
    decreases 8 - k,
{
    if k < 8 {
        let q = crate::cascade::nb(p, k as int);
        let first = if inside(w, h, q) && at(c, q).state == CellState::Hidden {
            open_result(c, w, h, st, endless, q)
        } else {
            (c, st, false)
        };
        if inside(w, h, q) && at(c, q).state == CellState::Hidden {
            lemma_open_states(c, w, h, st, endless, q);
        }
        lemma_sweep_states(first.0, w, h, first.1, endless, p, k + 1);
        let rest = sweep(first.0, w, h, first.1, endless, p, k + 1);
        assert forall|r: (int, int)| inside(w, h, r) implies {
            ||| (#[trigger] at(rest.0, r)).state == at(c, r).state
            ||| at(c, r).state == CellState::Hidden && at(rest.0, r).state == CellState::Revealed
            ||| rest.1 == GameState::Lost && at(rest.0, r).state == CellState::Revealed
        } by {
            assert(at(first.0, r).state == at(c, r).state || (at(c, r).state == CellState::Hidden && at(first.0, r).state
                == CellState::Revealed) || (first.1 == GameState::Lost && at(first.0, r).state == CellState::Revealed));
            if first.1 == GameState::Lost {
                assert(rest.1 == GameState::Lost);
            }
        }
    }
}

/// Flag units of boards that agree on every cell's flag, or where one's
/// are no more than the other's.
pub proof fn lemma_units_le(a: Seq<Seq<Cell>>, b: Seq<Seq<Cell>>, w: int, h: int)
    requires
        shaped(a, w, h),
        shaped(b, w, h),
        forall|p: (int, int)| inside(w, h, p) ==> flag_units((#[trigger] at(a, p)).state) <= flag_units(at(b, p).state),
    ensures
        grid_units(a) <= grid_units(b),
        (forall|p: (int, int)| inside(w, h, p) ==> flag_units((#[trigger] at(a, p)).state) == flag_units(at(b, p).state))
            ==> grid_units(a) == grid_units(b),
{
    let f = |c: Cell| flag_units(c.state);
    let rf = |r: Seq<Cell>| row_units(r);
    assert forall|j: int| 0 <= j < h implies #[trigger] a.map_values(rf)[j] <= b.map_values(rf)[j] && ((forall|p: (int, int)|
        inside(w, h, p) ==> flag_units((#[trigger] at(a, p)).state) == flag_units(at(b, p).state)) ==> a.map_values(rf)[j]
        == b.map_values(rf)[j]) by {
        assert forall|i: int| 0 <= i < w implies #[trigger] a[j].map_values(f)[i] <= b[j].map_values(f)[i] by {
            assert(at(a, (i, j)) == a[j][i]);
        }
        lemma_sum_le(a[j].map_values(f), b[j].map_values(f));
        if forall|p: (int, int)| inside(w, h, p) ==> flag_units((#[trigger] at(a, p)).state) == flag_units(at(b, p).state) {
            assert forall|i: int| 0 <= i < w implies #[trigger] a[j].map_values(f)[i] == b[j].map_values(f)[i] by {
                assert(at(a, (i, j)) == a[j][i]);
            }
        }
    }
    lemma_sum_le(a.map_values(rf), b.map_values(rf));
}

/// The vines `f` after the player uncovers (`x`, `y`) on `k`: if it or a
/// cell beside it holds a vine, the vines on it and beside it are cut.
pub open spec fn vines_cut(k: KudzuState, f: KudzuState, x: int, y: int) -> bool {
    &&& f.wf()
    &&& f.width == k.width
    &&& f.height == k.height
    &&& ({
        let p = (x, y);
        let fire = k.kz(x, y) || exists|i: int, j: int|
            #![trigger k.kz(i, j)]
            k.in_bounds(i, j) && ortho(p, (i, j)) && k.kz(i, j);
        forall|i: int, j: int|
            f.in_bounds(i, j) ==> #[trigger] f.kz(i, j) == if fire && ((i, j) == p || ortho(p, (i, j))) {
                false
            } else {
                k.kz(i, j)
            }
    })
}

/// The vines `f`: those of `k` on cells that `g` does not show revealed.
pub open spec fn vines_cleaned(k: KudzuState, f: KudzuState, g: Game) -> bool {
    &&& f.wf()
    &&& f.width == k.width
    &&& f.height == k.height
    &&& forall|i: int, j: int|
        f.in_bounds(i, j) ==> #[trigger] f.kz(i, j) == (k.kz(i, j) && g.cell(i, j).state != CellState::Revealed)
}

/// The vines `f` after `k` spread over `g`: every vine kept, new ones only
/// on free cells, every vine reached out as it could, one shoot from each
/// of some distinct vines.
pub open spec fn vines_spread(k: KudzuState, f: KudzuState, g: Game) -> bool {
    &&& f.wf()
    &&& f.width == k.width
    &&& f.height == k.height
    &&& forall|i: int, j: int| k.in_bounds(i, j) && #[trigger] k.kz(i, j) ==> f.kz(i, j)
    &&& forall|i: int, j: int| k.in_bounds(i, j) && #[trigger] f.kz(i, j) ==> k.kz(i, j) || free_cell(k, g, (i, j))
    &&& forall|i: int, j: int| k.in_bounds(i, j) && #[trigger] k.kz(i, j) ==> spread_reached(k, f, g, (i, j))
    &&& exists|sh: Seq<(int, int)>, o: Seq<(int, int)>|
        #[trigger] shoots_from(k, g, sh, o) && forall|i: int, j: int|
            k.in_bounds(i, j) ==> #[trigger] f.kz(i, j) == (k.kz(i, j) || sh.contains((i, j)))
}

/// What a left click on (`x`, `y`) of `g` did, giving `f` and `r`: the
/// first click places the mines around it and starts play; then the cell
/// opens as `open_result` says.
pub open spec fn click_opened(g: Game, f: Game, x: int, y: int, r: bool) -> bool {
    &&& f.wf_shape()
    &&& f == (Game { grid: f.grid, state: f.state, ..g })
    &&& g.state != GameState::Ready || !g.in_bounds(x, y) ==> (f.cells(), f.state, r) == open_result(
        g.cells(),
        g.width as int,
        g.height as int,
        g.state,
        g.endless,
        (x, y),
    )
    &&& g.state == GameState::Ready && g.in_bounds(x, y) ==> exists|p: Game|
        #[trigger] g.placed_for(p, x, y) && (f.cells(), f.state, r) == open_result(
            p.cells(),
            g.width as int,
            g.height as int,
            GameState::Playing,
            g.endless,
            (x, y),
        )
}

/// What a chord on (`x`, `y`) of `g` did, giving `f` and `r`: when it
/// fires, the hidden neighbours open in scan order; otherwise nothing.
pub open spec fn chord_opened(g: Game, f: Game, x: int, y: int, r: bool) -> bool {
    &&& f.wf_shape()
    &&& f == (Game { grid: f.grid, state: f.state, ..g })
    &&& g.chord_fires(x, y) ==> (f.cells(), f.state, r) == sweep(
        g.cells(),
        g.width as int,
        g.height as int,
        g.state,
        g.endless,
        (x, y),
        0,
    )
    &&& !g.chord_fires(x, y) ==> !r && f == g
}

/// `u` is `r` with every listed cell that shows a flag hidden again.
pub open spec fn unmasked(r: Game, masked: Seq<(usize, usize)>, u: Game) -> bool {
    &&& u.wf_shape()
    &&& u == (Game { grid: u.grid, ..r })
    &&& forall|i: int, j: int|
        #![trigger u.cell(i, j)]
        r.in_bounds(i, j) ==> u.cell(i, j) == if masked.contains((i as usize, j as usize)) && r.cell(i, j).state
            == CellState::Flagged {
            Cell { state: CellState::Hidden, ..r.cell(i, j) }
        } else {
            r.cell(i, j)
        }
}

/// `u` is `g` after a click on (`x`, `y`) made with the hidden cells under
/// the vines of `k` flagged and then hidden again: a left click, or a
/// chord when `chord`; `r` is whether it did anything.
pub open spec fn opened_masked(g: Game, k: KudzuState, u: Game, x: int, y: int, r: bool, chord: bool) -> bool {
    exists|m: Game, o: Game, masked: Seq<(usize, usize)>|
        #![trigger masked_board(g, k, m), unmasked(o, masked, u)]
        masked_board(g, k, m) && (forall|q: (usize, usize)|
            #[trigger] masked.contains(q) <==> g.in_bounds(q.0 as int, q.1 as int) && k.kz(q.0 as int, q.1 as int)
                && g.cell(q.0 as int, q.1 as int).state == CellState::Hidden) && (if chord {
            chord_opened(m, o, x, y, r)
        } else {
            click_opened(m, o, x, y, r)
        }) && unmasked(o, masked, u)
}

/// `f` is `g` after the check that some vine is left: a game on or won
/// with no vine left is lost.
pub open spec fn vines_checked(g: Game, k: KudzuState, f: Game) -> bool {
    &&& (g.state == GameState::Playing || g.state == GameState::Won) && vines_gone(k) ==> f == (Game {
        state: GameState::Lost,
        ..g
    })
    &&& !((g.state == GameState::Playing || g.state == GameState::Won) && vines_gone(k)) ==> f == g
}

/// Cells as a board and one by one agree.
pub proof fn lemma_at_cell(g: Game)
    requires
        g.wf_shape(),
    ensures
        shaped(g.cells(), g.width as int, g.height as int),
        forall|p: (int, int)| inside(g.width as int, g.height as int, p) ==> #[trigger] at(g.cells(), p) == g.cell(p.0, p.1),
{
    assert forall|y: int| 0 <= y < g.height implies (#[trigger] g.cells()[y]).len() == g.width by {
        assert(g.cells()[y] == g.grid@[y]@);
    }
}

/// A click made with the vines masked keeps the flag counter right: no
/// flag is added, and unless the game was lost none is taken away.
pub proof fn lemma_masked_counter(g: Game, k: KudzuState, m: Game, o: Game, masked: Seq<(usize, usize)>, u: Game)
    requires
        g.wf(),
        g.state == GameState::Ready || g.state == GameState::Playing,
        masked_board(g, k, m),
        forall|q: (usize, usize)|
            #[trigger] masked.contains(q) <==> g.in_bounds(q.0 as int, q.1 as int) && k.kz(q.0 as int, q.1 as int)
                && g.cell(q.0 as int, q.1 as int).state == CellState::Hidden,
        o.wf_shape(),
        o == (Game { grid: o.grid, state: o.state, ..m }),
        states_opened(m.cells(), o.cells(), g.width as int, g.height as int, o.state),
        unmasked(o, masked, u),
    ensures
        u.counter_ok(),
{
    let w = g.width as int;
    let h = g.height as int;
    lemma_at_cell(g);
    lemma_at_cell(m);
    lemma_at_cell(o);
    lemma_at_cell(u);
    assert forall|p: (int, int)| inside(w, h, p) implies flag_units((#[trigger] at(u.cells(), p)).state) <= flag_units(
        at(g.cells(), p).state,
    ) && (u.state != GameState::Lost ==> flag_units(at(u.cells(), p).state) == flag_units(at(g.cells(), p).state)) by {
        let (i, j) = p;
        let q = (i as usize, j as usize);
        assert(at(m.cells(), p) == m.cell(i, j));
        assert(at(o.cells(), p) == o.cell(i, j));
        if masked.contains(q) {
            assert(m.cell(i, j).state == CellState::Flagged);
        } else {
            assert(m.cell(i, j) == g.cell(i, j));
        }
    }
    lemma_units_le(u.cells(), g.cells(), w, h);
    if u.state != GameState::Lost {
        assert forall|p: (int, int)| inside(w, h, p) implies flag_units((#[trigger] at(u.cells(), p)).state) == flag_units(
            at(g.cells(), p).state,
        ) by {}
    }
}

/// What a chord on (`x`, `y`) of the Kudzu board did to game `g` and vines
/// `k`, giving `fg` and `fk`, `acted` telling whether the chord opened
/// anything: the chord is made with the vines masked; if it did nothing,
/// nothing changes; else, while play goes on, the vines on revealed cells
/// are cut and the rest spread, and then a game with no vine left is lost.
pub open spec fn chord_turn(g: Game, k: KudzuState, fg: Game, fk: KudzuState, x: int, y: int, acted: bool) -> bool {
    exists|u: Game|
        #[trigger] opened_masked(g, k, u, x, y, acted, true) && (!acted ==> fk == k && fg == u && fg.cells() == g.cells()
            && fg == (Game { grid: fg.grid, ..g })) && (acted && u.state == GameState::Playing ==> spread_after_clean(
            k,
            fk,
            u,
        )) && (acted && u.state != GameState::Playing ==> fk == k) && (acted ==> vines_checked(u, fk, fg))
}

/// The vines `f` come from `k` on board `g` by cutting the vines on
/// revealed cells and spreading the rest.
pub open spec fn spread_after_clean(k: KudzuState, f: KudzuState, g: Game) -> bool {
    exists|k2: KudzuState| #[trigger] vines_cleaned(k, k2, g) && vines_spread(k2, f, g)
}

/// What a left click on the hidden (or flagged) cell (`x`, `y`) of the
/// Kudzu board did to game `g` and vines `k`, giving `fg` and `fk`,
/// `acted` telling whether the cell opened: the vines around the cell are
/// cut first; the cell opens with the vines masked; while play goes on,
/// the vines on revealed cells are cut and the rest spread; then a game
/// with no vine left is lost.
pub open spec fn click_turn(g: Game, k: KudzuState, fg: Game, fk: KudzuState, x: int, y: int, acted: bool) -> bool {
    exists|k1: KudzuState, u: Game|
        #![trigger vines_cut(k, k1, x, y), opened_masked(g, k1, u, x, y, acted, false)]
        vines_cut(k, k1, x, y) && opened_masked(g, k1, u, x, y, acted, false) && (u.state == GameState::Playing
            ==> spread_after_clean(k1, fk, u)) && (u.state != GameState::Playing ==> fk == k1) && vines_checked(u, fk, fg)
}

/// A chord on (`x`, `y`) of the Kudzu board, as `chord_turn` says: the
/// chord goes with the hidden cells under vines flagged so that its cascades
/// pass them by. Returns whether the chord opened anything.
pub fn kudzu_chord(game: &mut Game, kudzu: &mut KudzuState, x: usize, y: usize) -> (acted: bool)
    requires
        old(game).wf(),
        old(kudzu).wf(),
        old(kudzu).width == old(game).width,
        old(kudzu).height == old(game).height,
        old(game).state == GameState::Ready || old(game).state == GameState::Playing,
    ensures
        final(game).wf(),
        final(kudzu).wf(),
        final(kudzu).width == old(kudzu).width,
        final(kudzu).height == old(kudzu).height,
        chord_turn(*old(game), *old(kudzu), *final(game), *final(kudzu), x as int, y as int, acted),
{
    let ghost g0 = *game;
    let ghost k0 = *kudzu;
    let masked = kudzu.mask_for_cascade(game);
    let ghost m = *game;
    let acted = game.chord(x, y);
    let ghost o = *game;
    proof {
        assert forall|t: int| 0 <= t < masked@.len() implies o.in_bounds(#[trigger] masked@[t].0 as int, masked@[t].1 as int) by {
            assert(masked@.contains(masked@[t]));
        }
    }
    KudzuState::unmask_cascade(masked, game);
    let ghost u = *game;
    proof {
        let w = g0.width as int;
        let h = g0.height as int;
        lemma_at_cell(m);
        if m.chord_fires(x as int, y as int) {
            lemma_sweep_states(m.cells(), w, h, m.state, m.endless, (x as int, y as int), 0);
        }
        lemma_masked_counter(g0, k0, m, o, masked@, u);
        assert(chord_opened(m, o, x as int, y as int, acted));
        assert(unmasked(o, masked@, u));
        assert(opened_masked(g0, k0, u, x as int, y as int, acted, true));
    }
    if !acted {
        proof {
            if m.chord_fires(x as int, y as int) {
                lemma_sweep_states(m.cells(), g0.width as int, g0.height as int, m.state, m.endless, (x as int, y as int), 0);
            }
            assert(o.cells() == m.cells() && o.state == m.state);
            lemma_at_cell(o);
            assert forall|i: int, j: int| #![trigger u.cell(i, j)] m.in_bounds(i, j) implies u.cell(i, j) == if masked@.contains((i as usize, j as usize))
                && m.cell(i, j).state == CellState::Flagged {
                Cell { state: CellState::Hidden, ..m.cell(i, j) }
            } else {
                m.cell(i, j)
            } by {
                assert(at(o.cells(), (i, j)) == o.cell(i, j));
                assert(at(m.cells(), (i, j)) == m.cell(i, j));
            }
            lemma_mask_round_trip(g0, k0, m, masked@, u);
            lemma_at_cell(g0);
            lemma_at_cell(u);
            assert(u.cells() =~= g0.cells()) by {
                assert forall|j: int| 0 <= j < g0.height implies #[trigger] u.cells()[j] =~= g0.cells()[j] by {
                    assert forall|i: int| 0 <= i < g0.width implies u.cells()[j][i] == g0.cells()[j][i] by {
                        assert(at(u.cells(), (i, j)) == u.cell(i, j));
                        assert(at(g0.cells(), (i, j)) == g0.cell(i, j));
                    }
                }
            }
            assert(opened_masked(g0, k0, u, x as int, y as int, acted, true) && (!acted ==> k0 == k0 && u == u && u.cells()
                == g0.cells() && u == (Game { grid: u.grid, ..g0 })) && (acted && u.state == GameState::Playing ==> spread_after_clean(
                k0,
                k0,
                u,
            )) && (acted && u.state != GameState::Playing ==> k0 == k0) && (acted ==> vines_checked(
                u,
                k0,
                u,
            )));
            assert(chord_turn(g0, k0, u, k0, x as int, y as int, acted));
        }
        return false;
    }
    let ghost mut k2 = *kudzu;
    if matches!(game.state, GameState::Playing) {
        kudzu.clean_revealed(game);
        proof {
            k2 = *kudzu;
        }
        kudzu.spread(game);
    }
    let ghost kf = *kudzu;
    kudzu_liveness_check(game, kudzu);
    proof {
        assert(vines_checked(u, kf, *game));
        if u.state == GameState::Playing {
            assert(vines_cleaned(k0, k2, u));
            assert(vines_spread(k2, kf, u));
            assert(spread_after_clean(k0, kf, u));
        }
        assert(opened_masked(g0, k0, u, x as int, y as int, acted, true) && (!acted ==> kf == k0 && *game == u && game.cells()
            == g0.cells() && *game == (Game { grid: game.grid, ..g0 })) && (acted && u.state == GameState::Playing
            ==> spread_after_clean(k0, kf, u)) && (acted && u.state != GameState::Playing ==> kf == k0)
            && (acted ==> vines_checked(u, kf, *game)));
        assert(chord_turn(g0, k0, *game, kf, x as int, y as int, acted));
        assert(game.counter_ok()) by {
            lemma_at_cell(u);
        }
    }
    true
}

/// A left click on (`x`, `y`) of the Kudzu board while the game is ready or
/// on: on a revealed cell a chord, as `kudzu_chord` does; on any other cell
/// the vines around it are cut first, then it opens with the vines masked,
/// then (while play goes on) the vines on revealed cells are cut and the
/// rest spread, and a game with no vine left is lost. Once the game is won
/// or lost nothing happens. Returns whether the reveal or chord acted.
pub fn kudzu_click(game: &mut Game, kudzu: &mut KudzuState, x: usize, y: usize) -> (acted: bool)
    requires
        old(game).wf(),
        old(kudzu).wf(),
        old(kudzu).width == old(game).width,
        old(kudzu).height == old(game).height,
        x < old(game).width,
        y < old(game).height,
    ensures
        final(game).wf(),
        final(kudzu).wf(),
        final(kudzu).width == old(kudzu).width,
        final(kudzu).height == old(kudzu).height,
        !(old(game).state == GameState::Ready || old(game).state == GameState::Playing) ==> *final(game) == *old(game)
            && *final(kudzu) == *old(kudzu) && !acted,
        (old(game).state == GameState::Ready || old(game).state == GameState::Playing) && old(game).cell(x as int, y as int).state
            == CellState::Revealed ==> chord_turn(*old(game), *old(kudzu), *final(game), *final(kudzu), x as int, y as int, acted),
        (old(game).state == GameState::Ready || old(game).state == GameState::Playing) && old(game).cell(x as int, y as int).state
            != CellState::Revealed ==> click_turn(*old(game), *old(kudzu), *final(game), *final(kudzu), x as int, y as int, acted),
{
    if !matches!(game.state, GameState::Ready | GameState::Playing) {
        return false;
    }
    assert(game.grid@[y as int]@.len() == game.width);
    if matches!(game.grid[y][x].state, CellState::Revealed) {
        return kudzu_chord(game, kudzu, x, y);
    }
    let ghost g0 = *game;
    let ghost k0 = *kudzu;
    kudzu.remove_around_reveal(x, y);
    let ghost k1 = *kudzu;
    let masked = kudzu.mask_for_cascade(game);
    let ghost m = *game;
    let acted = game.reveal_cell(x, y);
    let ghost o = *game;
    proof {
        assert forall|t: int| 0 <= t < masked@.len() implies o.in_bounds(#[trigger] masked@[t].0 as int, masked@[t].1 as int) by {
            assert(masked@.contains(masked@[t]));
        }
    }
    KudzuState::unmask_cascade(masked, game);
    let ghost u = *game;
    proof {
        let w = g0.width as int;
        let h = g0.height as int;
        lemma_at_cell(m);
        lemma_at_cell(o);
        if m.state != GameState::Ready {
            lemma_open_states(m.cells(), w, h, m.state, m.endless, (x as int, y as int));
        } else {
            let p = choose|p: Game|
                #[trigger] m.placed_for(p, x as int, y as int) && (o.cells(), o.state, acted) == open_result(
                    p.cells(),
                    w,
                    h,
                    GameState::Playing,
                    m.endless,
                    (x as int, y as int),
                );
            lemma_at_cell(p);
            assert forall|q: (int, int)| inside(w, h, q) implies (#[trigger] at(p.cells(), q)).state == at(m.cells(), q).state by {
                assert(at(p.cells(), q) == p.cell(q.0, q.1));
                if m.variant == crate::variant::Variant::MultiMines {
                    assert(p.cell(q.0, q.1).state == m.cell(q.0, q.1).state);
                } else {
                    let chosen = choose|chosen: Seq<(usize, usize)>| #[trigger] m.placed_singles(p, chosen, x as int, y as int);
                    assert(p.cell(q.0, q.1).state == m.cell(q.0, q.1).state);
                }
            }
            lemma_open_states(p.cells(), w, h, GameState::Playing, m.endless, (x as int, y as int));
        }
        assert(states_opened(m.cells(), o.cells(), w, h, o.state));
        lemma_masked_counter(g0, k1, m, o, masked@, u);
        assert(click_opened(m, o, x as int, y as int, acted));
        assert(unmasked(o, masked@, u));
        assert(opened_masked(g0, k1, u, x as int, y as int, acted, false));
        assert(vines_cut(k0, k1, x as int, y as int));
    }
    let ghost mut k2 = *kudzu;
    if matches!(game.state, GameState::Playing) {
        kudzu.clean_revealed(game);
        proof {
            k2 = *kudzu;
        }
        kudzu.spread(game);
    }
    let ghost kf = *kudzu;
    kudzu_liveness_check(game, kudzu);
    proof {
        assert(vines_checked(u, kf, *game));
        if u.state == GameState::Playing {
            assert(vines_cleaned(k1, k2, u));
            assert(vines_spread(k2, kf, u));
            assert(spread_after_clean(k1, kf, u));
        }
        assert(vines_cut(k0, k1, x as int, y as int) && opened_masked(g0, k1, u, x as int, y as int, acted, false) && (u.state
            == GameState::Playing ==> spread_after_clean(k1, kf, u)) && (u.state != GameState::Playing
            ==> kf == k1) && vines_checked(u, kf, *game));
        assert(click_turn(g0, k0, *game, kf, x as int, y as int, acted));
    }
    acted
}

} // verus!
