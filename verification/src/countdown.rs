use vstd::prelude::*;
use crate::cascade::{nb, open_result};
use crate::game::{Game, CellState, GameState};
use crate::random::random_below;

verus! {

/// Seconds the player has before Panic plays a move for them.
pub const PANIC_SECS: u32 = 5;

impl Game {
    /// A hidden cell beside a revealed one.
    pub open spec fn frontier_at(self, q: (int, int)) -> bool {
        &&& self.in_bounds(q.0, q.1)
        &&& self.cell(q.0, q.1).state == CellState::Hidden
        &&& exists|k: int| 0 <= k < 8 && self.revealed_on(#[trigger] nb(q, k))
    }
}

/// The place of a position in row-major order.
pub open spec fn row_major(w: int, q: (usize, usize)) -> int {
    q.1 * w + q.0
}

/// The hidden cells that border a revealed cell, in row-major order.
pub fn collect_frontier(game: &Game) -> (v: Vec<(usize, usize)>)
    requires
        game.wf_shape(),
    ensures
        forall|t: int| 0 <= t < v@.len() ==> game.frontier_at((#[trigger] v@[t].0 as int, v@[t].1 as int)),
        forall|i: int, j: int| #[trigger] game.frontier_at((i, j)) ==> v@.contains((i as usize, j as usize)),
        forall|a: int, b: int|
            0 <= a < b < v@.len() ==> row_major(game.width as int, #[trigger] v@[a]) < row_major(game.width as int, #[trigger] v@[b]),
{
    let w = game.width;
    let h = game.height;
    let mut out: Vec<(usize, usize)> = Vec::new();
    for y in 0..h
        invariant
            game.wf_shape(),
            w == game.width,
            h == game.height,
            forall|t: int| 0 <= t < out@.len() ==> game.frontier_at((#[trigger] out@[t].0 as int, out@[t].1 as int)),
            forall|t: int| 0 <= t < out@.len() ==> (#[trigger] out@[t]).1 < y && out@[t].0 < w,
            forall|i: int, j: int| j < y && #[trigger] game.frontier_at((i, j)) ==> out@.contains((i as usize, j as usize)),
            forall|a: int, b: int|
                0 <= a < b < out@.len() ==> row_major(w as int, #[trigger] out@[a]) < row_major(w as int, #[trigger] out@[b]),
    {
        for x in 0..w
            invariant
                game.wf_shape(),
                w == game.width,
                h == game.height,
                y < h,
                forall|t: int| 0 <= t < out@.len() ==> game.frontier_at((#[trigger] out@[t].0 as int, out@[t].1 as int)),
                forall|t: int|
                    0 <= t < out@.len() ==> ((#[trigger] out@[t]).1 < y || (out@[t].1 == y && out@[t].0 < x)) && out@[t].0 < w,
                forall|i: int, j: int|
                    (j < y || (j == y && i < x)) && #[trigger] game.frontier_at((i, j)) ==> out@.contains((i as usize, j as usize)),
                forall|a: int, b: int|
                    0 <= a < b < out@.len() ==> row_major(w as int, #[trigger] out@[a]) < row_major(w as int, #[trigger] out@[b]),
        {
            assert(game.grid@[y as int]@.len() == w);
            if matches!(game.grid[y][x].state, CellState::Hidden) && game.on_frontier(x, y) {
                let ghost before = out@;
                out.push((x, y));
                proof {
                    assert forall|t: int| 0 <= t < before.len() implies row_major(w as int, #[trigger] before[t]) < row_major(
                        w as int,
                        (x, y),
                    ) by {
                        let q = before[t];
                        assert(out@[t] == q);
                        if q.1 < y {
                            let (a, b, c, d) = (q.0 as int, q.1 as int, x as int, y as int);
                            assert(b * w + a < d * w + c) by (nonlinear_arith)
                                requires
                                    b < d,
                                    0 <= a < w,
                                    0 <= c,
                            ;
                        }
                    }
                    assert forall|i: int, j: int|
                        (j < y || (j == y && i < x + 1)) && #[trigger] game.frontier_at((i, j)) implies out@.contains(
                        (i as usize, j as usize),
                    ) by {
                        if i == x && j == y {
                            assert(out@[out@.len() - 1] == (x, y));
                        } else {
                            assert(before.contains((i as usize, j as usize)));
                            let t = choose|t: int| 0 <= t < before.len() && before[t] == (i as usize, j as usize);
                            assert(out@[t] == before[t]);
                        }
                    }
                    assert forall|a: int, b: int|
                        0 <= a < b < out@.len() implies row_major(w as int, #[trigger] out@[a]) < row_major(
                        w as int,
                        #[trigger] out@[b],
                    ) by {
                        assert(out@[a] == before[a]);
                        if b < before.len() {
                            assert(out@[b] == before[b]);
                        }
                    }
                }
            } else {
                proof {
                    assert forall|i: int, j: int|
                        (j < y || (j == y && i < x + 1)) && #[trigger] game.frontier_at((i, j)) implies out@.contains(
                        (i as usize, j as usize),
                    ) by {
                        if i == x && j == y {
                            assert(game.cell(x as int, y as int) == game.grid@[y as int]@[x as int]);
                        }
                    }
                }
            }
        }
    }
    out
}

/// What one second of Panic does to a game `g` with `c` seconds on the
/// clock, giving `f` and `d`: nothing once the game is over; while it is on,
/// the clock drops by one; when it runs out, the clock starts over and, if
/// there is a frontier cell, one of them is opened as a click would.
pub open spec fn tick_step(g: Game, c: u32, f: Game, d: u32) -> bool {
    if g.state != GameState::Playing {
        f == g && d == c
    } else if c > 1 {
        f == g && d == c - 1
    } else {
        &&& d == PANIC_SECS
        &&& f == (Game { grid: f.grid, state: f.state, ..g })
        &&& (forall|i: int, j: int| !#[trigger] g.frontier_at((i, j))) ==> f == g
        &&& (exists|i: int, j: int| #[trigger] g.frontier_at((i, j))) ==> exists|i: int, j: int|
            #[trigger] g.frontier_at((i, j)) && (f.cells(), f.state) == (
                open_result(g.cells(), g.width as int, g.height as int, g.state, g.endless, (i, j)).0,
                open_result(g.cells(), g.width as int, g.height as int, g.state, g.endless, (i, j)).1,
            )
    }
}

/// Ticks in a row leave a live game alone while the clock runs.
proof fn lemma_ticks_wait(gs: Seq<Game>, cs: Seq<u32>, k: int)
    requires
        gs.len() == cs.len(),
        cs[0] >= 1,
        gs.len() == cs[0] + 1,
        gs[0].state == GameState::Playing,
        forall|t: int| 0 <= t < cs[0] ==> #[trigger] tick_step(gs[t], cs[t], gs[t + 1], cs[t + 1]),
        0 <= k < cs[0],
    ensures
        gs[k] == gs[0],
        cs[k] == cs[0] - k,
    decreases k,
{
    if k > 0 {
        lemma_ticks_wait(gs, cs, k - 1);
        let t = k - 1;
        assert(tick_step(gs[t], cs[t], gs[t + 1], cs[t + 1]));
    }
}

/// Left alone, a live Panic game with `c` (at least one) seconds on the
/// clock stays as it is for `c - 1` ticks; at the `c`-th tick the clock
/// starts over from five seconds and, if any hidden cell borders a
/// revealed one, such a cell is opened as a click would open it. So with
/// the clock just reset, a frontier cell opens within five seconds.
pub proof fn lemma_panic_ticks(gs: Seq<Game>, cs: Seq<u32>)
    requires
        gs.len() == cs.len(),
        cs[0] >= 1,
        gs.len() == cs[0] + 1,
        gs[0].state == GameState::Playing,
        forall|t: int| 0 <= t < cs[0] ==> #[trigger] tick_step(gs[t], cs[t], gs[t + 1], cs[t + 1]),
    ensures
        forall|k: int| 0 <= k < cs[0] ==> #[trigger] gs[k] == gs[0] && cs[k] == cs[0] - k,
        cs[cs[0] as int] == PANIC_SECS,
        (forall|i: int, j: int| !#[trigger] gs[0].frontier_at((i, j))) ==> gs[cs[0] as int] == gs[0],
        (exists|i: int, j: int| #[trigger] gs[0].frontier_at((i, j))) ==> exists|i: int, j: int|
            #[trigger] gs[0].frontier_at((i, j)) && (gs[cs[0] as int].cells(), gs[cs[0] as int].state) == (
                open_result(gs[0].cells(), gs[0].width as int, gs[0].height as int, gs[0].state, gs[0].endless, (i, j)).0,
                open_result(gs[0].cells(), gs[0].width as int, gs[0].height as int, gs[0].state, gs[0].endless, (i, j)).1,
            ),
{
    assert forall|k: int| 0 <= k < cs[0] implies #[trigger] gs[k] == gs[0] && cs[k] == cs[0] - k by {
        lemma_ticks_wait(gs, cs, k);
    }
    let n = cs[0] as int;
    lemma_ticks_wait(gs, cs, n - 1);
    let t = n - 1;
    assert(tick_step(gs[t], cs[t], gs[t + 1], cs[t + 1]));
}

/// One second of Panic: while the game is on, the countdown drops by one,
/// and when it runs out a random frontier cell is opened and the countdown
/// starts over. Returns whether the clock keeps running.
pub fn panic_tick(game: &mut Game, countdown: &mut u32) -> (r: bool)
    requires
        old(game).wf_shape(),
    ensures
        final(game).wf_shape(),
        r == (old(game).state == GameState::Playing),
        !r ==> *final(game) == *old(game) && *final(countdown) == *old(countdown),
        r && *old(countdown) > 1 ==> *final(game) == *old(game) && *final(countdown) == *old(countdown) - 1,
        r && *old(countdown) <= 1 ==> *final(countdown) == PANIC_SECS,
        r && *old(countdown) <= 1 && (forall|i: int, j: int| !#[trigger] old(game).frontier_at((i, j))) ==> *final(game)
            == *old(game),
        r && *old(countdown) <= 1 && (exists|i: int, j: int| #[trigger] old(game).frontier_at((i, j))) ==> exists|i: int, j: int|
            #[trigger] old(game).frontier_at((i, j)) && (final(game).cells(), final(game).state) == (
            open_result(
                old(game).cells(),
                old(game).width as int,
                old(game).height as int,
                old(game).state,
                old(game).endless,
                (i, j),
            ).0,
            open_result(
                old(game).cells(),
                old(game).width as int,
                old(game).height as int,
                old(game).state,
                old(game).endless,
                (i, j),
            ).1,
        ),
        *final(game) == (Game { grid: final(game).grid, state: final(game).state, ..*old(game) }),
        tick_step(*old(game), *old(countdown), *final(game), *final(countdown)),
{
    if !matches!(game.state, GameState::Playing) {
        return false;
    }
    let left = if *countdown > 0 {
        *countdown - 1
    } else {
        0
    };
    *countdown = left;
    if left == 0 {
        let frontier = collect_frontier(game);
        if frontier.len() > 0 {
            let k = random_below(frontier.len());
            let (rx, ry) = frontier[k];
            proof {
                assert(game.frontier_at((rx as int, ry as int)));
            }
            game.reveal_cell(rx, ry);
        } else {
            proof {
                assert forall|i: int, j: int| !#[trigger] game.frontier_at((i, j)) by {
                    if game.frontier_at((i, j)) {
                        assert(frontier@.contains((i as usize, j as usize)));
                    }
                }
            }
        }
        *countdown = PANIC_SECS;
    }
    true
}

} // verus!
