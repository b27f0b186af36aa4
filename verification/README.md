# Übersweeper

Minesweeper with 28 rule variants. The rules live in a library proved with
Verus; a GTK window around it draws the boards and routes the clicks.

## Layout

- `src/` — the verified library.
  - `game.rs`, `cascade.rs`: the classic board, mine placement, flags,
    opening and the cascade from cells with no mine around them, chords.
  - `display.rs`: the numbers the display variants show (Relative,
    Subtract, Offset, Average, Chain's reachability, Blindsweeper).
  - One module per variant with its own rules: `drift`, `marathon`,
    `rotation`, `crosswalk`, `minelayer`, `infection`, `crosswired`,
    `kudzu` (with `kudzu_turn`, a whole click on the Kudzu board),
    `countdown`, `merge`, `rgb`, `nested`, `encrypted`,
    `negative_mines`, `graph` and `graph_boards` (boards that are graphs:
    cube, sphere, hyperbolic plane, Voronoi), `infinite` (the endless
    board), `pvai` and `duel_ai` (player against the computer, and how the
    computer deduces and picks its moves), and `duel_truth` (why those
    deductions are right whenever every flag lies on a mine).
  - `turn.rs`: a left click on a square board, with the rule that Rotation,
    Crosswalk, Infection and Drift apply after every move.
  - `random.rs`: the calls into `rand`, each with the contract it keeps.
  - `sums.rs`: sums and grid totals used by the counters' proofs.
- `tests/` — the library's tests.
- `app/` — the GTK program: window, menus, timer, drawing, and the
  floating-point geometry of the sphere, hyperbolic and Voronoi boards.

## Checking

Every function in `src/` is verified by Verus except the four small
wrappers in `src/random.rs` (`random_below`, `shuffle_positions`,
`shuffle_indices`, `random_seed`): each is marked
`#[verifier::external_body]`, holds one call into `rand`, and its contract
(a draw below the bound, a permutation, or nothing for the seed) is taken
on trust. The tests run the library with the real `rand` crate.
