use ubersweeper::cascade::neighbor_of;
use ubersweeper::constants::{Difficulty, BEGINNER_MINES};
use ubersweeper::game::{candidate_positions, Cell, CellState, Game, GameState};
use ubersweeper::variant::Variant;

/// A board from rows of text: `*` is a mine, anything else an empty cell.
/// Counts are computed; play is on.
fn board(rows: &[&str], variant: Variant) -> Game {
    let height = rows.len();
    let width = rows[0].len();
    let mut g = Game::new(width, height, 0, variant);
    let mut mines = 0;
    for (y, r) in rows.iter().enumerate() {
        for (x, ch) in r.chars().enumerate() {
            if ch == '*' {
                g.grid[y][x].mines = 1;
                mines += 1;
            }
        }
    }
    g.mine_count = mines;
    g.recompute_all_adjacency();
    g.state = GameState::Playing;
    g
}

fn count_state(g: &Game, s: CellState) -> usize {
    g.grid.iter().flatten().filter(|c| c.state == s).count()
}

#[test]
fn difficulty_presets() {
    assert_eq!(Difficulty::Beginner.dimensions(), (9, 9, 10));
    assert_eq!(Difficulty::Intermediate.dimensions(), (16, 16, 40));
    assert_eq!(Difficulty::Expert.dimensions(), (30, 16, 99));
    assert_eq!(Difficulty::Custom(7, 5, 3).dimensions(), (7, 5, 3));
}

#[test]
fn new_game_is_blank_and_ready() {
    let g = Game::new(9, 9, BEGINNER_MINES, Variant::Classic);
    assert_eq!(g.state, GameState::Ready);
    assert_eq!(g.mine_count, 10);
    assert_eq!(g.flags_placed, 0);
    assert!(g.grid.iter().flatten().all(|c| *c == Cell::new()));
    assert_eq!(g.remaining_mines(), 0);
}

#[test]
fn new_game_caps_the_mines() {
    let g = Game::new(3, 3, 50, Variant::Classic);
    assert_eq!(g.mine_count, 8);
}

#[test]
fn first_click_never_loses_and_keeps_its_block_clear() {
    for _ in 0..40 {
        let mut g = Game::new(9, 9, 10, Variant::Classic);
        assert!(g.reveal_cell(4, 4));
        assert_ne!(g.state, GameState::Lost);
        let mines: usize = g.grid.iter().flatten().map(|c| c.mines as usize).sum();
        assert_eq!(mines, 10);
        for y in 3..=5 {
            for x in 3..=5 {
                assert_eq!(g.grid[y][x].mines, 0);
            }
        }
        assert_eq!(g.grid[4][4].state, CellState::Revealed);
    }
}

#[test]
fn cascade_opens_the_zero_region_and_its_border() {
    let mut g = board(&["....", "....", "...*", "...."], Variant::Classic);
    assert!(g.reveal_cell(0, 0));
    // Every cell but the mine and the corner behind the numbers around it.
    assert_eq!(g.grid[2][3].state, CellState::Hidden);
    assert_eq!(g.grid[3][3].state, CellState::Hidden);
    assert_eq!(g.grid[0][0].state, CellState::Revealed);
    assert_eq!(g.grid[1][3].state, CellState::Revealed);
    assert_eq!(g.grid[3][2].state, CellState::Revealed);
    assert_eq!(count_state(&g, CellState::Revealed), 14);
    assert_eq!(g.state, GameState::Playing);
    assert!(g.reveal_cell(3, 3));
    assert_eq!(g.state, GameState::Won);
}

#[test]
fn a_number_does_not_spread() {
    let mut g = board(&["*...", "....", "....", "...."], Variant::Classic);
    assert!(g.reveal_cell(1, 1));
    assert_eq!(count_state(&g, CellState::Revealed), 1);
    assert_eq!(g.grid[1][1].adjacent_mines, 1);
    assert_eq!(g.state, GameState::Playing);
}

#[test]
fn clicking_a_mine_loses_and_shows_every_mine() {
    let mut g = board(&["*..*", "....", "....", "*..."], Variant::Classic);
    assert!(g.reveal_cell(0, 0));
    assert_eq!(g.state, GameState::Lost);
    assert_eq!(g.grid[0][3].state, CellState::Revealed);
    assert_eq!(g.grid[3][0].state, CellState::Revealed);
    assert_eq!(g.grid[1][1].state, CellState::Hidden);
    // Nothing more happens once lost.
    assert!(!g.reveal_cell(1, 1));
}

#[test]
fn opening_a_revealed_or_outside_cell_does_nothing() {
    let mut g = board(&["*...", "....", "....", "...."], Variant::Classic);
    assert!(g.reveal_cell(1, 1));
    assert!(!g.reveal_cell(1, 1));
    assert!(!g.reveal_cell(10, 1));
}

#[test]
fn flags_cycle_and_the_counter_follows() {
    let mut g = board(&["*...", "....", "....", "...."], Variant::Classic);
    assert!(g.toggle_flag(0, 0));
    assert_eq!(g.grid[0][0].state, CellState::Flagged);
    assert_eq!(g.flags_placed, 1);
    assert_eq!(g.remaining_mines(), 0);
    assert!(g.toggle_flag(0, 0));
    assert_eq!(g.grid[0][0].state, CellState::Hidden);
    assert_eq!(g.flags_placed, 0);
    assert!(!g.toggle_flag(9, 9));
}

#[test]
fn multi_mines_flags_count_up_to_three() {
    let mut g = board(&["*...", "....", "....", "...."], Variant::MultiMines);
    assert!(g.toggle_flag(1, 1));
    assert_eq!(g.grid[1][1].state, CellState::Flagged);
    assert!(g.toggle_flag(1, 1));
    assert_eq!(g.grid[1][1].state, CellState::Flagged2);
    assert!(g.toggle_flag(1, 1));
    assert_eq!(g.grid[1][1].state, CellState::Flagged3);
    assert_eq!(g.flags_placed, 3);
    assert!(g.toggle_flag(1, 1));
    assert_eq!(g.grid[1][1].state, CellState::Hidden);
    assert_eq!(g.flags_placed, 0);
}

#[test]
fn chord_opens_the_rest_when_the_flags_match() {
    let mut g = board(&["*...", "....", "....", "...."], Variant::Classic);
    assert!(g.reveal_cell(1, 0));
    assert!(!g.chord(1, 0));
    assert!(g.toggle_flag(0, 0));
    assert!(g.chord(1, 0));
    assert_eq!(g.grid[1][0].state, CellState::Revealed);
    assert_eq!(g.state, GameState::Won);
}

#[test]
fn chord_refuses_a_wrong_flag() {
    let mut g = board(&["*...", "....", "....", "...."], Variant::Classic);
    assert!(g.reveal_cell(1, 0));
    assert!(g.toggle_flag(2, 1));
    assert!(!g.chord(1, 0));
    assert_eq!(g.state, GameState::Playing);
    assert_eq!(g.grid[0][0].state, CellState::Hidden);
    assert_eq!(count_state(&g, CellState::Revealed), 1);
}

#[test]
fn counts_are_the_mines_around() {
    let g = board(&["*.*", "...", "*.*"], Variant::Classic);
    assert_eq!(g.count_adjacent_mines(1, 1), 4);
    assert_eq!(g.count_adjacent_mines(1, 0), 2);
    assert_eq!(g.grid[1][1].adjacent_mines, 4);
    assert_eq!(g.grid[0][1].adjacent_mines, 2);
}

#[test]
fn negative_mines_count_with_their_sign() {
    let mut g = board(&["*.*", "...", "..."], Variant::NegativeMines);
    g.grid[0][2].is_negative = true;
    g.recompute_all_adjacency();
    assert_eq!(g.grid[1][1].adjacent_mines, 0);
    assert_eq!(g.grid[1][0].adjacent_mines, 1);
    assert_eq!(g.grid[1][2].adjacent_mines, -1);
}

#[test]
fn candidate_pools() {
    let zone = candidate_positions(5, 5, 2, 2, 0);
    assert_eq!(zone.len(), 16);
    assert!(!zone.contains(&(1, 1)));
    assert!(zone.contains(&(0, 0)));
    let all_but = candidate_positions(5, 5, 2, 2, 1);
    assert_eq!(all_but.len(), 24);
    assert!(!all_but.contains(&(2, 2)));
    let all = candidate_positions(5, 5, 2, 2, 2);
    assert_eq!(all.len(), 25);
    assert_eq!(all[0], (0, 0));
    assert_eq!(all[6], (1, 1));
}

#[test]
fn neighbours_in_scan_order() {
    assert_eq!(neighbor_of(3, 3, 1, 1, 0), Some((0, 0)));
    assert_eq!(neighbor_of(3, 3, 1, 1, 4), Some((2, 1)));
    assert_eq!(neighbor_of(3, 3, 1, 1, 7), Some((2, 2)));
    assert_eq!(neighbor_of(3, 3, 0, 0, 0), None);
    assert_eq!(neighbor_of(3, 3, 2, 2, 7), None);
}

#[test]
fn remaining_mines_can_go_negative() {
    let mut g = board(&["*...", "....", "....", "...."], Variant::Classic);
    g.toggle_flag(1, 1);
    g.toggle_flag(2, 2);
    assert_eq!(g.remaining_mines(), -1);
}

fn mine_layout(g: &Game) -> Vec<(usize, usize)> {
    let mut v = Vec::new();
    for y in 0..g.height {
        for x in 0..g.width {
            if g.grid[y][x].mines > 0 {
                v.push((x, y));
            }
        }
    }
    v
}

#[test]
fn mine_layouts_vary_between_games() {
    let mut layouts = Vec::new();
    for _ in 0..10 {
        let mut g = Game::new(9, 9, 10, Variant::Classic);
        g.reveal_cell(0, 0);
        layouts.push(mine_layout(&g));
    }
    assert!(layouts.iter().any(|l| *l != layouts[0]));
}

#[test]
fn reveal_neighbors_opens_around_a_number_without_looking_at_flags() {
    let mut g = board(&["*...", "....", "....", "...."], Variant::MultiMines);
    assert!(g.reveal_cell(1, 0));
    assert!(g.toggle_flag(0, 0));
    assert!(g.reveal_neighbors(1, 0));
    assert_eq!(g.grid[0][0].state, CellState::Flagged);
    assert_eq!(g.grid[1][1].state, CellState::Revealed);
    assert_eq!(g.state, GameState::Won);

    // No flag is asked for: the hidden mine next to the number is opened.
    let mut h = board(&["*...", "....", "....", "...."], Variant::MultiMines);
    assert!(h.reveal_cell(1, 0));
    assert!(h.reveal_neighbors(1, 0));
    assert_eq!(h.state, GameState::Lost);

    // A blank cell fires nothing.
    let mut k = board(&["*...", "....", "....", "...."], Variant::MultiMines);
    assert!(k.reveal_cell(3, 3));
    let before = count_state(&k, CellState::Revealed);
    assert!(!k.reveal_neighbors(3, 3));
    assert_eq!(count_state(&k, CellState::Revealed), before);
}
