use ubersweeper::display::{subtract_number, Dir};
use ubersweeper::drift::{drift_on_move, DRIFT_EVERY};
use ubersweeper::encrypted::{answer_of, generate, EncClick, EncState, EqForm, Equation};
use ubersweeper::game::{CellState, Game, GameState};
use ubersweeper::graph::GraphGame;
use ubersweeper::graph_boards::{cube_adjacency, cube_mines, face_adjacency, hyperbolic_mines, sphere_mines, voronoi_mines};
use ubersweeper::kudzu::{kudzu_liveness_check, KudzuState};
use ubersweeper::kudzu_turn::{kudzu_chord, kudzu_click};
use ubersweeper::turn::play_turn;
use ubersweeper::marathon::marathon_on_move;
use ubersweeper::merge::{build_layout, MergeGame};
use ubersweeper::minelayer::Ml;
use ubersweeper::nested::{Outer, OuterBoard, OuterCell};
use ubersweeper::countdown::{collect_frontier, panic_tick, PANIC_SECS};
use ubersweeper::random::random_chance;
use ubersweeper::rgb::{clamp_colours, RgbGame};
use ubersweeper::variant::Variant;

fn board(rows: &[&str], variant: Variant) -> Game {
    let height = rows.len();
    let width = rows[0].len();
    let mut g = Game::new(width, height, 0, variant);
    let mut mines = 0;
    for (y, r) in rows.iter().enumerate() {
        for (x, ch) in r.chars().enumerate() {
            if ch == '*' {
                g.grid[y][x].mines = 1;
                mines += 1;
            }
        }
    }
    g.mine_count = mines;
    g.recompute_all_adjacency();
    g.state = GameState::Playing;
    g
}

fn mines_of(g: &Game) -> usize {
    g.grid.iter().flatten().map(|c| c.mines as usize).sum()
}

#[test]
fn rotation_turns_a_quarter_clockwise() {
    let mut g = board(&["*..", "..."], Variant::Rotation);
    g.rotate_90_cw();
    assert_eq!((g.width, g.height), (2, 3));
    // (0, 0) goes to (height - 1 - 0, 0) = (1, 0).
    assert_eq!(g.grid[0][1].mines, 1);
    assert_eq!(mines_of(&g), 1);
    assert_eq!(g.grid[1][0].adjacent_mines, 1);
    assert_eq!(g.grid[2][0].adjacent_mines, 0);
    g.rotate_90_cw();
    g.rotate_90_cw();
    g.rotate_90_cw();
    assert_eq!(g.grid[0][0].mines, 1);
}

#[test]
fn drift_keeps_every_mine() {
    for _ in 0..20 {
        let mut g = board(&["*...*", ".....", "..*..", ".....", "*...*"], Variant::Drift);
        g.drift_mines();
        assert_eq!(mines_of(&g), 5);
        for y in 0..5 {
            for x in 0..5 {
                if g.grid[y][x].mines == 0 {
                    assert_eq!(g.grid[y][x].adjacent_mines, g.count_adjacent_mines(x, y));
                }
            }
        }
    }
}

#[test]
fn crosswalk_left_then_right_restores_the_row() {
    let mut g = board(&["*..", "..*", "..."], Variant::Crosswalk);
    g.shift_row_left(0);
    assert_eq!(g.grid[0][2].mines, 1);
    assert_eq!(g.grid[0][0].mines, 0);
    g.shift_row_right(0);
    assert_eq!(g.grid[0][0].mines, 1);
    g.shift_col_down(2);
    assert_eq!(g.grid[2][2].mines, 1);
    g.shift_col_up(2);
    assert_eq!(g.grid[1][2].mines, 1);
    assert_eq!(mines_of(&g), 2);
}

#[test]
fn marathon_shift_moves_rows_down() {
    let mut g = board(&["*..", "...", "..."], Variant::Marathon);
    g.endless = true;
    for x in 0..3 {
        g.grid[2][x].state = CellState::Revealed;
    }
    let top = vec![false, true, false];
    assert!(g.shift_rows(&top));
    assert_eq!(g.grid[1][0].mines, 1);
    assert_eq!(g.grid[0][1].mines, 1);
    assert_eq!(g.grid[0][0].state, CellState::Hidden);
    assert_eq!(g.mine_count, 2);
    assert_eq!(g.grid[1][1].adjacent_mines, 2);
}

#[test]
fn marathon_loses_when_the_bottom_is_not_clear() {
    let mut g = board(&["*..", "...", ".*."], Variant::Marathon);
    let top = vec![false, false, false];
    assert!(!g.shift_rows(&top));
    assert_eq!(g.state, GameState::Lost);
    assert_eq!(g.grid[2][1].state, CellState::Revealed);
}

#[test]
fn display_numbers() {
    let g = board(&["*..", "...", "..*"], Variant::Relative);
    assert_eq!(g.relative_number(1, 0), 1);
    assert_eq!(g.relative_number(1, 1), 1);
    assert_eq!(g.relative_number(2, 1), 1);
    assert_eq!(g.neighbor_count(0, 0), 3);
    assert_eq!(g.neighbor_count(1, 1), 8);
    assert_eq!(subtract_number(8, 2), 6);
    assert_eq!(subtract_number(3, 5), 0);
    assert_eq!(subtract_number(3, -1), 0);
    assert_eq!(g.closed_count(1, 1), 2);
    assert_eq!(g.count_offset(1, 1, Dir::N), 1);
    assert_eq!(g.count_offset(2, 2, Dir::S), 1);
    assert_eq!(g.count_offset(0, 2, Dir::W), 0);
    assert!(g.has_adjacent_mine(1, 1));
    assert!(!g.has_adjacent_mine(2, 0));
}

#[test]
fn chain_reachability() {
    let mut g = board(&[".....", ".....", ".....", ".....", "....*"], Variant::Chain);
    assert!(g.reveal_cell(0, 0));
    assert!(!g.is_reachable(0, 0, None, false));
    assert!(g.any_in_5x5((2, 2)));
    assert!(g.is_reachable(4, 4, Some((2, 2)), true));
    // Outside the zone of the last click, but next to a revealed cell.
    assert!(g.is_reachable(4, 4, Some((0, 0)), true));
    assert!(g.on_frontier(4, 4));
    let mut h = board(&["......*"], Variant::Chain);
    h.grid[0][0].state = CellState::Revealed;
    assert!(h.is_reachable(1, 0, Some((5, 0)), true));
    assert!(h.is_reachable(3, 0, Some((5, 0)), true));
    assert!(h.is_reachable(2, 0, Some((0, 0)), false));
    assert!(!h.is_reachable(6, 0, Some((0, 0)), true));
    assert!(!h.is_reachable(4, 0, None, false));
}

#[test]
fn minelayer_numbers_count_down_with_markers() {
    let g = board(&["*..", "...", "..."], Variant::Minelayer);
    let mut ml = Ml::from_game(&g);
    assert_eq!(ml.display_count(0, 0), 1);
    assert_eq!(ml.display_count(1, 1), 1);
    assert_eq!(ml.display_count(2, 2), 0);
    ml.toggle(0, 0);
    assert_eq!(ml.display_count(1, 1), 0);
    assert_eq!(ml.mines_remaining(), 0);
    assert!(ml.won);
}

#[test]
fn kudzu_covers_and_counts() {
    let g = board(&["*..", "...", "..."], Variant::Kudzu);
    let mut k = KudzuState::new(3, 3);
    assert!(k.is_empty());
    k.kudzu[0][0] = true;
    assert!(!k.is_empty());
    assert_eq!(k.covered_mines(&g, 1, 1), 1);
    assert_eq!(k.kudzu_number(&g, 1, 1), 0);
    assert_eq!(k.nearest_hidden(0, 0, &g), Some((1, 0)));
    k.remove_around_reveal(1, 0);
    assert!(k.is_empty());
}

#[test]
fn kudzu_mask_round_trip() {
    let mut g = board(&["*..", "...", "..."], Variant::Kudzu);
    let mut k = KudzuState::new(3, 3);
    k.kudzu[2][2] = true;
    k.kudzu[0][0] = true;
    let masked = k.mask_for_cascade(&mut g);
    assert_eq!(masked.len(), 2);
    assert_eq!(g.grid[2][2].state, CellState::Flagged);
    KudzuState::unmask_cascade(masked, &mut g);
    assert_eq!(g.grid[2][2].state, CellState::Hidden);
    assert_eq!(g.grid[0][0].state, CellState::Hidden);
}

#[test]
fn kudzu_spreads_to_a_neighbour() {
    let g = board(&["*..", "...", "..."], Variant::Kudzu);
    let mut k = KudzuState::new(3, 3);
    k.kudzu[1][1] = true;
    k.spread(&g);
    let vines: usize = k.kudzu.iter().flatten().filter(|v| **v).count();
    assert_eq!(vines, 2);
    assert!(k.kudzu[1][1]);
}

#[test]
fn kudzu_gone_loses() {
    let mut g = board(&["*..", "...", "..."], Variant::Kudzu);
    let k = KudzuState::new(3, 3);
    kudzu_liveness_check(&mut g, &k);
    assert_eq!(g.state, GameState::Lost);
}

#[test]
fn panic_frontier_in_row_major_order() {
    let mut g = board(&["*....", ".....", "....."], Variant::Panic);
    g.grid[1][2].state = CellState::Revealed;
    let f = collect_frontier(&g);
    assert_eq!(f, vec![(1, 0), (2, 0), (3, 0), (1, 1), (3, 1), (1, 2), (2, 2), (3, 2)]);
}

#[test]
fn panic_counts_down_then_plays() {
    let mut g = board(&["*....", ".....", "....."], Variant::Panic);
    g.grid[1][2].state = CellState::Revealed;
    let mut c = 3;
    assert!(panic_tick(&mut g, &mut c));
    assert_eq!(c, 2);
    let mut c = 1;
    assert!(panic_tick(&mut g, &mut c));
    assert_eq!(c, PANIC_SECS);
    let revealed = g.grid.iter().flatten().filter(|c| c.state == CellState::Revealed).count();
    assert!(revealed >= 2);
    g.state = GameState::Won;
    let mut c = 1;
    assert!(!panic_tick(&mut g, &mut c));
    assert_eq!(c, 1);
}

#[test]
fn merge_layout_partitions_the_board() {
    for _ in 0..10 {
        let (map, groups) = build_layout(7, 6);
        let cells: usize = groups.iter().map(|g| g.cells.len()).sum();
        assert_eq!(cells, 42);
        for (gid, g) in groups.iter().enumerate() {
            for &(x, y) in &g.cells {
                assert_eq!(map[y][x], gid);
            }
        }
    }
}

#[test]
fn merge_first_click_is_safe() {
    for _ in 0..10 {
        let mut m = MergeGame::new(8, 8, 10);
        let gid = m.group_map[3][3];
        assert!(m.reveal_cell(gid));
        assert_ne!(m.board.state, GameState::Lost);
        let mines = m.board.cells.iter().filter(|c| c.is_mine).count();
        assert!(mines <= m.board.mines_total);
        assert!(!m.board.cells[gid].is_mine);
        let nb = m.neighbors(gid);
        assert!(!nb.contains(&gid));
        for n in nb {
            assert!(m.neighbors(n).contains(&gid));
        }
    }
}

#[test]
fn rgb_channels_and_flags() {
    assert_eq!(clamp_colours(1), 2);
    assert_eq!(clamp_colours(7), 7);
    assert_eq!(clamp_colours(40), 20);
    let mut g = RgbGame::new(9, 9, 10, 3);
    assert_eq!(g.mine_count, 10);
    assert!(g.reveal_cell(4, 4));
    assert_ne!(g.state, GameState::Lost);
    let mines = g.grid.iter().flatten().filter(|c| c.mine.is_some()).count();
    assert_eq!(mines, 30);
    g.next_channel();
    assert_eq!(g.view_channel, 1);
    let small = RgbGame::new(4, 4, 10, 3);
    assert_eq!(small.mine_count, 2);
}

#[test]
fn nested_first_win_is_safe_and_chords_list_hidden_neighbours() {
    let mut b = OuterBoard::new(6, 6, 5);
    b.on_mini_won(2, 2);
    assert_ne!(b.state, GameState::Lost);
    assert_eq!(b.grid[2][2].state, Outer::Revealed);
    assert_eq!(b.mine_count, 5);
    assert_eq!(b.remaining_mines(), 5);
    let mines = b.grid.iter().flatten().filter(|c| c.is_mine).count();
    assert_eq!(mines, 5);
    if b.state == GameState::Playing {
        let hidden = b.grid[0][0].state == Outer::Hidden;
        b.toggle_flag(0, 0);
        if hidden {
            assert_eq!(b.remaining_mines(), 4);
        }
        b.on_mini_lost();
        assert_eq!(b.state, GameState::Lost);
        let shown = b.grid.iter().flatten().filter(|c| c.is_mine && c.state == Outer::Revealed).count();
        assert_eq!(mines, shown);
    }
    let mut c = OuterBoard::new(3, 3, 0);
    c.on_mini_won(1, 1);
    assert_eq!(c.state, GameState::Won);
    assert!(c.chord_targets(1, 1).is_empty());
}

#[test]
fn encrypted_answers() {
    assert_eq!(answer_of(EqForm::Sum(3, 4), 1), 7);
    assert_eq!(answer_of(EqForm::Diff(3, 40), 1), 37);
    assert_eq!(answer_of(EqForm::SumProduct(2, 3, 4), 2), 14);
    assert_eq!(answer_of(EqForm::ProductOfSum(2, 3, 4), 2), 20);
    assert_eq!(answer_of(EqForm::Quadratic(-3, 5), 4), 5);
    assert_eq!(answer_of(EqForm::Triangular(10), 5), 55);
    assert_eq!(answer_of(EqForm::SquareSum(3), 5), 14);
    assert_eq!(answer_of(EqForm::Geometric(3, 4), 5), 45);
    assert_eq!(answer_of(EqForm::ModExp(3, 4, 7), 6), 4);
    assert_eq!(answer_of(EqForm::Derivative(2, 3, 5, 2), 7), 29);
    assert_eq!(answer_of(EqForm::Integral(4, 6, 2), 8), 56);
    for level in 1..=8u8 {
        let e = generate(level);
        assert_eq!(e.answer, answer_of(e.form, level));
    }
}

#[test]
fn encrypted_peek_and_locks() {
    let mut st = EncState::new(1, 4, 4);
    let mut eq = Equation { form: EqForm::Sum(2, 2), answer: 4 };
    assert!(!st.submit_answer(5, &mut eq));
    assert!(!st.peek_token);
    assert!(st.submit_answer(4, &mut eq));
    assert!(st.peek_token);
    let mut g = board(&["*...", "....", "....", "...."], Variant::Encrypted);
    assert!(g.reveal_cell(1, 1));
    assert_eq!(st.click_open(&mut g, 1, 1), EncClick::Peeked);
    assert_eq!(st.peeked, Some((1, 1)));
    assert_eq!(st.click_open(&mut g, 1, 1), EncClick::ChordFailed);
    assert!(!st.locked[1][1]);
    assert_eq!(st.click_open(&mut g, 1, 1), EncClick::ChordFailed);
    assert!(st.locked[0][0] && st.locked[2][2] && !st.locked[3][3]);
    assert_eq!(st.click_open(&mut g, 1, 1), EncClick::Locked);
}

#[test]
fn graph_boards_caps_and_cube() {
    assert_eq!(sphere_mines(80, 100), 70);
    assert_eq!(sphere_mines(5, 3), 0);
    assert_eq!(hyperbolic_mines(100, 2), 5);
    assert_eq!(hyperbolic_mines(100, 95), 90);
    assert_eq!(voronoi_mines(50, 0), 1);
    assert_eq!(voronoi_mines(50, 45), 41);
    assert!(cube_mines(54, 100) <= 54);
    let adj = cube_adjacency(2, 2, 2);
    assert_eq!(adj.len(), 8);
    assert_eq!(adj[0].len(), 7);
    for (i, l) in adj.iter().enumerate() {
        for &j in l {
            assert!(adj[j].contains(&i));
        }
    }
    let faces = vec![[0, 1, 2], [0, 2, 3], [4, 5, 6]];
    let fa = face_adjacency(&faces);
    assert!(fa[0].contains(&1));
    assert!(fa[1].contains(&0));
    assert!(fa[2].is_empty());
}

#[test]
fn graph_game_flood_and_flags() {
    // A path 0 - 1 - 2 - 3 - 4.
    let adj = vec![vec![1], vec![0, 2], vec![1, 3], vec![2, 4], vec![3]];
    let mut g = GraphGame::new(adj, 1);
    g.reveal_cell(0);
    assert_ne!(g.state, GameState::Lost);
    assert_eq!(g.cells[0].state, CellState::Revealed);
    assert_eq!(g.cells[1].state, CellState::Revealed);
    assert!(!g.cells[0].is_mine && !g.cells[1].is_mine);
    assert_eq!(g.cells.iter().filter(|c| c.is_mine).count(), 1);
    let mut h = GraphGame::new(vec![vec![1], vec![0, 2], vec![1, 3], vec![2, 4], vec![3]], 0);
    h.toggle_flag(4);
    assert_eq!(h.flags_placed, 1);
    assert_eq!(h.remaining_mines(), -1);
}

#[test]
fn random_chance_edges() {
    for _ in 0..20 {
        assert!(!random_chance(0, 5));
        assert!(random_chance(5, 5));
    }
}

#[test]
fn drift_moves_mines_every_third_action() {
    let mut g = board(&["*..", "...", "..."], Variant::Drift);
    g.grid[2][2].state = CellState::Revealed;
    let mut counter = 0u8;
    assert!(!drift_on_move(&mut g, &mut counter));
    assert_eq!(counter, 1);
    assert!(!drift_on_move(&mut g, &mut counter));
    assert_eq!(counter, 2);
    assert_eq!(DRIFT_EVERY, 3);
    assert!(drift_on_move(&mut g, &mut counter));
    assert_eq!(counter, 0);
    assert_eq!(mines_of(&g), 1);
    g.state = GameState::Lost;
    assert!(!drift_on_move(&mut g, &mut counter));
    assert_eq!(counter, 0);
}

#[test]
fn marathon_counts_moves_down_then_shifts() {
    let mut g = board(&["*..", "...", "..."], Variant::Marathon);
    g.endless = true;
    for x in 0..3 {
        g.grid[2][x].state = CellState::Revealed;
    }
    let mut left = 2u32;
    assert!(!marathon_on_move(&mut g, &mut left));
    assert_eq!(left, 1);
    assert_eq!(g.grid[0][0].mines, 1);
    assert!(marathon_on_move(&mut g, &mut left));
    // The mine moved one row down; the moves start again from the two
    // bottom rows' mines: 2 * mines + 5.
    assert_eq!(g.grid[1][0].mines, 1);
    let bottom_two: u32 = g.grid[1..].iter().flatten().map(|c| c.mines as u32).sum();
    assert_eq!(left, 2 * bottom_two + 5);
    assert_eq!(g.state, GameState::Playing);
}

#[test]
fn marathon_ignores_moves_after_the_game() {
    let mut g = board(&["*..", "...", "..."], Variant::Marathon);
    g.state = GameState::Lost;
    let mut left = 4u32;
    assert!(!marathon_on_move(&mut g, &mut left));
    assert_eq!(left, 4);
}

#[test]
fn random_chance_draws_both_outcomes() {
    let draws: Vec<bool> = (0..200).map(|_| random_chance(1, 2)).collect();
    assert!(draws.iter().any(|d| *d));
    assert!(draws.iter().any(|d| !*d));
}

#[test]
fn graph_mine_layouts_vary_between_games() {
    let mut layouts = Vec::new();
    for _ in 0..10 {
        let mut g = GraphGame::new(cube_adjacency(4, 4, 4), 10);
        g.reveal_cell(0);
        layouts.push(g.cells.iter().map(|c| c.is_mine).collect::<Vec<bool>>());
    }
    assert!(layouts.iter().any(|l| *l != layouts[0]));
}

#[test]
fn infection_with_pick_takes_that_target_in_scan_order() {
    let mut g = board(&["*..", "...", "..."], Variant::Infection);
    g.grid[0][1].state = CellState::Revealed;
    // Around (1, 0) the targets in scan order are (2, 0), (0, 1), (1, 1), (2, 1).
    let c = g.infection_candidates(1, 0);
    assert_eq!(c, vec![(2, 0), (0, 1), (1, 1), (2, 1)]);
    assert!(g.infect_with(1, 0, 2));
    assert_eq!(g.grid[1][1].mines, 1);
    assert_eq!(g.mine_count, 2);
    assert_eq!(mines_of(&g), 2);
    assert_eq!(g.grid[0][1].adjacent_mines, 2);
    assert_eq!(g.grid[2][2].adjacent_mines, 1);
}

#[test]
fn infection_with_pick_past_the_targets_or_from_a_blank_does_nothing() {
    let mut g = board(&["*..", "...", "..."], Variant::Infection);
    g.grid[0][1].state = CellState::Revealed;
    let before = g.grid.clone();
    assert!(!g.infect_with(1, 0, 4));
    assert_eq!(g.grid, before);
    assert_eq!(g.mine_count, 1);
    // (2, 2) counts no mine: it never infects.
    assert!(!g.infect_with(2, 2, 0));
    assert_eq!(g.grid, before);
    assert_eq!(g.mine_count, 1);
}

#[test]
fn infection_after_reveal_is_idle_once_the_game_is_over() {
    let mut g = board(&["*..", "...", "..."], Variant::Infection);
    let was_hidden = g.hidden_map();
    g.grid[0][1].state = CellState::Revealed;
    g.state = GameState::Lost;
    let before = g.grid.clone();
    for _ in 0..20 {
        g.infect_after_reveal(&was_hidden);
        assert_eq!(g.grid, before);
        assert_eq!(g.mine_count, 1);
    }
}

#[test]
fn infection_after_reveal_only_seeds_next_to_new_numbers() {
    for _ in 0..50 {
        let mut g = board(&["*....", ".....", ".....", ".....", "....."], Variant::Infection);
        let was_hidden = g.hidden_map();
        g.grid[0][1].state = CellState::Revealed;
        g.infect_after_reveal(&was_hidden);
        assert!(g.mine_count <= 2);
        assert_eq!(mines_of(&g), g.mine_count);
        for y in 0..5 {
            for x in 0..5 {
                if (x, y) != (0, 0) && g.grid[y][x].mines != 0 {
                    assert!(x <= 2 && y <= 1, "mine at ({}, {})", x, y);
                }
            }
        }
    }
}

#[test]
fn nested_chord_needs_exactly_as_many_flags_as_mines() {
    let cell = |is_mine: bool, adjacent: u8, state: Outer| OuterCell { is_mine, adjacent, state };
    let mut b = OuterBoard::new(3, 2, 0);
    b.grid = vec![
        vec![cell(true, 0, Outer::Flagged), cell(false, 1, Outer::Revealed), cell(false, 0, Outer::Hidden)],
        vec![cell(false, 1, Outer::Hidden), cell(false, 1, Outer::Hidden), cell(false, 0, Outer::Hidden)],
    ];
    b.mine_count = 1;
    b.flags = 1;
    b.state = GameState::Playing;
    assert_eq!(b.chord_targets(1, 0), vec![(2, 0), (0, 1), (1, 1), (2, 1)]);
    // One flag too many: the chord does not fire.
    b.grid[0][2].state = Outer::Flagged;
    b.flags = 2;
    assert!(b.chord_targets(1, 0).is_empty());
}

#[test]
fn kudzu_escapes_to_the_nearest_free_cell() {
    let mut g = board(&[".....", ".....", ".....", ".....", "....."], Variant::Kudzu);
    for row in g.grid.iter_mut() {
        for c in row.iter_mut() {
            c.state = CellState::Revealed;
        }
    }
    // Free cells: (4, 0) first in row order, (1, 2) nearer to (0, 4).
    g.grid[0][4].state = CellState::Hidden;
    g.grid[2][1].state = CellState::Hidden;
    let k = KudzuState::new(5, 5);
    assert_eq!(k.nearest_hidden(0, 4, &g), Some((1, 2)));
    assert_eq!(k.nearest_hidden(4, 2, &g), Some((4, 0)));
    g.grid[2][1].state = CellState::Revealed;
    g.grid[0][4].state = CellState::Revealed;
    assert_eq!(k.nearest_hidden(0, 4, &g), None);
}

#[test]
fn kudzu_sends_one_shoot_per_vine() {
    for _ in 0..20 {
        let g = board(&[".....", ".....", ".....", ".....", "....."], Variant::Kudzu);
        let mut k = KudzuState::new(5, 5);
        k.kudzu[0][0] = true;
        k.kudzu[4][4] = true;
        k.spread(&g);
        let vines: usize = k.kudzu.iter().flatten().filter(|v| **v).count();
        assert_eq!(vines, 4);
        assert!(k.kudzu[0][1] || k.kudzu[1][0] || k.kudzu[1][1]);
        assert!(k.kudzu[4][3] || k.kudzu[3][4] || k.kudzu[3][3]);
    }
}

#[test]
fn drift_moves_a_mine_whenever_a_spot_is_open() {
    for _ in 0..10 {
        let mut g = board(&["...", ".*.", "..."], Variant::Drift);
        for y in 0..3 {
            for x in 0..3 {
                if (x, y) != (0, 0) && (x, y) != (1, 1) {
                    g.grid[y][x].state = CellState::Revealed;
                }
            }
        }
        g.drift_mines();
        assert_eq!(g.grid[0][0].mines, 1);
        assert_eq!(g.grid[1][1].mines, 0);
        g.grid[1][1].state = CellState::Hidden;
        g.grid[0][0].state = CellState::Revealed;
        g.grid[0][0].mines = 0;
        g.grid[1][1].mines = 1;
        g.recompute_all_adjacency();
        g.drift_mines();
        assert_eq!(g.grid[1][1].mines, 1);
    }
}

#[test]
fn kudzu_escape_breaks_ties_in_search_order() {
    let mut g = board(&[".....", ".....", ".....", ".....", "....."], Variant::Kudzu);
    for row in g.grid.iter_mut() {
        for c in row.iter_mut() {
            c.state = CellState::Revealed;
        }
    }
    // Both free cells lie two steps from (2, 2); the search reaches (0, 2)
    // through (1, 1), its first neighbour, before (3, 0) through (2, 1).
    g.grid[0][3].state = CellState::Hidden;
    g.grid[2][0].state = CellState::Hidden;
    let k = KudzuState::new(5, 5);
    assert_eq!(k.nearest_hidden(2, 2, &g), Some((0, 2)));
}

fn vines_of(k: &KudzuState) -> usize {
    k.kudzu.iter().flatten().filter(|v| **v).count()
}

#[test]
fn kudzu_click_cuts_the_vines_before_the_cascade() {
    let mut g = board(&[".....", ".....", "....*"], Variant::Kudzu);
    let mut k = KudzuState::new(5, 3);
    k.kudzu[0][1] = true;
    k.kudzu[0][4] = true;
    assert!(kudzu_click(&mut g, &mut k, 0, 0));
    // The vine beside the click was cut first, so the cascade went through it.
    assert!(!k.kudzu[0][1]);
    assert_eq!(g.grid[0][1].state, CellState::Revealed);
    assert_eq!(g.grid[0][3].state, CellState::Revealed);
    // The other vine was masked: the cascade passed it by, and it stays.
    assert_eq!(g.grid[0][4].state, CellState::Hidden);
    assert!(k.kudzu[0][4]);
    assert_eq!(g.state, GameState::Playing);
    assert_eq!(g.flags_placed, 0);
}

#[test]
fn kudzu_click_on_a_mine_loses_without_spreading() {
    let mut g = board(&["*..", "...", "..."], Variant::Kudzu);
    let mut k = KudzuState::new(3, 3);
    k.kudzu[2][2] = true;
    assert!(kudzu_click(&mut g, &mut k, 0, 0));
    assert_eq!(g.state, GameState::Lost);
    assert_eq!(vines_of(&k), 1);
    assert!(k.kudzu[2][2]);
    assert_eq!(g.grid[2][2].state, CellState::Hidden);
}

#[test]
fn kudzu_chord_masks_the_vines_and_spreads() {
    let mut g = board(&["*...", "....", "...."], Variant::Kudzu);
    g.grid[1][1].state = CellState::Revealed;
    assert!(g.toggle_flag(0, 0));
    let mut k = KudzuState::new(4, 3);
    k.kudzu[2][3] = true;
    assert!(kudzu_click(&mut g, &mut k, 1, 1));
    assert_eq!(g.grid[0][1].state, CellState::Revealed);
    assert_eq!(g.grid[1][2].state, CellState::Revealed);
    // The vine's cell stayed hidden under the chord's cascade, and the vine stays.
    assert_eq!(g.grid[2][3].state, CellState::Hidden);
    assert!(k.kudzu[2][3]);
    assert_eq!(g.state, GameState::Playing);
    assert_eq!(g.flags_placed, 1);
    assert_eq!(g.grid[0][0].state, CellState::Flagged);
}

#[test]
fn kudzu_chord_that_opens_nothing_leaves_the_vines() {
    let mut g = board(&["*...", "....", "...."], Variant::Kudzu);
    g.grid[1][1].state = CellState::Revealed;
    let mut k = KudzuState::new(4, 3);
    k.kudzu[2][3] = true;
    assert!(!kudzu_chord(&mut g, &mut k, 1, 1));
    assert_eq!(vines_of(&k), 1);
    assert_eq!(g.grid[2][3].state, CellState::Hidden);
    assert_eq!(g.state, GameState::Playing);
}

#[test]
fn kudzu_click_after_the_game_does_nothing() {
    let mut g = board(&["*..", "...", "..."], Variant::Kudzu);
    g.state = GameState::Won;
    let mut k = KudzuState::new(3, 3);
    k.kudzu[1][1] = true;
    assert!(!kudzu_click(&mut g, &mut k, 2, 2));
    assert_eq!(g.grid[2][2].state, CellState::Hidden);
    assert_eq!(vines_of(&k), 1);
    assert_eq!(g.state, GameState::Won);
}

#[test]
fn rotation_turns_after_an_opening() {
    let mut g = board(&["*..", "..*"], Variant::Rotation);
    assert!(play_turn(&mut g, &mut 0, &mut None, 0, 1));
    assert_eq!(g.state, GameState::Playing);
    assert_eq!((g.width, g.height), (2, 3));
    // (0, 0) goes to (1, 0); the opened (0, 1) goes to (0, 0).
    assert_eq!(g.grid[0][1].mines, 1);
    assert_eq!(g.grid[0][0].state, CellState::Revealed);
}

#[test]
fn rotation_turns_after_a_chord_that_opens() {
    let mut g = board(&["*...", "..*."], Variant::Rotation);
    g.grid[0][1].state = CellState::Revealed;
    assert!(g.toggle_flag(0, 0));
    assert!(g.toggle_flag(2, 1));
    assert!(play_turn(&mut g, &mut 0, &mut None, 1, 0));
    assert_eq!(g.state, GameState::Playing);
    assert_eq!((g.width, g.height), (2, 4));
    assert_eq!(mines_of(&g), 2);
}

#[test]
fn rotation_stays_after_a_chord_that_opens_nothing() {
    let mut g = board(&["*...", "..*."], Variant::Rotation);
    g.grid[0][1].state = CellState::Revealed;
    assert!(!play_turn(&mut g, &mut 0, &mut None, 1, 0));
    assert_eq!((g.width, g.height), (4, 2));
}

#[test]
fn rotation_stays_once_the_game_is_won() {
    let mut g = board(&["*..", "...", "..."], Variant::Rotation);
    assert!(play_turn(&mut g, &mut 0, &mut None, 2, 2));
    assert_eq!(g.state, GameState::Won);
    assert_eq!((g.width, g.height), (3, 3));
    assert_eq!(g.grid[0][0].mines, 1);
}

#[test]
fn crosswalk_shifts_after_a_move_and_keeps_the_mines() {
    let mut g = board(&["*...", "....", "...*"], Variant::Crosswalk);
    assert!(play_turn(&mut g, &mut 0, &mut None, 3, 0));
    assert_eq!(g.state, GameState::Playing);
    assert_eq!((g.width, g.height), (4, 3));
    assert_eq!(mines_of(&g), 2);
    assert_eq!(g.mine_count, 2);
}

#[test]
fn infection_spreads_only_while_play_goes_on() {
    let mut g = board(&["*..", "...", "..."], Variant::Infection);
    assert!(play_turn(&mut g, &mut 0, &mut None, 0, 0));
    assert_eq!(g.state, GameState::Lost);
    assert_eq!(mines_of(&g), 1);
    assert_eq!(g.mine_count, 1);
    let mut h = board(&["*...", "....", "...."], Variant::Infection);
    assert!(play_turn(&mut h, &mut 0, &mut None, 1, 1));
    assert_eq!(h.state, GameState::Playing);
    assert!(mines_of(&h) >= 1 && mines_of(&h) <= 2);
    assert_eq!(h.mine_count, mines_of(&h));
}

#[test]
fn drift_counts_each_move_and_drifts_on_the_third() {
    let mut g = board(&["*...", "....", "...*"], Variant::Drift);
    let mut count: u8 = 0;
    assert!(play_turn(&mut g, &mut count, &mut None, 1, 1));
    assert_eq!(count, 1);
    assert_eq!(g.grid[0][0].mines, 1);
    assert_eq!(g.grid[2][3].mines, 1);
    let mut count: u8 = 2;
    assert!(play_turn(&mut g, &mut count, &mut None, 2, 1));
    assert_eq!(g.state, GameState::Playing);
    assert_eq!(count, 0);
    assert_eq!(mines_of(&g), 2);
    assert_eq!(g.mine_count, 2);
}

#[test]
fn drift_count_stays_when_a_chord_opens_nothing() {
    let mut g = board(&["*...", "....", "...*"], Variant::Drift);
    g.grid[1][1].state = CellState::Revealed;
    let mut count: u8 = 1;
    assert!(!play_turn(&mut g, &mut count, &mut None, 1, 1));
    assert_eq!(count, 1);
}

#[test]
fn chain_opens_only_within_reach_of_the_last_click() {
    let mut g = board(&["*......"], Variant::Chain);
    let mut last = Some((6, 0));
    assert!(!play_turn(&mut g, &mut 0, &mut last, 1, 0));
    assert_eq!(g.grid[0][1].state, CellState::Hidden);
    assert_eq!(last, Some((6, 0)));
    assert!(play_turn(&mut g, &mut 0, &mut last, 5, 0));
    assert_eq!(last, Some((5, 0)));
    assert_eq!(g.grid[0][1].state, CellState::Revealed);
    assert_eq!(g.state, GameState::Won);
}

#[test]
fn chain_chords_on_an_open_number_anywhere() {
    let mut g = board(&["*....", "....."], Variant::Chain);
    g.grid[0][1].state = CellState::Revealed;
    assert!(g.toggle_flag(0, 0));
    let mut last = Some((4, 1));
    assert!(play_turn(&mut g, &mut 0, &mut last, 1, 0));
    assert_eq!(last, Some((1, 0)));
    assert_eq!(g.grid[0][2].state, CellState::Revealed);
}
