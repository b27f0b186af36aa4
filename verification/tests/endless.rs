use ubersweeper::infinite::{cell_hash, safe_per_mine, IState, InfGame, CASCADE_BARRIER};

const ALL_MINES: u64 = 1 << 53;

fn revealed(g: &InfGame) -> usize {
    g.states.values().filter(|s| **s == IState::Revealed).count()
}

#[test]
fn hash_matches_known_values() {
    assert_eq!(cell_hash(0, 0, 0), 0);
    assert_eq!(cell_hash(1, 0, 0), 0x5692161d100b05e5);
    assert_eq!(cell_hash(42, -3, 7), 0x4213725a4e7f436a);
}

#[test]
fn density_threshold_decides_mines() {
    let none = InfGame::new(0);
    let all = InfGame::new(ALL_MINES);
    for (x, y) in [(0i64, 0i64), (5, -7), (-100, 33)] {
        assert!(!none.is_mine(x, y));
        assert!(all.is_mine(x, y));
    }
}

#[test]
fn flags_score_plus_on_mines_minus_elsewhere() {
    let mut g = InfGame::new(0);
    g.toggle_flag(3, 4);
    assert_eq!(g.state_of(3, 4), IState::Flagged);
    assert_eq!(g.score, -1);
    g.toggle_flag(3, 4);
    assert_eq!(g.state_of(3, 4), IState::Hidden);
    assert_eq!(g.score, 0);

    let mut m = InfGame::new(ALL_MINES);
    m.toggle_flag(3, 4);
    assert_eq!(m.score, 1);
    m.toggle_flag(3, 4);
    assert_eq!(m.score, 0);
}

#[test]
fn first_click_block_is_safe() {
    let mut g = InfGame::new(ALL_MINES);
    g.reveal_cell(0, 0);
    assert!(g.started);
    assert!(!g.game_over);
    for dy in -1i64..=1 {
        for dx in -1i64..=1 {
            assert!(!g.is_mine(dx, dy));
            assert_eq!(g.state_of(dx, dy), IState::Revealed);
        }
    }
    // The block's centre has no mine around it, so its eight neighbours open too.
    assert_eq!(revealed(&g), 9);
    assert_eq!(g.adj_mines(1, 1), 5);
    assert_eq!(g.state_of(2, 2), IState::Hidden);
}

#[test]
fn clicking_a_mine_ends_the_game() {
    let mut g = InfGame::new(ALL_MINES);
    g.reveal_cell(0, 0);
    g.reveal_cell(5, 5);
    assert!(g.game_over);
    assert_eq!(g.state_of(5, 5), IState::Revealed);
    let before = revealed(&g);
    g.reveal_cell(-7, -7);
    assert_eq!(revealed(&g), before);
}

#[test]
fn cascade_stops_at_the_barrier() {
    let mut g = InfGame::new(0);
    g.reveal_cell(0, 0);
    assert!(!g.game_over);
    assert_eq!(revealed(&g), CASCADE_BARRIER);
    assert!(!g.barrier_mines.is_empty());
}

#[test]
fn chord_with_all_mines_flagged_opens_nothing_new() {
    let mut g = InfGame::new(ALL_MINES);
    g.reveal_cell(0, 0);
    for (x, y) in [(2i64, 0i64), (2, 1), (2, 2), (0, 2), (1, 2)] {
        g.toggle_flag(x, y);
    }
    assert_eq!(g.score, 5);
    assert_eq!(g.flags_around(1, 1), 5);
    let before = revealed(&g);
    g.chord(1, 1);
    assert_eq!(revealed(&g), before);
    assert!(!g.game_over);
}

#[test]
fn chord_waits_for_as_many_flags_as_mines() {
    let mut g = InfGame::new(ALL_MINES);
    g.reveal_cell(0, 0);
    for (x, y) in [(2i64, 0i64), (2, 1), (2, 2), (0, 2)] {
        g.toggle_flag(x, y);
    }
    assert_eq!(g.flags_around(1, 1), 4);
    g.chord(1, 1);
    // Too few flags: the hidden (1, 2) stays closed.
    assert_eq!(g.state_of(1, 2), IState::Hidden);
    assert!(!g.game_over);
}

#[test]
fn safe_cells_per_mine_from_board_sizes() {
    assert_eq!(safe_per_mine(9, 9, 10), 7);
    assert_eq!(safe_per_mine(16, 16, 40), 5);
    assert_eq!(safe_per_mine(30, 16, 99), 3);
    assert_eq!(safe_per_mine(4, 4, 15), 1);
    assert_eq!(safe_per_mine(100, 100, 10), 20);
    assert_eq!(safe_per_mine(12, 9997, 0), 12);
    assert_eq!(safe_per_mine(9, 9, 0), 5);
}

fn decode(k: i128) -> (i64, i64) {
    let y = k as i64;
    let x = ((k - y as i128) >> 64) as i64;
    (x, y)
}

#[test]
fn opening_spreads_through_every_empty_cell() {
    // One cell in six holds a mine.
    let threshold = ALL_MINES / 6;
    for _ in 0..5 {
        let mut g = InfGame::new(threshold);
        g.reveal_cell(0, 0);
        assert!(!g.game_over);
        let opened: Vec<(i64, i64)> =
            g.states.iter().filter(|(_, s)| **s == IState::Revealed).map(|(k, _)| decode(*k)).collect();
        assert!(opened.contains(&(0, 0)));
        if opened.len() >= CASCADE_BARRIER {
            continue;
        }
        for (x, y) in opened {
            assert!(!g.is_mine(x, y));
            if g.adj_mines(x, y) == 0 {
                for dy in -1i64..=1 {
                    for dx in -1i64..=1 {
                        assert_ne!(g.state_of(x + dx, y + dy), IState::Hidden);
                    }
                }
            }
        }
    }
}

#[test]
fn chord_with_a_wrong_flag_opens_the_mine_and_ends_the_game() {
    let key = |x: i64, y: i64| (x as i128) * (1i128 << 64) + (y as i128);
    let mut g = InfGame::new(0);
    g.started = true;
    g.barrier_mines.insert(key(1, 0));
    g.states.insert(key(0, 0), IState::Revealed);
    assert_eq!(g.adj_mines(0, 0), 1);
    g.toggle_flag(0, 1);
    assert_eq!(g.flags_around(0, 0), 1);
    g.chord(0, 0);
    assert!(g.game_over);
    assert_eq!(g.state_of(1, 0), IState::Revealed);
    assert!(g.is_mine(1, 0));
}
