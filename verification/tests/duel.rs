use ubersweeper::duel_ai::{local_pass, subset_pass, AiMove, Constraint};
use ubersweeper::pvai::{AiLevel, DuelCell, Owner, PvAiGame, PvAiState};

fn blank(w: usize, h: usize) -> Vec<Vec<bool>> {
    vec![vec![false; w]; h]
}

/// A row board from a picture: `*` a closed mine, `.` a closed safe cell,
/// `o` a safe cell the player opened.
fn row_board(pic: &str) -> PvAiGame {
    let w = pic.len();
    let mut g = PvAiGame::new(w, 1, 0);
    for (x, ch) in pic.chars().enumerate() {
        g.grid[0][x].is_mine = ch == '*';
    }
    let mut opened = 0;
    for (x, ch) in pic.chars().enumerate() {
        let mut adj = 0u8;
        if x > 0 && g.grid[0][x - 1].is_mine {
            adj += 1;
        }
        if x + 1 < w && g.grid[0][x + 1].is_mine {
            adj += 1;
        }
        g.grid[0][x].adj = adj;
        if ch == 'o' {
            g.grid[0][x].revealed = true;
            g.grid[0][x].owner = Some(Owner::Player);
            opened += 1;
        }
    }
    g.mine_count = pic.chars().filter(|c| *c == '*').count();
    g.player_score = opened;
    g.state = PvAiState::Playing;
    g
}

#[test]
fn level_follows_board_size() {
    assert_eq!(AiLevel::from_board(100), AiLevel::Easy);
    assert_eq!(AiLevel::from_board(101), AiLevel::Medium);
    assert_eq!(AiLevel::from_board(300), AiLevel::Medium);
    assert_eq!(AiLevel::from_board(301), AiLevel::Hard);
    assert_eq!(PvAiGame::new(20, 16, 40).level, AiLevel::Hard);
}

#[test]
fn first_click_and_computer_corner_are_safe() {
    for _ in 0..20 {
        let mut g = PvAiGame::new(9, 9, 10);
        g.player_first(4, 4);
        let mines = g.grid.iter().flatten().filter(|c| c.is_mine).count();
        assert_eq!(mines, 10);
        assert!(!g.grid[4][4].is_mine);
        assert!(g.grid[4][4].revealed);
        assert_eq!(g.grid[4][4].owner, Some(Owner::Player));
        let (cx, cy) = g.ai_corner;
        assert!(!g.grid[cy][cx].is_mine);
        assert_ne!(g.state, PvAiState::AiWon);
        let owned = g.grid.iter().flatten().filter(|c| c.owner == Some(Owner::Player)).count();
        assert_eq!(owned, g.player_score);
    }
}

#[test]
fn constraints_read_off_open_numbers() {
    // o * . : the open 1 at x=0 sees one closed neighbour.
    let g = row_board("o*.");
    let cs = g.build_constraints_with(&blank(3, 1));
    assert_eq!(cs.len(), 1);
    assert_eq!(cs[0].cells, vec![(1, 0)]);
    assert_eq!(cs[0].mines, 1);
    // A mine already known counts as a flag and leaves no closed cell.
    let mut virt = blank(3, 1);
    virt[0][1] = true;
    assert_eq!(g.build_constraints_with(&virt).len(), 0);
}

#[test]
fn local_pass_marks_safe_and_mines() {
    let cs = vec![
        Constraint { cells: vec![(0, 0), (1, 0)], mines: 0 },
        Constraint { cells: vec![(2, 0)], mines: 1 },
        Constraint { cells: vec![(3, 0), (4, 0)], mines: 1 },
    ];
    let mut safe = blank(5, 1);
    let mut mines = blank(5, 1);
    assert!(local_pass(&cs, &mut safe, &mut mines));
    assert_eq!(safe[0], vec![true, true, false, false, false]);
    assert_eq!(mines[0], vec![false, false, true, false, false]);
    assert!(!local_pass(&cs, &mut safe, &mut mines));
}

#[test]
fn subset_pass_takes_differences() {
    let cs = vec![
        Constraint { cells: vec![(0, 0), (1, 0)], mines: 1 },
        Constraint { cells: vec![(0, 0), (1, 0), (2, 0)], mines: 1 },
        Constraint { cells: vec![(5, 5)], mines: 0 },
    ];
    let d = subset_pass(&cs);
    assert_eq!(d.len(), 1);
    assert_eq!(d[0].cells, vec![(2, 0)]);
    assert_eq!(d[0].mines, 0);
}

#[test]
fn solve_deduces_through_known_mines() {
    // o * o . : the first 1 shows the mine, which then clears the last cell.
    let g = row_board("o*o.");
    let (safe, mines) = g.solve();
    assert_eq!(mines[0], vec![false, true, false, false]);
    assert_eq!(safe[0], vec![false, false, false, true]);
}

#[test]
fn computer_chords_with_deduced_mines() {
    let mut g = row_board("o*o.");
    assert_eq!(g.ai_move(), Some(AiMove::Chord(2, 0)));
    g.ai_turn();
    assert!(g.grid[0][3].revealed);
    assert_eq!(g.grid[0][3].owner, Some(Owner::Ai));
    assert_eq!(g.ai_score, 1);
    assert!(!g.grid[0][1].revealed);
    // Every safe cell is open: 2 to 1 for the player.
    assert_eq!(g.state, PvAiState::PlayerWon);
}

#[test]
fn computer_guess_on_a_mine_gives_the_player_the_win() {
    // Nothing is left but the mine itself.
    let mut g = row_board("o*o");
    assert_eq!(g.ai_move(), Some(AiMove::Open(1, 0)));
    g.ai_turn();
    assert_eq!(g.state, PvAiState::PlayerWon);
}

#[test]
fn no_move_when_nothing_is_closed() {
    let mut g = row_board("oo");
    g.state = PvAiState::Playing;
    assert_eq!(g.ai_move(), None);
    let before = g.player_score;
    g.ai_turn();
    assert_eq!(g.player_score, before);
    assert_eq!(g.state, PvAiState::Playing);
}

#[test]
fn hard_guess_prefers_the_lowest_mine_chance() {
    let mut g = PvAiGame::new(20, 16, 100);
    assert_eq!(g.level, AiLevel::Hard);
    g.state = PvAiState::Playing;
    g.grid[5][5] = DuelCell { is_mine: false, adj: 1, revealed: true, player_flag: false, ai_flag: false, owner: Some(Owner::Player) };
    g.player_score = 1;
    // Around the open 1 the chance is 1/8; elsewhere 100/319.
    assert_eq!(g.pick_guess(), Some((4, 4)));
}

#[test]
fn medium_safe_pick_prefers_open_neighbours() {
    let mut g = PvAiGame::new(11, 10, 0);
    assert_eq!(g.level, AiLevel::Medium);
    g.state = PvAiState::Playing;
    g.grid[0][1].revealed = true;
    g.grid[0][1].owner = Some(Owner::Player);
    g.player_score = 1;
    let mut safe = blank(11, 10);
    safe[0][0] = true;
    safe[5][5] = true;
    assert_eq!(g.pick_safe(&safe), Some((0, 0)));
}

#[test]
fn player_flag_blocks_opening() {
    let mut g = row_board("o*.");
    g.player_flag(2, 0);
    assert!(g.grid[0][2].player_flag);
    g.player_reveal(2, 0);
    assert!(!g.grid[0][2].revealed);
    g.player_flag(2, 0);
    g.player_reveal(2, 0);
    assert!(g.grid[0][2].revealed);
    assert_eq!(g.grid[0][2].owner, Some(Owner::Player));
}

/// Three closed cells over three open ones; the mine sits over the middle:
/// each open cell shows 1.
fn strip_board(level: AiLevel) -> PvAiGame {
    let mut g = PvAiGame::new(3, 2, 1);
    g.grid[0][1].is_mine = true;
    for x in 0..3 {
        g.grid[1][x].adj = 1;
        g.grid[1][x].revealed = true;
        g.grid[1][x].owner = Some(Owner::Player);
    }
    g.grid[0][0].adj = 1;
    g.grid[0][2].adj = 1;
    g.player_score = 3;
    g.state = PvAiState::Playing;
    g.level = level;
    g
}

#[test]
fn easy_level_reads_single_numbers_only() {
    let g = strip_board(AiLevel::Easy);
    let (safe, mines) = g.solve();
    assert_eq!(safe[0], vec![false, false, false]);
    assert_eq!(mines[0], vec![false, false, false]);
}

#[test]
fn medium_level_compares_overlapping_numbers() {
    let g = strip_board(AiLevel::Medium);
    let (safe, _) = g.solve();
    assert_eq!(safe[0], vec![true, false, true]);
    // The computer then opens one of the two safe cells, never the mine.
    let mut g = g;
    g.ai_turn();
    assert!(!g.grid[0][1].revealed);
    assert!(g.grid[0][0].revealed || g.grid[0][2].revealed);
    assert_eq!(g.ai_score, 1);
}

#[test]
fn solve_never_marks_a_cell_wrongly_on_an_honest_board() {
    for pic in ["o*o.", "..o*o*o..", "*o.o*", "o.o*o.o", "oo*oo.*.o", "o...o*o"] {
        for level in [AiLevel::Easy, AiLevel::Medium, AiLevel::Hard] {
            let mut g = row_board(pic);
            g.level = level;
            let (safe, mines) = g.solve();
            for x in 0..pic.len() {
                if safe[0][x] {
                    assert!(!g.grid[0][x].is_mine, "{} marked safe at {}", pic, x);
                }
                if mines[0][x] {
                    assert!(g.grid[0][x].is_mine, "{} marked a mine at {}", pic, x);
                }
            }
        }
    }
    let g = strip_board(AiLevel::Hard);
    let (safe, mines) = g.solve();
    assert_eq!(safe[0], vec![true, false, true]);
    assert!(!mines[0][0] && !mines[0][2]);
}
