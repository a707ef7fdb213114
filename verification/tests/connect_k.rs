use selfplay_lab::game::{Game, Outcome, Player};
use selfplay_lab::games::connect_k::{ConnectK, ConnectKMove, ConnectKState};

/// Slow, obviously correct terminal scan used as a differential oracle.
fn reference_outcome(game: &ConnectK, state: &ConnectKState) -> Option<Outcome> {
    let cells = game.cells(state);
    for cell in 0..game.cell_count() as u16 {
        let code = cells[usize::from(cell)];
        if code != 0 && game.longest_line_through(cells, cell) >= u32::from(game.k()) {
            let winner = if code == 1 { Player::One } else { Player::Two };
            return Some(Outcome::Win(winner));
        }
    }
    if game.stone_count(state) == game.cell_count() {
        return Some(Outcome::Draw);
    }
    None
}

/// Play a sequence of raw cell indices (no-gravity boards).
fn play_cells(game: &ConnectK, cells: &[u16]) -> ConnectKState {
    let mut state = game.initial_state();
    for &c in cells {
        game.make_move(&mut state, ConnectKMove(c));
    }
    state
}

/// Play a sequence of columns, resolving each to its lowest empty cell
/// (gravity boards).
fn play_cols(game: &ConnectK, cols: &[u16]) -> ConnectKState {
    let mut state = game.initial_state();
    for &col in cols {
        let cell = (0..game.height())
            .map(|y| y * game.width() + col)
            .find(|&c| game.cells(&state)[usize::from(c)] == 0)
            .expect("column full");
        game.make_move(&mut state, ConnectKMove(cell));
    }
    state
}

#[test]
fn rejects_invalid_parameters() {
    assert!(ConnectK::new(0, 5, 3, true).is_err());
    assert!(ConnectK::new(5, 0, 3, true).is_err());
    assert!(ConnectK::new(5, 5, 1, true).is_err());
    assert!(ConnectK::new(3, 3, 4, true).is_err());
    assert!(ConnectK::new(7, 6, 4, true).is_ok());
}

#[test]
fn gravity_moves_are_column_bottoms() {
    let game = ConnectK::new(7, 6, 4, true).unwrap();
    let state = game.initial_state();
    let mut moves = Vec::new();
    game.legal_moves(&state, &mut moves);
    let bottom_row: Vec<ConnectKMove> = (0..7).map(ConnectKMove).collect();
    assert_eq!(moves, bottom_row);

    // After playing column 3, its next move is the cell one row up.
    let state = play_cols(&game, &[3]);
    game.legal_moves(&state, &mut moves);
    assert!(moves.contains(&ConnectKMove(7 + 3)));
    assert!(!moves.contains(&ConnectKMove(3)));
    assert_eq!(moves.len(), 7);
}

#[test]
fn no_gravity_moves_are_all_empty_cells() {
    let game = ConnectK::new(4, 4, 3, false).unwrap();
    let state = play_cells(&game, &[5]);
    let mut moves = Vec::new();
    game.legal_moves(&state, &mut moves);
    assert_eq!(moves.len(), 15);
    assert!(!moves.contains(&ConnectKMove(5)));
}

#[test]
fn horizontal_vertical_and_diagonal_wins() {
    let game = ConnectK::new(7, 6, 4, true).unwrap();
    // Horizontal: P1 fills bottom row columns 0..=3; P2 stacks column 6.
    let state = play_cols(&game, &[0, 6, 1, 6, 2, 6, 3]);
    assert_eq!(game.outcome(&state), Some(Outcome::Win(Player::One)));

    // Vertical: P1 stacks column 0.
    let state = play_cols(&game, &[0, 1, 0, 2, 0, 3, 0]);
    assert_eq!(game.outcome(&state), Some(Outcome::Win(Player::One)));

    // Diagonal: P1 builds (0,0),(1,1),(2,2),(3,3).
    let state = play_cols(&game, &[0, 1, 1, 2, 2, 3, 2, 3, 3, 6, 3]);
    assert_eq!(game.outcome(&state), Some(Outcome::Win(Player::One)));
}

#[test]
fn draw_on_full_board() {
    let game = ConnectK::new(3, 3, 3, false).unwrap();
    // Final board (top to bottom): O X X / X O O / X O X — no 3-line.
    let state = play_cells(&game, &[0, 1, 2, 4, 3, 5, 7, 6, 8]);
    assert_eq!(game.outcome(&state), Some(Outcome::Draw));
}

#[test]
fn terminal_positions_generate_no_moves() {
    let game = ConnectK::new(7, 6, 4, true).unwrap();
    let state = play_cols(&game, &[0, 6, 1, 6, 2, 6, 3]);
    let mut moves = Vec::new();
    game.legal_moves(&state, &mut moves);
    assert!(moves.is_empty());
}

#[test]
fn connect_k_make_unmake_restores_state_and_key() {
    let game = ConnectK::new(7, 6, 4, true).unwrap();
    let mut state = play_cols(&game, &[3, 3, 4]);
    let before = state.clone();
    let key_before = game.position_key(&state);
    let mv = ConnectKMove(5);
    let undo = game.make_move(&mut state, mv);
    assert_ne!(game.position_key(&state), key_before);
    game.unmake_move(&mut state, mv, undo);
    assert_eq!(state, before);
    assert_eq!(game.position_key(&state), key_before);
}

#[test]
fn incremental_outcome_matches_reference_scan() {
    let game = ConnectK::new(5, 4, 3, true).unwrap();
    let mut state = game.initial_state();
    let mut moves = Vec::new();
    // Deterministic pseudo-random playout without an RNG dependency.
    let mut x = 0x1234_5678_u64;
    loop {
        assert_eq!(game.outcome(&state), reference_outcome(&game, &state));
        game.legal_moves(&state, &mut moves);
        if moves.is_empty() {
            break;
        }
        x = x
            .wrapping_mul(6364136223846793005)
            .wrapping_add(1442695040888963407);
        let mv = moves[(x >> 33) as usize % moves.len()];
        game.make_move(&mut state, mv);
    }
    assert!(game.outcome(&state).is_some());
}

#[test]
fn features_are_side_to_move_relative() {
    let game = ConnectK::new(7, 6, 4, true).unwrap();
    // A: P1 on cell 0, P2 on cell 1, P1 to move.
    let a = play_cells(&game, &[0, 1]);
    // B: P2 on cell 0, P1 on cell 1, P1 to move (played 1 then 0).
    let b = play_cells(&game, &[1, 0]);
    let (mut fa, mut fb) = (Vec::new(), Vec::new());
    game.encode_features(&a, &mut fa);
    game.encode_features(&b, &mut fb);
    assert_eq!(fa, vec![0, 3]); // own stone on cell 0, opponent on cell 1
    assert_eq!(fb, vec![1, 2]); // opponent on cell 0, own stone on cell 1

    // Colour-swapped mirror positions with swapped side to move encode
    // identically: (P1 on 0, P2 to move) vs (P2 on 0, P1 to move).
    let c = play_cells(&game, &[0]); // P1 on 0, P2 to move
    let d = play_cells(&game, &[6, 0]); // P2 on 0 (and P1 on 6), P1 to move
    let (mut fc, mut fd) = (Vec::new(), Vec::new());
    game.encode_features(&c, &mut fc);
    game.encode_features(&d, &mut fd);
    assert_eq!(fc, vec![1]); // opponent stone on cell 0
    assert_eq!(fd, vec![1, 12]); // opponent on cell 0, own on cell 6

    // Keys of distinct positions differ and include the side to move.
    assert_ne!(game.position_key(&a), game.position_key(&b));
    assert_ne!(
        game.position_key(&c),
        game.position_key(&game.initial_state())
    );
}

#[test]
fn colour_swap_flips_outcome() {
    let game = ConnectK::new(7, 6, 4, true).unwrap();
    // P1 wins on the bottom row.
    let p1_win = play_cols(&game, &[0, 6, 1, 6, 2, 6, 3]);
    // Mirror game: P1 wastes moves in column 5/6 while P2 executes the
    // same bottom-row plan.
    let p2_win = play_cols(&game, &[6, 0, 5, 1, 5, 2, 5, 3]);
    assert_eq!(game.outcome(&p1_win), Some(Outcome::Win(Player::One)));
    assert_eq!(game.outcome(&p2_win), Some(Outcome::Win(Player::Two)));
}

#[test]
fn action_ids_are_stable() {
    let gravity = ConnectK::new(7, 6, 4, true).unwrap();
    let state = play_cols(&gravity, &[3]);
    // Column 3's move is now cell 10, but its action ID stays 3.
    assert_eq!(gravity.action_id(&state, ConnectKMove(10)), 3);
    let free = ConnectK::new(5, 5, 4, false).unwrap();
    let state = free.initial_state();
    assert_eq!(free.action_id(&state, ConnectKMove(17)), 17);
}

#[test]
fn legal_moves_do_not_mutate_state() {
    let game = ConnectK::new(7, 6, 4, true).unwrap();
    let state = play_cols(&game, &[3, 2, 1]);
    let before = state.clone();
    let mut moves = Vec::new();
    game.legal_moves(&state, &mut moves);
    assert_eq!(state, before);
}

#[test]
fn render_draws_rows_top_down() {
    let game = ConnectK::new(3, 2, 2, true).unwrap();
    let state = play_cols(&game, &[0, 2, 0]);
    assert_eq!(game.render(&state), "X..\nX.O\n");
}
