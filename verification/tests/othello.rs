use rand::{Rng, SeedableRng};
use rand_chacha::ChaCha12Rng;
use selfplay_lab::game::{Game, Outcome, Player};
use selfplay_lab::games::othello::{Othello, OthelloMove, OthelloState};
use selfplay_lab::search::{exhaustive_negamax, ExactSolver, MoveOrdering, Searcher, Wdl, ZeroEvaluator};

fn game(w: u16, h: u16) -> Othello {
    Othello::new(w, h).unwrap()
}

/// Independent slow reference: a placement on an empty cell is legal
/// iff scanning outward in some direction meets 1+ opponent discs then
/// an own disc; passes are legal exactly when no placement is.
fn reference_moves(g: &Othello, state: &OthelloState) -> Vec<OthelloMove> {
    let w = i32::from(g.width());
    let h = i32::from(g.height());
    let cells = g.cells(state);
    let own = if g.side_to_move(state) == Player::One { 1 } else { 2 };
    let opp = 3 - own;
    let mut moves = Vec::new();
    for cell in 0..g.cell_count() as u16 {
        if cells[usize::from(cell)] != 0 {
            continue;
        }
        let (cx, cy) = (i32::from(cell % g.width()), i32::from(cell / g.width()));
        let mut legal = false;
        for dy in -1i32..=1 {
            for dx in -1i32..=1 {
                if dx == 0 && dy == 0 {
                    continue;
                }
                let mut steps = 1;
                let mut bracketed = 0;
                loop {
                    let (x, y) = (cx + dx * steps, cy + dy * steps);
                    if x < 0 || x >= w || y < 0 || y >= h {
                        break;
                    }
                    let code = cells[(y * w + x) as usize];
                    if code == opp {
                        bracketed += 1;
                    } else {
                        if code == own && bracketed > 0 {
                            legal = true;
                        }
                        break;
                    }
                    steps += 1;
                }
            }
        }
        if legal {
            moves.push(OthelloMove::Place(cell));
        }
    }
    if moves.is_empty() {
        moves.push(OthelloMove::Pass);
    }
    moves
}

fn random_playout_states(g: &Othello, seed: u64, max_states: usize) -> Vec<OthelloState> {
    let mut rng = ChaCha12Rng::seed_from_u64(seed);
    let mut states = Vec::new();
    'outer: while states.len() < max_states {
        let mut state = g.initial_state();
        let mut moves = Vec::new();
        loop {
            if g.outcome(&state).is_some() {
                continue 'outer;
            }
            states.push(state.clone());
            if states.len() >= max_states {
                break 'outer;
            }
            g.legal_moves(&state, &mut moves);
            let mv = moves[rng.gen_range(0..moves.len())];
            g.make_move(&mut state, mv);
        }
    }
    states
}

fn discs_of(g: &Othello, state: &OthelloState) -> Vec<(u16, Player)> {
    g.cells(state)
        .iter()
        .enumerate()
        .filter(|(_, &c)| c != 0)
        .map(|(cell, &c)| (cell as u16, if c == 1 { Player::One } else { Player::Two }))
        .collect()
}

#[test]
fn othello_fast_movegen_matches_slow_reference() {
    for (w, h) in [(4, 4), (6, 4), (6, 6)] {
        let g = game(w, h);
        for state in random_playout_states(&g, 0x07e1 + u64::from(w), 300) {
            let mut fast = Vec::new();
            g.legal_moves(&state, &mut fast);
            assert_eq!(fast, reference_moves(&g, &state));
        }
    }
}

#[test]
fn othello_make_unmake_restores_state_exactly() {
    let g = game(6, 6);
    let mut rng = ChaCha12Rng::seed_from_u64(0x0f11);
    for _ in 0..100 {
        let mut state = g.initial_state();
        let mut moves = Vec::new();
        while g.outcome(&state).is_none() {
            g.legal_moves(&state, &mut moves);
            let mv = moves[rng.gen_range(0..moves.len())];
            let before = state.clone();
            let undo = g.make_move(&mut state, mv);
            g.unmake_move(&mut state, mv, undo);
            assert_eq!(state, before);
            g.make_move(&mut state, mv);
        }
    }
}

#[test]
fn recomputed_key_and_disc_counts_match() {
    let g = game(4, 4);
    for state in random_playout_states(&g, 0x2b, 400) {
        let rebuilt = g
            .custom_state(&discs_of(&g, &state), g.side_to_move(&state))
            .unwrap();
        assert_eq!(g.position_key(&state), g.position_key(&rebuilt));
        let ones = g.cells(&state).iter().filter(|&&c| c == 1).count() as u16;
        let twos = g.cells(&state).iter().filter(|&&c| c == 2).count() as u16;
        assert_eq!(g.disc_counts(&state), [ones, twos]);
    }
}

#[test]
fn colour_swap_encodes_identically() {
    let g = game(6, 6);
    for state in random_playout_states(&g, 0x51a9, 200) {
        let swapped_discs: Vec<(u16, Player)> = discs_of(&g, &state)
            .into_iter()
            .map(|(cell, p)| (cell, p.opponent()))
            .collect();
        let swapped = g
            .custom_state(&swapped_discs, g.side_to_move(&state).opponent())
            .unwrap();
        let (mut fa, mut fb) = (Vec::new(), Vec::new());
        g.encode_features(&state, &mut fa);
        g.encode_features(&swapped, &mut fb);
        assert_eq!(fa, fb, "colour-swapped features must match");
        let mut ma = Vec::new();
        let mut mb = Vec::new();
        g.legal_moves(&state, &mut ma);
        g.legal_moves(&swapped, &mut mb);
        assert_eq!(ma, mb, "colour-swapped legal moves must match");
    }
}

#[test]
fn flips_capture_multiple_directions_at_once() {
    let g = game(4, 4);
    // P1 to move places at cell 0 bracketing east (1) toward 2, south
    // (4) toward 8 and the diagonal (5) toward 10.
    let state = g
        .custom_state(
            &[
                (1, Player::Two),
                (2, Player::One),
                (4, Player::Two),
                (8, Player::One),
                (5, Player::Two),
                (10, Player::One),
            ],
            Player::One,
        )
        .unwrap();
    let mut moves = Vec::new();
    g.legal_moves(&state, &mut moves);
    assert!(moves.contains(&OthelloMove::Place(0)));
    let mut s = state.clone();
    g.make_move(&mut s, OthelloMove::Place(0));
    // East (1), south (4), and diagonal (5) lines all flip.
    assert_eq!(g.cells(&s)[1], 1);
    assert_eq!(g.cells(&s)[4], 1);
    assert_eq!(g.cells(&s)[5], 1);
    assert_eq!(g.disc_counts(&s), [7, 0]);
}

#[test]
fn pass_mechanics_and_disc_count_outcome() {
    let g = game(4, 4);
    // Neither side can place (isolated corner discs with no bracketable
    // runs): terminal immediately, decided by discs.
    let state = g
        .custom_state(&[(0, Player::Two), (15, Player::One)], Player::Two)
        .unwrap();
    assert_eq!(g.outcome(&state), Some(Outcome::Draw));
    let state = g
        .custom_state(
            &[(0, Player::Two), (3, Player::Two), (15, Player::One)],
            Player::One,
        )
        .unwrap();
    assert_eq!(g.outcome(&state), Some(Outcome::Win(Player::Two)));

    // Find forced passes in real play and verify their mechanics: the
    // only legal move is Pass, the board is unchanged, the side flips,
    // the opponent then has a placement, and unmake restores.
    let mut rng = ChaCha12Rng::seed_from_u64(0x9a55);
    let mut passes_seen = 0;
    for _ in 0..400 {
        let mut state = g.initial_state();
        let mut moves = Vec::new();
        while g.outcome(&state).is_none() {
            g.legal_moves(&state, &mut moves);
            if moves == vec![OthelloMove::Pass] {
                passes_seen += 1;
                let before = state.clone();
                let undo = g.make_move(&mut state, OthelloMove::Pass);
                assert_eq!(g.cells(&state), g.cells(&before), "pass must not move discs");
                assert_eq!(g.side_to_move(&state), g.side_to_move(&before).opponent());
                assert!(g.outcome(&state).is_none());
                let mut opponent_moves = Vec::new();
                g.legal_moves(&state, &mut opponent_moves);
                assert_ne!(
                    opponent_moves,
                    vec![OthelloMove::Pass],
                    "a pass is only legal while the opponent can place"
                );
                g.unmake_move(&mut state, OthelloMove::Pass, undo);
                assert_eq!(state, before);
            }
            g.legal_moves(&state, &mut moves);
            let mv = moves[rng.gen_range(0..moves.len())];
            g.make_move(&mut state, mv);
        }
    }
    assert!(passes_seen > 10, "random 4x4 play should hit forced passes");
}

#[test]
fn games_terminate_with_correct_material_outcome() {
    let g = game(4, 4);
    let mut rng = ChaCha12Rng::seed_from_u64(0x600d);
    for _ in 0..300 {
        let mut state = g.initial_state();
        let mut moves = Vec::new();
        let mut plies = 0;
        let outcome = loop {
            if let Some(outcome) = g.outcome(&state) {
                break outcome;
            }
            g.legal_moves(&state, &mut moves);
            let mv = moves[rng.gen_range(0..moves.len())];
            g.make_move(&mut state, mv);
            plies += 1;
            assert!(plies < 100, "othello must terminate");
        };
        let [ones, twos] = g.disc_counts(&state);
        let expected = if ones > twos {
            Outcome::Win(Player::One)
        } else if ones < twos {
            Outcome::Win(Player::Two)
        } else {
            Outcome::Draw
        };
        assert_eq!(outcome, expected);
    }
}

#[test]
fn othello_4x4_solves_consistently() {
    let game = Othello::new(4, 4).unwrap();
    let mut state = game.initial_state();
    let mut solver = ExactSolver::new();
    let exact = solver.solve(&game, &mut state);
    let mut nodes = 0u64;
    let exhaustive = Wdl::from_solved_score(exhaustive_negamax(&game, &mut state, 0, &mut nodes));
    assert_eq!(exact, exhaustive, "4x4 othello root value");
    let mut searcher: Searcher<Othello> = Searcher::new(Some(14), MoveOrdering::Natural);
    let result = searcher.search(&game, &mut state, 64, u64::MAX, &mut ZeroEvaluator);
    assert_eq!(Wdl::from_solved_score(result.value), exact);
    println!("4x4 othello root: {exact:?} ({} solved states)", solver.solved_states());
}

#[test]
fn rejects_odd_or_small_boards_with_message() {
    match Othello::new(5, 4) {
        Err(e) => assert_eq!(e, "othello needs even dimensions of at least 4, got 5x4"),
        Ok(_) => panic!("odd width must be rejected"),
    }
    assert!(Othello::new(2, 4).is_err());
    assert!(Othello::new(4, 6).is_ok());
    let g = game(6, 4);
    assert_eq!(g.cell_count(), 24);
    assert_eq!(g.feature_count(), 48);
    assert_eq!(g.action_count(), 25);
}

#[test]
fn custom_state_reports_the_first_bad_disc() {
    let g = game(4, 4);
    match g.custom_state(&[(3, Player::One), (16, Player::Two)], Player::One) {
        Err(e) => assert_eq!(e, "cell 16 out of bounds"),
        Ok(_) => panic!("out of bounds disc must be rejected"),
    }
    match g.custom_state(&[(3, Player::One), (3, Player::Two)], Player::One) {
        Err(e) => assert_eq!(e, "cell 3 occupied twice"),
        Ok(_) => panic!("doubled disc must be rejected"),
    }
}

#[test]
fn initial_position_and_action_ids() {
    let g = game(4, 4);
    let state = g.initial_state();
    // Player One on the anti-diagonal of the centre, Player Two on the
    // diagonal.
    let cells = g.cells(&state);
    assert_eq!((cells[9], cells[6], cells[5], cells[10]), (1, 1, 2, 2));
    assert_eq!(g.disc_counts(&state), [2, 2]);
    assert_eq!(g.outcome(&state), None);
    let mut moves = Vec::new();
    g.legal_moves(&state, &mut moves);
    assert_eq!(
        moves,
        vec![
            OthelloMove::Place(1),
            OthelloMove::Place(4),
            OthelloMove::Place(11),
            OthelloMove::Place(14)
        ]
    );
    assert_eq!(g.action_id(&state, OthelloMove::Place(4)), 4);
    assert_eq!(g.action_id(&state, OthelloMove::Pass), 16);
    let mut features = Vec::new();
    g.encode_features(&state, &mut features);
    // Own discs (Player One) even, opponent discs odd, in cell order.
    assert_eq!(features, vec![11, 12, 18, 21]);
}
