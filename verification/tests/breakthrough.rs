use rand::{Rng, SeedableRng};
use rand_chacha::ChaCha12Rng;
use selfplay_lab::game::{ActionId, Game, Outcome, Player};
use selfplay_lab::games::breakthrough::{Breakthrough, BreakthroughMove, BreakthroughState};

fn game(w: u16, h: u16, rows: u16) -> Breakthrough {
    Breakthrough::new(w, h, rows).unwrap()
}

fn random_playout_states(g: &Breakthrough, seed: u64, max_states: usize) -> Vec<BreakthroughState> {
    let mut rng = ChaCha12Rng::seed_from_u64(seed);
    let mut states = Vec::new();
    'outer: while states.len() < max_states {
        let mut state = g.initial_state();
        let mut moves = Vec::new();
        loop {
            if g.outcome(&state).is_some() {
                continue 'outer;
            }
            states.push(state.clone());
            if states.len() >= max_states {
                break 'outer;
            }
            g.legal_moves(&state, &mut moves);
            let mv = moves[rng.gen_range(0..moves.len())];
            g.make_move(&mut state, mv);
        }
    }
    states
}

#[test]
fn terminal_races_and_captures() {
    let g = game(3, 5, 1);
    // P1 pawn one step from the home rank wins by advancing.
    let mut state = g
        .custom_state(&[(3 * 3, Player::One), (7, Player::Two)], Player::One)
        .unwrap();
    assert!(g.outcome(&state).is_none());
    g.make_move(
        &mut state,
        BreakthroughMove {
            from: 9,
            to: 12, // straight to the top rank
        },
    );
    assert_eq!(g.outcome(&state), Some(Outcome::Win(Player::One)));

    // Capturing the last enemy pawn wins (opponent cannot move).
    let mut state = g
        .custom_state(&[(4, Player::One), (8, Player::Two)], Player::One)
        .unwrap();
    g.make_move(&mut state, BreakthroughMove { from: 4, to: 8 });
    assert_eq!(g.outcome(&state), Some(Outcome::Win(Player::One)));

    // Straight moves never capture: the straight destination onto an
    // enemy pawn is not generated.
    let state = g
        .custom_state(&[(4, Player::One), (7, Player::Two)], Player::One)
        .unwrap();
    let mut moves = Vec::new();
    g.legal_moves(&state, &mut moves);
    assert!(!moves.contains(&BreakthroughMove { from: 4, to: 7 }));
    assert!(moves.contains(&BreakthroughMove { from: 4, to: 6 }));
    assert!(moves.contains(&BreakthroughMove { from: 4, to: 8 }));

    // P2 wins symmetrically by reaching rank 0.
    let mut state = g
        .custom_state(&[(10, Player::One), (3, Player::Two)], Player::Two)
        .unwrap();
    g.make_move(&mut state, BreakthroughMove { from: 3, to: 0 });
    assert_eq!(g.outcome(&state), Some(Outcome::Win(Player::Two)));
}

#[test]
fn breakthrough_make_unmake_restores_state_exactly() {
    let g = game(4, 6, 2);
    let mut rng = ChaCha12Rng::seed_from_u64(0x77);
    for _ in 0..200 {
        let mut state = g.initial_state();
        let mut moves = Vec::new();
        while g.outcome(&state).is_none() {
            g.legal_moves(&state, &mut moves);
            let mv = moves[rng.gen_range(0..moves.len())];
            let before = state.clone();
            let undo = g.make_move(&mut state, mv);
            g.unmake_move(&mut state, mv, undo);
            assert_eq!(state, before);
            assert_eq!(g.position_key(&state), g.position_key(&before));
            let undo = g.make_move(&mut state, mv);
            let _ = undo;
        }
    }
}

#[test]
fn no_draws_and_games_terminate() {
    let g = game(4, 6, 2);
    let mut rng = ChaCha12Rng::seed_from_u64(0x600d);
    for _ in 0..300 {
        let mut state = g.initial_state();
        let mut moves = Vec::new();
        let mut plies = 0;
        let outcome = loop {
            if let Some(outcome) = g.outcome(&state) {
                break outcome;
            }
            g.legal_moves(&state, &mut moves);
            let mv = moves[rng.gen_range(0..moves.len())];
            g.make_move(&mut state, mv);
            plies += 1;
            assert!(plies < 1000, "game must terminate");
        };
        assert!(
            matches!(outcome, Outcome::Win(_)),
            "Breakthrough has no draws"
        );
    }
}

#[test]
fn action_ids_are_stable_and_distinct_per_state() {
    let g = game(4, 6, 2);
    for state in random_playout_states(&g, 0xac71, 200) {
        let mut moves = Vec::new();
        g.legal_moves(&state, &mut moves);
        let ids: Vec<ActionId> = moves.iter().map(|&m| g.action_id(&state, m)).collect();
        let mut dedup = ids.clone();
        dedup.sort_unstable();
        dedup.dedup();
        assert_eq!(
            dedup.len(),
            ids.len(),
            "action IDs must be unique per state"
        );
        for &id in &ids {
            assert!((id as usize) < g.action_count());
        }
    }
}

#[test]
fn custom_state_rejects_bad_placements() {
    let g = game(3, 5, 1);
    assert_eq!(
        g.custom_state(&[(15, Player::One)], Player::One).unwrap_err(),
        "cell 15 out of bounds"
    );
    assert_eq!(
        g.custom_state(&[(13, Player::One)], Player::One).unwrap_err(),
        "pawn on opponent home rank at cell 13"
    );
    assert_eq!(
        g.custom_state(&[(4, Player::One), (4, Player::Two)], Player::One).unwrap_err(),
        "cell 4 occupied twice"
    );
    let state = g.custom_state(&[(7, Player::Two)], Player::One).unwrap();
    assert_eq!(g.outcome(&state), Some(Outcome::Win(Player::Two)));
}

#[test]
fn rejects_degenerate_parameters() {
    assert!(Breakthrough::new(1, 5, 1).is_err());
    assert!(Breakthrough::new(3, 5, 0).is_err());
    assert_eq!(
        Breakthrough::new(3, 4, 2).err().unwrap(),
        "2 pawn rows per side need at least 5 ranks, board has 4"
    );
    assert!(Breakthrough::new(3, 5, 2).is_ok());
}

#[test]
fn features_are_sorted_and_mirrored_for_player_two() {
    let g = game(3, 5, 1);
    let mut features = Vec::new();
    // P2 to move: its pawn on cell 7 (x=1, y=2) is perspective cell 7,
    // the P1 pawn on cell 0 is perspective cell 12.
    let state = g.custom_state(&[(0, Player::One), (7, Player::Two)], Player::Two).unwrap();
    g.encode_features(&state, &mut features);
    assert_eq!(features, vec![14, 25]);
    // Advancing lowers the height: every legal move is tactical only when
    // it captures.
    let mut moves = Vec::new();
    g.legal_moves(&state, &mut moves);
    for &mv in &moves {
        assert!(!g.is_tactical(&state, mv));
    }
}

/// Slow reference move generator: test every (from, to) pair against a
/// rule predicate written independently of the fast generator.
fn reference_moves(g: &Breakthrough, state: &BreakthroughState) -> Vec<BreakthroughMove> {
    let mut moves = Vec::new();
    let mover = g.side_to_move(state);
    let own = if mover == Player::One { 1 } else { 2 };
    let forward_dy = if mover == Player::One { 1 } else { -1 };
    let cells = g.cells(state);
    let w = i32::from(g.width());
    for from in 0..g.cell_count() as u16 {
        if cells[usize::from(from)] != own {
            continue;
        }
        for to in 0..g.cell_count() as u16 {
            let (fx, fy) = (i32::from(from) % w, i32::from(from) / w);
            let (tx, ty) = (i32::from(to) % w, i32::from(to) / w);
            let dy = ty - fy;
            let dx = tx - fx;
            if dy != forward_dy || dx.abs() > 1 {
                continue;
            }
            let target = cells[usize::from(to)];
            let legal = if dx == 0 { target == 0 } else { target != own };
            if legal {
                moves.push(BreakthroughMove { from, to });
            }
        }
    }
    moves.sort();
    moves
}

fn pawns_of(g: &Breakthrough, state: &BreakthroughState) -> Vec<(u16, Player)> {
    g.cells(state)
        .iter()
        .enumerate()
        .filter(|(_, &c)| c != 0)
        .map(|(cell, &c)| (cell as u16, if c == 1 { Player::One } else { Player::Two }))
        .collect()
}

#[test]
fn breakthrough_fast_movegen_matches_slow_reference() {
    for (w, h, rows) in [(2, 4, 1), (3, 5, 1), (4, 6, 2), (5, 7, 2)] {
        let g = game(w, h, rows);
        for state in random_playout_states(&g, 0xb42e + u64::from(w), 300) {
            let mut fast = Vec::new();
            g.legal_moves(&state, &mut fast);
            let mut fast_sorted = fast.clone();
            fast_sorted.sort();
            assert_eq!(fast_sorted, reference_moves(&g, &state));
            assert!(!fast.is_empty(), "non-terminal state must have moves");
        }
    }
}

#[test]
fn recomputed_key_matches_incremental() {
    let g = game(3, 5, 1);
    for state in random_playout_states(&g, 0x1c3, 400) {
        let rebuilt = g.custom_state(&pawns_of(&g, &state), g.side_to_move(&state)).unwrap();
        assert_eq!(g.position_key(&state), g.position_key(&rebuilt));
    }
}

/// Colour reflection: mirroring the board vertically and swapping
/// colours and side to move yields a rules-equivalent position with
/// identical feature encoding and action IDs.
#[test]
fn colour_reflection_encodes_identically() {
    let g = game(4, 6, 2);
    for state in random_playout_states(&g, 0x5ca1e, 200) {
        let reflected_pawns: Vec<(u16, Player)> = pawns_of(&g, &state)
            .into_iter()
            .map(|(cell, owner)| (g.perspective_cell(cell, Player::Two), owner.opponent()))
            .collect();
        let reflected = g
            .custom_state(&reflected_pawns, g.side_to_move(&state).opponent())
            .unwrap();

        let (mut fa, mut fb) = (Vec::new(), Vec::new());
        g.encode_features(&state, &mut fa);
        g.encode_features(&reflected, &mut fb);
        assert_eq!(fa, fb, "reflected features must match");

        let mut ma = Vec::new();
        let mut mb = Vec::new();
        g.legal_moves(&state, &mut ma);
        g.legal_moves(&reflected, &mut mb);
        let mut ids_a: Vec<ActionId> = ma.iter().map(|&m| g.action_id(&state, m)).collect();
        let mut ids_b: Vec<ActionId> = mb.iter().map(|&m| g.action_id(&reflected, m)).collect();
        ids_a.sort_unstable();
        ids_b.sort_unstable();
        assert_eq!(ids_a, ids_b, "reflected action IDs must match");
        assert_eq!(g.outcome(&state).is_some(), g.outcome(&reflected).is_some());
    }
}

#[test]
fn blocked_pawns_and_the_no_move_rule() {
    // Individual pawns can be fully blocked: enemy straight ahead
    // (straight moves never capture) and own pawns / board edge on the
    // diagonals.
    let g = game(3, 5, 1);
    let state = g
        .custom_state(
            &[
                (0, Player::One), // a1: straight a2 enemy, diag b2 own
                (4, Player::One), // b2 keeps a1's diagonal closed
                (3, Player::Two), // a2 blocks a1's straight
                (7, Player::Two), // spare enemy pawn
            ],
            Player::One,
        )
        .unwrap();
    let mut moves = Vec::new();
    g.legal_moves(&state, &mut moves);
    assert!(!moves.iter().any(|m| m.from == 0), "corner pawn must be immobile");
    assert!(g.outcome(&state).is_none(), "other pawns can still move");

    // Every reachable non-terminal state in random play has a move.
    let g = game(2, 6, 1);
    for s in random_playout_states(&g, 0xdead, 200) {
        assert!(g.has_any_move(&s));
    }

    // A mover with no pawns (hence no moves) has lost at build time.
    let g = game(3, 5, 1);
    let state = g.custom_state(&[(7, Player::Two)], Player::One).unwrap();
    assert_eq!(
        g.outcome(&state),
        Some(Outcome::Win(Player::Two)),
        "a mover with no pawns (hence no moves) has lost"
    );
}
