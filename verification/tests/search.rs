use selfplay_lab::game::{Game, Outcome, Player};
use selfplay_lab::games::breakthrough::Breakthrough;
use selfplay_lab::games::connect_k::ConnectK;
use selfplay_lab::games::forward_chess::{ForwardChess, Ruleset};
use selfplay_lab::search::{enumerate_solved, exhaustive_negamax, solve_retrograde, ExactSolver, Wdl};

#[test]
fn retrograde_matches_exact_solver_on_acyclic_games() {
    // Cross-validation on games the memoized negamax solver already
    // handles: values must agree position by position.
    let game = ConnectK::new(3, 3, 3, true).unwrap();
    let solution = solve_retrograde(&game, 100_000).unwrap();
    let mut solver = ExactSolver::new();
    for (index, state) in solution.states.iter().enumerate() {
        if game.outcome(state).is_none() {
            let mut s = state.clone();
            assert_eq!(
                solver.solve(&game, &mut s),
                solution.values[index],
                "connect-k position {index}"
            );
        }
    }
    let game = Breakthrough::new(3, 4, 1).unwrap();
    let solution = solve_retrograde(&game, 1_000_000).unwrap();
    let mut solver = ExactSolver::new();
    let mut root = game.initial_state();
    assert_eq!(solver.solve(&game, &mut root), solution.values[0]);
}

#[test]
fn retrograde_solves_tiny_forward_chess_stably() {
    let game = ForwardChess::new(Ruleset::Tiny);
    let a = solve_retrograde(&game, 5_000_000).unwrap();
    let b = solve_retrograde(&game, 5_000_000).unwrap();
    assert_eq!(a.values, b.values, "solver must be deterministic");
    assert_eq!(a.states.len(), b.states.len());
    // Child values must be consistent: every position's value equals
    // the max over its children's flipped values (or its terminal
    // outcome), with draws allowed for cycles.
    for index in 0..a.states.len() {
        if game.outcome(&a.states[index]).is_some() {
            continue;
        }
        let child_values = a.child_values(index);
        let best = child_values.iter().copied().max().unwrap();
        assert_eq!(
            a.values[index], best,
            "position {index}: value must equal best child value"
        );
    }
    println!(
        "tiny forward chess: {} positions, root {:?}",
        a.states.len(),
        a.values[0]
    );
}

#[test]
fn retrograde_optimal_play_realizes_root_value_under_real_rules() {
    let game = ForwardChess::new(Ruleset::Tiny);
    let solution = solve_retrograde(&game, 5_000_000).unwrap();
    let root_value = solution.values[0];
    // Play optimal-vs-optimal with the REAL state (history tracked,
    // threefold and fifty-move live): the realized outcome category
    // must match the solved root value; cycles terminate via the
    // actual repetition rule.
    let mut state = game.initial_state();
    let mut moves = Vec::new();
    let mut plies = 0;
    let outcome = loop {
        if let Some(outcome) = game.outcome(&state) {
            break outcome;
        }
        assert!(plies < 500, "optimal play must terminate under real rules");
        let index = solution.index_of[&game.position_key(&state)] as usize;
        let value = solution.values[index];
        game.legal_moves(&state, &mut moves);
        let child_values = solution.child_values(index);
        let choice = moves
            .iter()
            .zip(&child_values)
            .find(|(_, &v)| v == value)
            .map(|(&m, _)| m)
            .expect("an optimal move exists");
        game.make_move(&mut state, choice);
        plies += 1;
    };
    let mover_perspective_root = root_value;
    let realized = Wdl::from_outcome(outcome, Player::One);
    assert_eq!(
        realized, mover_perspective_root,
        "optimal play realized {realized:?} but the root is {mover_perspective_root:?}"
    );
}

#[test]
fn enumeration_matches_state_based_reference_on_tic_tac_toe() {
    let game = ConnectK::new(3, 3, 3, false).unwrap();

    // Reference: DFS with full-state dedup (no hashing involved).
    fn reference_count(
        game: &ConnectK,
        state: &mut <ConnectK as Game>::State,
        seen: &mut std::collections::HashSet<(Vec<u32>, Player)>,
    ) -> u64 {
        if game.outcome(state).is_some() {
            return 0;
        }
        let mut features = Vec::new();
        game.encode_features(state, &mut features);
        // features are side-relative; pair them with the absolute side
        // to move to identify the absolute position.
        if !seen.insert((features, game.side_to_move(state))) {
            return 0;
        }
        let mut count = 1;
        let mut moves = Vec::new();
        game.legal_moves(state, &mut moves);
        for &mv in &moves {
            let undo = game.make_move(state, mv);
            count += reference_count(game, state, seen);
            game.unmake_move(state, mv, undo);
        }
        count
    }
    let mut state = game.initial_state();
    let mut seen = std::collections::HashSet::new();
    let reference = reference_count(&game, &mut state, &mut seen);

    let mut solver = ExactSolver::new();
    let mut visited = 0u64;
    let mut initial_value = None;
    for position in enumerate_solved(&game, &mut solver) {
        visited += 1;
        if position.ply == 0 {
            initial_value = Some(position.value);
        }
        let optimal: Vec<_> = position.optimal_moves();
        assert!(
            !optimal.is_empty(),
            "solved state must have an optimal move"
        );
        assert!(optimal.len() <= position.legal.len());
    }
    assert_eq!(
        visited, reference,
        "Zobrist-keyed enumeration disagrees with state dedup"
    );
    // External anchor: tic-tac-toe has 4,520 reachable non-terminal
    // positions (5,478 total minus 958 terminal).
    assert_eq!(visited, 4_520);
    assert_eq!(initial_value, Some(Wdl::Draw));
}

#[test]
fn wdl_conversions() {
    assert_eq!(Wdl::Win.flip(), Wdl::Loss);
    assert_eq!(Wdl::Draw.flip(), Wdl::Draw);
    assert_eq!(Wdl::from_outcome(Outcome::Win(Player::Two), Player::Two), Wdl::Win);
    assert_eq!(Wdl::from_outcome(Outcome::Win(Player::Two), Player::One), Wdl::Loss);
    assert_eq!(Wdl::from_outcome(Outcome::Draw, Player::One), Wdl::Draw);
    assert_eq!(Wdl::from_solved_score(31_990), Wdl::Win);
    assert_eq!(Wdl::from_solved_score(-31_990), Wdl::Loss);
    assert_eq!(Wdl::from_solved_score(0), Wdl::Draw);
}

#[test]
fn exhaustive_negamax_agrees_with_the_exact_solver() {
    let game = ConnectK::new(3, 3, 3, false).unwrap();
    let mut state = game.initial_state();
    let mut nodes = 0u64;
    let score = exhaustive_negamax(&game, &mut state, 0, &mut nodes);
    assert_eq!(Wdl::from_solved_score(score), Wdl::Draw);
    let mut solver = ExactSolver::new();
    assert_eq!(solver.solve(&game, &mut state), Wdl::Draw);
    assert!(solver.solved_states() > 0);
    // An immediate win scores SCORE_WIN minus the ply.
    let game = ConnectK::new(3, 3, 3, false).unwrap();
    let mut state = game.initial_state();
    for c in [0u16, 3, 1, 4] {
        game.make_move(&mut state, selfplay_lab::games::connect_k::ConnectKMove(c));
    }
    let mut nodes = 0u64;
    assert_eq!(exhaustive_negamax(&game, &mut state, 0, &mut nodes), 32_000 - 1);
}

#[test]
fn retrograde_refuses_too_many_positions() {
    let game = ConnectK::new(3, 3, 3, false).unwrap();
    assert!(solve_retrograde(&game, 10).is_err());
}
