use selfplay_lab::game::{Game, Player};
use selfplay_lab::games::breakthrough::Breakthrough;
use selfplay_lab::games::connect_k::{ConnectK, ConnectKMove, ConnectKState};
use selfplay_lab::games::forward_chess::{FcState, ForwardChess, Piece, Ruleset};
use selfplay_lab::search::{
    exhaustive_negamax, Evaluator, ExactSolver, MoveOrdering, Searcher, Wdl, ZeroEvaluator,
    SCORE_EVAL_MAX, SCORE_WIN,
};

/// Exact-oracle leaf evaluator: Win=+1000, Draw=0, Loss=-1000.
struct OracleLeafEval(ExactSolver);

impl Evaluator<ConnectK> for OracleLeafEval {
    fn leaf_value(&mut self, game: &ConnectK, state: &ConnectKState) -> i32 {
        let mut s = state.clone();
        match self.0.solve(game, &mut s) {
            Wdl::Win => SCORE_EVAL_MAX,
            Wdl::Draw => 0,
            Wdl::Loss => -SCORE_EVAL_MAX,
        }
    }
}

/// Deterministic non-trivial policy: prefers high action IDs, so
/// ordering differs from both natural and reversed baselines.
struct HighIdPolicy;

impl Evaluator<ConnectK> for HighIdPolicy {
    fn leaf_value(&mut self, _: &ConnectK, _: &ConnectKState) -> i32 {
        0
    }
    fn policy_keys(
        &mut self,
        game: &ConnectK,
        state: &ConnectKState,
        moves: &[ConnectKMove],
        out: &mut Vec<u32>,
    ) -> bool {
        out.clear();
        out.extend(moves.iter().map(|&m| game.action_id(state, m)));
        true
    }
}

fn full_depth(game: &ConnectK) -> u32 {
    game.cell_count()
}

/// Deterministic sample of reachable states: LCG playouts truncated at
/// random plies.
fn sample_states(game: &ConnectK, count: usize, mut lcg: u64) -> Vec<ConnectKState> {
    let mut states = Vec::new();
    let mut moves = Vec::new();
    while states.len() < count {
        let mut state = game.initial_state();
        lcg = lcg.wrapping_mul(6364136223846793005).wrapping_add(1442695040888963407);
        let stop_ply = (lcg >> 33) as u32 % game.cell_count();
        for _ in 0..stop_ply {
            if game.outcome(&state).is_some() {
                break;
            }
            game.legal_moves(&state, &mut moves);
            lcg = lcg.wrapping_mul(6364136223846793005).wrapping_add(1442695040888963407);
            let mv = moves[(lcg >> 33) as usize % moves.len()];
            game.make_move(&mut state, mv);
        }
        if game.outcome(&state).is_none() {
            states.push(state);
        }
    }
    states
}

fn small_games() -> Vec<ConnectK> {
    vec![
        ConnectK::new(3, 3, 3, true).unwrap(),
        ConnectK::new(3, 3, 3, false).unwrap(),
        ConnectK::new(4, 3, 3, true).unwrap(),
    ]
}

#[test]
fn tic_tac_toe_is_a_draw_for_every_method() {
    let game = ConnectK::new(3, 3, 3, false).unwrap();
    let mut state = game.initial_state();

    let mut solver = ExactSolver::new();
    assert_eq!(solver.solve(&game, &mut state), Wdl::Draw);

    let mut nodes = 0u64;
    let value = exhaustive_negamax(&game, &mut state, 0, &mut nodes);
    assert_eq!(Wdl::from_solved_score(value), Wdl::Draw);

    for tt in [None, Some(16)] {
        let mut searcher = Searcher::new(tt, MoveOrdering::Natural);
        let result =
            searcher.search(&game, &mut state, full_depth(&game), u64::MAX, &mut ZeroEvaluator);
        assert_eq!(result.completed_depth, full_depth(&game));
        assert_eq!(Wdl::from_solved_score(result.value), Wdl::Draw);
    }
}

#[test]
fn exhaustive_and_alpha_beta_scores_agree_on_sampled_states() {
    for game in small_games() {
        for mut state in sample_states(&game, 30, 0xabcdef) {
            let mut nodes = 0u64;
            let reference = exhaustive_negamax(&game, &mut state, 0, &mut nodes);
            for (tt, ordering) in [
                (None, MoveOrdering::Natural),
                (None, MoveOrdering::Reversed),
                (Some(14), MoveOrdering::Natural),
                (Some(14), MoveOrdering::Reversed),
            ] {
                let mut searcher = Searcher::new(tt, ordering);
                let result = searcher.search(
                    &game,
                    &mut state,
                    full_depth(&game),
                    u64::MAX,
                    &mut ZeroEvaluator,
                );
                assert_eq!(
                    result.value, reference,
                    "tt={tt:?} ordering={ordering:?} disagrees with exhaustive negamax"
                );
            }
        }
    }
}

#[test]
fn search_best_moves_are_exactly_optimal() {
    for game in small_games() {
        let mut solver = ExactSolver::new();
        for mut state in sample_states(&game, 30, 0x1357) {
            let mut optimal = Vec::new();
            let wdl = solver.optimal_moves(&game, &mut state, &mut optimal);
            for ordering in [MoveOrdering::Natural, MoveOrdering::Reversed] {
                let mut searcher: Searcher<ConnectK> = Searcher::new(Some(14), ordering);
                let result = searcher.search(
                    &game,
                    &mut state,
                    full_depth(&game),
                    u64::MAX,
                    &mut ZeroEvaluator,
                );
                assert_eq!(Wdl::from_solved_score(result.value), wdl);
                let best = result.best_move.expect("non-terminal search returns a move");
                assert!(optimal.contains(&best), "search chose a suboptimal move under {ordering:?}");
            }
        }
    }
}

#[test]
fn oracle_leaves_produce_optimal_root_actions_at_depth_one() {
    let game = ConnectK::new(4, 3, 3, true).unwrap();
    let mut oracle_eval = OracleLeafEval(ExactSolver::new());
    let mut check_solver = ExactSolver::new();
    for mut state in sample_states(&game, 40, 0x2468) {
        let mut optimal = Vec::new();
        check_solver.optimal_moves(&game, &mut state, &mut optimal);
        let mut searcher: Searcher<ConnectK> = Searcher::new(None, MoveOrdering::Natural);
        let result = searcher.search(&game, &mut state, 1, u64::MAX, &mut oracle_eval);
        let best = result.best_move.unwrap();
        assert!(optimal.contains(&best), "depth-1 search with oracle leaves chose a suboptimal move");
    }
}

#[test]
fn policy_ordering_changes_nodes_but_never_values() {
    let game = ConnectK::new(4, 4, 4, true).unwrap();
    let (mut nodes_plain, mut nodes_policy) = (0u64, 0u64);
    for mut state in sample_states(&game, 15, 0x77aa) {
        let mut plain: Searcher<ConnectK> = Searcher::new(Some(16), MoveOrdering::Natural);
        let a = plain.search(&game, &mut state, full_depth(&game), u64::MAX, &mut ZeroEvaluator);
        let mut ordered: Searcher<ConnectK> = Searcher::new(Some(16), MoveOrdering::Natural);
        let b = ordered.search(&game, &mut state, full_depth(&game), u64::MAX, &mut HighIdPolicy);
        assert_eq!(a.value, b.value, "policy ordering changed the search value");
        nodes_plain += a.nodes;
        nodes_policy += b.nodes;
    }
    assert_ne!(nodes_plain, nodes_policy, "high-id policy should change node counts on some position");
}

#[test]
fn node_budget_returns_last_completed_iteration() {
    let game = ConnectK::new(4, 4, 3, true).unwrap();
    let mut state = game.initial_state();
    let mut full: Searcher<ConnectK> = Searcher::new(Some(14), MoveOrdering::Natural);
    let unlimited = full.search(&game, &mut state, 10, u64::MAX, &mut ZeroEvaluator);
    assert!(unlimited.nodes > 2_000);

    // A budget that lands mid-iteration must reproduce the result of an
    // unlimited search truncated at the completed depth.
    for budget in [500u64, 2_000, 10_000] {
        let mut limited: Searcher<ConnectK> = Searcher::new(Some(14), MoveOrdering::Natural);
        let capped = limited.search(&game, &mut state, 10, budget, &mut ZeroEvaluator);
        assert!(capped.nodes <= budget);
        let mut reference: Searcher<ConnectK> = Searcher::new(Some(14), MoveOrdering::Natural);
        let truncated =
            reference.search(&game, &mut state, capped.completed_depth, u64::MAX, &mut ZeroEvaluator);
        assert_eq!(capped.value, truncated.value);
        assert_eq!(capped.best_move, truncated.best_move);
        assert_eq!(capped.nodes_at_completed_depth, truncated.nodes_at_completed_depth);
    }
}

#[test]
fn search_is_deterministic() {
    let game = ConnectK::new(5, 4, 4, true).unwrap();
    let state = game.initial_state();
    let run = || {
        let mut searcher: Searcher<ConnectK> = Searcher::new(Some(16), MoveOrdering::Natural);
        let mut state2 = state.clone();
        let r = searcher.search(&game, &mut state2, 12, 200_000, &mut ZeroEvaluator);
        (r.value, r.best_move, r.completed_depth, r.nodes, r.nodes_at_completed_depth)
    };
    assert_eq!(run(), run());
}

#[test]
fn quiescence_is_neutral_without_tactical_moves() {
    // Connect-k defines no tactical moves, so quiescence ON must
    // reproduce OFF exactly: values, moves, and node counts.
    let game = ConnectK::new(5, 4, 4, true).unwrap();
    let run = |quiescence: bool| {
        let mut searcher: Searcher<ConnectK> = Searcher::new(Some(14), MoveOrdering::Natural);
        searcher.set_quiescence(quiescence);
        let mut state = game.initial_state();
        let r = searcher.search(&game, &mut state, 6, 50_000, &mut ZeroEvaluator);
        (r.value, r.best_move, r.nodes, r.quiescence_nodes)
    };
    let (v_off, m_off, n_off, q_off) = run(false);
    let (v_on, m_on, n_on, q_on) = run(true);
    assert_eq!(v_off, v_on);
    assert_eq!(m_off, m_on);
    assert_eq!(n_off, n_on, "no tactical moves: node counts identical");
    assert_eq!(q_off, 0);
    assert!(q_on > 0 && q_on < n_on, "horizon leaves pass through qsearch; interior nodes do not");
}

/// Material count for the side to move.
struct Material;

impl Evaluator<ForwardChess> for Material {
    fn leaf_value(&mut self, game: &ForwardChess, state: &FcState) -> i32 {
        let mover = game.side_to_move(state);
        let mut score = 0;
        for &code in game.state_cells(state) {
            if code == 0 {
                continue;
            }
            let (owner, piece, _) = ForwardChess::unpack_code(code);
            let value = match piece {
                Piece::Pawn => 100,
                Piece::Rook => 500,
                Piece::King => 0,
                _ => 300,
            };
            score += if owner == mover { value } else { -value };
        }
        score
    }
}

#[test]
fn quiescence_resolves_a_hanging_capture() {
    // Forward Chess small: White Kd1, Rb2; Black Kd4, Pb3, Pa4.
    // Rxb3 wins a pawn at the horizon but loses the rook to axb3.
    let game = ForwardChess::new(Ruleset::Small);
    let state = game.custom_state(
        &[
            ("d1", Player::One, Piece::King, false),
            ("b2", Player::One, Piece::Rook, false),
            ("d4", Player::Two, Piece::King, false),
            ("b3", Player::Two, Piece::Pawn, false),
            ("a4", Player::Two, Piece::Pawn, false),
        ],
        Player::One,
        [false; 4],
        None,
    );
    let run = |quiescence: bool| {
        let mut searcher: Searcher<ForwardChess> = Searcher::new(Some(12), MoveOrdering::Natural);
        searcher.set_quiescence(quiescence);
        let mut s = state.clone();
        searcher.search(&game, &mut s, 1, u64::MAX, &mut Material)
    };
    let off = run(false);
    let on = run(true);
    assert_eq!(off.value, 400, "horizon effect: the pawn grab looks won");
    let grab = off.best_move.expect("some move");
    assert_eq!(
        (grab.from, grab.to),
        (game.square("b2"), game.square("b3")),
        "without quiescence the search grabs the poisoned pawn"
    );
    assert_eq!(on.value, 300, "quiescence sees the recapture and keeps the rook instead");
    assert_ne!(
        on.best_move.expect("some move").to,
        game.square("b3"),
        "with quiescence the poisoned pawn is declined"
    );
    assert!(on.quiescence_nodes > 0);
    // Budget abort stays clean with quiescence on.
    let mut searcher: Searcher<ForwardChess> = Searcher::new(Some(12), MoveOrdering::Natural);
    searcher.set_quiescence(true);
    let mut s = state.clone();
    let tiny = searcher.search(&game, &mut s, 8, 40, &mut Material);
    assert!(tiny.nodes <= 41);
    assert!(tiny.best_move.is_some());
}

#[test]
fn immediate_win_is_found_with_mate_distance_score() {
    let game = ConnectK::new(7, 6, 4, true).unwrap();
    let mut state = game.initial_state();
    // P1 threatens on cells 0..=2 bottom row; P2 stacks column 6.
    for cell in [0u16, 6, 1, 13, 2, 20] {
        game.make_move(&mut state, ConnectKMove(cell));
    }
    let mut searcher: Searcher<ConnectK> = Searcher::new(Some(14), MoveOrdering::Natural);
    let result = searcher.search(&game, &mut state, 6, u64::MAX, &mut ZeroEvaluator);
    assert_eq!(result.value, SCORE_WIN - 1, "win in one ply");
    assert_eq!(result.best_move, Some(ConnectKMove(3)));
}

#[test]
fn ordering_changes_node_counts_but_never_values_on_asymmetric_states() {
    // From the (symmetric) initial position, natural and reversed
    // orderings explore mirror-isomorphic trees and cost identical
    // nodes; asymmetric sampled positions expose real ordering effects.
    let game = ConnectK::new(5, 4, 4, true).unwrap();
    let (mut nodes_natural, mut nodes_reversed) = (0u64, 0u64);
    let mut some_position_differs = false;
    for mut state in sample_states(&game, 8, 0x9d2c) {
        let mut results = Vec::new();
        for ordering in [MoveOrdering::Natural, MoveOrdering::Reversed] {
            let mut searcher: Searcher<ConnectK> = Searcher::new(None, ordering);
            let r = searcher.search(&game, &mut state, full_depth(&game), u64::MAX, &mut ZeroEvaluator);
            results.push(r);
        }
        assert_eq!(results[0].value, results[1].value);
        nodes_natural += results[0].nodes;
        nodes_reversed += results[1].nodes;
        if results[0].nodes != results[1].nodes {
            some_position_differs = true;
        }
    }
    assert!(some_position_differs, "orderings should differ in node cost on some asymmetric position");
    println!(
        "ordering node totals over 8 sampled 5x4k4g positions: natural={nodes_natural} reversed={nodes_reversed}"
    );
}

#[test]
fn breakthrough_small_boards_solve_consistently() {
    for (w, h, rows) in [(2, 4, 1), (3, 4, 1), (2, 5, 1)] {
        let game = Breakthrough::new(w, h, rows).unwrap();
        let mut state = game.initial_state();
        let mut solver = ExactSolver::new();
        let exact = solver.solve(&game, &mut state);
        let mut nodes = 0u64;
        let exhaustive = Wdl::from_solved_score(exhaustive_negamax(&game, &mut state, 0, &mut nodes));
        assert_eq!(exact, exhaustive, "{w}x{h}r{rows} root value");
        let mut searcher: Searcher<Breakthrough> = Searcher::new(Some(14), MoveOrdering::Natural);
        let depth = game.cell_count() * 2; // captures shorten games; bound generously
        let result = searcher.search(&game, &mut state, depth, u64::MAX, &mut ZeroEvaluator);
        assert_eq!(Wdl::from_solved_score(result.value), exact, "{w}x{h}r{rows} alpha-beta agreement");
        // Breakthrough has no draws: the root is decisive.
        assert_ne!(exact, Wdl::Draw, "{w}x{h}r{rows} must be decisive");
    }
}

#[test]
fn searcher_settings_and_terminal_roots() {
    let game = ConnectK::new(3, 3, 3, false).unwrap();
    let mut searcher: Searcher<ConnectK> = Searcher::new(None, MoveOrdering::Natural);
    assert_eq!(searcher.tt_stats(), (0, 0));
    // A finished game: no move, no work.
    let mut state = game.initial_state();
    for c in [0u16, 3, 1, 4, 2] {
        game.make_move(&mut state, ConnectKMove(c));
    }
    let r = searcher.search(&game, &mut state, 5, u64::MAX, &mut ZeroEvaluator);
    assert_eq!(r.best_move, None);
    assert_eq!((r.value, r.completed_depth, r.nodes), (0, 0, 0));
    // With a table, probes are counted.
    let mut searcher: Searcher<ConnectK> = Searcher::new(Some(10), MoveOrdering::Natural);
    let mut state = game.initial_state();
    let r = searcher.search(&game, &mut state, 3, u64::MAX, &mut ZeroEvaluator);
    assert_eq!(r.per_depth.len(), 3);
    assert_eq!(r.per_depth[2], (r.best_move.unwrap(), r.value));
    let (probes, hits) = searcher.tt_stats();
    assert!(probes > 0 && hits <= probes);
    // A budget of one node completes nothing but still names a move.
    let mut searcher: Searcher<ConnectK> = Searcher::new(Some(10), MoveOrdering::Natural);
    let r = searcher.search(&game, &mut state, 3, 1, &mut ZeroEvaluator);
    assert_eq!(r.completed_depth, 0);
    assert!(r.best_move.is_some());
    assert!(r.nodes <= 1);
}
