use rand::{Rng, SeedableRng};
use rand_chacha::ChaCha12Rng;
use selfplay_lab::data::{
    join_retrograde_oracle, label_position, replay_path, PositionSample, Provenance, SearchLabel, TeacherRecord,
};
use selfplay_lab::data::summary::tally_records;
use selfplay_lab::data::ChildLabel;
use selfplay_lab::search::{solve_retrograde, Wdl, ZeroEvaluator};
use selfplay_lab::game::Game;
use selfplay_lab::games::connect_k::{ConnectK, ConnectKMove};
use selfplay_lab::games::forward_chess::{ForwardChess, Ruleset};

fn check<G: Game>(game: &G, seed: u64) {
    let mut rng = ChaCha12Rng::seed_from_u64(seed);
    let mut state = game.initial_state();
    let mut moves = Vec::new();
    let mut path = Vec::new();
    while game.outcome(&state).is_none() && path.len() < 60 {
        let replayed = replay_path(game, &path).expect("prefix replays");
        assert_eq!(
            game.position_key(&replayed),
            game.position_key(&state),
            "replaccording prefix must match the live state"
        );
        game.legal_moves(&state, &mut moves);
        let mv = moves[rng.gen_range(0..moves.len())];
        path.push(game.action_id(&state, mv));
        game.make_move(&mut state, mv);
    }
    // An illegal continuation must error, not panic.
    let mut bogus = path.clone();
    bogus.push(u32::MAX);
    assert!(replay_path(game, &bogus).is_err());
}

#[test]
fn replay_path_reconstructs_positions_exactly() {
    // Walk random trajectories on two rule families and check that
    // replaying every prefix reproduces the visited position key.
    let fc = ForwardChess::new(Ruleset::Tiny);
    let ck = ConnectK::new(3, 3, 3, true).unwrap();
    check(&fc, 7);
    check(&ck, 8);
}

fn record(path: Vec<u32>, key: u64) -> TeacherRecord {
    let label = SearchLabel {
        node_budget: 10,
        nodes: 10,
        completed_depth: 1,
        value: 0,
        best_action: 0,
        per_depth: vec![(0, 0)],
    };
    TeacherRecord {
        path,
        key,
        ply: 0,
        weight: 1,
        provenance: Provenance::InternalSearch,
        evaluator: "zero".to_string(),
        shallow: vec![label.clone()],
        deep: label,
        deep_best_order_rank: 0,
        children: Vec::new(),
        exact_wdl: None,
        exact_optimal: None,
    }
}

#[test]
fn oracle_join_attaches_exact_values_and_optimal_actions() {
    let game = ConnectK::new(3, 3, 3, true).unwrap();
    let solution = solve_retrograde(&game, 100_000).unwrap();
    let root = game.initial_state();
    let mut records = vec![record(Vec::new(), game.position_key(&root)), record(vec![7], 0xdead_beef)];
    let untouched = records.clone();
    let stats = join_retrograde_oracle(&game, &mut records, &solution);
    assert_eq!((stats.joined, stats.missed), (1, 1));
    assert_eq!(records[1], untouched[1], "unknown keys are left alone");
    assert_eq!(records[0].exact_wdl, Some(solution.values[0]));
    let optimal = records[0].exact_optimal.clone().expect("joined record has optimal actions");
    assert!(!optimal.is_empty());
    // Every optimal action keeps the root value; every other loses some.
    let mut moves = Vec::new();
    game.legal_moves(&root, &mut moves);
    let children = solution.child_values(0);
    for (mv, child) in moves.iter().zip(&children) {
        let action = game.action_id(&root, *mv);
        assert_eq!(optimal.contains(&action), *child == solution.values[0]);
    }
    assert_eq!(records[0].path, untouched[0].path);
    assert_eq!(records[0].deep, untouched[0].deep);
}

#[test]
fn label_position_records_every_search() {
    let game = ConnectK::new(4, 4, 3, true).unwrap();
    let mut state = game.initial_state();
    let path = vec![game.action_id(&state, ConnectKMove(1))];
    game.make_move(&mut state, ConnectKMove(1));
    let sample = PositionSample { path: path.clone(), key: game.position_key(&state), ply: 1, weight: 3 };
    let record = label_position(&game, &sample, "zero", &[40, 400], 4_000, true, 100, false, &mut ZeroEvaluator);
    assert_eq!(record.path, path);
    assert_eq!((record.key, record.ply, record.weight), (sample.key, 1, 3));
    assert_eq!(record.provenance, Provenance::InternalSearch);
    assert_eq!(record.evaluator, "zero");
    assert_eq!(record.shallow.len(), 2);
    assert_eq!(record.shallow[0].node_budget, 40);
    assert_eq!(record.shallow[1].node_budget, 400);
    assert!(record.shallow[0].nodes <= 40 && record.deep.nodes <= 4_000);
    assert_eq!(record.deep.node_budget, 4_000);
    let mut moves = Vec::new();
    game.legal_moves(&state, &mut moves);
    assert_eq!(record.children.len(), moves.len());
    for (child, &mv) in record.children.iter().zip(&moves) {
        assert_eq!(child.action, game.action_id(&state, mv));
        assert_eq!(child.node_budget, 100);
    }
    assert!((record.deep_best_order_rank as usize) < moves.len());
    // Without a policy the rank is the best move's generation index.
    let best = moves.iter().position(|&m| game.action_id(&state, m) == record.deep.best_action).unwrap();
    assert_eq!(record.deep_best_order_rank as usize, best);
    assert!(record.exact_wdl.is_none() && record.exact_optimal.is_none());
    let bare = label_position(&game, &sample, "zero", &[], 100, false, 0, false, &mut ZeroEvaluator);
    assert!(bare.shallow.is_empty() && bare.children.is_empty());
}

fn label(budget: u64, best: u32, value: i32, per_depth: Vec<(u32, i32)>) -> SearchLabel {
    SearchLabel { node_budget: budget, nodes: budget, completed_depth: per_depth.len() as u32, value, best_action: best, per_depth }
}

#[test]
fn relabel_tally_counts_exactly() {
    let child = |action: u32, value: i32| ChildLabel { action, node_budget: 10, nodes: 5, completed_depth: 1, value };
    let a = TeacherRecord {
        path: vec![],
        key: 1,
        ply: 0,
        weight: 2,
        provenance: Provenance::InternalSearch,
        evaluator: "zero".to_string(),
        shallow: vec![label(10, 7, 30, vec![(7, 30)])],
        deep: label(100, 7, 50, vec![(3, 10), (7, 20), (7, 50)]),
        deep_best_order_rank: 0,
        children: vec![child(3, 5), child(7, 9), child(8, 9)],
        exact_wdl: Some(Wdl::Win),
        exact_optimal: Some(vec![8]),
    };
    let b = TeacherRecord {
        path: vec![1],
        key: 2,
        ply: 1,
        weight: 5,
        provenance: Provenance::InternalSearch,
        evaluator: "zero".to_string(),
        shallow: vec![label(10, 4, 31_000, vec![(4, 31_000)])],
        deep: label(100, 6, 900, vec![(6, 800), (2, 900)]),
        deep_best_order_rank: 4,
        children: vec![],
        exact_wdl: None,
        exact_optimal: None,
    };
    let t = tally_records(&[a.clone(), b.clone()], &[10]);
    assert_eq!(t.positions, 2);
    assert_eq!(t.total_weight, 7);
    assert_eq!(t.shallow.len(), 1);
    assert_eq!((t.shallow[0].node_budget, t.shallow[0].agree), (10, 1));
    // Only the first pair is heuristic: |30 - 50| = 20.
    assert_eq!((t.shallow[0].heuristic_pairs, t.shallow[0].residual_sum), (1, 20));
    // a: last iteration kept 7 (stable), one change; b: changed, one change.
    assert_eq!(t.last_stable, 1);
    assert_eq!(t.best_move_changes, 2);
    assert_eq!((t.rank_sum, t.top1, t.top3), (4, 1, 1));
    let o = t.oracle.expect("one record joined");
    assert_eq!((o.joined, o.missed, o.losses, o.draws, o.wins), (1, 1, 0, 0, 1));
    assert_eq!(o.shallow_optimal, vec![0]);
    assert_eq!(o.deep_optimal, 0);
    // Ties go to the last best child: action 8, which is optimal.
    assert_eq!((o.with_children, o.child_top_optimal), (1, 1));
    let none = tally_records(&[b], &[10]);
    assert!(none.oracle.is_none());
}
