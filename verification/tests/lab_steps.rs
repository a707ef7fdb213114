use selfplay_lab::games::forward_chess::tablebase::{read_tablebase, write_tablebase};
use selfplay_lab::data::sampling::{merge_samples, sampled, SAMPLE_SALT};
use selfplay_lab::data::PositionSample;
use selfplay_lab::game::Game;
use selfplay_lab::games::connect_k::ConnectK;
use selfplay_lab::games::forward_chess::{FcMove, ForwardChess, Ruleset};
use selfplay_lab::play::{play_step, PlayAction};
use selfplay_lab::search::exhaustive_negamax;
use selfplay_lab::sweep::{sweep_result, sweep_step, validate_sweep, SweepEntry, SweepEvent, SweepState};
use selfplay_lab::training::splitmix64;

fn entry(command: &str, config: &str, cores: usize) -> SweepEntry {
    SweepEntry { command: command.to_string(), config: config.to_string(), cores }
}

#[test]
fn sampling_follows_the_salted_hash() {
    for key in [0u64, 1, 42, 0xdead_beef, u64::MAX] {
        assert!(sampled(key, 1));
        assert_eq!(sampled(key, 7), splitmix64(key ^ SAMPLE_SALT) % 7 == 0);
    }
}

#[test]
fn merge_dedups_weights_and_caps() {
    let per_game = vec![
        vec![(vec![], 10u64, 0u32), (vec![1], 20, 1)],
        vec![(vec![], 10, 0), (vec![2], 30, 1), (vec![2, 3], 40, 2)],
        vec![(vec![4], 30, 1), (vec![5], 50, 1)],
    ];
    let merged = merge_samples(&per_game, 3);
    assert_eq!(
        merged,
        vec![
            PositionSample { path: vec![], key: 10, ply: 0, weight: 2 },
            PositionSample { path: vec![1], key: 20, ply: 1, weight: 1 },
            PositionSample { path: vec![2], key: 30, ply: 1, weight: 2 },
        ]
    );
    assert!(merge_samples(&per_game, 0).is_empty());
    assert_eq!(merge_samples(&per_game, 10).len(), 5);
}

#[test]
fn sweep_manifest_is_checked_in_order() {
    assert_eq!(validate_sweep(&[], 4), Err("sweep manifest is empty".to_string()));
    assert_eq!(validate_sweep(&[entry("train", "a.toml", 2), entry("fit", "b.toml", 4)], 4), Ok(()));
    assert_eq!(
        validate_sweep(&[entry("train", "a.toml", 5)], 4),
        Err("entry a.toml requests 5 cores (machine has 4)".to_string())
    );
    assert_eq!(
        validate_sweep(&[entry("train", "a.toml", 0)], 4),
        Err("entry a.toml requests 0 cores (machine has 4)".to_string())
    );
    assert_eq!(
        validate_sweep(&[entry("dance", "a.toml", 1), entry("train", "b.toml", 9)], 4),
        Err("unknown sweep command \"dance\"".to_string())
    );
}

#[test]
fn sweep_starts_fifo_while_cores_fit() {
    let s = SweepState { pending: vec![(0, 2), (1, 3), (2, 1)], active: vec![], free: 4, failures: 0 };
    let (s, started) = sweep_step(&s, SweepEvent::Tick);
    // Run 1 needs 3 of the 2 free slots: it blocks run 2 behind it.
    assert_eq!(started, vec![0]);
    assert_eq!(s.free, 2);
    let (s, started) = sweep_step(&s, SweepEvent::Exited { index: 0, success: false });
    assert_eq!(started, vec![1, 2]);
    assert_eq!(s.free, 0);
    assert_eq!(s.failures, 1);
    assert!(s.pending.is_empty());
    let (s, started) = sweep_step(&s, SweepEvent::Exited { index: 7, success: false });
    assert!(started.is_empty());
    assert_eq!(s.failures, 1);
    let (s, _) = sweep_step(&s, SweepEvent::Exited { index: 1, success: true });
    let (s, _) = sweep_step(&s, SweepEvent::Exited { index: 2, success: true });
    assert_eq!(s.free, 4);
    assert!(s.active.is_empty());
    assert_eq!(sweep_result(s.failures), Err("1 sweep run(s) failed".to_string()));
    assert_eq!(sweep_result(0), Ok(()));
}

#[test]
fn play_commands_and_moves() {
    let game = ForwardChess::new(Ruleset::Full);
    let state = game.initial_state();
    let mut legal = Vec::new();
    game.legal_moves(&state, &mut legal);
    assert_eq!(play_step(&game, 1, &legal, ""), PlayAction::Nothing);
    for q in ["quit", "exit", "q"] {
        assert_eq!(play_step(&game, 1, &legal, q), PlayAction::Quit);
    }
    assert_eq!(play_step(&game, 1, &legal, "?"), PlayAction::ListMoves);
    assert_eq!(play_step(&game, 1, &legal, "hint"), PlayAction::Hint);
    assert_eq!(play_step(&game, 1, &legal, "undo"), PlayAction::TakeBack(0));
    assert_eq!(play_step(&game, 2, &legal, "undo"), PlayAction::TakeBack(1));
    assert_eq!(play_step(&game, 5, &legal, "undo"), PlayAction::TakeBack(2));
    let e2e4 = FcMove { from: game.square("e2"), to: game.square("e4"), promotion: None };
    assert_eq!(play_step(&game, 1, &legal, "e2e4"), PlayAction::Play(e2e4));
    assert_eq!(play_step(&game, 1, &legal, "E2E4"), PlayAction::Play(e2e4));
    assert_eq!(play_step(&game, 1, &legal, "e2=e4"), PlayAction::Play(e2e4));
    assert_eq!(play_step(&game, 1, &legal, "e2e5"), PlayAction::NotLegal);
}

/// Positions of the full game tree below `state`, counted by play.
fn tree(game: &ConnectK, state: &mut <ConnectK as Game>::State) -> u64 {
    if game.outcome(state).is_some() {
        return 1;
    }
    let mut moves = Vec::new();
    game.legal_moves(state, &mut moves);
    let mut n = 1;
    for &mv in &moves {
        let u = game.make_move(state, mv);
        n += tree(game, state);
        game.unmake_move(state, mv, u);
    }
    n
}

#[test]
fn exhaustive_negamax_counts_every_tree_node() {
    // 2x2 board, k = 2, no gravity: any two stones of one player form a
    // line, so the first player's second stone always wins:
    // 1 + 4 + 4 * 3 + 4 * 3 * 2 positions.
    let game = ConnectK::new(2, 2, 2, false).unwrap();
    let mut state = game.initial_state();
    let expected = tree(&game, &mut state);
    assert_eq!(expected, 41);
    let mut nodes = 5u64;
    exhaustive_negamax(&game, &mut state, 0, &mut nodes);
    assert_eq!(nodes, 5 + expected);
}

#[test]
fn tablebase_header_errors_are_named() {
    let tiny = ForwardChess::new(Ruleset::Tiny);
    let small = ForwardChess::new(Ruleset::Small);
    assert_eq!(read_tablebase(&tiny, &[0u8; 10]).err(), Some("tablebase truncated".to_string()));
    let mut bytes = Vec::new();
    let total = write_tablebase(&tiny, &[], &[], &mut bytes);
    assert_eq!(total, 28);
    assert_eq!(bytes.len(), 28);
    assert!(read_tablebase(&tiny, &bytes).unwrap().is_empty());
    assert_eq!(
        read_tablebase(&small, &bytes).err(),
        Some("tablebase ruleset code 0 does not match small".to_string())
    );
    let mut flipped = bytes.clone();
    flipped[0] ^= 1;
    assert_eq!(read_tablebase(&tiny, &flipped).err(), Some("bad tablebase magic".to_string()));
}
