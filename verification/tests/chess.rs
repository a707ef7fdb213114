use cozy_chess::{Board, Color, GameStatus, Piece, Square};
use rand::{Rng, SeedableRng};
use rand_chacha::ChaCha12Rng;
use selfplay_lab::game::{ActionId, Game, Outcome, Player};
use selfplay_lab::features::chess::{
    ChessMoveFeatures, CHESS_MOVE_FEATURE_DIMENSION, MF_CAPTURED, MF_DEST_ATTACKED,
    MF_DEST_DEFENDED, MF_DEST_REL_RANK, MF_GIVES_CHECK, MF_IS_CAPTURE, MF_IS_CASTLE, MF_IS_EP,
    MF_IS_PROMO, MF_MOVING, MF_PROMO_CHOICE, MF_SOURCE_ATTACKED,
};
use selfplay_lab::features::FeatureEntry;
use selfplay_lab::games::chess::{format_uci_move, parse_move_text, Chess, ChessMove, ChessState};
use selfplay_lab::search::{Evaluator, MoveOrdering, Searcher, ZeroEvaluator, SCORE_WIN};

/// A move written in UCI notation, as `cozy-chess` reads it.
fn uci(text: &str) -> ChessMove {
    let m: cozy_chess::Move = text.parse().unwrap();
    ChessMove { from: m.from as u8, to: m.to as u8, promotion: m.promotion.map(|p| p as u8) }
}

/// The `cozy-chess` board of a state.
fn board(game: &Chess, state: &ChessState) -> Board {
    game.fen(state).parse().unwrap()
}

/// Leaf count of the move tree `depth` plies deep. With `bulk`, the
/// moves of the last ply are counted rather than played (the standard
/// perft shortcut); without it every move is made and unmade.
fn perft(game: &Chess, state: &mut ChessState, depth: u32, bulk: bool) -> u64 {
    if depth == 0 {
        return 1;
    }
    let mut moves = Vec::new();
    game.legal_moves(state, &mut moves);
    if bulk && depth == 1 {
        return moves.len() as u64;
    }
    let mut nodes = 0;
    for &mv in &moves {
        let undo = game.make_move(state, mv);
        nodes += perft(game, state, depth - 1, bulk);
        game.unmake_move(state, mv, undo);
    }
    nodes
}

#[test]
fn established_perft_positions() {
    let game = Chess::new();
    // (FEN, [d1, d2, d3, d4]): standard published perft values.
    let cases: [(&str, &[u64]); 5] = [
        ("rnbqkbnr/pppppppp/8/8/8/8/PPPPPPPP/RNBQKBNR w KQkq - 0 1", &[20, 400, 8_902, 197_281]),
        (
            // Kiwipete: castling, pins, en passant, promotions.
            "r3k2r/p1ppqpb1/bn2pnp1/3PN3/1p2P3/2N2Q1p/PPPBBPPP/R3K2R w KQkq - 0 1",
            &[48, 2_039, 97_862],
        ),
        ("8/2p5/3p4/KP5r/1R3p1k/8/4P1P1/8 w - - 0 1", &[14, 191, 2_812, 43_238]),
        (
            // Promotion-heavy position 4.
            "r3k2r/Pppp1ppp/1b3nbN/nP6/BBP1P3/q4N2/Pp1P2PP/R2Q1RK1 w kq - 0 1",
            &[6, 264, 9_467],
        ),
        ("rnbq1k1r/pp1Pbppp/2p5/8/2B5/8/PPP1NnPP/RNBQK2R w KQ - 1 8", &[44, 1_486, 62_379]),
    ];
    for (fen, expected) in cases {
        let mut state = game.state_from_fen(fen).unwrap();
        for (i, &nodes) in expected.iter().enumerate() {
            // Every depth but the deepest plays all of its moves; the
            // deepest counts the moves of positions the run before it
            // reached by playing.
            let bulk = i + 1 == expected.len();
            assert_eq!(perft(&game, &mut state, i as u32 + 1, bulk), nodes, "perft({}) of {fen}", i + 1);
        }
    }
}

#[test]
fn randomized_differential_against_cozy_chess() {
    let game = Chess::new();
    let mut rng = ChaCha12Rng::seed_from_u64(0xd1ff);
    for _ in 0..60 {
        let mut state = game.initial_state();
        let mut moves = Vec::new();
        for _ply in 0..120 {
            if game.outcome(&state).is_some() {
                break;
            }
            game.legal_moves(&state, &mut moves);
            // Differential: our move list equals cozy's, sorted.
            let b = board(&game, &state);
            let mut reference = Vec::new();
            b.generate_moves(|pm| {
                for m in pm {
                    reference.push(ChessMove {
                        from: m.from as u8,
                        to: m.to as u8,
                        promotion: m.promotion.map(|p| p as u8),
                    });
                }
                false
            });
            reference.sort();
            assert_eq!(moves, reference);
            // Status agreement while ongoing (threefold aside, which
            // cozy does not track).
            if b.status() != GameStatus::Ongoing {
                panic!("outcome() should have been terminal");
            }
            let mv = moves[rng.gen_range(0..moves.len())];
            let before = state.clone();
            let undo = game.make_move(&mut state, mv);
            game.unmake_move(&mut state, mv, undo);
            assert_eq!(state, before, "make/unmake must restore exactly");
            assert_eq!(game.position_key(&state), game.position_key(&before));
            game.make_move(&mut state, mv);
        }
    }
}

#[test]
fn check_mate_and_stalemate() {
    let game = Chess::new();
    // Fool's mate: checkmate, Black (P2) wins.
    let state = game
        .state_from_fen("rnb1kbnr/pppp1ppp/8/4p3/6Pq/5P2/PPPPP2P/RNBQKBNR w KQkq - 1 3")
        .unwrap();
    assert_eq!(game.outcome(&state), Some(Outcome::Win(Player::Two)));
    // Classic stalemate: draw.
    let state = game.state_from_fen("7k/5Q2/6K1/8/8/8/8/8 b - - 0 1").unwrap();
    assert_eq!(game.outcome(&state), Some(Outcome::Draw));
    // Check but not mate: ongoing.
    let state = game.state_from_fen("4k3/8/8/8/8/8/4R3/4K3 b - - 0 1").unwrap();
    assert!(game.outcome(&state).is_none());
}

#[test]
fn castling_en_passant_and_all_promotions() {
    let game = Chess::new();
    // Both castling moves legal and playable.
    let mut state = game.state_from_fen("r3k2r/8/8/8/8/8/8/R3K2R w KQkq - 0 1").unwrap();
    let mut moves = Vec::new();
    game.legal_moves(&state, &mut moves);
    // cozy-chess encodes castling as king-takes-rook.
    let short = uci("e1h1");
    let long = uci("e1a1");
    assert!(moves.contains(&short) && moves.contains(&long));
    game.make_move(&mut state, short);
    assert!(board(&game, &state).king(Color::White) == Square::G1);

    // En passant is generated and captures the pawn.
    let mut state = game.state_from_fen("4k3/8/8/3pP3/8/8/8/4K3 w - d6 0 2").unwrap();
    game.legal_moves(&state, &mut moves);
    let ep = uci("e5d6");
    assert!(moves.contains(&ep));
    game.make_move(&mut state, ep);
    assert_eq!(board(&game, &state).piece_on(Square::D5), None, "captured pawn gone");

    // All four promotions, and their action IDs are distinct.
    let state = game.state_from_fen("4k3/1P6/8/8/8/8/8/4K3 w - - 0 1").unwrap();
    game.legal_moves(&state, &mut moves);
    let promos: Vec<ChessMove> = moves.iter().filter(|m| m.promotion.is_some()).copied().collect();
    assert_eq!(promos.len(), 4);
    let mut ids: Vec<ActionId> = promos.iter().map(|&m| game.action_id(&state, m)).collect();
    ids.sort_unstable();
    ids.dedup();
    assert_eq!(ids.len(), 4, "promotion action IDs must be distinct");
    for &mv in &promos {
        let mut s = state.clone();
        game.make_move(&mut s, mv);
        let promoted = mv.promotion.map(|p| Piece::index(p as usize));
        assert_eq!(board(&game, &s).piece_on(Square::B8), promoted);
    }
}

#[test]
fn threefold_repetition_is_a_draw() {
    let game = Chess::new();
    let mut state = game.state_from_fen("4k3/8/8/8/8/8/8/R3K3 w - - 0 1").unwrap();
    let seq = ["a1b1", "e8d8", "b1a1", "d8e8", "a1b1", "e8d8", "b1a1", "d8e8"];
    for (i, text) in seq.iter().enumerate() {
        assert!(game.outcome(&state).is_none(), "premature termination before move {i}");
        game.make_move(&mut state, uci(text));
    }
    // The start position has now occurred three times.
    assert_eq!(game.outcome(&state), Some(Outcome::Draw));
}

#[test]
fn fifty_move_rule_is_a_draw() {
    let game = Chess::new();
    let mut state = game.state_from_fen("4k3/8/8/8/8/8/8/R3K3 w - - 99 70").unwrap();
    assert!(game.outcome(&state).is_none());
    game.make_move(&mut state, uci("a1a2"));
    assert_eq!(game.outcome(&state), Some(Outcome::Draw));
}

#[test]
fn features_and_action_ids_are_perspective_consistent() {
    let game = Chess::new();
    // Colour-mirrored position: white-to-move vs black-to-move with
    // ranks flipped must encode identically.
    let white = game.state_from_fen("4k3/2p5/8/8/8/8/2P5/4K2R w K - 0 1").unwrap();
    let black = game.state_from_fen("4k2r/2p5/8/8/8/8/2P5/4K3 b k - 0 1").unwrap();
    let (mut fw, mut fb) = (Vec::new(), Vec::new());
    game.encode_features(&white, &mut fw);
    game.encode_features(&black, &mut fb);
    assert_eq!(fw, fb, "mirrored positions must encode identically");
    let mut mw = Vec::new();
    let mut mb = Vec::new();
    game.legal_moves(&white, &mut mw);
    game.legal_moves(&black, &mut mb);
    let mut iw: Vec<ActionId> = mw.iter().map(|&m| game.action_id(&white, m)).collect();
    let mut ib: Vec<ActionId> = mb.iter().map(|&m| game.action_id(&black, m)).collect();
    iw.sort_unstable();
    ib.sort_unstable();
    assert_eq!(iw, ib, "mirrored action IDs must match");
    // Action IDs are unique per state and in range.
    let mut dedup = iw.clone();
    dedup.dedup();
    assert_eq!(dedup.len(), iw.len());
    assert!(iw.iter().all(|&id| (id as usize) < game.action_count()));
}

#[test]
fn chess_constants_and_start_position() {
    let game = Chess::new();
    assert_eq!(game.cell_count(), 64);
    assert_eq!(game.feature_count(), 780);
    assert_eq!(game.action_count(), 4168);
    let state = game.initial_state();
    assert_eq!(game.fen(&state), "rnbqkbnr/pppppppp/8/8/8/8/PPPPPPPP/RNBQKBNR w HAha - 0 1");
    assert_eq!(game.side_to_move(&state), Player::One);
    assert_eq!(game.position_key(&state), Board::startpos().hash());
    assert!(game.outcome(&state).is_none());
}

#[test]
fn bad_fen_is_refused_with_message() {
    let game = Chess::new();
    let err = game.state_from_fen("not a fen").unwrap_err();
    let cozy = "not a fen".parse::<Board>().unwrap_err();
    assert_eq!(err, format!("bad FEN {:?}: {}", "not a fen", cozy));
    assert!(err.starts_with("bad FEN \"not a fen\": "));
}

#[test]
fn start_position_features_exact() {
    let game = Chess::new();
    let state = game.initial_state();
    let mut features = Vec::new();
    game.encode_features(&state, &mut features);
    // 32 pieces, four castling rights, no en passant.
    assert_eq!(features.len(), 36);
    // White rook on a1 (square 0): 0 * 12 + 3 * 2 + 0 = 6; black king on
    // e8 (square 60): 60 * 12 + 5 * 2 + 1 = 731.
    assert!(features.contains(&6));
    assert!(features.contains(&731));
    assert_eq!(&features[32..], &[768, 769, 770, 771]);
    assert!(features.windows(2).all(|w| w[0] < w[1]));
}

#[test]
fn action_ids_and_tactical_moves_by_hand() {
    let game = Chess::new();
    // e2e4 for White: 12 * 64 + 28.
    let state = game.initial_state();
    assert_eq!(game.action_id(&state, uci("e2e4")), 12 * 64 + 28);
    assert!(!game.is_tactical(&state, uci("e2e4")));
    // Black's e7e5 seen from Black is e2e4 again.
    let black = game.state_from_fen("rnbqkbnr/pppppppp/8/8/4P3/8/PPPP1PPP/RNBQKBNR b KQkq - 0 1").unwrap();
    assert_eq!(game.action_id(&black, uci("e7e5")), 12 * 64 + 28);
    // Underpromotion b7a8=N: 4096 + 0 * 24 + 1 * 3 + (0 - 1 + 1).
    let promo = game.state_from_fen("r3k3/1P6/8/8/8/8/8/4K3 w - - 0 1").unwrap();
    assert_eq!(game.action_id(&promo, uci("b7a8n")), 4096 + 3);
    assert_eq!(game.action_id(&promo, uci("b7b8r")), 4096 + 2 * 24 + 3 + 1);
    assert_eq!(game.action_id(&promo, uci("b7b8q")), 49 * 64 + 57);
    assert!(game.is_tactical(&promo, uci("b7b8q")));
    // En passant is a capture onto an empty square.
    let ep = game.state_from_fen("4k3/8/8/3pP3/8/8/8/4K3 w - d6 0 2").unwrap();
    assert!(game.is_tactical(&ep, uci("e5d6")));
    assert!(!game.is_tactical(&ep, uci("e5e6")));
}

#[test]
fn castling_notation_is_translated() {
    let game = Chess::new();
    let state = game.state_from_fen("r3k2r/8/8/8/8/8/8/R3K2R w KQkq - 0 1").unwrap();
    assert_eq!(parse_move_text(&game, &state, "e1g1"), Some(uci("e1h1")));
    assert_eq!(parse_move_text(&game, &state, "e1c1"), Some(uci("e1a1")));
    assert_eq!(parse_move_text(&game, &state, "e1h1"), Some(uci("e1h1")));
    assert_eq!(parse_move_text(&game, &state, "a1a8"), Some(uci("a1a8")));
    assert_eq!(parse_move_text(&game, &state, "e8g8"), None);
    assert_eq!(parse_move_text(&game, &state, "zz"), None);
    assert!(game.is_own_rook_target(&state, uci("e1h1")));
    assert!(!game.is_own_rook_target(&state, uci("e1f1")));
}

#[test]
fn chess_make_unmake_restores_history_across_irreversible_moves() {
    let game = Chess::new();
    let mut state = game.state_from_fen("4k3/8/8/8/8/8/P7/R3K3 w - - 5 10").unwrap();
    game.make_move(&mut state, uci("a1b1"));
    let before = state.clone();
    // A pawn move clears the history; unmaking restores it.
    let undo = game.make_move(&mut state, uci("e8d8"));
    let undo2 = game.make_move(&mut state, uci("a2a4"));
    game.unmake_move(&mut state, uci("a2a4"), undo2);
    game.unmake_move(&mut state, uci("e8d8"), undo);
    assert_eq!(state, before);
}

/// The value of feature `i` in `x`, zero when absent.
fn get(x: &[FeatureEntry], i: u32) -> f32 {
    x.iter().find(|&&(f, _)| f == i).map(|&(_, v)| v as f32).unwrap_or(0.0)
}

/// The legal move from `from` to `to` (square names).
fn find(from: &str, to: &str, moves: &[ChessMove]) -> ChessMove {
    let from: Square = from.parse().unwrap();
    let to: Square = to.parse().unwrap();
    moves
        .iter()
        .copied()
        .find(|m| m.from == from as u8 && m.to == to as u8)
        .expect("move exists")
}

#[test]
fn hand_computed_chess_move_features() {
    let game = Chess::new();
    // Italian: 1.e4 e5 2.Nf3 Nc6 3.Bc4 Nf6, White to move.
    let state = game
        .state_from_fen("r1bqkb1r/pppp1ppp/2n2n2/4p3/2B1P3/5N2/PPPP1PPP/RNBQK2R w KQkq - 4 4")
        .unwrap();
    let mut moves = Vec::new();
    game.legal_moves(&state, &mut moves);
    let mut extractor = ChessMoveFeatures::new(&game);
    let mut x = Vec::new();
    // Nxe5: knight takes the defended e5 pawn.
    let nxe5 = find("f3", "e5", &moves);
    extractor.extract(&game, &state, nxe5, &mut x);
    assert_eq!(get(&x, MF_MOVING + Piece::Knight as u32), 1.0);
    assert_eq!(get(&x, MF_CAPTURED + Piece::Pawn as u32), 1.0);
    assert_eq!(get(&x, MF_IS_CAPTURE), 1.0);
    assert_eq!(get(&x, MF_DEST_ATTACKED), 1.0, "e5 is defended by Nc6");
    assert_eq!(get(&x, MF_GIVES_CHECK), 0.0);
    assert_eq!(get(&x, MF_SOURCE_ATTACKED), 0.0);
    // Bxf7+: bishop takes f7 with check.
    let bxf7 = find("c4", "f7", &moves);
    extractor.extract(&game, &state, bxf7, &mut x);
    assert_eq!(get(&x, MF_GIVES_CHECK), 1.0, "Bxf7 is check");
    assert_eq!(get(&x, MF_CAPTURED + Piece::Pawn as u32), 1.0);
    assert_eq!(get(&x, MF_DEST_ATTACKED), 1.0, "f7 defended by the king");
    // Castling: e1h1 in cozy encoding (king takes own rook).
    let castle = find("e1", "h1", &moves);
    extractor.extract(&game, &state, castle, &mut x);
    assert_eq!(get(&x, MF_IS_CASTLE), 1.0);
    assert_eq!(get(&x, MF_IS_CAPTURE), 0.0, "castling is not a capture");
    // Names resolve.
    for i in 0..CHESS_MOVE_FEATURE_DIMENSION {
        assert!(!extractor.feature_name(i as u32).is_empty());
    }
}

#[test]
fn chess_move_features_exact_lists() {
    let game = Chess::new();
    let mut extractor = ChessMoveFeatures::new(&game);
    assert_eq!(extractor.dimension(), 25);
    let mut x = Vec::new();
    // e2e4 from the start: pawn, relative rank 3, e4 attacked by nobody,
    // defended by nobody.
    let state = game.initial_state();
    let mut moves = Vec::new();
    game.legal_moves(&state, &mut moves);
    extractor.extract(&game, &state, find("e2", "e4", &moves), &mut x);
    assert_eq!(x, vec![(MF_MOVING, 1), (MF_DEST_REL_RANK, 3)]);
    // En passant from Black's side: e4xd3 e.p.; d3 is covered by the
    // capturing pawn's own side; relative rank 5 for Black.
    let state = game.state_from_fen("4k3/8/8/8/3Pp3/8/8/4K3 b - d3 0 1").unwrap();
    game.legal_moves(&state, &mut moves);
    extractor.extract(&game, &state, find("e4", "d3", &moves), &mut x);
    assert_eq!(
        x,
        vec![
            (MF_MOVING, 1),
            (MF_CAPTURED, 1),
            (MF_IS_CAPTURE, 1),
            (MF_IS_EP, 1),
            (MF_DEST_DEFENDED, 1),
            (MF_DEST_REL_RANK, 5)
        ]
    );
    // Underpromotion with capture: b7xa8=N. The pawn itself covers a8.
    let state = game.state_from_fen("r3k3/1P6/8/8/8/8/8/4K3 w - - 0 1").unwrap();
    game.legal_moves(&state, &mut moves);
    let promo = *moves.iter().find(|m| m.promotion == Some(1) && m.to == 56).unwrap();
    extractor.extract(&game, &state, promo, &mut x);
    assert_eq!(
        x,
        vec![
            (MF_MOVING, 1),
            (MF_CAPTURED + 3, 1),
            (MF_IS_CAPTURE, 1),
            (MF_PROMO_CHOICE, 1),
            (MF_IS_PROMO, 1),
            (MF_DEST_DEFENDED, 1),
            (MF_DEST_REL_RANK, 7)
        ]
    );
    let mut y = Vec::new();
    assert!(extractor.extract_if_occupied(&game, &state, promo, &mut y));
    assert_eq!(y, x);
    assert_eq!(extractor.feature_name(MF_DEST_DEFENDED), "dest_defended");
    assert_eq!(extractor.feature_name(3), "moving/Rook");
    assert_eq!(extractor.feature_name(15), "promo_choice/R");
    assert_eq!(extractor.feature_name(99), "unknown/99");
}

#[test]
fn uci_rendering_translates_castling_back() {
    let game = Chess::new();
    let state = game.state_from_fen("r3k2r/8/8/8/8/8/8/R3K2R w KQkq - 0 1").unwrap();
    assert_eq!(format_uci_move(&state, uci("e1h1")), "e1g1");
    assert_eq!(format_uci_move(&state, uci("e1a1")), "e1c1");
    assert_eq!(format_uci_move(&state, uci("a1a8")), "a1a8");
    let black = game.state_from_fen("r3k2r/8/8/8/8/8/8/R3K2R b KQkq - 0 1").unwrap();
    assert_eq!(format_uci_move(&black, uci("e8h8")), "e8g8");
    assert_eq!(format_uci_move(&black, uci("h8h1")), "h8h1");
    let promo = game.state_from_fen("4k3/1P6/8/8/8/8/8/4K3 w - - 0 1").unwrap();
    assert_eq!(format_uci_move(&promo, uci("b7b8n")), "b7b8n");
    assert_eq!(format_uci_move(&promo, uci("b7b8q")), "b7b8q");
    // Rendering and parsing agree on every legal move.
    let mut moves = Vec::new();
    game.legal_moves(&state, &mut moves);
    for &mv in &moves {
        let text = format_uci_move(&state, mv);
        assert_eq!(parse_move_text(&game, &state, &text), Some(mv), "{text}");
    }
}

#[test]
fn chess_mates_in_n_with_deterministic_evaluator() {
    let game = Chess::new();
    // (FEN, mate distance in plies, forced best first move or None)
    let cases: [(&str, i32, Option<&str>); 3] = [
        // Back-rank mate in one.
        ("6k1/5ppp/8/8/8/8/5PPP/R5K1 w - - 0 1", 1, Some("a1a8")),
        // Ladder mate in two moves (three plies): Rb7 then Ra8#.
        ("6k1/8/8/8/8/8/1R6/R5K1 w - - 0 1", 3, None),
        // Black to move and already mated.
        ("R5k1/5ppp/8/8/8/8/5PPP/6K1 b - - 0 1", 0, None),
    ];
    for (fen, plies, best) in cases {
        let mut state = game.state_from_fen(fen).unwrap();
        for tt in [None, Some(16)] {
            let mut searcher: Searcher<Chess> = Searcher::new(tt, MoveOrdering::Natural);
            let result = searcher.search(&game, &mut state, 6, u64::MAX, &mut ZeroEvaluator);
            if plies > 0 {
                assert_eq!(
                    result.value,
                    SCORE_WIN - plies,
                    "{fen}: expected mate in {plies} plies (tt={tt:?})"
                );
                if let Some(best) = best {
                    let expected = uci(best);
                    assert_eq!(result.best_move, Some(expected), "{fen}");
                }
            } else {
                // Checkmated already: this row asserts the outcome directly.
                assert!(game.outcome(&state).is_some(), "{fen}");
            }
        }
    }
}

/// Scores rook possession through the raw feature encoding (piece index
/// 3 = rook, even relative index = own).
struct RookCounter;

impl Evaluator<Chess> for RookCounter {
    fn leaf_value(&mut self, game: &Chess, state: &ChessState) -> i32 {
        let mut features = Vec::new();
        game.encode_features(state, &mut features);
        let mut score = 0i32;
        for f in features {
            let piece = (f as usize % 12) / 2;
            let own = (f as usize) % 2 == 0;
            if piece == 3 {
                score += if own { 500 } else { -500 };
            }
        }
        score
    }
}

#[test]
fn chess_repetition_draw_is_seen_by_search() {
    let game = Chess::new();
    // White to move is winning, but once the position is one repetition
    // away from a threefold draw, the losing side must claim it.
    let mut state = game.state_from_fen("4k3/8/8/8/8/8/8/R3K3 w - - 0 1").unwrap();
    for text in ["a1b1", "e8d8", "b1a1", "d8e8", "a1b1", "e8d8", "b1a1"] {
        game.make_move(&mut state, uci(text));
    }
    // Black to move; d8e8 completes the third repetition.
    let mut searcher: Searcher<Chess> = Searcher::new(Some(16), MoveOrdering::Natural);
    let result = searcher.search(&game, &mut state, 4, 200_000, &mut RookCounter);
    let draw_move = uci("d8e8");
    assert_eq!(
        result.best_move,
        Some(draw_move),
        "the losing side must claim the repetition draw"
    );
    assert_eq!(result.value, 0, "repetition draw scores zero");
}
