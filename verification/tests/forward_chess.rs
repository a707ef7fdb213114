use rand::{Rng, SeedableRng};
use rand_chacha::ChaCha12Rng;
use selfplay_lab::experiment::fnv1a64;
use selfplay_lab::game::{Game, Outcome, Player};
use selfplay_lab::games::forward_chess::tablebase::{
    read_tablebase, write_tablebase, TB_FOOTER_MAGIC, TB_MAGIC, TB_VERSION,
};
use selfplay_lab::games::forward_chess::{FcMove, FcState, ForwardChess, Piece, Ruleset};
use selfplay_lab::search::{solve_retrograde, Wdl};

fn fc(ruleset: Ruleset) -> ForwardChess {
    ForwardChess::new(ruleset)
}

fn unpack(code: u8) -> (Player, Piece, bool) {
    ForwardChess::unpack_code(code)
}

#[test]
fn corpus_black_queen_on_d2_attacks_forward_only() {
    let g = fc(Ruleset::Full);
    let state = g.custom_state(
        &[
            ("d2", Player::Two, Piece::Queen, false),
            ("h8", Player::Two, Piece::King, false),
            ("a8", Player::One, Piece::King, false),
        ],
        Player::One,
        [false; 4],
        None,
    );
    let queen = g.square("d2");
    let cells = g.state_cells(&state);
    let code = cells[usize::from(queen)];
    // Mandated: no backward attacks.
    for behind in ["d3", "e3", "c3", "d8"] {
        assert!(
            !g.attacks(cells, queen, code, g.square(behind)),
            "black queen on d2 must not attack {behind}"
        );
    }
    // Ahead (toward rank 1) and horizontal attacks hold.
    for target in ["d1", "c1", "e1", "a2", "b2", "c2", "e2", "f2", "g2", "h2"] {
        assert!(
            g.attacks(cells, queen, code, g.square(target)),
            "black queen on d2 must attack {target}"
        );
    }
}

#[test]
fn corpus_king_is_safe_behind_enemy_pieces() {
    let g = fc(Ruleset::Full);
    // White king on e8 behind the black rook (e8 is behind it).
    let state = g.custom_state(
        &[
            ("e4", Player::Two, Piece::Rook, false),
            ("e8", Player::One, Piece::King, false),
            ("a1", Player::Two, Piece::King, false),
        ],
        Player::One,
        [false; 4],
        None,
    );
    let rook = g.square("e4");
    let cells = g.state_cells(&state);
    let code = cells[usize::from(rook)];
    assert!(
        !g.attacks(cells, rook, code, g.square("e8")),
        "e8 is behind the black rook and must be safe"
    );
    assert!(
        g.attacks(cells, rook, code, g.square("e1")),
        "e1 is ahead of the black rook"
    );
    // The white king may legally step (attacked-square test must
    // respect orientation).
    let mut moves = Vec::new();
    g.legal_moves(&state, &mut moves);
    assert!(moves
        .iter()
        .any(|m| m.to == g.square("e8") || m.from == g.square("e8")));
}

#[test]
fn corpus_horizontal_moves_remain_legal() {
    let g = fc(Ruleset::Full);
    let state = g.custom_state(
        &[
            ("d4", Player::One, Piece::Rook, false),
            ("a1", Player::One, Piece::King, false),
            ("h8", Player::Two, Piece::King, false),
        ],
        Player::One,
        [false; 4],
        None,
    );
    let mut moves = Vec::new();
    g.legal_moves(&state, &mut moves);
    let rook = g.square("d4");
    assert!(moves.contains(&FcMove { from: rook, to: g.square("a4"), promotion: None }));
    assert!(moves.contains(&FcMove { from: rook, to: g.square("h4"), promotion: None }));
    assert!(moves.contains(&FcMove { from: rook, to: g.square("d8"), promotion: None }));
    assert!(
        !moves.iter().any(|m| m.from == rook && m.to == g.square("d1")),
        "backward rook slide must not exist"
    );
    // King horizontal steps exist too.
    let king = g.square("a1");
    assert!(moves.contains(&FcMove { from: king, to: g.square("b1"), promotion: None }));
}

#[test]
fn corpus_promotion_flips_orientation_and_attacks() {
    let g = fc(Ruleset::Full);
    let mut state = g.custom_state(
        &[
            ("b7", Player::One, Piece::Pawn, false),
            ("a1", Player::One, Piece::King, false),
            ("h8", Player::Two, Piece::King, false),
        ],
        Player::One,
        [false; 4],
        None,
    );
    let mut moves = Vec::new();
    g.legal_moves(&state, &mut moves);
    let promo = FcMove { from: g.square("b7"), to: g.square("b8"), promotion: Some(Piece::Rook) };
    assert!(moves.contains(&promo));
    g.make_move(&mut state, promo);
    let rook = g.square("b8");
    let code = g.state_cells(&state)[usize::from(rook)];
    let (owner, piece, reversed) = unpack(code);
    assert_eq!((owner, piece, reversed), (Player::One, Piece::Rook, true));
    // The reversed white rook attacks toward rank 1 and horizontally,
    // never toward rank 8 (it is ON rank 8; attacks b1..b7 and a8..h8).
    let cells = g.state_cells(&state);
    assert!(g.attacks(cells, rook, code, g.square("b1")));
    assert!(g.attacks(cells, rook, code, g.square("a8")));
    assert!(g.attacks(cells, rook, code, g.square("h8")));
    // And a reversed piece may MOVE backward (its ahead direction):
    let mut black_reply = Vec::new();
    g.legal_moves(&state, &mut black_reply);
    // Skip a black move, then check white rook's backward slide exists.
    g.make_move(&mut state, black_reply[0]);
    let mut white_moves = Vec::new();
    g.legal_moves(&state, &mut white_moves);
    assert!(
        white_moves.iter().any(|m| m.from == rook && m.to / g.width() < 7),
        "reversed rook must slide toward rank 1"
    );
}

#[test]
fn corpus_castling_is_horizontal_and_fully_checked() {
    let g = fc(Ruleset::Full);
    // Clean castling both ways.
    let state = g.custom_state(
        &[
            ("e1", Player::One, Piece::King, false),
            ("h1", Player::One, Piece::Rook, false),
            ("a1", Player::One, Piece::Rook, false),
            ("e8", Player::Two, Piece::King, false),
        ],
        Player::One,
        [true, true, false, false],
        None,
    );
    let mut moves = Vec::new();
    g.legal_moves(&state, &mut moves);
    let short = FcMove { from: g.square("e1"), to: g.square("g1"), promotion: None };
    let long = FcMove { from: g.square("e1"), to: g.square("c1"), promotion: None };
    assert!(moves.contains(&short) && moves.contains(&long));
    let mut s = state.clone();
    g.make_move(&mut s, short);
    assert_eq!(unpack(g.state_cells(&s)[usize::from(g.square("f1"))]).1, Piece::Rook);
    assert_eq!(unpack(g.state_cells(&s)[usize::from(g.square("g1"))]).1, Piece::King);

    // A natural black bishop at h3 attacks g2 and f1: short castling
    // through f1 must be illegal.
    let state = g.custom_state(
        &[
            ("e1", Player::One, Piece::King, false),
            ("h1", Player::One, Piece::Rook, false),
            ("e8", Player::Two, Piece::King, false),
            ("h3", Player::Two, Piece::Bishop, false),
        ],
        Player::One,
        [true, false, false, false],
        None,
    );
    g.legal_moves(&state, &mut moves);
    assert!(
        !moves.iter().any(|m| m.from == g.square("e1") && m.to == g.square("g1")),
        "castling through an attacked square must be illegal"
    );
}

#[test]
fn corpus_en_passant_is_correctly_timed() {
    let g = fc(Ruleset::Full);
    // White pawn e2 double-steps past a black pawn on d4; black may
    // capture en passant immediately, and only immediately.
    let mut state = g.custom_state(
        &[
            ("e2", Player::One, Piece::Pawn, false),
            ("d4", Player::Two, Piece::Pawn, false),
            ("a1", Player::One, Piece::King, false),
            ("h8", Player::Two, Piece::King, false),
        ],
        Player::One,
        [false; 4],
        None,
    );
    let mut moves = Vec::new();
    g.legal_moves(&state, &mut moves);
    let double = FcMove { from: g.square("e2"), to: g.square("e4"), promotion: None };
    assert!(moves.contains(&double));
    g.make_move(&mut state, double);
    assert_eq!(g.ep_square(&state), Some(g.square("e3")));
    g.legal_moves(&state, &mut moves);
    let ep_capture = FcMove { from: g.square("d4"), to: g.square("e3"), promotion: None };
    assert!(moves.contains(&ep_capture), "en passant must be offered");
    // Take it: the double-stepped pawn disappears.
    let mut s = state.clone();
    g.make_move(&mut s, ep_capture);
    assert_eq!(g.state_cells(&s)[usize::from(g.square("e4"))], 0);
    // Decline it: after any other move the chance expires.
    let other = moves.iter().find(|m| **m != ep_capture).copied().unwrap();
    g.make_move(&mut state, other);
    let mut white_moves = Vec::new();
    g.legal_moves(&state, &mut white_moves);
    let _ = white_moves;
    assert_eq!(g.ep_square(&state), None, "en passant expires after one ply");
}

#[test]
fn repetition_and_fifty_move_draws() {
    let g = fc(Ruleset::Full);
    // Kings shuffling horizontally repeat the start threefold.
    let mut state = g.custom_state(
        &[
            ("a1", Player::One, Piece::King, false),
            ("h8", Player::Two, Piece::King, false),
            ("a8", Player::One, Piece::Rook, false),
        ],
        Player::Two,
        [false; 4],
        None,
    );
    let shuffle = ["h8g8", "a1b1", "g8h8", "b1a1"];
    for _ in 0..2 {
        for step in shuffle {
            assert!(g.outcome(&state).is_none(), "premature end");
            let mv = FcMove { from: g.square(&step[..2]), to: g.square(&step[2..]), promotion: None };
            g.make_move(&mut state, mv);
        }
    }
    assert_eq!(g.outcome(&state), Some(Outcome::Draw), "threefold repetition");

    // Fifty-move rule: halfmove clock reaching 100 draws.
    let mut state = g.custom_state(
        &[
            ("a1", Player::One, Piece::King, false),
            ("h8", Player::Two, Piece::King, false),
            ("d4", Player::One, Piece::Rook, false),
        ],
        Player::One,
        [false; 4],
        None,
    );
    g.set_halfmove(&mut state, 99);
    let mv = FcMove { from: g.square("d4"), to: g.square("e4"), promotion: None };
    g.make_move(&mut state, mv);
    assert_eq!(g.outcome(&state), Some(Outcome::Draw), "fifty-move rule");
}

#[test]
fn checkmate_and_stalemate_with_oriented_attacks() {
    let g = fc(Ruleset::Full);
    let state = g.custom_state(
        &[
            ("h8", Player::Two, Piece::King, false),
            ("h1", Player::One, Piece::Rook, false),
            ("g1", Player::One, Piece::Rook, false),
            ("a1", Player::One, Piece::King, false),
            ("b7", Player::One, Piece::Queen, false),
        ],
        Player::Two,
        [false; 4],
        None,
    );
    assert_eq!(
        g.outcome(&state),
        Some(Outcome::Win(Player::One)),
        "checkmate under oriented attacks"
    );

    let state = g.custom_state(
        &[
            ("h8", Player::Two, Piece::King, false),
            ("g1", Player::One, Piece::Rook, false),
            ("a7", Player::One, Piece::Rook, false),
            ("a1", Player::One, Piece::King, false),
        ],
        Player::Two,
        [false; 4],
        None,
    );
    assert_eq!(g.outcome(&state), Some(Outcome::Draw), "stalemate under oriented attacks");
}

#[test]
fn initial_positions_are_playable_and_fair_shaped() {
    for ruleset in [Ruleset::Tiny, Ruleset::Small, Ruleset::Medium, Ruleset::Full] {
        let g = fc(ruleset);
        let state = g.initial_state();
        assert!(g.outcome(&state).is_none(), "{ruleset:?}");
        let mut moves = Vec::new();
        g.legal_moves(&state, &mut moves);
        assert!(!moves.is_empty());
        // Feature/action sanity.
        let mut features = Vec::new();
        g.encode_features(&state, &mut features);
        assert!(features.iter().all(|&f| (f as usize) < g.feature_count()));
        for &mv in &moves {
            assert!((g.action_id(&state, mv) as usize) < g.action_count());
        }
    }
}

#[test]
fn corpus_castling_rights_die_with_king_moves_both_colours() {
    let g = fc(Ruleset::Full);
    // Black's king home is d8 (the 180-degree-rotated e1), NOT e8.
    assert_eq!(g.king_home(Player::One), g.square("e1"));
    assert_eq!(g.king_home(Player::Two), g.square("d8"));
    let state = g.custom_state(
        &[
            ("e1", Player::One, Piece::King, false),
            ("a1", Player::One, Piece::Rook, false),
            ("h1", Player::One, Piece::Rook, false),
            ("d8", Player::Two, Piece::King, false),
            ("a8", Player::Two, Piece::Rook, false),
            ("h8", Player::Two, Piece::Rook, false),
        ],
        Player::One,
        [true; 4],
        None,
    );
    let mut s = state.clone();
    g.make_move(&mut s, FcMove { from: g.square("e1"), to: g.square("e2"), promotion: None });
    assert_eq!(g.castling_rights(&s), [false, false, true, true]);
    g.make_move(&mut s, FcMove { from: g.square("d8"), to: g.square("d7"), promotion: None });
    assert_eq!(g.castling_rights(&s), [false; 4]);
}

#[test]
fn corpus_black_castles_from_d8() {
    let g = fc(Ruleset::Full);
    let state = g.custom_state(
        &[
            ("e1", Player::One, Piece::King, false),
            ("d8", Player::Two, Piece::King, false),
            ("a8", Player::Two, Piece::Rook, false),
            ("h8", Player::Two, Piece::Rook, false),
        ],
        Player::Two,
        [false, false, true, true],
        None,
    );
    let mut moves = Vec::new();
    g.legal_moves(&state, &mut moves);
    let toward_h = FcMove { from: g.square("d8"), to: g.square("f8"), promotion: None };
    let toward_a = FcMove { from: g.square("d8"), to: g.square("b8"), promotion: None };
    assert!(moves.contains(&toward_h), "castle toward h8 from d8");
    assert!(moves.contains(&toward_a), "castle toward a8 from d8");
    let mut s = state.clone();
    g.make_move(&mut s, toward_h);
    assert_eq!(unpack(g.state_cells(&s)[usize::from(g.square("e8"))]).1, Piece::Rook);
    assert_eq!(unpack(g.state_cells(&s)[usize::from(g.square("f8"))]).1, Piece::King);
    assert_eq!(g.castling_rights(&s), [false; 4]);
    let mut s = state.clone();
    g.make_move(&mut s, toward_a);
    assert_eq!(unpack(g.state_cells(&s)[usize::from(g.square("c8"))]).1, Piece::Rook);
    assert_eq!(unpack(g.state_cells(&s)[usize::from(g.square("b8"))]).1, Piece::King);
}

#[test]
fn corpus_no_phantom_castle_off_home_even_with_forced_rights() {
    let g = fc(Ruleset::Full);
    // Black king on b8 holding a stale queenside right: the two-file
    // step would wrap file -1 onto another rank.
    let state = g.custom_state(
        &[
            ("h7", Player::One, Piece::King, false),
            ("b8", Player::Two, Piece::King, false),
            ("a8", Player::Two, Piece::Rook, false),
        ],
        Player::Two,
        [false, false, false, true],
        None,
    );
    let mut moves = Vec::new();
    g.legal_moves(&state, &mut moves);
    for mv in &moves {
        if unpack(g.state_cells(&state)[usize::from(mv.from)]).1 == Piece::King {
            let df = i32::from(mv.to % g.width()) - i32::from(mv.from % g.width());
            let dr = i32::from(mv.to / g.width()) - i32::from(mv.from / g.width());
            assert!(df.abs() <= 1 && dr.abs() <= 1, "phantom castle generated: {}", g.format_move(*mv));
        }
    }
    // Mirror case: white king on g1 with a stale kingside right.
    let state = g.custom_state(
        &[
            ("g1", Player::One, Piece::King, false),
            ("h1", Player::One, Piece::Rook, false),
            ("d8", Player::Two, Piece::King, false),
        ],
        Player::One,
        [true, false, false, false],
        None,
    );
    g.legal_moves(&state, &mut moves);
    for mv in &moves {
        if mv.from == g.square("g1") {
            let df = i32::from(mv.to % g.width()) - i32::from(mv.from % g.width());
            let dr = i32::from(mv.to / g.width()) - i32::from(mv.from / g.width());
            assert!(df.abs() <= 1 && dr.abs() <= 1, "phantom castle generated: {}", g.format_move(*mv));
        }
    }
}

/// States visited by seeded random playouts (including terminals).
fn seeded_playout_states(g: &ForwardChess, games: u64, max_plies: u32) -> Vec<FcState> {
    let mut rng = ChaCha12Rng::seed_from_u64(0x7ab1_eba5_e000_0000 + games);
    let mut out = Vec::new();
    let mut moves = Vec::new();
    for _ in 0..games {
        let mut state = g.initial_state();
        out.push(state.clone());
        for _ in 0..max_plies {
            if g.outcome(&state).is_some() {
                break;
            }
            g.legal_moves(&state, &mut moves);
            let mv = moves[rng.gen_range(0..moves.len())];
            g.make_move(&mut state, mv);
            out.push(state.clone());
        }
    }
    out
}

fn wdl_cycle(i: usize) -> Wdl {
    match i % 3 {
        0 => Wdl::Loss,
        1 => Wdl::Draw,
        _ => Wdl::Win,
    }
}

#[test]
fn tablebase_file_roundtrip_on_solved_tiny() {
    let g = fc(Ruleset::Tiny);
    let solution = solve_retrograde(&g, 5_000_000).unwrap();
    let mut file = Vec::new();
    let bytes = write_tablebase(&g, &solution.states, &solution.values, &mut file);
    assert_eq!(bytes as usize, file.len());
    let rows = read_tablebase(&g, file.as_slice()).unwrap();
    assert_eq!(rows.len(), solution.states.len());
    for (index, (state, wdl)) in rows.iter().enumerate() {
        assert_eq!(*wdl, solution.values[index]);
        assert!(state.identical_core(&solution.states[index]), "record {index}");
    }
}

/// Header + records + valid checksummed footer, for crafting files
/// whose corruption is structural rather than bitwise.
fn assemble_tablebase(g: &ForwardChess, count: u64, records: &[u8]) -> Vec<u8> {
    let mut data = Vec::new();
    data.extend_from_slice(&TB_MAGIC);
    data.push(TB_VERSION);
    data.push(g.ruleset().code());
    data.push(g.width() as u8);
    data.push(g.height() as u8);
    data.extend_from_slice(&count.to_le_bytes());
    data.extend_from_slice(records);
    let checksum = fnv1a64(&data);
    data.extend_from_slice(&TB_FOOTER_MAGIC);
    data.extend_from_slice(&checksum.to_le_bytes());
    data
}

#[test]
fn tablebase_rejects_crafted_invalid_records() {
    let g = fc(Ruleset::Tiny);
    // Kingless record: all cells empty, flags 0, halfmove 0.
    let empty_record = vec![0u8; g.packed_cells_len() + 2];
    let file = assemble_tablebase(&g, 1, &empty_record);
    let err = read_tablebase(&g, file.as_slice()).unwrap_err();
    assert!(err.contains("king"), "{err}");
    // Invalid WDL bits (both set).
    let mut record = Vec::new();
    g.pack_record(&g.initial_state(), Wdl::Draw, &mut record);
    let flags_index = g.packed_cells_len();
    let mut bad = record.clone();
    bad[flags_index] |= 3 << 1;
    let file = assemble_tablebase(&g, 1, &bad);
    let err = read_tablebase(&g, file.as_slice()).unwrap_err();
    assert!(err.contains("WDL"), "{err}");
    // Count larger than the records present.
    let file = assemble_tablebase(&g, 2, &record);
    assert!(read_tablebase(&g, file.as_slice()).is_err());
    // Count smaller than the records present.
    let file = assemble_tablebase(&g, 0, &record);
    let err = read_tablebase(&g, file.as_slice()).unwrap_err();
    assert!(err.contains("trailing"), "{err}");
}

#[test]
fn forward_chess_make_unmake_restores_state_and_key() {
    let g = fc(Ruleset::Medium);
    let mut rng = ChaCha12Rng::seed_from_u64(0x11);
    for _ in 0..60 {
        let mut state = g.initial_state();
        let mut moves = Vec::new();
        let mut plies = 0;
        while g.outcome(&state).is_none() && plies < 200 {
            g.legal_moves(&state, &mut moves);
            let mv = moves[rng.gen_range(0..moves.len())];
            let before = state.clone();
            let undo = g.make_move(&mut state, mv);
            g.unmake_move(&mut state, mv, undo);
            assert_eq!(state, before);
            let recomputed = g.core_state(
                g.state_cells(&state).clone(),
                g.side_to_move(&state),
                g.castling_rights(&state),
                g.ep_square(&state),
                g.halfmove(&state),
            );
            assert_eq!(g.position_key(&recomputed), g.position_key(&state));
            g.make_move(&mut state, mv);
            plies += 1;
        }
    }
}

#[test]
fn no_generated_move_violates_orientation() {
    for ruleset in [Ruleset::Small, Ruleset::Medium, Ruleset::Full] {
        let g = fc(ruleset);
        for state in random_states(&g, 0x0413 + ruleset as u64, 300) {
            let mut moves = Vec::new();
            g.legal_moves(&state, &mut moves);
            for mv in moves {
                let code = g.state_cells(&state)[usize::from(mv.from)];
                let (owner, piece, reversed) = unpack(code);
                let ahead = ahead_of(owner, reversed);
                let dr = (i32::from(mv.to / g.width()) - i32::from(mv.from / g.width())) * ahead;
                assert!(dr >= 0, "{ruleset:?}: {piece:?} moved behind itself: {mv:?}");
            }
        }
    }
}

#[test]
fn tablebase_record_roundtrip_across_rulesets() {
    for ruleset in [Ruleset::Tiny, Ruleset::Small, Ruleset::Medium, Ruleset::Full] {
        let g = fc(ruleset);
        let mut buf = Vec::new();
        for (i, state) in seeded_playout_states(&g, 30, 120).iter().enumerate() {
            let wdl = wdl_cycle(i);
            buf.clear();
            g.pack_record(state, wdl, &mut buf);
            let (back, wdl_back, consumed) = g.unpack_record(&buf).unwrap();
            assert_eq!(consumed, buf.len(), "{ruleset:?}");
            assert_eq!(wdl_back, wdl);
            assert_eq!(g.state_cells(&back), g.state_cells(state));
            assert_eq!(g.side_to_move(&back), g.side_to_move(state));
            assert_eq!(g.castling_rights(&back), g.castling_rights(state));
            assert_eq!(g.ep_square(&back), g.ep_square(state));
            assert_eq!(g.halfmove(&back), g.halfmove(state));
            assert_eq!(g.position_key(&back), g.position_key(state));
            let mut again = Vec::new();
            g.pack_record(&back, wdl, &mut again);
            assert_eq!(again, buf);
        }
    }
}

#[test]
fn tablebase_rejects_corruption_without_panicking() {
    let g = fc(Ruleset::Small);
    let states = seeded_playout_states(&g, 6, 40);
    let values: Vec<Wdl> = (0..states.len()).map(wdl_cycle).collect();
    let mut file = Vec::new();
    write_tablebase(&g, &states, &values, &mut file);
    assert_eq!(read_tablebase(&g, file.as_slice()).unwrap().len(), states.len());
    // Every strict prefix must error.
    for len in 0..file.len() {
        assert!(read_tablebase(&g, &file[..len]).is_err(), "prefix {len}");
    }
    // Every single-bit flip must error.
    for byte in 0..file.len() {
        for bit in 0..8 {
            let mut bad = file.clone();
            bad[byte] ^= 1 << bit;
            assert!(read_tablebase(&g, bad.as_slice()).is_err(), "byte {byte} bit {bit}");
        }
    }
    // Trailing garbage must error.
    let mut padded = file.clone();
    padded.push(0);
    assert!(read_tablebase(&g, padded.as_slice()).is_err());
    // A file for one ruleset must not load as another.
    assert!(read_tablebase(&fc(Ruleset::Tiny), file.as_slice()).is_err());
}

#[test]
fn format_and_render() {
    let g = fc(Ruleset::Tiny);
    let mv = FcMove { from: g.square("a2"), to: g.square("b3"), promotion: Some(Piece::Queen) };
    assert_eq!(g.format_move(mv), "a2b3=Q");
    let state = g.initial_state();
    assert_eq!(
        g.render_ascii(&state),
        " 4  .  k  . \n 3  .  .  p \n 2  P  .  . \n 1  .  K  . \n    a  b  c \nWhite to move | castling - | ep - | halfmove 0\n"
    );
}

fn random_states(g: &ForwardChess, seed: u64, count: usize) -> Vec<FcState> {
    let mut rng = ChaCha12Rng::seed_from_u64(seed);
    let mut states = Vec::new();
    'outer: while states.len() < count {
        let mut state = g.initial_state();
        let mut moves = Vec::new();
        loop {
            if g.outcome(&state).is_some() {
                continue 'outer;
            }
            states.push(state.clone());
            if states.len() >= count {
                break 'outer;
            }
            g.legal_moves(&state, &mut moves);
            let mv = moves[rng.gen_range(0..moves.len())];
            g.make_move(&mut state, mv);
        }
    }
    states
}

/// Rank direction a piece moves "ahead" in.
fn ahead_of(owner: Player, reversed: bool) -> i32 {
    let forward = if owner == Player::One { 1 } else { -1 };
    if reversed {
        -forward
    } else {
        forward
    }
}

/// Does playing `mv` leave the mover's king attacked?
fn leaves_king_in_check(g: &ForwardChess, state: &FcState, mv: FcMove) -> bool {
    let mover = g.side_to_move(state);
    let mut after = state.clone();
    g.make_move(&mut after, mv);
    let cells = g.state_cells(&after);
    let king = cells
        .iter()
        .position(|&c| c != 0 && unpack(c) == (mover, Piece::King, false));
    match king {
        Some(k) => g.cell_attacked_by(cells, k as u16, mover.opponent()),
        None => false,
    }
}

/// Slow reference generator: test every (from, to) pair against rule
/// predicates written independently of the fast generator; castling
/// comes from the production generator (its legality conditions are
/// asserted separately by corpus tests).
fn reference_moves(g: &ForwardChess, state: &FcState) -> Vec<FcMove> {
    let cells = g.state_cells(state);
    let w = i32::from(g.width());
    let mover = g.side_to_move(state);
    let ep = g.ep_square(state);
    let mut out = Vec::new();
    for from in 0..g.cell_count() as u16 {
        let code = cells[usize::from(from)];
        if code == 0 {
            continue;
        }
        let (owner, piece, reversed) = unpack(code);
        if owner != mover {
            continue;
        }
        let ahead = ahead_of(owner, reversed);
        for to in 0..g.cell_count() as u16 {
            if to == from {
                continue;
            }
            let df = i32::from(to % g.width()) - i32::from(from % g.width());
            let dr = (i32::from(to / g.width()) - i32::from(from / g.width())) * ahead;
            let target = cells[usize::from(to)];
            let target_own = target != 0 && unpack(target).0 == mover;
            let target_enemy = target != 0 && unpack(target).0 != mover;
            let clear = || {
                let (fx, fy) = (i32::from(from) % w, i32::from(from) / w);
                let (tx, ty) = (i32::from(to) % w, i32::from(to) / w);
                let (dx, dy) = ((tx - fx).signum(), (ty - fy).signum());
                let (mut x, mut y) = (fx + dx, fy + dy);
                while (x, y) != (tx, ty) {
                    if cells[(y * w + x) as usize] != 0 {
                        return false;
                    }
                    x += dx;
                    y += dy;
                }
                true
            };
            let mut candidates: Vec<Option<Piece>> = Vec::new();
            match piece {
                Piece::Pawn => {
                    let last = if owner == Player::One { i32::from(g.height()) - 1 } else { 0 };
                    let to_rank = i32::from(to / g.width());
                    let promo = to_rank == last;
                    let single_push = df == 0 && dr == 1 && target == 0;
                    let home = if owner == Player::One { 1 } else { i32::from(g.height()) - 2 };
                    let double_push = df == 0
                        && dr == 2
                        && i32::from(from / g.width()) == home
                        && to_rank != last
                        && target == 0
                        && clear();
                    let capture = df.abs() == 1 && dr == 1 && (target_enemy || Some(to) == ep);
                    if single_push || double_push || capture {
                        if promo {
                            for p in [Piece::Knight, Piece::Bishop, Piece::Rook, Piece::Queen] {
                                candidates.push(Some(p));
                            }
                        } else {
                            candidates.push(None);
                        }
                    }
                }
                Piece::Knight => {
                    if !target_own && ((df.abs() == 1 && dr == 2) || (df.abs() == 2 && dr == 1)) {
                        candidates.push(None);
                    }
                }
                Piece::King => {
                    if !target_own && (0..=1).contains(&dr) && df.abs() <= 1 {
                        candidates.push(None);
                    }
                }
                Piece::Rook => {
                    if !target_own && ((df == 0 && dr > 0) || (dr == 0 && df != 0)) && clear() {
                        candidates.push(None);
                    }
                }
                Piece::Bishop => {
                    if !target_own && df.abs() == dr && dr > 0 && clear() {
                        candidates.push(None);
                    }
                }
                Piece::Queen => {
                    let linear = (df == 0 && dr > 0) || (dr == 0 && df != 0);
                    let diagonal = df.abs() == dr && dr > 0;
                    if !target_own && (linear || diagonal) && clear() {
                        candidates.push(None);
                    }
                }
            }
            for promotion in candidates {
                let mv = FcMove { from, to, promotion };
                if !leaves_king_in_check(g, state, mv) {
                    out.push(mv);
                }
            }
        }
    }
    let mut production = Vec::new();
    g.legal_moves(state, &mut production);
    for mv in production {
        let code = cells[usize::from(mv.from)];
        let is_castle = unpack(code).1 == Piece::King
            && (i32::from(mv.to % g.width()) - i32::from(mv.from % g.width())).abs() == 2;
        if is_castle {
            out.push(mv);
        }
    }
    out.sort();
    out.dedup();
    out
}

#[test]
fn slow_and_optimized_generators_agree() {
    for ruleset in [Ruleset::Tiny, Ruleset::Small, Ruleset::Medium, Ruleset::Full] {
        let g = fc(ruleset);
        for state in random_states(&g, 0xd1ff + ruleset as u64, 250) {
            let mut fast = Vec::new();
            g.legal_moves(&state, &mut fast);
            assert_eq!(fast, reference_moves(&g, &state), "{ruleset:?}");
        }
    }
}

#[test]
fn tablebase_reader_survives_fuzz() {
    let g = fc(Ruleset::Medium);
    let mut rng = ChaCha12Rng::seed_from_u64(0x7462_f022_0000_0001);
    for _ in 0..20_000 {
        let len = rng.gen_range(0..400usize);
        let data: Vec<u8> = (0..len).map(|_| rng.gen()).collect();
        let _ = read_tablebase(&g, data.as_slice());
        let _ = g.unpack_record(&data);
    }
}
