use rand::{Rng, SeedableRng};
use rand_chacha::ChaCha12Rng;
use selfplay_lab::features::forward_chess::{
    FcExtractor, FcMoveFeatures, FcRecipe, MF_CAPTURED, MF_DEST_ATTACKED, MF_DEST_REL_RANK, MF_FORWARD_DISP,
    MF_GIVES_CHECK, MF_IS_CAPTURE, MF_MOVING, MF_SOURCE_ATTACKED, MOVE_FEATURE_DIMENSION,
};
use selfplay_lab::features::FeatureEntry;
use selfplay_lab::game::{Game, Player};
use selfplay_lab::games::forward_chess::{FcMove, FcState, ForwardChess, Piece, Ruleset};

/// 180°-rotation colour swap of a state, built through the public
/// custom-state constructor (the exact symmetry of every ruleset's
/// initial layout).
fn rotate_swap(game: &ForwardChess, state: &FcState) -> FcState {
    let cells = game.state_cells(state);
    let total = game.cell_count() as u16;
    let name = |cell: u16| {
        format!(
            "{}{}",
            (b'a' + (cell % game.width()) as u8) as char,
            cell / game.width() + 1
        )
    };
    let mut pieces: Vec<(String, Player, Piece, bool)> = Vec::new();
    for (cell, &code) in cells.iter().enumerate() {
        if code == 0 {
            continue;
        }
        let (owner, piece, reversed) = ForwardChess::unpack_code(code);
        pieces.push((name(total - 1 - cell as u16), owner.opponent(), piece, reversed));
    }
    let refs: Vec<(&str, Player, Piece, bool)> =
        pieces.iter().map(|(n, o, p, r)| (n.as_str(), *o, *p, *r)).collect();
    game.custom_state(&refs, game.side_to_move(state).opponent(), [false, false, false, false], None)
}

fn value_at(entries: &[FeatureEntry], index: u32) -> f32 {
    entries
        .iter()
        .find(|&&(f, _)| f == index)
        .map(|&(_, v)| v as f32)
        .unwrap_or(0.0)
}

#[test]
fn move_features_are_rotation_swap_invariant() {
    // A move and its rotated-colour-swapped counterpart must have
    // identical features (mover perspective).
    let game = ForwardChess::new(Ruleset::Small);
    let mut rng = ChaCha12Rng::seed_from_u64(43);
    let mut extractor = FcMoveFeatures::new(&game);
    let mut moves = Vec::new();
    let mut a = Vec::new();
    let mut b = Vec::new();
    let total = game.cell_count() as u16;
    let mut tested = 0;
    for _ in 0..25 {
        let mut state = game.initial_state();
        loop {
            if game.outcome(&state).is_some() {
                break;
            }
            let rotated = rotate_swap(&game, &state);
            game.legal_moves(&state, &mut moves);
            let move_list = moves.clone();
            for &mv in &move_list {
                let rotated_mv = FcMove {
                    from: total - 1 - mv.from,
                    to: total - 1 - mv.to,
                    promotion: mv.promotion,
                };
                extractor.extract(&game, &state, mv, &mut a);
                extractor.extract(&game, &rotated, rotated_mv, &mut b);
                assert_eq!(a, b, "move features must be rotation-swap invariant");
                tested += 1;
            }
            let mv = move_list[rng.gen_range(0..move_list.len())];
            game.make_move(&mut state, mv);
        }
    }
    assert!(tested > 300);
}

#[test]
fn hand_computed_move_features() {
    // Small board: White Kb1, Rc1, Pa2; Black Kd4, reversed rook b3.
    // White to move.
    let game = ForwardChess::new(Ruleset::Small);
    let state = game.custom_state(
        &[
            ("b1", Player::One, Piece::King, false),
            ("c1", Player::One, Piece::Rook, false),
            ("a2", Player::One, Piece::Pawn, false),
            ("d4", Player::Two, Piece::King, false),
            ("b3", Player::Two, Piece::Rook, true),
        ],
        Player::One,
        [false; 4],
        None,
    );
    let mut extractor = FcMoveFeatures::new(&game);
    let mut moves = Vec::new();
    game.legal_moves(&state, &mut moves);
    let axb3 = moves
        .iter()
        .copied()
        .find(|m| m.from == game.square("a2") && m.to == game.square("b3"))
        .expect("axb3 is legal");
    let mut x = Vec::new();
    extractor.extract(&game, &state, axb3, &mut x);
    let get = |i: u32| value_at(&x, i);
    assert_eq!(get(MF_MOVING), 1.0, "moving pawn-nat");
    assert_eq!(get(MF_CAPTURED + 8), 1.0, "captures rook-rev (combo 8)");
    assert_eq!(get(MF_IS_CAPTURE), 1.0);
    assert_eq!(get(MF_FORWARD_DISP), 1.0, "one rank forward");
    assert_eq!(get(MF_DEST_REL_RANK), 2.0, "b3 is rank 3 = rel rank 2");
    assert_eq!(get(MF_DEST_ATTACKED), 0.0, "b3 undefended by black");
    assert_eq!(get(MF_SOURCE_ATTACKED), 0.0);
    // After axb3 the pawn on b3 attacks a4 and c4 - not the king on d4;
    // no check.
    assert_eq!(get(MF_GIVES_CHECK), 0.0);
    // Rook lift c1-c4 gives check: the rook on c4 attacks d4.
    let rook_c4 = moves
        .iter()
        .copied()
        .find(|m| m.from == game.square("c1") && m.to == game.square("c4"))
        .expect("Rc4 is legal");
    extractor.extract(&game, &state, rook_c4, &mut x);
    let get = |i: u32| value_at(&x, i);
    assert_eq!(get(MF_GIVES_CHECK), 1.0, "Rc4+ through the empty file");
    assert_eq!(get(MF_MOVING + 3), 1.0, "moving rook-nat");
    assert_eq!(get(MF_IS_CAPTURE), 0.0);
    // Every emitted index has a name.
    for &(index, _) in &x {
        assert!(!FcMoveFeatures::feature_name(index).is_empty());
    }
}

#[test]
fn move_feature_names_and_layout() {
    let game = ForwardChess::new(Ruleset::Tiny);
    let extractor = FcMoveFeatures::new(&game);
    assert_eq!(extractor.dimension(), MOVE_FEATURE_DIMENSION);
    assert_eq!(MOVE_FEATURE_DIMENSION, 35);
    assert_eq!(FcMoveFeatures::feature_name(0), "moving/Pawn-nat");
    assert_eq!(FcMoveFeatures::feature_name(8), "moving/Rook-rev");
    assert_eq!(FcMoveFeatures::feature_name(15), "captured/King-nat");
    assert_eq!(FcMoveFeatures::feature_name(20), "is_capture");
    assert_eq!(FcMoveFeatures::feature_name(23), "promo_choice/R");
    assert_eq!(FcMoveFeatures::feature_name(26), "gives_check");
    assert_eq!(FcMoveFeatures::feature_name(34), "is_en_passant");
    assert_eq!(FcMoveFeatures::feature_name(35), "unknown/35");
    assert_eq!(FcRecipe::FcCountsV0.label(), "fc_counts_v0");
    assert_eq!(FcRecipe::FcStructuredLinearV1.label(), "fc_structured_linear_v1");
}

#[test]
fn quiet_horizontal_and_promotion_moves() {
    // Tiny board: a white pawn one step from promotion captures into the
    // last rank with a queen; a king step sideways is horizontal.
    let game = ForwardChess::new(Ruleset::Tiny);
    let state = game.custom_state(
        &[
            ("a1", Player::One, Piece::King, false),
            ("a3", Player::One, Piece::Pawn, false),
            ("c4", Player::Two, Piece::King, false),
            ("b4", Player::Two, Piece::Knight, false),
        ],
        Player::One,
        [false; 4],
        None,
    );
    let mut extractor = FcMoveFeatures::new(&game);
    let mut moves = Vec::new();
    game.legal_moves(&state, &mut moves);
    let promote = moves
        .iter()
        .copied()
        .find(|m| {
            m.from == game.square("a3")
                && m.to == game.square("b4")
                && m.promotion == Some(Piece::Queen)
        })
        .expect("axb4=Q is legal");
    let mut x = Vec::new();
    extractor.extract(&game, &state, promote, &mut x);
    // Moving pawn, captured knight-nat, capture flag, queen choice,
    // promotion flag, one rank forward, relative rank 3; entries come in
    // index order.
    assert_eq!(&x[..5], &[(0, 1), (11, 1), (20, 1), (24, 1), (25, 1)]);
    assert_eq!(value_at(&x, 27), 1.0);
    assert_eq!(value_at(&x, 32), 3.0);
    assert!(x.windows(2).all(|w| w[0].0 < w[1].0));
    let sideways = moves
        .iter()
        .copied()
        .find(|m| m.from == game.square("a1") && m.to == game.square("b1"))
        .expect("Kb1 is legal");
    extractor.extract(&game, &state, sideways, &mut x);
    // King-nat moving, no forward displacement, relative rank 0.
    assert_eq!(x[0], (5, 1));
    assert_eq!(value_at(&x, 28), 1.0);
    assert_eq!(value_at(&x, 27), 0.0);
    assert_eq!(value_at(&x, 32), 0.0);
}

fn extract_all(game: &ForwardChess, recipe: FcRecipe, state: &FcState) -> Vec<FeatureEntry> {
    let mut extractor = FcExtractor::new(game, recipe);
    let mut out = Vec::new();
    extractor.extract(game, state, &mut out);
    assert!(out.iter().all(|&(i, _)| (i as usize) < extractor.dimension()));
    out
}

#[test]
fn rotation_swap_invariance_on_random_positions() {
    // Features must be identical for a position and its rotated colour
    // swap (mover perspective). Random castle-free positions on the
    // small board; both recipes.
    let game = ForwardChess::new(Ruleset::Small);
    let mut rng = ChaCha12Rng::seed_from_u64(41);
    let mut moves = Vec::new();
    let mut tested = 0;
    for _ in 0..40 {
        let mut state = game.initial_state();
        loop {
            if game.outcome(&state).is_some() {
                break;
            }
            for recipe in [FcRecipe::FcCountsV0, FcRecipe::FcStructuredLinearV1] {
                let a = extract_all(&game, recipe, &state);
                let b = extract_all(&game, recipe, &rotate_swap(&game, &state));
                assert_eq!(a, b, "recipe {recipe:?} must be rotation-swap invariant");
            }
            tested += 1;
            game.legal_moves(&state, &mut moves);
            let mv = moves[rng.gen_range(0..moves.len())];
            game.make_move(&mut state, mv);
        }
    }
    assert!(tested > 100);
}

#[test]
fn hand_computed_position() {
    // Small board (4x4): White Kb1, Rc1, Pa2; Black Kd4, reversed rook b3
    // (a promoted piece; its "ahead" is Black's backward, i.e. toward
    // rank 4). White to move; nobody is in check.
    let game = ForwardChess::new(Ruleset::Small);
    let state = game.custom_state(
        &[
            ("b1", Player::One, Piece::King, false),
            ("c1", Player::One, Piece::Rook, false),
            ("a2", Player::One, Piece::Pawn, false),
            ("d4", Player::Two, Piece::King, false),
            ("b3", Player::Two, Piece::Rook, true),
        ],
        Player::One,
        [false; 4],
        None,
    );
    let game_ref = &game;
    let mut extractor = FcExtractor::new(game_ref, FcRecipe::FcStructuredLinearV1);
    let mut out = Vec::new();
    extractor.extract(game_ref, &state, &mut out);
    let get = |index: usize| value_at(&out, index as u32);
    // Count diffs: mover has P-nat +1, R-nat +1; opponent has R-rev -1.
    assert_eq!(get(0), 1.0, "pawn-nat diff");
    assert_eq!(get(3), 1.0, "rook-nat diff");
    assert_eq!(get(7), -1.0, "rook-rev diff (slot 7: combos shift past the skipped king)");
    // Material total: 3 non-king pieces.
    assert_eq!(get(extractor.idx_material()), 3.0);
    // White pawn on a2: two ranks from promotion (a4).
    assert_eq!(get(extractor.idx_promo() + 1), 1.0, "pawn at distance 2");
    // The reversed rook's ahead is rank 4; nothing attacks b1.
    assert_eq!(get(extractor.idx_check()), 0.0, "white is not in check");
    // The only piece under attack is Black's reversed rook on b3, hit by
    // the a2 pawn's diagonal-ahead capture: +1 for the mover on the rook
    // victim row.
    assert_eq!(get(extractor.idx_attacked() + Piece::Rook as usize), 1.0);
    // Defended: Kb1 covers a2 and c1; Black's b3 rook is undefended.
    assert_eq!(get(extractor.idx_defended()), 2.0);
    // Mobility equals the legal move count (hand count: 3 king, 4 rook,
    // pawn a3 + axb3 = 9; the a2-a4 double step is illegal because it
    // would land on the promotion rank).
    let mut moves = Vec::new();
    game.legal_moves(&state, &mut moves);
    assert_eq!(moves.len(), 9);
    assert_eq!(get(extractor.idx_mobility()), moves.len() as f32);
    // PSQ: White rook (combo 3) on c1 = cell 2 from White's view.
    assert_eq!(get(extractor.idx_psq() + 3 * 16 + 2), 1.0);
    // Black reversed rook (combo 8) on b3 = cell 9; Black's view is
    // rotated: 15 - 9 = 6.
    assert_eq!(get(extractor.idx_psq() + 8 * 16 + 6), -1.0);
    // Feature names resolve for every emitted index.
    for &(index, _) in &out {
        assert!(!extractor.feature_name(index).is_empty());
    }
}

#[test]
fn v0_is_the_documented_subset() {
    let game = ForwardChess::new(Ruleset::Tiny);
    let state = game.initial_state();
    let v0 = extract_all(&game, FcRecipe::FcCountsV0, &state);
    let extractor = FcExtractor::new(&game, FcRecipe::FcCountsV0);
    assert_eq!(extractor.dimension(), 10);
    // Initial position is symmetric: all count diffs zero, only total
    // material remains.
    let v0: Vec<(u32, f32)> = v0.iter().map(|&(i, v)| (i, v as f32)).collect();
    assert_eq!(v0, vec![(9, 2.0)]);
}

#[test]
fn structured_feature_names() {
    let game = ForwardChess::new(Ruleset::Small);
    let full = FcExtractor::new(&game, FcRecipe::FcStructuredLinearV1);
    assert_eq!(full.dimension(), 21 + 10 * 16);
    assert_eq!(full.feature_name(5), "count_diff/Knight-rev");
    assert_eq!(full.feature_name(12), "attacked_diff/Rook-nat");
    assert_eq!(full.feature_name(16), "mover_mobility");
    assert_eq!(full.feature_name(19), "promo_dist_diff/d2");
    assert_eq!(full.feature_name(20), "material_total");
    assert_eq!(full.feature_name(21 + 8 * 16 + 6), "psq_diff/Rook-rev/r6");
    let v0 = FcExtractor::new(&game, FcRecipe::FcCountsV0);
    assert_eq!(v0.feature_name(9), "material_total");
    assert_eq!(v0.recipe(), FcRecipe::FcCountsV0);
}
