use selfplay_lab::features::forward_chess::{FcExtractor, FcMoveFeatures, FcRecipe};
use selfplay_lab::features::{FeatureEntry, FeatureExtractor, MoveFeatures};
use selfplay_lab::game::Game;
use selfplay_lab::games::forward_chess::{ForwardChess, Ruleset};
use selfplay_lab::games::chess::{Chess, ChessState};
use selfplay_lab::features::chess::ChessMoveFeatures;

fn unique_below(out: &[FeatureEntry], dimension: usize) -> bool {
    out.iter().all(|&(i, _)| (i as usize) < dimension)
        && out.iter().enumerate().all(|(a, x)| out.iter().skip(a + 1).all(|y| x.0 != y.0))
}

fn position_features<E: FeatureExtractor<ForwardChess>>(ex: &mut E, game: &ForwardChess) -> (usize, Vec<FeatureEntry>) {
    let state = game.initial_state();
    let mut out = Vec::new();
    ex.extract(game, &state, &mut out);
    (ex.dimension(), out)
}

fn move_feature_sets<E: MoveFeatures<ForwardChess>>(ex: &mut E, game: &ForwardChess) -> (usize, Vec<Vec<FeatureEntry>>) {
    let state = game.initial_state();
    let mut moves = Vec::new();
    game.legal_moves(&state, &mut moves);
    let mut sets = Vec::new();
    for &mv in &moves {
        let mut out = Vec::new();
        ex.extract(game, &state, mv, &mut out);
        sets.push(out);
    }
    (ex.dimension(), sets)
}

#[test]
fn extractors_through_their_traits_give_unique_indices() {
    for ruleset in [Ruleset::Tiny, Ruleset::Small, Ruleset::Full] {
        let game = ForwardChess::new(ruleset);
        for recipe in [FcRecipe::FcCountsV0, FcRecipe::FcStructuredLinearV1] {
            let mut ex = FcExtractor::new(&game, recipe);
            let (dimension, out) = position_features(&mut ex, &game);
            assert!(unique_below(&out, dimension));
        }
        let mut mf = FcMoveFeatures::new(&game);
        let (dimension, sets) = move_feature_sets(&mut mf, &game);
        assert_eq!(dimension, 35);
        assert!(!sets.is_empty());
        for out in &sets {
            assert!(unique_below(out, dimension));
        }
    }
}

fn chess_feature_sets<E: MoveFeatures<Chess>>(ex: &mut E, game: &Chess, state: &ChessState) -> (usize, Vec<Vec<FeatureEntry>>) {
    let mut moves = Vec::new();
    game.legal_moves(state, &mut moves);
    let mut sets = Vec::new();
    for &mv in &moves {
        let mut out = Vec::new();
        ex.extract(game, state, mv, &mut out);
        sets.push(out);
    }
    (ex.dimension(), sets)
}

#[test]
fn chess_move_features_through_the_trait_give_unique_indices() {
    let game = Chess::new();
    // En passant available (e5xd6), a capture and castling rights.
    let state = game
        .state_from_fen("r3k2r/ppp2ppp/8/3pP3/8/8/PPP2PPP/R3K2R w KQkq d6 0 1")
        .unwrap();
    let mut mf = ChessMoveFeatures::new(&game);
    let (dimension, sets) = chess_feature_sets(&mut mf, &game, &state);
    assert_eq!(dimension, 25);
    assert!(sets.iter().any(|out| out.iter().any(|&(i, _)| i == 24)));
    for out in &sets {
        assert!(unique_below(out, dimension));
    }
}
