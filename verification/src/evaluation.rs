//! The paired match protocol: two agents play a pair of games from one
//! shared opening, swapping colours between the games. Every game's
//! random stream is derived only from `(run_seed, pair, slot)`, so a pair
//! plays the same whichever worker runs it.
//!
//! Scores are kept in half points (win 2, draw 1, loss 0); turning them
//! into fractions is the caller's business.

use crate::game::{lemma_play_push, play, Game, Outcome, Player};
use crate::search::{Evaluator, MoveOrdering, SearchResult, Searcher};
use crate::training::{splitmix, splitmix64, SELFPLAY_TT_LOG2};
use rand::Rng;
use rand::SeedableRng;
use rand_chacha::ChaCha12Rng;
use vstd::prelude::*;

verus! {

#[verifier::external_type_specification]
#[verifier::external_body]
pub struct ExChaCha12Rng(ChaCha12Rng);

/// Calls `ChaCha12Rng::seed_from_u64(seed)`. Nothing is claimed of the
/// generator it returns.
#[verifier::external_body]
fn chacha_from_seed(seed: u64) -> ChaCha12Rng {
    ChaCha12Rng::seed_from_u64(seed)
}

/// Calls `rng.gen_range(0..n)`. Claimed: the draw is below `n` (the
/// range the call documents); which value comes is not stated.
#[verifier::external_body]
fn draw_below(rng: &mut ChaCha12Rng, n: usize) -> (r: usize)
    requires
        n > 0,
    ensures
        r < n,
{
    rng.gen_range(0..n)
}

/// Seed of one game's random stream.
pub open spec fn game_seed_spec(run_seed: u64, pair: u64, slot: u64) -> u64 {
    splitmix(
        splitmix(run_seed) ^ splitmix(
            vstd::wrapping::u64_specs::wrapping_add(vstd::wrapping::u64_specs::wrapping_mul(pair, 2), slot),
        ),
    )
}

/// Seed of the random stream of game `slot` of pair `pair`.
pub fn game_seed(run_seed: u64, pair: u64, slot: u64) -> (s: u64)
    ensures
        s == game_seed_spec(run_seed, pair, slot),
{
    splitmix64(splitmix64(run_seed) ^ splitmix64(pair.wrapping_mul(2).wrapping_add(slot)))
}

/// Deterministic per-game generator, seeded with `game_seed`.
pub fn game_rng(run_seed: u64, pair: u64, slot: u64) -> ChaCha12Rng {
    chacha_from_seed(game_seed(run_seed, pair, slot))
}

/// Half points of the candidate for one game: 2 for a win, 1 for a draw.
pub open spec fn half_points(outcome: Outcome, candidate_is_p1: bool) -> u32 {
    match outcome {
        Outcome::Draw => 1,
        Outcome::Win(winner) => if (winner == Player::One) == candidate_is_p1 {
            2
        } else {
            0
        },
    }
}

pub fn candidate_half_points(outcome: Outcome, candidate_is_p1: bool) -> (h: u32)
    ensures
        h == half_points(outcome, candidate_is_p1),
{
    match outcome {
        Outcome::Draw => 1,
        Outcome::Win(winner) => {
            if (winner == Player::One) == candidate_is_p1 {
                2
            } else {
                0
            }
        },
    }
}

/// The shared opening of a pair: up to `opening_plies` uniformly random
/// legal moves from the initial position, drawn from the pair's own
/// stream (slot 2), stopping early at a finished game.
pub fn shared_opening<G: Game>(game: &G, run_seed: u64, pair: u64, opening_plies: u32) -> (state: G::State)
    requires
        game.wf(),
    ensures
        game.valid(game.model(&state)),
        exists|path: Seq<G::Move>|
            path.len() <= opening_plies && #[trigger] play(game, game.initial(), path) == Some(game.model(&state)),
{
    let mut rng = game_rng(run_seed, pair, 2);
    let mut state = game.initial_state();
    let mut moves: Vec<G::Move> = Vec::new();
    let ghost mut path: Seq<G::Move> = Seq::empty();
    proof {
        game.lemma_initial_valid();
        assert(play(game, game.initial(), path) == Some(game.initial()));
    }
    let mut i: u32 = 0;
    while i < opening_plies
        invariant
            game.wf(),
            game.valid(game.model(&state)),
            i <= opening_plies,
            path.len() == i,
            play(game, game.initial(), path) == Some(game.model(&state)),
        decreases opening_plies - i,
    {
        if game.outcome(&state).is_some() {
            break;
        }
        game.legal_moves(&state, &mut moves);
        proof {
            game.lemma_live_has_moves(game.model(&state));
        }
        let mv = moves[draw_below(&mut rng, moves.len())];
        proof {
            assert(game.moves(game.model(&state)).contains(mv));
            game.lemma_step(game.model(&state), mv);
            lemma_play_push(game, game.initial(), path, mv, game.model(&state));
            path = path.push(mv);
        }
        game.make_move(&mut state, mv);
        i += 1;
    }
    state
}

/// One ply of a match game from a live position: the side to move
/// searches with its own searcher, node budget and evaluator. The candidate
/// moves exactly when the side to move is Player One if and only if
/// `candidate_is_p1`; then the champion's searcher and evaluator are left
/// as they were, and the search spends at most `candidate_nodes` nodes.
/// Otherwise the champion moves with `champion_nodes`, and the candidate's
/// searcher and evaluator are left as they were. The search's best move is
/// a legal move of the position.
pub fn match_move<G: Game, E: Evaluator<G>>(
    game: &G,
    state: &mut G::State,
    candidate_is_p1: bool,
    cand_search: &mut Searcher<G>,
    champ_search: &mut Searcher<G>,
    candidate: &mut E,
    champion: &mut E,
    candidate_nodes: u64,
    champion_nodes: u64,
) -> (r: SearchResult<G::Move>)
    requires
        game.wf(),
        game.valid(game.model(old(state))),
        game.result(game.model(old(state))) is None,
        old(cand_search).wf(),
        old(champ_search).wf(),
    ensures
        game.model(final(state)) == game.model(old(state)),
        final(cand_search).wf(),
        final(champ_search).wf(),
        r.best_move matches Some(mv) && game.moves(game.model(old(state))).contains(mv),
        (game.side(game.model(old(state))) == Player::One) == candidate_is_p1 ==> {
            &&& *final(champ_search) == *old(champ_search)
            &&& *final(champion) == *old(champion)
            &&& final(cand_search).same_settings(old(cand_search))
            &&& candidate_nodes > 0 ==> r.nodes <= candidate_nodes
        },
        (game.side(game.model(old(state))) == Player::One) != candidate_is_p1 ==> {
            &&& *final(cand_search) == *old(cand_search)
            &&& *final(candidate) == *old(candidate)
            &&& final(champ_search).same_settings(old(champ_search))
            &&& champion_nodes > 0 ==> r.nodes <= champion_nodes
        },
{
    let mover_is_candidate = (game.side_to_move(state) == Player::One) == candidate_is_p1;
    if mover_is_candidate {
        cand_search.search(game, state, 512, candidate_nodes, candidate)
    } else {
        champ_search.search(game, state, 512, champion_nodes, champion)
    }
}

/// One match game from `state`: each side searches with its own budget
/// and evaluator, the candidate playing first when `candidate_is_p1`.
/// Gives the outcome and the plies played; `None` only if the ply counter
/// would overflow before the game ends.
pub fn play_match_game<G: Game, E: Evaluator<G>>(
    game: &G,
    state: &mut G::State,
    candidate_is_p1: bool,
    candidate: &mut E,
    champion: &mut E,
    candidate_nodes: u64,
    champion_nodes: u64,
) -> (r: (Option<Outcome>, u64))
    requires
        game.wf(),
        game.valid(game.model(old(state))),
    ensures
        game.valid(game.model(final(state))),
        r.0 matches Some(o) ==> game.result(game.model(final(state))) == Some(o),
        exists|path: Seq<G::Move>|
            path.len() == r.1 && #[trigger] play(game, game.model(old(state)), path) == Some(
                game.model(final(state)),
            ),
{
    let mut cand_search: Searcher<G> = Searcher::new(Some(SELFPLAY_TT_LOG2), MoveOrdering::Natural);
    let mut champ_search: Searcher<G> = Searcher::new(Some(SELFPLAY_TT_LOG2), MoveOrdering::Natural);
    let ghost m0 = game.model(state);
    let ghost mut path: Seq<G::Move> = Seq::empty();
    let mut plies: u64 = 0;
    assert(play(game, m0, path) == Some(game.model(state)));
    loop
        invariant
            game.wf(),
            game.valid(game.model(state)),
            cand_search.wf(),
            champ_search.wf(),
            path.len() == plies,
            play(game, m0, path) == Some(game.model(state)),
            m0 == game.model(old(state)),
        decreases u64::MAX - plies,
    {
        match game.outcome(state) {
            Some(outcome) => {
                return (Some(outcome), plies);
            },
            None => {},
        }
        if plies == u64::MAX {
            return (None, plies);
        }
        let result = match_move(
            game,
            state,
            candidate_is_p1,
            &mut cand_search,
            &mut champ_search,
            candidate,
            champion,
            candidate_nodes,
            champion_nodes,
        );
        let mv = match result.best_move {
            Some(mv) => mv,
            None => {
                proof {
                    assert(false);
                }
                return (None, plies);
            },
        };
        proof {
            game.lemma_step(game.model(state), mv);
            lemma_play_push(game, m0, path, mv, game.model(state));
            path = path.push(mv);
        }
        game.make_move(state, mv);
        plies = plies + 1;
    }
}

/// What one pair gave the candidate: half points, plies played, and its
/// wins, draws and losses.
#[derive(Clone, Copy, Debug, PartialEq, Eq)]
pub struct PairResult {
    pub half_points: u32,
    pub plies: u64,
    pub wins: u64,
    pub draws: u64,
    pub losses: u64,
    /// Both games reached an outcome.
    pub finished: bool,
}

/// Play pair `pair`: both games start from the pair's shared opening;
/// in game 0 the candidate is Player One, in game 1 Player Two.
pub fn play_pair<G: Game, E: Evaluator<G>>(
    game: &G,
    run_seed: u64,
    pair: u64,
    opening_plies: u32,
    candidate: &mut E,
    champion: &mut E,
    candidate_nodes: u64,
    champion_nodes: u64,
) -> (r: PairResult)
    requires
        game.wf(),
    ensures
        r.half_points <= 4,
        r.wins + r.draws + r.losses <= 2,
        r.finished ==> r.wins + r.draws + r.losses == 2 && r.half_points == 2 * r.wins + r.draws,
{
    let mut result = PairResult { half_points: 0, plies: 0, wins: 0, draws: 0, losses: 0, finished: true };
    let mut slot: u64 = 0;
    while slot < 2
        invariant
            game.wf(),
            slot <= 2,
            result.half_points <= 2 * slot,
            result.wins + result.draws + result.losses <= slot,
            result.finished ==> result.wins + result.draws + result.losses == slot && result.half_points == 2
                * result.wins + result.draws,
        decreases 2 - slot,
    {
        let mut state = shared_opening(game, run_seed, pair, opening_plies);
        let candidate_is_p1 = slot == 0;
        let (outcome, plies) = play_match_game(
            game,
            &mut state,
            candidate_is_p1,
            candidate,
            champion,
            candidate_nodes,
            champion_nodes,
        );
        result.plies = result.plies.saturating_add(plies);
        match outcome {
            Some(o) => {
                let h = candidate_half_points(o, candidate_is_p1);
                result.half_points = result.half_points + h;
                if h == 2 {
                    result.wins = result.wins + 1;
                } else if h == 1 {
                    result.draws = result.draws + 1;
                } else {
                    result.losses = result.losses + 1;
                }
            },
            None => {
                result.finished = false;
            },
        }
        slot += 1;
    }
    result
}

} // verus!
