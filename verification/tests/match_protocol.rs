use selfplay_lab::evaluation::{candidate_half_points, game_seed, play_pair, shared_opening, PairResult};
use selfplay_lab::game::{Game, Outcome, Player};
use selfplay_lab::games::connect_k::ConnectK;
use selfplay_lab::search::ZeroEvaluator;
use selfplay_lab::training::splitmix64;

#[test]
fn game_seeds_mix_run_pair_and_slot() {
    let expected = splitmix64(splitmix64(7) ^ splitmix64(3 * 2 + 1));
    assert_eq!(game_seed(7, 3, 1), expected);
    assert_ne!(game_seed(7, 3, 0), game_seed(7, 3, 1));
    assert_ne!(game_seed(7, 3, 0), game_seed(8, 3, 0));
}

#[test]
fn half_points_follow_the_candidate_colour() {
    assert_eq!(candidate_half_points(Outcome::Win(Player::One), true), 2);
    assert_eq!(candidate_half_points(Outcome::Win(Player::One), false), 0);
    assert_eq!(candidate_half_points(Outcome::Win(Player::Two), false), 2);
    assert_eq!(candidate_half_points(Outcome::Draw, true), 1);
}

#[test]
fn openings_are_shared_and_seeded() {
    let game = ConnectK::new(4, 4, 3, true).unwrap();
    let a = shared_opening(&game, 11, 5, 4);
    let b = shared_opening(&game, 11, 5, 4);
    assert_eq!(game.position_key(&a), game.position_key(&b));
    let none = shared_opening(&game, 11, 5, 0);
    assert_eq!(game.position_key(&none), game.position_key(&game.initial_state()));
}

#[test]
fn a_pair_plays_both_colours_deterministically() {
    let game = ConnectK::new(3, 3, 3, false).unwrap();
    let run = || {
        let mut cand = ZeroEvaluator;
        let mut champ = ZeroEvaluator;
        play_pair(&game, 1, 0, 2, &mut cand, &mut champ, 2_000, 2_000)
    };
    let r: PairResult = run();
    assert!(r.finished);
    assert_eq!(r.wins + r.draws + r.losses, 2);
    assert_eq!(r.half_points as u64, 2 * r.wins + r.draws);
    assert_eq!(r, run());
}
