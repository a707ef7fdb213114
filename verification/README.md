# selfplay_lab

Rules, solvers and bookkeeping for small deterministic two-player games
(Connect-k, Othello, Breakthrough, Forward Chess, standard chess through
`cozy-chess`), written in Verus with their behaviour stated as contracts.

- `src/game.rs`: the `Game` trait, with each game's rules as spec functions
  over a mathematical model of its states.
- `src/games/`: the games; `forward_chess/tablebase.rs` packs and reads
  solved positions.
- `src/search.rs`, `src/search/alpha_beta.rs`: exact solvers, retrograde
  analysis and the alpha-beta searcher.
- `src/data.rs`, `src/data/`: teacher records, labelling, sampling and
  summaries; `src/training.rs`: exact datasets and their splits.
- `src/features/`: move and position features.
- `src/sweep.rs`, `src/play.rs`: the decisions of the run scheduler and of
  interactive play, as step functions.
- `app/`: I/O around the library (files, JSON, float summaries).
- `tests/`: executable tests of the library.
