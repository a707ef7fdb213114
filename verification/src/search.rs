//! Search: the exact solvers (research/test oracles) and the scoring
//! conventions of the alpha–beta search.
//!
//! Score convention (all scores are from the side to move's perspective):
//! - a forced win at ply `p` from the search root scores `SCORE_WIN - p`,
//!   so shorter wins score higher;
//! - a draw scores 0;
//! - non-terminal leaves score the evaluator's value, clamped to
//!   `[-SCORE_EVAL_MAX, SCORE_EVAL_MAX]`, far below any terminal score.
//!
//! Solver results are stated against [`game_value`], the exact
//! game-theoretic value of an acyclic game. Solvers deduplicate positions
//! by `position_key`; their exactness is stated for games whose keys do
//! not merge positions of different value ([`keys_faithful`]).

pub mod alpha_beta;

pub use alpha_beta::{Evaluator, Searcher};

use crate::game::{lemma_play_push, play, reachable, Game, Outcome, Player};
use std::collections::HashMap;
use std::collections::HashSet;
use vstd::prelude::*;

verus! {

broadcast use vstd::std_specs::hash::group_hash_axioms;

pub const SCORE_WIN: i32 = 32_000;

/// Scores with magnitude above this bound are proven win/loss scores.
pub const SCORE_TERMINAL_BOUND: i32 = 30_000;

/// Maximum magnitude a leaf evaluator may return.
pub const SCORE_EVAL_MAX: i32 = 1_000;

/// Bound used for "no move searched yet" (`i32::MAX - 1`).
pub const SCORE_INF: i32 = 2_147_483_646;

/// Game-theoretic value from the side to move's perspective.
/// Ordered so that `Loss < Draw < Win`.
#[derive(Clone, Copy, PartialEq, Eq, PartialOrd, Ord, Debug, Hash, Structural)]
pub enum Wdl {
    Loss,
    Draw,
    Win,
}

impl Wdl {
    /// Position of the value in the order `Loss < Draw < Win`.
    pub open spec fn rank(self) -> int {
        match self {
            Wdl::Loss => 0,
            Wdl::Draw => 1,
            Wdl::Win => 2,
        }
    }

    /// The same result seen from the other player.
    pub open spec fn flipped(self) -> Wdl {
        match self {
            Wdl::Loss => Wdl::Win,
            Wdl::Draw => Wdl::Draw,
            Wdl::Win => Wdl::Loss,
        }
    }

    pub fn flip(self) -> (r: Wdl)
        ensures
            r == self.flipped(),
    {
        match self {
            Wdl::Loss => Wdl::Win,
            Wdl::Draw => Wdl::Draw,
            Wdl::Win => Wdl::Loss,
        }
    }

    pub fn from_outcome(outcome: Outcome, side_to_move: Player) -> (r: Wdl)
        ensures
            r == wdl_of(outcome, side_to_move),
    {
        match outcome {
            Outcome::Draw => Wdl::Draw,
            Outcome::Win(winner) => {
                if winner == side_to_move {
                    Wdl::Win
                } else {
                    Wdl::Loss
                }
            },
        }
    }

    /// Interpret the score of a search that solved the position (searched
    /// to terminal everywhere or with an exact leaf oracle).
    pub fn from_solved_score(score: i32) -> (r: Wdl)
        ensures
            r == solved_wdl(score),
    {
        if score > SCORE_TERMINAL_BOUND {
            Wdl::Win
        } else if score < -SCORE_TERMINAL_BOUND {
            Wdl::Loss
        } else {
            Wdl::Draw
        }
    }

    /// The better of two values for the side to move.
    pub fn better(self, other: Wdl) -> (r: Wdl)
        ensures
            r == wdl_max(self, other),
    {
        match (self, other) {
            (Wdl::Win, _) => Wdl::Win,
            (_, Wdl::Win) => Wdl::Win,
            (Wdl::Draw, _) => Wdl::Draw,
            (_, Wdl::Draw) => Wdl::Draw,
            _ => Wdl::Loss,
        }
    }
}

/// Value of a finished game for `side`.
pub open spec fn wdl_of(outcome: Outcome, side: Player) -> Wdl {
    match outcome {
        Outcome::Draw => Wdl::Draw,
        Outcome::Win(winner) => if winner == side {
            Wdl::Win
        } else {
            Wdl::Loss
        },
    }
}

/// Category of a solved search score.
pub open spec fn solved_wdl(score: i32) -> Wdl {
    if score > SCORE_TERMINAL_BOUND {
        Wdl::Win
    } else if score < -SCORE_TERMINAL_BOUND {
        Wdl::Loss
    } else {
        Wdl::Draw
    }
}

pub open spec fn wdl_max(a: Wdl, b: Wdl) -> Wdl {
    if a.rank() >= b.rank() {
        a
    } else {
        b
    }
}

pub open spec fn solvable<G: Game>(g: &G, m: G::Model) -> bool {
    &&& g.wf()
    &&& g.acyclic()
    &&& g.valid(m)
}

/// Exact game-theoretic value of `m` for its side to move: terminal
/// positions score their outcome; otherwise the best over the legal moves
/// of the flipped value of the resulting position.
pub open spec fn game_value<G: Game>(g: &G, m: G::Model) -> Wdl
    decreases g.height(m), g.moves(m).len() + 1,
{
    if !solvable(g, m) {
        Wdl::Draw
    } else {
        match g.result(m) {
            Some(o) => wdl_of(o, g.side(m)),
            None => best_child(g, m, g.moves(m).len() as int),
        }
    }
}

/// Best flipped child value over the first `n` legal moves of `m`
/// (`Loss` when `n == 0`).
pub open spec fn best_child<G: Game>(g: &G, m: G::Model, n: int) -> Wdl
    decreases g.height(m), n,
{
    if n <= 0 || n > g.moves(m).len() || !solvable(g, m) || g.result(m) is Some {
        Wdl::Loss
    } else {
        proof {
            assert(g.moves(m).contains(g.moves(m)[n - 1]));
            g.lemma_height_decreases(m, g.moves(m)[n - 1]);
        }
        wdl_max(best_child(g, m, n - 1), game_value(g, g.next(m, g.moves(m)[n - 1])).flipped())
    }
}

/// Value of the position after the `i`-th legal move, for the mover.
pub open spec fn child_value<G: Game>(g: &G, m: G::Model, i: int) -> Wdl {
    game_value(g, g.next(m, g.moves(m)[i])).flipped()
}

/// Keys never merge live positions of different value.
pub open spec fn keys_faithful<G: Game>(g: &G) -> bool {
    forall|m1: G::Model, m2: G::Model|
        #![trigger g.key(m1), g.key(m2)]
        g.valid(m1) && g.valid(m2) && g.result(m1) is None && g.result(m2) is None && g.key(m1)
            == g.key(m2) ==> game_value(g, m1) == game_value(g, m2)
}

/// Every memo entry holds the value of every live position with that key.
pub open spec fn memo_sound<G: Game>(g: &G, memo: Map<u64, Wdl>) -> bool {
    forall|m: G::Model|
        #![trigger g.key(m)]
        g.valid(m) && g.result(m) is None && memo.contains_key(g.key(m)) ==> memo[g.key(m)]
            == game_value(g, m)
}

/// The best child value is attained by some legal move.
pub proof fn lemma_best_child_attained<G: Game>(g: &G, m: G::Model, n: int)
    requires
        solvable(g, m),
        g.result(m) is None,
        0 < n <= g.moves(m).len(),
    ensures
        exists|i: int| 0 <= i < n && #[trigger] child_value(g, m, i) == best_child(g, m, n),
        forall|i: int| 0 <= i < n ==> #[trigger] child_value(g, m, i).rank() <= best_child(
            g,
            m,
            n,
        ).rank(),
    decreases n,
{
    let c = child_value(g, m, n - 1);
    assert(c == game_value(g, g.next(m, g.moves(m)[n - 1])).flipped());
    if n > 1 {
        lemma_best_child_attained(g, m, n - 1);
        if best_child(g, m, n) != c {
            let i = choose|i: int| 0 <= i < n - 1 && #[trigger] child_value(g, m, i) == best_child(g, m, n - 1);
            assert(0 <= i < n && child_value(g, m, i) == best_child(g, m, n));
        }
    }
    assert(0 <= n - 1 < n && child_value(g, m, n - 1) == c);
}

/// Every live position has a move that keeps its exact value.
pub proof fn lemma_optimal_move_exists<G: Game>(g: &G, m: G::Model)
    requires
        solvable(g, m),
        g.result(m) is None,
    ensures
        exists|i: int| 0 <= i < g.moves(m).len() && #[trigger] child_value(g, m, i) == game_value(g, m),
{
    g.lemma_live_has_moves(m);
    lemma_best_child_attained(g, m, g.moves(m).len() as int);
}

/// Exact memoized negamax solver over the reachable state DAG.
///
/// No pruning: every reachable state below the query is solved exactly
/// once, so node counts equal DAG edges plus memo hits. This is the
/// research/test oracle, not the production search engine.
pub struct ExactSolver {
    memo: HashMap<u64, Wdl>,
    pub nodes: u64,
    pub memo_hits: u64,
}

impl ExactSolver {
    /// The solved values by position key.
    pub closed spec fn memo_view(&self) -> Map<u64, Wdl> {
        self.memo@
    }

    /// `(nodes, memo_hits)`.
    pub closed spec fn counters(&self) -> (u64, u64) {
        (self.nodes, self.memo_hits)
    }

    pub fn new() -> (s: ExactSolver)
        ensures
            s.memo_view() == Map::<u64, Wdl>::empty(),
            s.counters() == (0u64, 0u64),
    {
        ExactSolver { memo: HashMap::new(), nodes: 0, memo_hits: 0 }
    }

    /// Number of distinct solved (non-terminal) states.
    pub fn solved_states(&self) -> (n: usize)
        ensures
            n == self.memo_view().len(),
    {
        self.memo.len()
    }

    /// Exact value of `state` for its side to move. The state is left as
    /// it was; solved live positions are memoized by key.
    pub fn solve<G: Game>(&mut self, game: &G, state: &mut G::State) -> (w: Wdl)
        requires
            solvable(game, game.model(old(state))),
        ensures
            game.model(final(state)) == game.model(old(state)),
            old(self).memo_view().dom().subset_of(final(self).memo_view().dom()),
            keys_faithful(game) && memo_sound(game, old(self).memo_view()) ==> {
                &&& w == game_value(game, game.model(old(state)))
                &&& memo_sound(game, final(self).memo_view())
            },
        decreases game.height(game.model(old(state))),
    {
        let ghost m0 = game.model(state);
        self.nodes = self.nodes.wrapping_add(1);
        if let Some(outcome) = game.outcome(state) {
            return Wdl::from_outcome(outcome, game.side_to_move(state));
        }
        let key = game.position_key(state);
        if let Some(wdl) = self.memo.get(&key) {
            self.memo_hits = self.memo_hits.wrapping_add(1);
            return *wdl;
        }
        let mut moves = Vec::new();
        game.legal_moves(state, &mut moves);
        let mut best = Wdl::Loss;
        let mut i: usize = 0;
        while i < moves.len()
            invariant
                m0 == game.model(old(state)),
                solvable(game, m0),
                game.result(m0) is None,
                game.key(m0) == key,
                game.model(state) == m0,
                moves@ == game.moves(m0),
                i <= moves@.len(),
                old(self).memo_view().dom().subset_of(self.memo_view().dom()),
                keys_faithful(game) && memo_sound(game, old(self).memo_view()) ==> {
                    &&& best == best_child(game, m0, i as int)
                    &&& memo_sound(game, self.memo_view())
                },
            decreases moves@.len() - i,
        {
            let mv = moves[i];
            proof {
                assert(game.moves(m0).contains(mv)) by {
                    assert(game.moves(m0)[i as int] == mv);
                }
                game.lemma_step(m0, mv);
                game.lemma_height_decreases(m0, mv);
            }
            let undo = game.make_move(state, mv);
            let value = self.solve(game, state).flip();
            proof {
                assert(game.next(m0, mv) == game.model(state));
            }
            game.unmake_move(state, mv, undo);
            best = best.better(value);
            i += 1;
        }
        self.memo.insert(key, best);
        best
    }

    /// The game-theoretically optimal moves (every move preserving the
    /// position's exact value), in legal-move order, and the value.
    pub fn optimal_moves<G: Game>(
        &mut self,
        game: &G,
        state: &mut G::State,
        optimal: &mut Vec<G::Move>,
    ) -> (w: Wdl)
        requires
            solvable(game, game.model(old(state))),
            game.result(game.model(old(state))) is None,
        ensures
            game.model(final(state)) == game.model(old(state)),
            old(self).memo_view().dom().subset_of(final(self).memo_view().dom()),
            keys_faithful(game) && memo_sound(game, old(self).memo_view()) ==> {
                &&& w == game_value(game, game.model(old(state)))
                &&& final(optimal)@ == optimal_prefix(
                    game,
                    game.model(old(state)),
                    game.moves(game.model(old(state))).len() as int,
                )
                &&& memo_sound(game, final(self).memo_view())
            },
    {
        let ghost m0 = game.model(state);
        optimal.clear();
        let value = self.solve(game, state);
        let mut moves = Vec::new();
        game.legal_moves(state, &mut moves);
        let mut i: usize = 0;
        while i < moves.len()
            invariant
                solvable(game, m0),
                game.result(m0) is None,
                game.model(state) == m0,
                moves@ == game.moves(m0),
                i <= moves@.len(),
                old(self).memo_view().dom().subset_of(self.memo_view().dom()),
                keys_faithful(game) && memo_sound(game, old(self).memo_view()) ==> {
                    &&& value == game_value(game, m0)
                    &&& optimal@ == optimal_prefix(game, m0, i as int)
                    &&& memo_sound(game, self.memo_view())
                },
            decreases moves@.len() - i,
        {
            let mv = moves[i];
            proof {
                assert(game.moves(m0).contains(mv)) by {
                    assert(game.moves(m0)[i as int] == mv);
                }
                game.lemma_step(m0, mv);
            }
            let undo = game.make_move(state, mv);
            let child = self.solve(game, state).flip();
            proof {
                assert(game.next(m0, mv) == game.model(state));
            }
            game.unmake_move(state, mv, undo);
            if child == value {
                optimal.push(mv);
            }
            i += 1;
        }
        value
    }
}

/// The moves among the first `n` legal moves of `m` whose child value
/// equals the position's value, in order.
pub open spec fn optimal_prefix<G: Game>(g: &G, m: G::Model, n: int) -> Seq<G::Move>
    decreases n,
{
    if n <= 0 {
        Seq::empty()
    } else {
        let prev = optimal_prefix(g, m, n - 1);
        if child_value(g, m, n - 1) == game_value(g, m) {
            prev.push(g.moves(m)[n - 1])
        } else {
            prev
        }
    }
}


/// Score of a finished game at `ply` from the search root.
pub open spec fn terminal_value(outcome: Outcome, side: Player, ply: int) -> int {
    match outcome {
        Outcome::Draw => 0,
        Outcome::Win(winner) => if winner == side {
            SCORE_WIN - ply
        } else {
            -(SCORE_WIN - ply)
        },
    }
}

/// Full-depth negamax score of `m` searched from `ply`.
pub open spec fn negamax_value<G: Game>(g: &G, m: G::Model, ply: int) -> int
    decreases g.height(m), g.moves(m).len() + 1,
{
    if !solvable(g, m) {
        0
    } else {
        match g.result(m) {
            Some(o) => terminal_value(o, g.side(m), ply),
            None => best_score(g, m, ply, g.moves(m).len() as int),
        }
    }
}

/// Best negated child score over the first `n` legal moves
/// (`-SCORE_INF` when `n == 0`).
pub open spec fn best_score<G: Game>(g: &G, m: G::Model, ply: int, n: int) -> int
    decreases g.height(m), n,
{
    if n <= 0 || n > g.moves(m).len() || !solvable(g, m) || g.result(m) is Some {
        -SCORE_INF
    } else {
        proof {
            assert(g.moves(m).contains(g.moves(m)[n - 1]));
            g.lemma_height_decreases(m, g.moves(m)[n - 1]);
        }
        vstd::math::max(
            best_score(g, m, ply, n - 1),
            -negamax_value(g, g.next(m, g.moves(m)[n - 1]), ply + 1),
        )
    }
}

pub(crate) fn terminal_score(outcome: Outcome, side_to_move: Player, ply: u32) -> (s: i32)
    requires
        ply <= 1_000_000_000,
    ensures
        s == terminal_value(outcome, side_to_move, ply as int),
{
    match outcome {
        Outcome::Draw => 0,
        Outcome::Win(winner) => {
            if winner == side_to_move {
                SCORE_WIN - ply as i32
            } else {
                -(SCORE_WIN - ply as i32)
            }
        },
    }
}

/// Positions of the full game tree below `m`, `m` included.
pub open spec fn tree_size<G: Game>(g: &G, m: G::Model) -> nat
    decreases g.height(m), g.moves(m).len() + 1,
{
    if !solvable(g, m) {
        1
    } else {
        match g.result(m) {
            Some(_) => 1,
            None => 1 + subtree_sizes(g, m, g.moves(m).len() as int),
        }
    }
}

/// Tree sizes below the first `n` legal moves of `m`, summed.
pub open spec fn subtree_sizes<G: Game>(g: &G, m: G::Model, n: int) -> nat
    decreases g.height(m), n,
{
    if n <= 0 || n > g.moves(m).len() || !solvable(g, m) || g.result(m) is Some {
        0
    } else {
        proof {
            assert(g.moves(m).contains(g.moves(m)[n - 1]));
            g.lemma_height_decreases(m, g.moves(m)[n - 1]);
        }
        subtree_sizes(g, m, n - 1) + tree_size(g, g.next(m, g.moves(m)[n - 1]))
    }
}

/// Adding to a wrapped counter wraps the sum.
proof fn lemma_wrap_add(a: int, b: int)
    ensures
        ((a % 0x1_0000_0000_0000_0000) + b) % 0x1_0000_0000_0000_0000 == (a + b) % 0x1_0000_0000_0000_0000,
{
    vstd::arithmetic::div_mod::lemma_add_mod_noop_right(b, a, 0x1_0000_0000_0000_0000);
}

/// Plain full-depth negamax without memoization or pruning. Test/research
/// reference only; node counts grow with the full game tree.
pub fn exhaustive_negamax<G: Game>(game: &G, state: &mut G::State, ply: u32, nodes: &mut u64) -> (v:
    i32)
    requires
        solvable(game, game.model(old(state))),
        ply + game.height(game.model(old(state))) <= 1_000_000_000,
    ensures
        game.model(final(state)) == game.model(old(state)),
        v == negamax_value(game, game.model(old(state)), ply as int),
        -SCORE_INF <= v <= SCORE_INF,
        *final(nodes) as int == (*old(nodes) as int + tree_size(game, game.model(old(state))))
            % 0x1_0000_0000_0000_0000,
    decreases game.height(game.model(old(state))),
{
    let ghost m0 = game.model(state);
    let ghost n0 = *nodes as int;
    *nodes = (*nodes).wrapping_add(1);
    proof {
        assert(*nodes as int == (n0 + 1) % 0x1_0000_0000_0000_0000);
    }
    if let Some(outcome) = game.outcome(state) {
        return terminal_score(outcome, game.side_to_move(state), ply);
    }
    let mut moves = Vec::new();
    game.legal_moves(state, &mut moves);
    let mut best = -SCORE_INF;
    let mut i: usize = 0;
    while i < moves.len()
        invariant
            m0 == game.model(old(state)),
            solvable(game, m0),
            game.result(m0) is None,
            ply + game.height(m0) <= 1_000_000_000,
            game.model(state) == m0,
            moves@ == game.moves(m0),
            i <= moves@.len(),
            best == best_score(game, m0, ply as int, i as int),
            -SCORE_INF <= best <= SCORE_INF,
            *nodes as int == (n0 + 1 + subtree_sizes(game, m0, i as int)) % 0x1_0000_0000_0000_0000,
        decreases moves@.len() - i,
    {
        let mv = moves[i];
        let ghost before = *nodes as int;
        proof {
            assert(game.moves(m0).contains(mv)) by {
                assert(game.moves(m0)[i as int] == mv);
            }
            game.lemma_step(m0, mv);
            game.lemma_height_decreases(m0, mv);
        }
        let undo = game.make_move(state, mv);
        let value = -exhaustive_negamax(game, state, ply + 1, nodes);
        proof {
            assert(game.next(m0, mv) == game.model(state));
            lemma_wrap_add(n0 + 1 + subtree_sizes(game, m0, i as int), tree_size(game, game.next(m0, mv)) as int);
        }
        game.unmake_move(state, mv, undo);
        if value > best {
            best = value;
        }
        i += 1;
    }
    best
}

/// `solved_wdl` is monotone and commutes with negation.
proof fn lemma_solved_wdl_order(a: int, b: int)
    requires
        -SCORE_INF <= a <= SCORE_INF,
        -SCORE_INF <= b <= SCORE_INF,
    ensures
        a <= b ==> solved_wdl(a as i32).rank() <= solved_wdl(b as i32).rank(),
        solved_wdl((-a) as i32) == solved_wdl(a as i32).flipped(),
        solved_wdl(vstd::math::max(a, b) as i32) == wdl_max(solved_wdl(a as i32), solved_wdl(b as i32)),
{
}

/// Best-score bookkeeping tracks best-child values through `solved_wdl`.
proof fn lemma_best_score_matches<G: Game>(g: &G, m: G::Model, ply: int, n: int)
    requires
        solvable(g, m),
        g.result(m) is None,
        0 <= n <= g.moves(m).len(),
        0 <= ply,
        ply + g.height(m) < 2000,
    ensures
        -SCORE_INF <= best_score(g, m, ply, n) <= SCORE_INF,
        solved_wdl(best_score(g, m, ply, n) as i32) == best_child(g, m, n),
    decreases g.height(m), n,
{
    if n > 0 {
        let mv = g.moves(m)[n - 1];
        assert(g.moves(m).contains(mv));
        g.lemma_step(m, mv);
        g.lemma_height_decreases(m, mv);
        lemma_best_score_matches(g, m, ply, n - 1);
        lemma_negamax_matches_value(g, g.next(m, mv), ply + 1);
        let c = negamax_value(g, g.next(m, mv), ply + 1);
        lemma_solved_wdl_order(best_score(g, m, ply, n - 1), -c);
    }
}

/// A full-depth negamax score classifies to the exact game value when
/// every terminal distance stays within the proven-score band
/// (`ply + height < 2000`).
pub proof fn lemma_negamax_matches_value<G: Game>(g: &G, m: G::Model, ply: int)
    requires
        solvable(g, m),
        0 <= ply,
        ply + g.height(m) < 2000,
    ensures
        -SCORE_INF <= negamax_value(g, m, ply) <= SCORE_INF,
        solved_wdl(negamax_value(g, m, ply) as i32) == game_value(g, m),
    decreases g.height(m), g.moves(m).len() + 1,
{
    if g.result(m) is None {
        lemma_best_score_matches(g, m, ply, g.moves(m).len() as int);
    }
}

/// A solved non-terminal position reported by [`enumerate_solved`].
///
/// `child_values[i]` is the exact value of playing `legal[i]`, from the
/// current mover's perspective; a move is optimal iff its child value
/// equals `value`.
pub struct SolvedPosition<G: Game> {
    pub state: G::State,
    pub ply: u32,
    pub value: Wdl,
    pub legal: Vec<G::Move>,
    pub child_values: Vec<Wdl>,
}

/// The moves whose value equals `value`, in order.
pub open spec fn moves_with_value<M>(legal: Seq<M>, values: Seq<Wdl>, value: Wdl, n: int) -> Seq<M>
    decreases n,
{
    if n <= 0 {
        Seq::empty()
    } else {
        let prev = moves_with_value(legal, values, value, n - 1);
        if values[n - 1] == value {
            prev.push(legal[n - 1])
        } else {
            prev
        }
    }
}

impl<G: Game> SolvedPosition<G> {
    /// The optimal moves, in legal-move order.
    pub fn optimal_moves(&self) -> (r: Vec<G::Move>)
        requires
            self.legal@.len() == self.child_values@.len(),
        ensures
            r@ == moves_with_value(
                self.legal@,
                self.child_values@,
                self.value,
                self.legal@.len() as int,
            ),
    {
        let mut r: Vec<G::Move> = Vec::new();
        let mut i: usize = 0;
        while i < self.legal.len()
            invariant
                self.legal@.len() == self.child_values@.len(),
                i <= self.legal@.len(),
                r@ == moves_with_value(self.legal@, self.child_values@, self.value, i as int),
            decreases self.legal@.len() - i,
        {
            if self.child_values[i] == self.value {
                r.push(self.legal[i]);
            }
            i += 1;
        }
        r
    }
}

/// What [`enumerate_solved`] reports of one position: a valid live
/// position, its legal moves, one child value per move, and (when `exact`)
/// the exact values.
pub open spec fn solved_entry_ok<G: Game>(g: &G, e: SolvedPosition<G>, exact: bool) -> bool {
    let m = g.model(&e.state);
    &&& solvable(g, m)
    &&& g.result(m) is None
    &&& e.legal@ == g.moves(m)
    &&& e.child_values@.len() == e.legal@.len()
    &&& exact ==> {
        &&& e.value == game_value(g, m)
        &&& forall|i: int| 0 <= i < e.child_values@.len() ==> #[trigger] e.child_values@[i] == child_value(g, m, i)
    }
}

pub open spec fn entry_key<G: Game>(g: &G, e: SolvedPosition<G>) -> u64 {
    g.key(g.model(&e.state))
}

/// The entries are well formed and have pairwise distinct keys, all in
/// `seen`.
pub open spec fn entries_ok<G: Game>(g: &G, out: Seq<SolvedPosition<G>>, seen: Set<u64>, exact: bool) -> bool {
    &&& forall|i: int| 0 <= i < out.len() ==> #[trigger] solved_entry_ok(g, out[i], exact)
    &&& forall|i: int| 0 <= i < out.len() ==> seen.contains(#[trigger] entry_key(g, out[i]))
    &&& forall|i: int, j: int|
        0 <= i < j < out.len() ==> #[trigger] entry_key(g, out[i]) != #[trigger] entry_key(g, out[j])
}

/// Position keys identify live positions: two valid live positions with
/// one key are the same position.
pub open spec fn keys_identify<G: Game>(g: &G) -> bool {
    forall|m1: G::Model, m2: G::Model|
        #![trigger g.key(m1), g.key(m2)]
        g.valid(m1) && g.valid(m2) && g.result(m1) is None && g.result(m2) is None && g.key(m1)
            == g.key(m2) ==> m1 == m2
}

/// Every live child of every valid live position keyed `k` has its key
/// in `seen`.
pub open spec fn key_closed<G: Game>(g: &G, k: u64, seen: Set<u64>) -> bool {
    forall|m: G::Model, i: int|
        #![trigger g.key(m), g.next(m, g.moves(m)[i])]
        g.valid(m) && g.result(m) is None && g.key(m) == k && 0 <= i < g.moves(m).len() && g.result(
            g.next(m, g.moves(m)[i]),
        ) is None ==> seen.contains(g.key(g.next(m, g.moves(m)[i])))
}

/// Every key of `seen` is closed, or belongs to a position whose moves
/// are still being explored (`open`).
pub open spec fn seen_closed<G: Game>(g: &G, seen: Set<u64>, open: Set<u64>) -> bool {
    forall|k: u64| #[trigger] seen.contains(k) ==> open.contains(k) || key_closed(g, k, seen)
}

/// The keys of a list of entries.
pub open spec fn entry_keys<G: Game>(g: &G, es: Seq<SolvedPosition<G>>) -> Set<u64> {
    Set::new(|k: u64| exists|i: int| 0 <= i < es.len() && entry_key(g, es[i]) == k)
}

/// Every live position reachable from the initial one has its key listed.
pub open spec fn lists_reachable<G: Game>(g: &G, keys: Set<u64>) -> bool {
    forall|path: Seq<G::Move>|
        #[trigger] play(g, g.initial(), path) is Some && g.result(play(g, g.initial(), path)->0) is None
            ==> keys.contains(g.key(play(g, g.initial(), path)->0))
}

/// Closure survives a larger seen set.
proof fn lemma_closed_mono<G: Game>(g: &G, seen: Set<u64>, open: Set<u64>, seen2: Set<u64>, open2: Set<u64>)
    requires
        seen_closed(g, seen, open),
        seen.subset_of(seen2),
        open.subset_of(open2),
    ensures
        forall|k: u64| #[trigger] seen.contains(k) ==> open2.contains(k) || key_closed(g, k, seen2),
{
    assert forall|k: u64| #[trigger] seen.contains(k) implies open2.contains(k) || key_closed(g, k, seen2) by {
        if !open.contains(k) {
            assert(key_closed(g, k, seen));
            assert forall|m: G::Model, i: int|
                #![trigger g.key(m), g.next(m, g.moves(m)[i])]
                g.valid(m) && g.result(m) is None && g.key(m) == k && 0 <= i < g.moves(m).len() && g.result(
                    g.next(m, g.moves(m)[i]),
                ) is None implies seen2.contains(g.key(g.next(m, g.moves(m)[i]))) by {
                assert(seen.contains(g.key(g.next(m, g.moves(m)[i]))));
            }
        }
    }
}

/// From a listed live position, closure lists every live position that
/// legal play reaches.
proof fn lemma_closed_reach<G: Game>(g: &G, seen: Set<u64>, m: G::Model, path: Seq<G::Move>)
    requires
        g.wf(),
        g.valid(m),
        g.result(m) is None,
        seen.contains(g.key(m)),
        seen_closed(g, seen, Set::empty()),
        play(g, m, path) is Some,
        g.result(play(g, m, path)->0) is None,
    ensures
        seen.contains(g.key(play(g, m, path)->0)),
    decreases path.len(),
{
    if path.len() > 0 {
        let mv = path[0];
        let i = choose|i: int| 0 <= i < g.moves(m).len() && g.moves(m)[i] == mv;
        g.lemma_step(m, mv);
        let c = g.next(m, g.moves(m)[i]);
        assert(key_closed(g, g.key(m), seen));
        if g.result(c) is None {
            assert(seen.contains(g.key(c)));
            lemma_closed_reach(g, seen, c, path.drop_first());
        } else {
            if path.drop_first().len() > 0 {
                assert(play(g, c, path.drop_first()) is None);
            }
        }
    }
}

/// Depth-first enumeration of every reachable state from the initial
/// position, deduplicated by position key, in deterministic DFS preorder;
/// one entry per non-terminal state.
pub fn enumerate_solved<G: Game>(game: &G, solver: &mut ExactSolver) -> (out: Vec<SolvedPosition<G>>)
    requires
        game.wf(),
        game.acyclic(),
    ensures
        entries_ok(
            game,
            out@,
            Set::new(|k: u64| exists|i: int| 0 <= i < out@.len() && entry_key(game, out@[i]) == k),
            keys_faithful(game) && memo_sound(game, old(solver).memo_view()),
        ),
        game.result(game.initial()) is None ==> {
            &&& out@.len() > 0
            &&& game.model(&out@[0].state) == game.initial()
            &&& out@[0].ply == 0
        },
        keys_identify(game) ==> lists_reachable(game, entry_keys(game, out@)),
{
    let ghost exact = keys_faithful(game) && memo_sound(game, old(solver).memo_view());
    let mut state = game.initial_state();
    proof {
        game.lemma_initial_valid();
        game.lemma_height_bounded(game.initial());
    }
    let mut seen: HashSet<u64> = HashSet::new();
    let mut out: Vec<SolvedPosition<G>> = Vec::new();
    enumerate_from(game, solver, &mut state, 0, &mut seen, &mut out, Ghost(exact), Ghost(Set::empty()));
    proof {
        let keys = Set::new(|k: u64| exists|i: int| 0 <= i < out@.len() && entry_key(game, out@[i]) == k);
        assert forall|i: int| 0 <= i < out@.len() implies keys.contains(#[trigger] entry_key(game, out@[i])) by {
        }
        if keys_identify(game) {
            assert forall|path: Seq<G::Move>|
                #[trigger] play(game, game.initial(), path) is Some && game.result(play(game, game.initial(), path)->0) is None implies keys.contains(
                game.key(play(game, game.initial(), path)->0),
            ) by {
                if path.len() > 0 {
                    assert(game.result(game.initial()) is None);
                }
                assert(game.result(game.initial()) is None);
                assert(seen@.contains(game.key(game.initial())));
                lemma_closed_reach(game, seen@, game.initial(), path);
                let k = game.key(play(game, game.initial(), path)->0);
                assert(seen@.contains(k));
                let i = choose|i: int| 0 <= i < out@.len() && entry_key(game, out@[i]) == k;
                assert(keys.contains(k));
            }
        }
    }
    out
}

fn enumerate_from<G: Game>(
    game: &G,
    solver: &mut ExactSolver,
    state: &mut G::State,
    ply: u32,
    seen: &mut HashSet<u64>,
    out: &mut Vec<SolvedPosition<G>>,
    Ghost(exact): Ghost<bool>,
    Ghost(open): Ghost<Set<u64>>,
)
    requires
        solvable(game, game.model(old(state))),
        keys_identify(game) ==> seen_closed(game, old(seen)@, open),
        ply + game.height(game.model(old(state))) <= 0xffff_ffff,
        exact ==> keys_faithful(game) && memo_sound(game, old(solver).memo_view()),
        entries_ok(game, old(out)@, old(seen)@, exact),
    ensures
        game.model(final(state)) == game.model(old(state)),
        exact ==> memo_sound(game, final(solver).memo_view()),
        entries_ok(game, final(out)@, final(seen)@, exact),
        old(seen)@.subset_of(final(seen)@),
        final(out)@.len() >= old(out)@.len(),
        final(out)@.subrange(0, old(out)@.len() as int) == old(out)@,
        forall|i: int|
            old(out)@.len() <= i < final(out)@.len() ==> !old(seen)@.contains(
                #[trigger] entry_key(game, final(out)@[i]),
            ),
        keys_identify(game) ==> seen_closed(game, final(seen)@, open),
        game.result(game.model(old(state))) is None ==> final(seen)@.contains(game.key(game.model(old(state)))),
        forall|k: u64|
            #[trigger] final(seen)@.contains(k) && !old(seen)@.contains(k) ==> exists|i: int|
                old(out)@.len() <= i < final(out)@.len() && entry_key(game, final(out)@[i]) == k,
        game.result(game.model(old(state))) is None && !old(seen)@.contains(
            game.key(game.model(old(state))),
        ) ==> {
            &&& final(out)@.len() > old(out)@.len()
            &&& game.model(&final(out)@[old(out)@.len() as int].state) == game.model(old(state))
            &&& final(out)@[old(out)@.len() as int].ply == ply
        },
    decreases game.height(game.model(old(state))),
{
    let ghost m0 = game.model(state);
    if game.outcome(state).is_some() {
        return;
    }
    let key = game.position_key(state);
    let ghost seen0 = seen@;
    if !seen.insert(key) {
        return;
    }
    proof {
        if keys_identify(game) {
            lemma_closed_mono(game, seen0, open, seen@, open.insert(key));
            assert forall|k: u64| #[trigger] seen@.contains(k) implies open.insert(key).contains(k) || key_closed(
                game,
                k,
                seen@,
            ) by {
                if k != key {
                    assert(seen0.contains(k));
                }
            }
        }
    }
    let mut legal = Vec::new();
    game.legal_moves(state, &mut legal);
    let mut child_values: Vec<Wdl> = Vec::new();
    let mut i: usize = 0;
    while i < legal.len()
        invariant
            m0 == game.model(old(state)),
            solvable(game, m0),
            game.result(m0) is None,
            game.model(state) == m0,
            legal@ == game.moves(m0),
            i <= legal@.len(),
            child_values@.len() == i,
            exact ==> keys_faithful(game) && memo_sound(game, solver.memo_view()),
            exact ==> forall|j: int| 0 <= j < i ==> #[trigger] child_values@[j] == child_value(game, m0, j),
        decreases legal@.len() - i,
    {
        let mv = legal[i];
        proof {
            assert(game.moves(m0).contains(mv)) by {
                assert(game.moves(m0)[i as int] == mv);
            }
            game.lemma_step(m0, mv);
        }
        let undo = game.make_move(state, mv);
        let v = solver.solve(game, state).flip();
        proof {
            assert(game.next(m0, mv) == game.model(state));
        }
        game.unmake_move(state, mv, undo);
        child_values.push(v);
        i += 1;
    }
    proof {
        game.lemma_live_has_moves(m0);
    }
    let mut value = child_values[0];
    proof {
        assert(best_child(game, m0, 0) == Wdl::Loss);
        if exact {
            assert(child_values@[0] == child_value(game, m0, 0));
        }
    }
    let mut j: usize = 1;
    while j < child_values.len()
        invariant
            solvable(game, m0),
            game.result(m0) is None,
            child_values@.len() == game.moves(m0).len(),
            1 <= j <= child_values@.len(),
            exact ==> forall|t: int| 0 <= t < child_values@.len() ==> #[trigger] child_values@[t] == child_value(game, m0, t),
            exact ==> value == best_child(game, m0, j as int),
        decreases child_values@.len() - j,
    {
        value = value.better(child_values[j]);
        j += 1;
    }
    let snapshot = game.clone_state(state);
    let moves = copy_moves(&legal);
    let ghost n0 = old(out)@.len();
    let ghost seen_mid = seen@;
    out.push(SolvedPosition { state: snapshot, ply, value, legal, child_values });
    proof {
        assert(solved_entry_ok(game, out@[n0 as int], exact));
        assert forall|i: int| 0 <= i < out@.len() implies #[trigger] solved_entry_ok(game, out@[i], exact) by {
            if i < n0 {
                assert(out@[i] == old(out)@[i]);
            }
        }
        assert forall|i: int| 0 <= i < out@.len() implies seen@.contains(#[trigger] entry_key(game, out@[i])) by {
            if i < n0 {
                assert(out@[i] == old(out)@[i]);
            }
        }
        assert forall|i: int, j: int| 0 <= i < j < out@.len() implies #[trigger] entry_key(game, out@[i]) != #[trigger] entry_key(game, out@[j]) by {
            assert(out@[i] == old(out)@[i]);
            if j < n0 {
                assert(out@[j] == old(out)@[j]);
            } else {
                assert(old(seen)@.contains(entry_key(game, old(out)@[i])));
            }
        }
        assert(out@.subrange(0, n0 as int) =~= old(out)@);
    }
    let mut k: usize = 0;
    while k < moves.len()
        invariant
            m0 == game.model(old(state)),
            solvable(game, m0),
            game.result(m0) is None,
            game.model(state) == m0,
            moves@ == game.moves(m0),
            k <= moves@.len(),
            ply + game.height(m0) <= 0xffff_ffff,
            n0 == old(out)@.len(),
            exact ==> keys_faithful(game) && memo_sound(game, solver.memo_view()),
            entries_ok(game, out@, seen@, exact),
            old(seen)@.subset_of(seen@),
            seen@.contains(game.key(m0)),
            !old(seen)@.contains(game.key(m0)),
            out@.len() > n0,
            out@.subrange(0, n0 as int) == old(out)@,
            game.model(&out@[n0 as int].state) == m0,
            out@[n0 as int].ply == ply,
            forall|i: int| n0 <= i < out@.len() ==> !old(seen)@.contains(#[trigger] entry_key(game, out@[i])),
            keys_identify(game) ==> seen_closed(game, seen@, open.insert(game.key(m0))),
            forall|j: int|
                0 <= j < k && game.result(#[trigger] game.next(m0, game.moves(m0)[j])) is None ==> seen@.contains(
                    game.key(game.next(m0, game.moves(m0)[j])),
                ),
            forall|kk: u64|
                #[trigger] seen@.contains(kk) && !old(seen)@.contains(kk) ==> exists|i: int|
                    n0 <= i < out@.len() && entry_key(game, out@[i]) == kk,
        decreases moves@.len() - k,
    {
        let mv = moves[k];
        proof {
            assert(game.moves(m0).contains(mv)) by {
                assert(game.moves(m0)[k as int] == mv);
            }
            game.lemma_step(m0, mv);
            game.lemma_height_decreases(m0, mv);
        }
        let ghost out_k = out@;
        let ghost seen_k = seen@;
        let undo = game.make_move(state, mv);
        enumerate_from(game, solver, state, ply + 1, seen, out, Ghost(exact), Ghost(open.insert(game.key(m0))));
        proof {
            assert(game.next(m0, mv) == game.model(state));
            assert forall|i: int| 0 <= i < out_k.len() implies out@[i] == out_k[i] by {
                assert(out@.subrange(0, out_k.len() as int)[i] == out_k[i]);
            }
            assert(out@.subrange(0, n0 as int) =~= old(out)@) by {
                assert(out_k.subrange(0, n0 as int) == old(out)@);
            }
            assert forall|i: int| n0 <= i < out@.len() implies !old(seen)@.contains(#[trigger] entry_key(game, out@[i])) by {
                if i < out_k.len() {
                    assert(out@[i] == out_k[i]);
                } else {
                    assert(!seen_k.contains(entry_key(game, out@[i])));
                }
            }
            assert(out@[n0 as int] == out_k[n0 as int]);
            assert forall|j: int|
                0 <= j <= k && game.result(#[trigger] game.next(m0, game.moves(m0)[j])) is None implies seen@.contains(
                game.key(game.next(m0, game.moves(m0)[j])),
            ) by {
                if j < k {
                    assert(seen_k.contains(game.key(game.next(m0, game.moves(m0)[j]))));
                }
            }
            assert forall|kk: u64|
                #[trigger] seen@.contains(kk) && !old(seen)@.contains(kk) implies exists|i: int|
                    n0 <= i < out@.len() && entry_key(game, out@[i]) == kk by {
                if seen_k.contains(kk) {
                    let i = choose|i: int| n0 <= i < out_k.len() && entry_key(game, out_k[i]) == kk;
                    assert(out@[i] == out_k[i]);
                } else {
                    let i = choose|i: int| out_k.len() <= i < out@.len() && entry_key(game, out@[i]) == kk;
                }
            }
        }
        game.unmake_move(state, mv, undo);
        k += 1;
    }
    proof {
        if keys_identify(game) {
            let k0 = game.key(m0);
            assert(key_closed(game, k0, seen@)) by {
                assert forall|m: G::Model, i: int|
                    #![trigger game.key(m), game.next(m, game.moves(m)[i])]
                    game.valid(m) && game.result(m) is None && game.key(m) == k0 && 0 <= i < game.moves(m).len()
                        && game.result(game.next(m, game.moves(m)[i])) is None implies seen@.contains(
                    game.key(game.next(m, game.moves(m)[i])),
                ) by {
                    assert(game.key(m) == game.key(m0));
                    assert(m == m0);
                }
            }
            assert forall|kk: u64| #[trigger] seen@.contains(kk) implies open.contains(kk) || key_closed(game, kk, seen@) by {
                if kk != k0 {
                    assert(open.insert(k0).contains(kk) || key_closed(game, kk, seen@));
                }
            }
        }
    }
}

/// A copy of a move list.
fn copy_moves<M: Copy>(v: &Vec<M>) -> (r: Vec<M>)
    ensures
        r@ == v@,
{
    let mut r: Vec<M> = Vec::new();
    let mut i: usize = 0;
    while i < v.len()
        invariant
            i <= v@.len(),
            r@ == v@.subrange(0, i as int),
        decreases v@.len() - i,
    {
        r.push(v[i]);
        i += 1;
        assert(r@ =~= v@.subrange(0, i as int));
    }
    assert(r@ =~= v@);
    r
}


// ---------------------------------------------------------------------
// Retrograde analysis of a finite position graph
// ---------------------------------------------------------------------

/// Occurrences of `x` in `s`.
pub open spec fn count_in(s: Seq<u32>, x: u32) -> nat
    decreases s.len(),
{
    if s.len() == 0 {
        0
    } else {
        count_in(s.drop_last(), x) + if s.last() == x {
            1nat
        } else {
            0nat
        }
    }
}

/// Best flipped value over the successors `es[0..k]` (`Loss` when none).
pub open spec fn edge_best(values: Seq<Wdl>, es: Seq<u32>, k: int) -> Wdl
    decreases k,
{
    if k <= 0 {
        Wdl::Loss
    } else {
        wdl_max(edge_best(values, es, k - 1), values[es[k - 1] as int].flipped())
    }
}

/// Best flipped value over the successors in `es[0..k]` marked `done`.
pub open spec fn done_best(vals: Seq<Wdl>, es: Seq<u32>, done: Seq<bool>, k: int) -> Wdl
    decreases k,
{
    if k <= 0 {
        Wdl::Loss
    } else if done[es[k - 1] as int] {
        wdl_max(done_best(vals, es, done, k - 1), vals[es[k - 1] as int].flipped())
    } else {
        done_best(vals, es, done, k - 1)
    }
}

/// Successors in `es[0..k]` not marked `done`.
pub open spec fn undone(es: Seq<u32>, done: Seq<bool>, k: int) -> nat
    decreases k,
{
    if k <= 0 {
        0
    } else {
        undone(es, done, k - 1) + if done[es[k - 1] as int] {
            0nat
        } else {
            1nat
        }
    }
}

/// Number of resolved entries.
pub open spec fn resolved_count(values: Seq<Option<Wdl>>, k: int) -> nat
    decreases k,
{
    if k <= 0 {
        0
    } else {
        resolved_count(values, k - 1) + if values[k - 1] is Some {
            1nat
        } else {
            0nat
        }
    }
}

/// The graph's edges point inside it, terminal nodes have no edges and
/// live nodes have at least one.
pub open spec fn graph_ok(edges: Seq<Seq<u32>>, terminal: Seq<Option<Wdl>>) -> bool {
    &&& edges.len() == terminal.len()
    &&& edges.len() <= 0xffff_ffff
    &&& forall|i: int| 0 <= i < edges.len() ==> #[trigger] edges[i].len() <= 0xffff_ffff
    &&& forall|i: int, j: int|
        0 <= i < edges.len() && 0 <= j < edges[i].len() ==> (#[trigger] edges[i][j]) < edges.len()
    &&& forall|i: int| 0 <= i < edges.len() ==> (terminal[i] is Some <==> #[trigger] edges[i].len() == 0)
}

/// Retrograde values: terminal nodes keep their value; every other node
/// takes the best flipped value of its successors.
pub open spec fn retro_fixed_point(
    edges: Seq<Seq<u32>>,
    terminal: Seq<Option<Wdl>>,
    values: Seq<Wdl>,
) -> bool {
    &&& values.len() == edges.len()
    &&& forall|i: int|
        0 <= i < edges.len() ==> #[trigger] values[i] == match terminal[i] {
            Some(v) => v,
            None => edge_best(values, edges[i], edges[i].len() as int),
        }
}

/// Every win and every loss is forced in finitely many plies: a win has a
/// lower-ranked losing successor, a loss only lower-ranked winning
/// successors. (Cycles that neither side can break stay draws.)
pub open spec fn retro_well_founded(
    edges: Seq<Seq<u32>>,
    terminal: Seq<Option<Wdl>>,
    values: Seq<Wdl>,
    rank: Seq<nat>,
) -> bool {
    &&& rank.len() == edges.len()
    &&& forall|i: int|
        0 <= i < edges.len() && terminal[i] is None && #[trigger] values[i] == Wdl::Win ==> exists|j: int|
            0 <= j < edges[i].len() && values[edges[i][j] as int] == Wdl::Loss && rank[edges[i][j] as int]
                < rank[i]
    &&& forall|i: int, j: int|
        0 <= i < edges.len() && terminal[i] is None && values[i] == Wdl::Loss && 0 <= j
            < edges[i].len() ==> values[#[trigger] edges[i][j] as int] == Wdl::Win && rank[edges[i][j] as int]
            < rank[i]
}


/// Backward induction solved the graph: the values are a fixed point and
/// every decisive value is well-founded.
#[verifier::opaque]
pub open spec fn retro_solved(edges: Seq<Seq<u32>>, terminal: Seq<Option<Wdl>>, values: Seq<Wdl>) -> bool {
    &&& retro_fixed_point(edges, terminal, values)
    &&& exists|rank: Seq<nat>| retro_well_founded(edges, terminal, values, rank)
}

proof fn lemma_count_push(s: Seq<u32>, x: u32, q: u32)
    ensures
        count_in(s.push(x), q) == count_in(s, q) + if x == q {
            1nat
        } else {
            0nat
        },
{
    assert(s.push(x).drop_last() =~= s);
}

proof fn lemma_count_take_step(s: Seq<u32>, t: int, q: u32)
    requires
        0 <= t < s.len(),
    ensures
        count_in(s.take(t + 1), q) == count_in(s.take(t), q) + if s[t] == q {
            1nat
        } else {
            0nat
        },
{
    assert(s.take(t + 1).drop_last() =~= s.take(t));
}

proof fn lemma_count_take_all(s: Seq<u32>, q: u32)
    ensures
        count_in(s.take(s.len() as int), q) == count_in(s, q),
{
    assert(s.take(s.len() as int) =~= s);
}

proof fn lemma_count_take_le(s: Seq<u32>, t: int, q: u32)
    requires
        0 <= t <= s.len(),
    ensures
        count_in(s.take(t), q) <= count_in(s, q),
    decreases s.len() - t,
{
    if t < s.len() {
        lemma_count_take_step(s, t, q);
        lemma_count_take_le(s, t + 1, q);
    } else {
        lemma_count_take_all(s, q);
    }
}

/// A positive count has a witness index, a zero count none.
proof fn lemma_count_witness(s: Seq<u32>, q: u32)
    ensures
        count_in(s, q) > 0 <==> exists|j: int| 0 <= j < s.len() && s[j] == q,
    decreases s.len(),
{
    if s.len() > 0 {
        lemma_count_witness(s.drop_last(), q);
        if exists|j: int| 0 <= j < s.drop_last().len() && s.drop_last()[j] == q {
            let j = choose|j: int| 0 <= j < s.drop_last().len() && s.drop_last()[j] == q;
            assert(s[j] == q);
        }
        if exists|j: int| 0 <= j < s.len() && s[j] == q {
            let j = choose|j: int| 0 <= j < s.len() && s[j] == q;
            if j < s.len() - 1 {
                assert(s.drop_last()[j] == q);
            }
        }
    }
}

/// Marking `c` done moves its occurrences from `undone` into `done_best`.
proof fn lemma_mark_done(vals: Seq<Wdl>, es: Seq<u32>, done: Seq<bool>, c: u32, k: int)
    requires
        0 <= k <= es.len(),
        0 <= c < done.len(),
        !done[c as int],
        forall|j: int| 0 <= j < es.len() ==> es[j] < done.len(),
    ensures
        undone(es, done, k) == undone(es, done.update(c as int, true), k) + count_in(es.take(k), c),
        count_in(es.take(k), c) > 0 ==> done_best(vals, es, done.update(c as int, true), k) == wdl_max(
            done_best(vals, es, done, k),
            vals[c as int].flipped(),
        ),
        count_in(es.take(k), c) == 0 ==> done_best(vals, es, done.update(c as int, true), k)
            == done_best(vals, es, done, k),
    decreases k,
{
    if k > 0 {
        lemma_mark_done(vals, es, done, c, k - 1);
        lemma_count_take_step(es, k - 1, c);
        lemma_count_take_le(es, k - 1, c);
    }
}

/// `done_best` dominates every done successor.
proof fn lemma_done_best_dominates(vals: Seq<Wdl>, es: Seq<u32>, done: Seq<bool>, k: int, j: int)
    requires
        0 <= j < k <= es.len(),
        done[es[j] as int],
    ensures
        vals[es[j] as int].flipped().rank() <= done_best(vals, es, done, k).rank(),
    decreases k,
{
    if j < k - 1 {
        lemma_done_best_dominates(vals, es, done, k - 1, j);
    }
}

/// `done_best` is the rank-maximum of the done successors (or `Loss`).
proof fn lemma_done_best_bounded(vals: Seq<Wdl>, es: Seq<u32>, done: Seq<bool>, k: int, bound: Wdl)
    requires
        0 <= k <= es.len(),
        forall|j: int| 0 <= j < k && done[es[j] as int] ==> vals[es[j] as int].flipped().rank() <= bound.rank(),
    ensures
        done_best(vals, es, done, k).rank() <= bound.rank(),
    decreases k,
{
    if k > 0 {
        lemma_done_best_bounded(vals, es, done, k - 1, bound);
    }
}

/// With every successor done, `done_best` is `edge_best`.
proof fn lemma_done_best_all(vals: Seq<Wdl>, es: Seq<u32>, done: Seq<bool>, k: int)
    requires
        0 <= k <= es.len(),
        forall|j: int| 0 <= j < k ==> done[es[j] as int],
    ensures
        done_best(vals, es, done, k) == edge_best(vals, es, k),
    decreases k,
{
    if k > 0 {
        lemma_done_best_all(vals, es, done, k - 1);
    }
}

/// No undone successor means every successor is done.
proof fn lemma_undone_zero(es: Seq<u32>, done: Seq<bool>, k: int)
    requires
        0 <= k <= es.len(),
    ensures
        undone(es, done, k) == 0 ==> forall|j: int| 0 <= j < k ==> done[es[j] as int],
        undone(es, done, k) > 0 ==> exists|j: int| 0 <= j < k && !done[es[j] as int],
    decreases k,
{
    if k > 0 {
        lemma_undone_zero(es, done, k - 1);
        if undone(es, done, k - 1) > 0 {
            let j = choose|j: int| 0 <= j < k - 1 && !done[es[j] as int];
            assert(0 <= j < k && !done[es[j] as int]);
        }
    }
}

/// Changing a value outside the done successors leaves `done_best` alone.
proof fn lemma_done_best_frame(vals: Seq<Wdl>, es: Seq<u32>, done: Seq<bool>, k: int, x: int, w: Wdl)
    requires
        0 <= k <= es.len(),
        0 <= x < vals.len(),
        !done[x],
        forall|j: int| 0 <= j < k ==> es[j] < vals.len(),
    ensures
        done_best(vals.update(x, w), es, done, k) == done_best(vals, es, done, k),
    decreases k,
{
    if k > 0 {
        lemma_done_best_frame(vals, es, done, k - 1, x, w);
    }
}

/// Changing a value that no successor refers to leaves `edge_best` alone.
proof fn lemma_edge_best_frame(vals: Seq<Wdl>, es: Seq<u32>, k: int, x: int, w: Wdl)
    requires
        0 <= k <= es.len(),
        0 <= x < vals.len(),
        forall|j: int| 0 <= j < k ==> es[j] != x && es[j] < vals.len(),
    ensures
        edge_best(vals.update(x, w), es, k) == edge_best(vals, es, k),
    decreases k,
{
    if k > 0 {
        lemma_edge_best_frame(vals, es, k - 1, x, w);
    }
}

/// `edge_best` dominates each successor and is attained by one (or is
/// `Loss` with no successors).
proof fn lemma_edge_best_max(vals: Seq<Wdl>, es: Seq<u32>, k: int)
    requires
        0 <= k <= es.len(),
    ensures
        forall|j: int| 0 <= j < k ==> vals[es[j] as int].flipped().rank() <= #[trigger] edge_best(vals, es, k).rank(),
        k > 0 ==> exists|j: int| 0 <= j < k && vals[es[j] as int].flipped() == edge_best(vals, es, k),
        edge_best(vals, es, k) == Wdl::Loss || k > 0,
    decreases k,
{
    if k > 0 {
        lemma_edge_best_max(vals, es, k - 1);
        if k > 1 && edge_best(vals, es, k) != vals[es[k - 1] as int].flipped() {
            let j = choose|j: int| 0 <= j < k - 1 && vals[es[j] as int].flipped() == edge_best(vals, es, k - 1);
            assert(0 <= j < k && vals[es[j] as int].flipped() == edge_best(vals, es, k));
        }
    }
}

proof fn lemma_resolved_count_update(values: Seq<Option<Wdl>>, x: int, w: Wdl, k: int)
    requires
        0 <= x < values.len(),
        0 <= k <= values.len(),
        values[x] is None,
    ensures
        resolved_count(values.update(x, Some(w)), k) == resolved_count(values, k) + if x < k {
            1nat
        } else {
            0nat
        },
    decreases k,
{
    if k > 0 {
        lemma_resolved_count_update(values, x, w, k - 1);
    }
}

proof fn lemma_resolved_count_prefix(a: Seq<Option<Wdl>>, b: Seq<Option<Wdl>>, k: int)
    requires
        0 <= k <= a.len(),
        k <= b.len(),
        forall|i: int| 0 <= i < k ==> a[i] == b[i],
    ensures
        resolved_count(a, k) == resolved_count(b, k),
    decreases k,
{
    if k > 0 {
        lemma_resolved_count_prefix(a, b, k - 1);
    }
}

proof fn lemma_resolved_count_bound(values: Seq<Option<Wdl>>, k: int)
    requires
        0 <= k <= values.len(),
    ensures
        resolved_count(values, k) <= k,
        resolved_count(values, k) == k ==> forall|x: int| 0 <= x < k ==> values[x] is Some,
    decreases k,
{
    if k > 0 {
        lemma_resolved_count_bound(values, k - 1);
    }
}

/// Values of resolved nodes, `Draw` for the rest.
pub open spec fn settled(values: Seq<Option<Wdl>>) -> Seq<Wdl> {
    values.map_values(|o: Option<Wdl>| match o {
        Some(v) => v,
        None => Wdl::Draw,
    })
}

pub open spec fn edges_view(edges: Seq<Vec<u32>>) -> Seq<Seq<u32>> {
    edges.map_values(|v: Vec<u32>| v@)
}


proof fn lemma_undone_all_open(es: Seq<u32>, done: Seq<bool>, k: int)
    requires
        0 <= k <= es.len(),
        forall|j: int| 0 <= j < k ==> es[j] < done.len(),
        forall|x: int| 0 <= x < done.len() ==> !done[x],
    ensures
        undone(es, done, k) == k,
    decreases k,
{
    if k > 0 {
        lemma_undone_all_open(es, done, k - 1);
    }
}

proof fn lemma_done_best_none(vals: Seq<Wdl>, es: Seq<u32>, done: Seq<bool>, k: int)
    requires
        0 <= k <= es.len(),
        forall|j: int| 0 <= j < k ==> es[j] < done.len(),
        forall|x: int| 0 <= x < done.len() ==> !done[x],
    ensures
        done_best(vals, es, done, k) == Wdl::Loss,
    decreases k,
{
    if k > 0 {
        lemma_done_best_none(vals, es, done, k - 1);
    }
}

/// Resolving the unresolved, not-done node `x` changes no `done_best`
/// and no `edge_best` of a node whose successors were all resolved.
proof fn lemma_retro_frame(
    e: Seq<Seq<u32>>,
    vb: Seq<Option<Wdl>>,
    x: int,
    w: Wdl,
    done: Seq<bool>,
    done2: Seq<bool>,
)
    requires
        e.len() == vb.len(),
        done.len() == vb.len(),
        done2.len() == vb.len(),
        0 <= x < vb.len(),
        vb[x] is None,
        !done[x],
        !done2[x],
        forall|i: int, j: int| 0 <= i < e.len() && 0 <= j < e[i].len() ==> (#[trigger] e[i][j]) < e.len(),
    ensures
        settled(vb.update(x, Some(w))) == settled(vb).update(x, w),
        forall|q: int|
            0 <= q < e.len() ==> #[trigger] done_best(settled(vb.update(x, Some(w))), e[q], done, e[q].len() as int)
                == done_best(settled(vb), e[q], done, e[q].len() as int),
        forall|q: int|
            0 <= q < e.len() ==> #[trigger] done_best(settled(vb.update(x, Some(w))), e[q], done2, e[q].len() as int)
                == done_best(settled(vb), e[q], done2, e[q].len() as int),
        forall|q: int|
            0 <= q < e.len() && (forall|j: int| 0 <= j < e[q].len() ==> vb[#[trigger] e[q][j] as int] is Some)
                ==> #[trigger] edge_best(settled(vb.update(x, Some(w))), e[q], e[q].len() as int)
                == edge_best(settled(vb), e[q], e[q].len() as int),
{
    let sb = settled(vb);
    assert(settled(vb.update(x, Some(w))) =~= sb.update(x, w));
    assert forall|q: int| 0 <= q < e.len() implies #[trigger] done_best(settled(vb.update(x, Some(w))), e[q], done, e[q].len() as int)
        == done_best(sb, e[q], done, e[q].len() as int) by {
        lemma_done_best_frame(sb, e[q], done, e[q].len() as int, x, w);
    }
    assert forall|q: int| 0 <= q < e.len() implies #[trigger] done_best(settled(vb.update(x, Some(w))), e[q], done2, e[q].len() as int)
        == done_best(sb, e[q], done2, e[q].len() as int) by {
        lemma_done_best_frame(sb, e[q], done2, e[q].len() as int, x, w);
    }
    assert forall|q: int|
        0 <= q < e.len() && (forall|j: int| 0 <= j < e[q].len() ==> vb[#[trigger] e[q][j] as int] is Some)
        implies #[trigger] edge_best(settled(vb.update(x, Some(w))), e[q], e[q].len() as int)
        == edge_best(sb, e[q], e[q].len() as int) by {
        assert forall|j: int| 0 <= j < e[q].len() implies e[q][j] != x && e[q][j] < sb.len() by {
            assert(vb[e[q][j] as int] is Some);
        }
        lemma_edge_best_frame(sb, e[q], e[q].len() as int, x, w);
    }
}

proof fn lemma_retro_final_at(
    e: Seq<Seq<u32>>,
    terminal: Seq<Option<Wdl>>,
    values: Seq<Option<Wdl>>,
    done: Seq<bool>,
    qpos: Seq<int>,
    best: Seq<Wdl>,
    pending: Seq<u32>,
    head: int,
    queue: Seq<u32>,
    i: int,
)
    requires
        0 <= i < e.len(),
        retro_done(e, terminal, values, done, qpos, best, pending, head, queue),
    ensures
        settled(values)[i] == match terminal[i] {
            Some(v) => v,
            None => edge_best(settled(values), e[i], e[i].len() as int),
        },
{
    reveal(retro_done);
    let sv = settled(values);
    {
        let len = e[i].len() as int;
        if terminal[i] is None {
            lemma_edge_best_max(sv, e[i], len);
            if values[i] == Some(Wdl::Win) {
                let j = choose|j: int|
                    0 <= j < e[i].len() && values[e[i][j] as int] == Some(Wdl::Loss) && qpos[e[i][j] as int] < qpos[i];
                assert(sv[e[i][j] as int].flipped() == Wdl::Win);
            } else if values[i] is None {
                lemma_undone_zero(e[i], done, len);
                let c = choose|j: int| 0 <= j < len && !done[e[i][j] as int];
                assert(values[e[i][c] as int] is None);
                let j0 = choose|j: int| 0 <= j < len && sv[e[i][j] as int].flipped() == edge_best(sv, e[i], len);
                if done[e[i][j0] as int] {
                    lemma_done_best_dominates(sv, e[i], done, len, j0);
                }
            }
        }
    }
}

/// Resolution facts that rank the forced results.
spec fn retro_rank_facts(
    e: Seq<Seq<u32>>,
    terminal: Seq<Option<Wdl>>,
    values: Seq<Option<Wdl>>,
    qpos: Seq<int>,
) -> bool {
    &&& graph_ok(e, terminal)
    &&& values.len() == e.len()
    &&& qpos.len() == e.len()
    &&& forall|x: int| 0 <= x < e.len() && (#[trigger] values[x]) is Some ==> 0 <= qpos[x]
    &&& forall|x: int|
                0 <= x < e.len() && terminal[x] is None && (#[trigger] values[x]) == Some(Wdl::Win) ==> exists|j: int|
                    0 <= j < e[x].len() && values[e[x][j] as int] == Some(Wdl::Loss) && qpos[e[x][j] as int] < qpos[x]
    &&& forall|x: int|
                0 <= x < e.len() && terminal[x] is None && (#[trigger] values[x]) is Some && values[x] != Some(
                    Wdl::Win,
                ) ==> {
                    &&& forall|j: int|
                        0 <= j < e[x].len() ==> values[#[trigger] e[x][j] as int] is Some && qpos[e[x][j] as int] < qpos[x]
                    &&& values[x] == Some(edge_best(settled(values), e[x], e[x].len() as int))
                }
}

/// State of backward induction once the queue is exhausted.
#[verifier::opaque]
spec fn retro_done(
    e: Seq<Seq<u32>>,
    terminal: Seq<Option<Wdl>>,
    values: Seq<Option<Wdl>>,
    done: Seq<bool>,
    qpos: Seq<int>,
    best: Seq<Wdl>,
    pending: Seq<u32>,
    head: int,
    queue: Seq<u32>,
) -> bool {
    &&& graph_ok(e, terminal)
    &&& values.len() == e.len()
    &&& best.len() == e.len()
    &&& pending.len() == e.len()
    &&& qpos.len() == e.len()
    &&& done.len() == e.len()
    &&& head == queue.len()
    &&& forall|x: int|
                0 <= x < e.len() && (#[trigger] values[x]) is Some ==> 0 <= qpos[x] < queue.len() && queue[qpos[x]] == x
    &&& forall|x: int| 0 <= x < e.len() ==> #[trigger] done[x] == (values[x] is Some && qpos[x] < head)
    &&& forall|x: int| 0 <= x < e.len() && (#[trigger] terminal[x]) is Some ==> values[x] == terminal[x]
    &&& forall|q: int|
                0 <= q < e.len() && (#[trigger] values[q]) is None ==> {
                    &&& terminal[q] is None
                    &&& pending[q] > 0
                    &&& pending[q] == undone(e[q], done, e[q].len() as int)
                    &&& best[q] == done_best(settled(values), e[q], done, e[q].len() as int)
                    &&& best[q] != Wdl::Win
                }
    &&& forall|x: int|
                0 <= x < e.len() && terminal[x] is None && (#[trigger] values[x]) == Some(Wdl::Win) ==> exists|j: int|
                    0 <= j < e[x].len() && values[e[x][j] as int] == Some(Wdl::Loss) && qpos[e[x][j] as int] < qpos[x]
    &&& forall|x: int|
                0 <= x < e.len() && terminal[x] is None && (#[trigger] values[x]) is Some && values[x] != Some(
                    Wdl::Win,
                ) ==> {
                    &&& forall|j: int|
                        0 <= j < e[x].len() ==> values[#[trigger] e[x][j] as int] is Some && qpos[e[x][j] as int] < qpos[x]
                    &&& values[x] == Some(edge_best(settled(values), e[x], e[x].len() as int))
                }
}

/// Resolution order ranks every forced win and loss.
proof fn lemma_retro_rank(
    e: Seq<Seq<u32>>,
    terminal: Seq<Option<Wdl>>,
    values: Seq<Option<Wdl>>,
    qpos: Seq<int>,
    rank: Seq<nat>,
)
    requires
        retro_rank_facts(e, terminal, values, qpos),
        rank == Seq::new(e.len() as nat, |i: int| if values[i] is Some { qpos[i] as nat } else { 0nat }),
    ensures
        retro_well_founded(e, terminal, settled(values), rank),
{
    let sv = settled(values);
    let n = e.len();
    assert forall|i: int|
        0 <= i < n && terminal[i] is None && #[trigger] sv[i] == Wdl::Win implies exists|j: int|
            0 <= j < e[i].len() && sv[e[i][j] as int] == Wdl::Loss && rank[e[i][j] as int] < rank[i] by {
        assert(values[i] == Some(Wdl::Win));
        let j = choose|j: int|
            0 <= j < e[i].len() && values[e[i][j] as int] == Some(Wdl::Loss) && qpos[e[i][j] as int] < qpos[i];
        assert(sv[e[i][j] as int] == Wdl::Loss && rank[e[i][j] as int] < rank[i]);
    }
    assert forall|i: int, j: int|
        0 <= i < n && terminal[i] is None && sv[i] == Wdl::Loss && 0 <= j < e[i].len() implies sv[#[trigger] e[i][j] as int]
        == Wdl::Win && rank[e[i][j] as int] < rank[i] by {
        assert(values[i] == Some(Wdl::Loss));
        lemma_edge_best_max(sv, e[i], e[i].len() as int);
        assert(values[e[i][j] as int] is Some);
    }
}

proof fn lemma_retro_done_ranks(
    e: Seq<Seq<u32>>,
    terminal: Seq<Option<Wdl>>,
    values: Seq<Option<Wdl>>,
    done: Seq<bool>,
    qpos: Seq<int>,
    best: Seq<Wdl>,
    pending: Seq<u32>,
    head: int,
    queue: Seq<u32>,
)
    requires
        retro_done(e, terminal, values, done, qpos, best, pending, head, queue),
    ensures
        retro_rank_facts(e, terminal, values, qpos),
{
    reveal(retro_done);
}

/// Once the queue is exhausted the resolved values, with draws for the
/// rest, are a well-founded fixed point.
proof fn lemma_retro_final(
    e: Seq<Seq<u32>>,
    terminal: Seq<Option<Wdl>>,
    values: Seq<Option<Wdl>>,
    done: Seq<bool>,
    qpos: Seq<int>,
    best: Seq<Wdl>,
    pending: Seq<u32>,
    head: int,
    queue: Seq<u32>,
)
    requires
        retro_done(e, terminal, values, done, qpos, best, pending, head, queue),
        values.len() == e.len(),
    ensures
        retro_fixed_point(e, terminal, settled(values)),
        exists|rank: Seq<nat>| retro_well_founded(e, terminal, settled(values), rank),
{
    let sv = settled(values);
    let n = e.len();
    assert(retro_fixed_point(e, terminal, sv)) by {
        assert forall|i: int| 0 <= i < n implies #[trigger] sv[i] == match terminal[i] {
            Some(v) => v,
            None => edge_best(sv, e[i], e[i].len() as int),
        } by {
            lemma_retro_final_at(e, terminal, values, done, qpos, best, pending, head, queue, i);
        }
    }
    assert(exists|rank: Seq<nat>| retro_well_founded(e, terminal, sv, rank)) by {
        let rank = Seq::new(n as nat, |i: int| if values[i] is Some { qpos[i] as nat } else { 0nat });
        lemma_retro_done_ranks(e, terminal, values, done, qpos, best, pending, head, queue);
        lemma_retro_rank(e, terminal, values, qpos, rank);
    }
}

/// Backward induction over a finite position graph: `Win` propagates as
/// soon as a losing successor is known, `Loss` once every successor is a
/// known win, and whatever stays unresolved (cycles) is a draw.
fn backward_induction(edges: &Vec<Vec<u32>>, terminal: &Vec<Option<Wdl>>) -> (out: Vec<Wdl>)
    requires
        graph_ok(edges_view(edges@), terminal@),
    ensures
        retro_solved(edges_view(edges@), terminal@, out@),
{
    let ghost e = edges_view(edges@);
    let n = edges.len();
    assert(forall|i: int| 0 <= i < n ==> #[trigger] e[i] == edges@[i]@);
    let mut reverse: Vec<Vec<u32>> = Vec::new();
    let mut i: usize = 0;
    while i < n
        invariant
            i <= n,
            reverse@.len() == i,
            forall|c: int| 0 <= c < i ==> (#[trigger] reverse@[c])@ == Seq::<u32>::empty(),
        decreases n - i,
    {
        reverse.push(Vec::new());
        i += 1;
    }
    let mut pending: Vec<u32> = Vec::new();
    let mut parent: usize = 0;
    while parent < n
        invariant
            graph_ok(e, terminal@),
            e == edges_view(edges@),
            n == e.len(),
            forall|i: int| 0 <= i < n ==> #[trigger] e[i] == edges@[i]@,
            parent <= n,
            reverse@.len() == n,
            pending@.len() == parent,
            forall|c: int, q: u32|
                0 <= c < n && q < n ==> #[trigger] count_in(reverse@[c]@, q) == if q < parent {
                    count_in(e[q as int], c as u32)
                } else {
                    0
                },
            forall|c: int, t: int|
                0 <= c < n && 0 <= t < reverse@[c]@.len() ==> #[trigger] reverse@[c]@[t] < parent,
            forall|q: int| 0 <= q < parent ==> #[trigger] pending@[q] == e[q].len(),
        decreases n - parent,
    {
        pending.push(edges[parent].len() as u32);
        let ghost before = reverse@;
        let mut j: usize = 0;
        while j < edges[parent].len()
            invariant
                graph_ok(e, terminal@),
                e == edges_view(edges@),
                n == e.len(),
                forall|i: int| 0 <= i < n ==> #[trigger] e[i] == edges@[i]@,
                parent < n,
                j <= e[parent as int].len(),
                reverse@.len() == n,
                forall|c: int, q: u32|
                    0 <= c < n && q < n ==> #[trigger] count_in(reverse@[c]@, q) == if q < parent {
                        count_in(e[q as int], c as u32)
                    } else if q == parent {
                        count_in(e[parent as int].take(j as int), c as u32)
                    } else {
                        0
                    },
                forall|c: int, t: int|
                    0 <= c < n && 0 <= t < reverse@[c]@.len() ==> #[trigger] reverse@[c]@[t] <= parent,
            decreases e[parent as int].len() - j,
        {
            let c = edges[parent][j];
            assert(e[parent as int][j as int] == c);
            let ghost old_rev = reverse@;
            reverse[c as usize].push(parent as u32);
            proof {
                assert forall|cc: int, q: u32| 0 <= cc < n && q < n implies #[trigger] count_in(reverse@[cc]@, q) == if q < parent {
                    count_in(e[q as int], cc as u32)
                } else if q == parent {
                    count_in(e[parent as int].take(j + 1), cc as u32)
                } else {
                    0
                } by {
                    lemma_count_take_step(e[parent as int], j as int, cc as u32);
                    if cc == c {
                        lemma_count_push(old_rev[cc]@, parent as u32, q);
                    } else {
                        assert(reverse@[cc] == old_rev[cc]);
                    }
                }
                assert forall|cc: int, t: int| 0 <= cc < n && 0 <= t < reverse@[cc]@.len() implies #[trigger] reverse@[cc]@[t] <= parent by {
                    if cc == c {
                        if t < old_rev[cc]@.len() {
                            assert(reverse@[cc]@[t] == old_rev[cc]@[t]);
                        }
                    } else {
                        assert(reverse@[cc] == old_rev[cc]);
                    }
                }
            }
            j += 1;
        }
        proof {
            assert forall|cc: int, q: u32| 0 <= cc < n && q < n implies #[trigger] count_in(reverse@[cc]@, q) == if q < parent + 1 {
                count_in(e[q as int], cc as u32)
            } else {
                0
            } by {
                lemma_count_take_all(e[parent as int], cc as u32);
            }
        }
        parent += 1;
    }
    // Terminal positions are resolved first, in index order.
    let mut values: Vec<Option<Wdl>> = Vec::new();
    let mut queue: Vec<u32> = Vec::new();
    let ghost mut qpos: Seq<int> = Seq::new(n as nat, |i: int| 0int);
    let mut idx: usize = 0;
    while idx < n
        invariant
            graph_ok(e, terminal@),
            n == e.len(),
            idx <= n,
            values@.len() == idx,
            qpos.len() == n,
            queue@.len() == resolved_count(values@, idx as int),
            queue@.len() <= idx,
            forall|x: int| 0 <= x < idx ==> #[trigger] values@[x] == terminal@[x],
            forall|t: int|
                0 <= t < queue@.len() ==> #[trigger] queue@[t] < idx && qpos[queue@[t] as int] == t
                    && values@[queue@[t] as int] is Some,
            forall|x: int| 0 <= x < idx && (#[trigger] values@[x]) is Some ==> 0 <= qpos[x] < queue@.len() && queue@[qpos[x]] == x,
        decreases n - idx,
    {
        let ghost vbefore = values@;
        values.push(terminal[idx]);
        proof {
            lemma_resolved_count_prefix(vbefore, values@, idx as int);
        }
        if terminal[idx].is_some() {
            proof {
                qpos = qpos.update(idx as int, queue@.len() as int);
            }
            queue.push(idx as u32);
        }
        idx += 1;
    }
    let mut best: Vec<Wdl> = Vec::new();
    let mut idx: usize = 0;
    while idx < n
        invariant
            idx <= n,
            best@.len() == idx,
            forall|x: int| 0 <= x < idx ==> #[trigger] best@[x] == Wdl::Loss,
        decreases n - idx,
    {
        best.push(Wdl::Loss);
        idx += 1;
    }
    let ghost mut done: Seq<bool> = Seq::new(n as nat, |i: int| false);
    proof {
        lemma_resolved_count_bound(values@, n as int);
        assert forall|q: int| 0 <= q < n && (#[trigger] values@[q]) is None implies {
            &&& terminal@[q] is None
            &&& pending@[q] > 0
            &&& pending@[q] == undone(e[q], done, e[q].len() as int)
            &&& best@[q] == done_best(settled(values@), e[q], done, e[q].len() as int)
            &&& best@[q] != Wdl::Win
        } by {
            lemma_undone_all_open(e[q], done, e[q].len() as int);
            lemma_done_best_none(settled(values@), e[q], done, e[q].len() as int);
        }
    }
    let mut head: usize = 0;
    while head < queue.len()
        invariant
            graph_ok(e, terminal@),
            e == edges_view(edges@),
            n == e.len(),
            reverse@.len() == n,
            forall|c: int, q: u32|
                0 <= c < n && q < n ==> #[trigger] count_in(reverse@[c]@, q) == count_in(
                    e[q as int],
                    c as u32,
                ),
            forall|c: int, t: int|
                0 <= c < n && 0 <= t < reverse@[c]@.len() ==> #[trigger] reverse@[c]@[t] < n,
            values@.len() == n,
            pending@.len() == n,
            best@.len() == n,
            qpos.len() == n,
            done.len() == n,
            queue@.len() == resolved_count(values@, n as int),
            queue@.len() <= n,
            head <= queue@.len(),
            forall|t: int|
                0 <= t < queue@.len() ==> #[trigger] queue@[t] < n && values@[queue@[t] as int] is Some
                    && qpos[queue@[t] as int] == t,
            forall|x: int|
                0 <= x < n && (#[trigger] values@[x]) is Some ==> 0 <= qpos[x] < queue@.len()
                    && queue@[qpos[x]] == x,
            forall|x: int| 0 <= x < n ==> #[trigger] done[x] == (values@[x] is Some && qpos[x] < head),
            forall|x: int| 0 <= x < n && (#[trigger] terminal@[x]) is Some ==> values@[x] == terminal@[x],
            forall|q: int|
                0 <= q < n && (#[trigger] values@[q]) is None ==> {
                    &&& terminal@[q] is None
                    &&& pending@[q] > 0
                    &&& pending@[q] == undone(e[q], done, e[q].len() as int)
                    &&& best@[q] == done_best(settled(values@), e[q], done, e[q].len() as int)
                    &&& best@[q] != Wdl::Win
                },
            forall|x: int|
                0 <= x < n && terminal@[x] is None && (#[trigger] values@[x]) == Some(Wdl::Win)
                    ==> exists|j: int|
                    0 <= j < e[x].len() && values@[e[x][j] as int] == Some(Wdl::Loss) && qpos[e[x][j] as int]
                        < qpos[x],
            forall|x: int|
                0 <= x < n && terminal@[x] is None && (#[trigger] values@[x]) is Some && values@[x]
                    != Some(Wdl::Win) ==> {
                    &&& forall|j: int|
                        0 <= j < e[x].len() ==> values@[#[trigger] e[x][j] as int] is Some && qpos[e[x][j] as int]
                            < qpos[x]
                    &&& values@[x] == Some(edge_best(settled(values@), e[x], e[x].len() as int))
                },
        decreases n - head,
    {
        let child = queue[head];
        let gain = match values[child as usize] {
            Some(v) => v.flip(),
            None => Wdl::Draw,
        };
        let ghost done2 = done.update(child as int, true);
        let ghost r = reverse@[child as int]@;
        let rc = reverse[child as usize].len();
        proof {
            assert(r.take(0) =~= Seq::<u32>::empty());
            assert(!done[child as int]);
            assert forall|q: int| 0 <= q < n && (#[trigger] values@[q]) is None implies pending@[q] + count_in(r.take(0), q as u32)
                == undone(e[q], done2, e[q].len() as int) + count_in(r, q as u32) by {
                lemma_mark_done(settled(values@), e[q], done, child, e[q].len() as int);
                lemma_count_take_all(e[q], child);
            }
        }
        let mut t: usize = 0;
        while t < rc
            invariant
                graph_ok(e, terminal@),
                e == edges_view(edges@),
                n == e.len(),
                reverse@.len() == n,
                forall|c: int, q: u32|
                    0 <= c < n && q < n ==> #[trigger] count_in(reverse@[c]@, q) == count_in(
                        e[q as int],
                        c as u32,
                    ),
                forall|c: int, t: int|
                    0 <= c < n && 0 <= t < reverse@[c]@.len() ==> #[trigger] reverse@[c]@[t] < n,
                child < n,
                r == reverse@[child as int]@,
                rc == r.len(),
                t <= rc,
                values@.len() == n,
                pending@.len() == n,
                best@.len() == n,
                qpos.len() == n,
                done.len() == n,
                done2 == done.update(child as int, true),
                queue@.len() == resolved_count(values@, n as int),
                queue@.len() <= n,
                head < queue@.len(),
                queue@[head as int] == child,
                values@[child as int] is Some,
                gain == values@[child as int]->0.flipped(),
                forall|t: int|
                    0 <= t < queue@.len() ==> #[trigger] queue@[t] < n && values@[queue@[t] as int] is Some
                        && qpos[queue@[t] as int] == t,
                forall|x: int|
                    0 <= x < n && (#[trigger] values@[x]) is Some ==> 0 <= qpos[x] < queue@.len()
                        && queue@[qpos[x]] == x,
                forall|x: int| 0 <= x < n ==> #[trigger] done[x] == (values@[x] is Some && qpos[x] < head),
                forall|x: int| 0 <= x < n && (#[trigger] terminal@[x]) is Some ==> values@[x] == terminal@[x],
                forall|q: int|
                    0 <= q < n && (#[trigger] values@[q]) is None ==> {
                        &&& terminal@[q] is None
                        &&& pending@[q] > 0
                        &&& pending@[q] + count_in(r.take(t as int), q as u32) == undone(
                            e[q],
                            done2,
                            e[q].len() as int,
                        ) + count_in(r, q as u32)
                        &&& best@[q] == if count_in(r.take(t as int), q as u32) > 0 {
                            done_best(settled(values@), e[q], done2, e[q].len() as int)
                        } else {
                            done_best(settled(values@), e[q], done, e[q].len() as int)
                        }
                        &&& best@[q] != Wdl::Win
                    },
                forall|x: int|
                    0 <= x < n && terminal@[x] is None && (#[trigger] values@[x]) == Some(Wdl::Win)
                        ==> exists|j: int|
                        0 <= j < e[x].len() && values@[e[x][j] as int] == Some(Wdl::Loss)
                            && qpos[e[x][j] as int] < qpos[x],
                forall|x: int|
                    0 <= x < n && terminal@[x] is None && (#[trigger] values@[x]) is Some && values@[x]
                        != Some(Wdl::Win) ==> {
                        &&& forall|j: int|
                            0 <= j < e[x].len() ==> values@[#[trigger] e[x][j] as int] is Some
                                && qpos[e[x][j] as int] < qpos[x]
                        &&& values@[x] == Some(edge_best(settled(values@), e[x], e[x].len() as int))
                    },
            decreases rc - t,
        {
            let p = reverse[child as usize][t];
            let pu = p as usize;
            let ghost values0 = values@;
            let ghost best0 = best@;
            let ghost pending0 = pending@;
            proof {
                lemma_count_take_step(r, t as int, p);
                lemma_count_take_le(r, t as int + 1, p);
            }
            if values[pu].is_none() {
                let ghost vals0 = settled(values@);
                let ghost tcount = count_in(r.take(t as int), p);
                proof {
                    assert(!done[child as int]);
                    lemma_mark_done(vals0, e[pu as int], done, child, e[pu as int].len() as int);
                    lemma_count_take_all(e[pu as int], child);
                    assert(count_in(e[pu as int], child) == count_in(r, p));
                    lemma_count_witness(e[pu as int], child);
                    let jw = choose|j: int| 0 <= j < e[pu as int].len() && e[pu as int][j] == child;
                    lemma_done_best_dominates(vals0, e[pu as int], done2, e[pu as int].len() as int, jw);
                    assert(vals0[child as int] == values@[child as int]->0);
                }
                let nb = best[pu].better(gain);
                best.set(pu, nb);
                let np = pending[pu] - 1;
                pending.set(pu, np);
                if gain == Wdl::Win {
                    let ghost vbefore = values@;
                    proof {
                        lemma_resolved_count_update(values@, pu as int, Wdl::Win, n as int);
                        lemma_resolved_count_bound(values@.update(pu as int, Some(Wdl::Win)), n as int);
                    }
                    values.set(pu, Some(Wdl::Win));
                    proof {
                        qpos = qpos.update(pu as int, queue@.len() as int);
                    }
                    queue.push(p);
                    proof {
                        lemma_retro_frame(e, vbefore, pu as int, Wdl::Win, done, done2);
                        let jw = choose|j: int| 0 <= j < e[pu as int].len() && e[pu as int][j] == child;
                        assert(values@[e[pu as int][jw] as int] == Some(Wdl::Loss));
                    }
                } else if np == 0 {
                    let ghost vbefore = values@;
                    proof {
                        lemma_undone_zero(e[pu as int], done2, e[pu as int].len() as int);
                        lemma_done_best_all(vals0, e[pu as int], done2, e[pu as int].len() as int);
                        lemma_resolved_count_update(values@, pu as int, nb, n as int);
                        lemma_resolved_count_bound(values@.update(pu as int, Some(nb)), n as int);
                        assert forall|j: int| 0 <= j < e[pu as int].len() implies e[pu as int][j] != pu && e[pu as int][j] < n by {
                            assert(done2[e[pu as int][j] as int]);
                        }
                        lemma_edge_best_frame(vals0, e[pu as int], e[pu as int].len() as int, pu as int, nb);
                        assert(vals0.update(pu as int, nb) =~= settled(values@.update(pu as int, Some(nb))));
                    }
                    values.set(pu, Some(nb));
                    proof {
                        qpos = qpos.update(pu as int, queue@.len() as int);
                    }
                    queue.push(p);
                    proof {
                        lemma_retro_frame(e, vbefore, pu as int, nb, done, done2);
                        assert forall|j: int| 0 <= j < e[pu as int].len() implies values@[#[trigger] e[pu as int][j] as int] is Some && qpos[e[pu as int][j] as int] < qpos[pu as int] by {
                            assert(done2[e[pu as int][j] as int]);
                        }
                    }
                }
            }
            proof {
                assert forall|q: int| 0 <= q < n && (#[trigger] values@[q]) is None implies {
                    &&& terminal@[q] is None
                    &&& pending@[q] > 0
                    &&& pending@[q] + count_in(r.take(t + 1), q as u32) == undone(
                        e[q],
                        done2,
                        e[q].len() as int,
                    ) + count_in(r, q as u32)
                    &&& best@[q] == if count_in(r.take(t + 1), q as u32) > 0 {
                        done_best(settled(values@), e[q], done2, e[q].len() as int)
                    } else {
                        done_best(settled(values@), e[q], done, e[q].len() as int)
                    }
                    &&& best@[q] != Wdl::Win
                } by {
                    lemma_count_take_step(r, t as int, q as u32);
                    assert(values0[q] is None);
                    if q != pu {
                        assert(pending@[q] == pending0[q]);
                        assert(best@[q] == best0[q]);
                    }
                }
            }
            t += 1;
        }
        proof {
            lemma_count_take_all(r, 0);
            assert forall|q: int| 0 <= q < n && (#[trigger] values@[q]) is None implies {
                &&& pending@[q] == undone(e[q], done2, e[q].len() as int)
                &&& best@[q] == done_best(settled(values@), e[q], done2, e[q].len() as int)
            } by {
                lemma_count_take_all(r, q as u32);
                lemma_count_take_all(e[q], child);
                lemma_mark_done(settled(values@), e[q], done, child, e[q].len() as int);
            }
            assert forall|x: int| 0 <= x < n implies #[trigger] done2[x] == (values@[x] is Some && qpos[x] < head + 1) by {
                if values@[x] is Some && qpos[x] == head {
                    assert(queue@[head as int] == x);
                }
            }
            done = done2;
        }
        head += 1;
    }
    let mut out: Vec<Wdl> = Vec::new();
    let mut idx: usize = 0;
    while idx < n
        invariant
            idx <= n,
            values@.len() == n,
            out@ == settled(values@).take(idx as int),
        decreases n - idx,
    {
        let v = match values[idx] {
            Some(v) => v,
            None => Wdl::Draw,
        };
        out.push(v);
        idx += 1;
        assert(out@ =~= settled(values@).take(idx as int));
    }
    proof {
        let sv = settled(values@);
        assert(out@ =~= sv);
        assert(retro_done(e, terminal@, values@, done, qpos, best@, pending@, head as int, queue@)) by {
            reveal(retro_done);
        }
        lemma_retro_final(e, terminal@, values@, done, qpos, best@, pending@, head as int, queue@);
        reveal(retro_solved);
    }
    out
}


/// Solution of a repetition-capable ("loopy") game by reachable-graph
/// retrograde analysis. Positions are states deduplicated by
/// `position_key`; values are game-theoretic WDL from each position's
/// mover under the convention that unresolvable cycles are draws
/// (repetition-as-draw) and the fifty-move rule is ignored — the
/// standard tablebase caveat.
pub struct RetrogradeSolution<G: Game> {
    /// Reachable positions in discovery (BFS) order; index 0 is the
    /// initial position.
    pub states: Vec<G::State>,
    /// Value of each position for its side to move.
    pub values: Vec<Wdl>,
    /// `position_key` → index.
    pub index_of: HashMap<u64, u32>,
    /// Successor indices, aligned with `legal_moves` order; empty for
    /// terminal positions.
    pub edges: Vec<Vec<u32>>,
}

/// Terminal values of the stored positions (`None` for live ones).
pub open spec fn terminal_values<G: Game>(g: &G, states: Seq<G::State>) -> Seq<Option<Wdl>> {
    Seq::new(
        states.len(),
        |i: int|
            match g.result(g.model(&states[i])) {
                Some(o) => Some(wdl_of(o, g.side(g.model(&states[i])))),
                None => None,
            },
    )
}

pub open spec fn state_key<G: Game>(g: &G, states: Seq<G::State>, i: int) -> u64 {
    g.key(g.model(&states[i]))
}

/// Edges of position `i` follow its legal moves to the stored positions
/// with the resulting keys.
pub open spec fn edges_follow_moves<G: Game>(
    g: &G,
    states: Seq<G::State>,
    edges: Seq<Seq<u32>>,
    i: int,
) -> bool {
    let m = g.model(&states[i]);
    if g.result(m) is Some {
        edges[i].len() == 0
    } else {
        &&& edges[i].len() == g.moves(m).len()
        &&& forall|j: int|
            0 <= j < edges[i].len() ==> {
                &&& #[trigger] edges[i][j] < states.len()
                &&& state_key(g, states, edges[i][j] as int) == g.key(g.next(m, g.moves(m)[j]))
            }
    }
}

/// The stored graph: the initial position first, valid reachable
/// positions with distinct keys indexed by `index_of`, and edges closed
/// under the legal moves.
#[verifier::opaque]
pub open spec fn retro_graph_ok<G: Game>(
    g: &G,
    states: Seq<G::State>,
    index_of: Map<u64, u32>,
    edges: Seq<Seq<u32>>,
) -> bool {
    &&& states.len() >= 1
    &&& edges.len() == states.len()
    &&& g.model(&states[0]) == g.initial()
    &&& forall|i: int| 0 <= i < states.len() ==> #[trigger] g.valid(g.model(&states[i]))
    &&& forall|i: int| 0 <= i < states.len() ==> #[trigger] reachable(g, g.model(&states[i]))
    &&& forall|i: int|
        0 <= i < states.len() ==> index_of.contains_key(#[trigger] state_key(g, states, i)) && index_of[state_key(
            g,
            states,
            i,
        )] == i
    &&& forall|k: u64|
        #[trigger] index_of.contains_key(k) ==> index_of[k] < states.len() && state_key(
            g,
            states,
            index_of[k] as int,
        ) == k
    &&& forall|i: int| 0 <= i < states.len() ==> #[trigger] edges_follow_moves(g, states, edges, i)
}

/// A complete retrograde solution, by parts: the explored graph, and
/// values that are a well-founded fixed point of it.
#[verifier::opaque]
pub open spec fn retrograde_parts_ok<G: Game>(
    g: &G,
    states: Seq<G::State>,
    index_of: Map<u64, u32>,
    edges: Seq<Seq<u32>>,
    values: Seq<Wdl>,
) -> bool {
    let t = terminal_values(g, states);
    &&& retro_graph_ok(g, states, index_of, edges)
    &&& retro_solved(edges, t, values)
}

/// A complete retrograde solution.
pub open spec fn retrograde_ok<G: Game>(g: &G, sol: RetrogradeSolution<G>) -> bool {
    retrograde_parts_ok(g, sol.states@, sol.index_of@, edges_view(sol.edges@), sol.values@)
}

impl<G: Game> RetrogradeSolution<G> {
    /// Exact value of each legal move of position `index` (mover's
    /// perspective), aligned with `legal_moves` order.
    pub fn child_values(&self, index: usize) -> (r: Vec<Wdl>)
        requires
            index < self.edges@.len(),
            forall|j: int| 0 <= j < self.edges@[index as int]@.len() ==> #[trigger] self.edges@[index as int]@[j] < self.values@.len(),
        ensures
            r@.len() == self.edges@[index as int]@.len(),
            forall|j: int| 0 <= j < r@.len() ==> #[trigger] r@[j] == self.values@[self.edges@[index as int]@[j] as int].flipped(),
    {
        let es = &self.edges[index];
        let mut r: Vec<Wdl> = Vec::new();
        let mut j: usize = 0;
        while j < es.len()
            invariant
                es@ == self.edges@[index as int]@,
                forall|j: int| 0 <= j < es@.len() ==> #[trigger] es@[j] < self.values@.len(),
                j <= es@.len(),
                r@.len() == j,
                forall|t: int| 0 <= t < j ==> #[trigger] r@[t] == self.values@[es@[t] as int].flipped(),
            decreases es@.len() - j,
        {
            let child = es[j] as usize;
            r.push(self.values[child].flip());
            j += 1;
        }
        r
    }
}

/// Invariant of the forward breadth-first exploration: the stored
/// positions are valid and reachable (along `paths`), keyed by `index_of`,
/// and positions before `cursor` have their edges.
#[verifier::opaque]
pub open spec fn bfs_inv<G: Game>(
    g: &G,
    states: Seq<G::State>,
    index_of: Map<u64, u32>,
    edges: Seq<Seq<u32>>,
    paths: Seq<Seq<G::Move>>,
    cursor: int,
) -> bool {
    &&& 1 <= states.len() <= 0xffff_ffff
    &&& edges.len() == states.len()
    &&& paths.len() == states.len()
    &&& 0 <= cursor <= states.len()
    &&& g.model(&states[0]) == g.initial()
    &&& forall|i: int| 0 <= i < states.len() ==> #[trigger] g.valid(g.model(&states[i]))
    &&& forall|i: int|
        0 <= i < states.len() ==> play(g, g.initial(), #[trigger] paths[i]) == Some(g.model(&states[i]))
    &&& forall|i: int|
        0 <= i < states.len() ==> index_of.contains_key(#[trigger] state_key(g, states, i)) && index_of[state_key(
            g,
            states,
            i,
        )] == i
    &&& forall|k: u64|
        #[trigger] index_of.contains_key(k) ==> index_of[k] < states.len() && state_key(
            g,
            states,
            index_of[k] as int,
        ) == k
    &&& forall|i: int| 0 <= i < cursor ==> #[trigger] edges_follow_moves(g, states, edges, i)
    &&& forall|i: int| cursor <= i < states.len() ==> (#[trigger] edges[i]).len() == 0
}

proof fn lemma_bfs_facts<G: Game>(
    g: &G,
    states: Seq<G::State>,
    index_of: Map<u64, u32>,
    edges: Seq<Seq<u32>>,
    paths: Seq<Seq<G::Move>>,
    cursor: int,
)
    requires
        bfs_inv(g, states, index_of, edges, paths, cursor),
    ensures
        1 <= states.len() <= 0xffff_ffff,
        edges.len() == states.len(),
        paths.len() == states.len(),
        0 <= cursor <= states.len(),
        g.model(&states[0]) == g.initial(),
        forall|i: int| 0 <= i < states.len() ==> #[trigger] g.valid(g.model(&states[i])),
        forall|i: int|
            0 <= i < states.len() ==> play(g, g.initial(), #[trigger] paths[i]) == Some(g.model(&states[i])),
        forall|i: int|
            0 <= i < states.len() ==> index_of.contains_key(#[trigger] state_key(g, states, i)) && index_of[state_key(
                g,
                states,
                i,
            )] == i,
        forall|k: u64|
            #[trigger] index_of.contains_key(k) ==> index_of[k] < states.len() && state_key(
                g,
                states,
                index_of[k] as int,
            ) == k,
        forall|i: int| 0 <= i < cursor ==> #[trigger] edges_follow_moves(g, states, edges, i),
{
    reveal(bfs_inv);
}

/// Storing a position with a new key keeps the invariant.
proof fn lemma_bfs_push<G: Game>(
    g: &G,
    states: Seq<G::State>,
    index_of: Map<u64, u32>,
    edges: Seq<Seq<u32>>,
    paths: Seq<Seq<G::Move>>,
    cursor: int,
    s: G::State,
    path: Seq<G::Move>,
)
    requires
        bfs_inv(g, states, index_of, edges, paths, cursor),
        !index_of.contains_key(g.key(g.model(&s))),
        g.valid(g.model(&s)),
        play(g, g.initial(), path) == Some(g.model(&s)),
        states.len() < 0xffff_ffff,
    ensures
        bfs_inv(
            g,
            states.push(s),
            index_of.insert(g.key(g.model(&s)), states.len() as u32),
            edges.push(Seq::empty()),
            paths.push(path),
            cursor,
        ),
        forall|i: int| 0 <= i < states.len() ==> #[trigger] state_key(g, states.push(s), i) == state_key(g, states, i),
        state_key(g, states.push(s), states.len() as int) == g.key(g.model(&s)),
{
    reveal(bfs_inv);
    let st = states.push(s);
    let key = g.key(g.model(&s));
    let ix = index_of.insert(key, states.len() as u32);
    let es = edges.push(Seq::empty());
    assert forall|i: int| 0 <= i < states.len() implies #[trigger] state_key(g, st, i) == state_key(g, states, i) by {
        assert(st[i] == states[i]);
    }
    assert forall|i: int| 0 <= i < st.len() implies ix.contains_key(#[trigger] state_key(g, st, i)) && ix[state_key(g, st, i)] == i by {
        if i < states.len() {
            assert(state_key(g, st, i) == state_key(g, states, i));
        }
    }
    assert forall|k: u64| #[trigger] ix.contains_key(k) implies ix[k] < st.len() && state_key(g, st, ix[k] as int) == k by {
        if k != key {
            assert(state_key(g, st, ix[k] as int) == state_key(g, states, ix[k] as int));
        }
    }
    assert forall|i: int| 0 <= i < cursor implies #[trigger] edges_follow_moves(g, st, es, i) by {
        assert(edges_follow_moves(g, states, edges, i));
        assert(es[i] == edges[i]);
        assert(st[i] == states[i]);
        let m = g.model(&st[i]);
        if g.result(m) is None {
            assert forall|j: int| 0 <= j < es[i].len() implies {
                &&& #[trigger] es[i][j] < st.len()
                &&& state_key(g, st, es[i][j] as int) == g.key(g.next(m, g.moves(m)[j]))
            } by {
                assert(state_key(g, st, es[i][j] as int) == state_key(g, states, edges[i][j] as int));
            }
        }
    }
    assert forall|i: int| 0 <= i < st.len() implies #[trigger] g.valid(g.model(&st[i])) by {
        if i < states.len() {
            assert(st[i] == states[i]);
        }
    }
    assert forall|i: int| 0 <= i < st.len() implies play(g, g.initial(), #[trigger] paths.push(path)[i]) == Some(g.model(&st[i])) by {
        if i < states.len() {
            assert(st[i] == states[i]);
            assert(paths.push(path)[i] == paths[i]);
        }
    }
    assert forall|i: int| cursor <= i < st.len() implies (#[trigger] es[i]).len() == 0 by {
        if i < states.len() {
            assert(es[i] == edges[i]);
        }
    }
}

/// Recording the edges of the live position at `cursor` advances the
/// invariant; a terminal position advances it unchanged.
proof fn lemma_bfs_advance<G: Game>(
    g: &G,
    states: Seq<G::State>,
    index_of: Map<u64, u32>,
    edges: Seq<Seq<u32>>,
    paths: Seq<Seq<G::Move>>,
    cursor: int,
    succ: Seq<u32>,
)
    requires
        bfs_inv(g, states, index_of, edges, paths, cursor),
        cursor < states.len(),
        g.result(g.model(&states[cursor])) is Some ==> succ.len() == 0,
        g.result(g.model(&states[cursor])) is None ==> {
            let m = g.model(&states[cursor]);
            &&& succ.len() == g.moves(m).len()
            &&& forall|t: int|
                0 <= t < succ.len() ==> {
                    &&& #[trigger] succ[t] < states.len()
                    &&& state_key(g, states, succ[t] as int) == g.key(g.next(m, g.moves(m)[t]))
                }
        },
    ensures
        bfs_inv(g, states, index_of, edges.update(cursor, succ), paths, cursor + 1),
{
    reveal(bfs_inv);
    let es = edges.update(cursor, succ);
    assert forall|i: int| 0 <= i < cursor + 1 implies #[trigger] edges_follow_moves(g, states, es, i) by {
        if i < cursor {
            assert(es[i] == edges[i]);
            assert(edges_follow_moves(g, states, edges, i));
        } else {
            assert(es[i] == succ);
        }
    }
    assert forall|i: int| cursor + 1 <= i < states.len() implies (#[trigger] es[i]).len() == 0 by {
        assert(es[i] == edges[i]);
    }
}

/// A terminal position needs no edges.
proof fn lemma_bfs_skip<G: Game>(
    g: &G,
    states: Seq<G::State>,
    index_of: Map<u64, u32>,
    edges: Seq<Seq<u32>>,
    paths: Seq<Seq<G::Move>>,
    cursor: int,
)
    requires
        bfs_inv(g, states, index_of, edges, paths, cursor),
        cursor < states.len(),
        g.result(g.model(&states[cursor])) is Some,
    ensures
        bfs_inv(g, states, index_of, edges, paths, cursor + 1),
{
    reveal(bfs_inv);
    assert(edges[cursor] =~= Seq::<u32>::empty());
    lemma_bfs_advance(g, states, index_of, edges, paths, cursor, Seq::empty());
    assert(edges.update(cursor, Seq::empty()) =~= edges);
}

/// Running out of room proves more than `max` reachable positions with
/// distinct keys.
proof fn lemma_bfs_overflow<G: Game>(
    g: &G,
    states: Seq<G::State>,
    index_of: Map<u64, u32>,
    edges: Seq<Seq<u32>>,
    paths: Seq<Seq<G::Move>>,
    cursor: int,
    m: G::Model,
    path: Seq<G::Move>,
    max: int,
)
    requires
        bfs_inv(g, states, index_of, edges, paths, cursor),
        !index_of.contains_key(g.key(m)),
        play(g, g.initial(), path) == Some(m),
        states.len() >= max,
    ensures
        exists|ms: Seq<G::Model>|
            {
                &&& ms.len() > max
                &&& forall|i: int| 0 <= i < ms.len() ==> #[trigger] reachable(g, ms[i])
                &&& forall|i: int, j: int|
                    0 <= i < j < ms.len() ==> #[trigger] g.key(ms[i]) != #[trigger] g.key(ms[j])
            },
{
    reveal(bfs_inv);
    reveal(reachable);
    let ms = Seq::new(
        (states.len() + 1) as nat,
        |i: int|
            if i < states.len() {
                g.model(&states[i])
            } else {
                m
            },
    );
    assert forall|i: int| 0 <= i < ms.len() implies #[trigger] reachable(g, ms[i]) by {
        if i < states.len() {
            assert(play(g, g.initial(), paths[i]) == Some(ms[i]));
        } else {
            assert(play(g, g.initial(), path) == Some(ms[i]));
        }
    }
    assert forall|a: int, b: int| 0 <= a < b < ms.len() implies #[trigger] g.key(ms[a]) != #[trigger] g.key(ms[b]) by {
        assert(state_key(g, states, a) == g.key(ms[a]));
        if b < states.len() {
            assert(state_key(g, states, b) == g.key(ms[b]));
        }
    }
}

/// A finished exploration is a closed graph of reachable positions.
proof fn lemma_bfs_done<G: Game>(
    g: &G,
    states: Seq<G::State>,
    index_of: Map<u64, u32>,
    edges: Seq<Seq<u32>>,
    paths: Seq<Seq<G::Move>>,
)
    requires
        g.wf(),
        bfs_inv(g, states, index_of, edges, paths, states.len() as int),
    ensures
        retro_graph_ok(g, states, index_of, edges),
        graph_ok(edges, terminal_values(g, states)),
        states.len() == edges.len(),
        forall|x: int| 0 <= x < states.len() ==> #[trigger] g.valid(g.model(&states[x])),
{
    reveal(bfs_inv);
    reveal(reachable);
    reveal(retro_graph_ok);
    assert forall|x: int| 0 <= x < states.len() implies #[trigger] reachable(g, g.model(&states[x])) by {
        assert(play(g, g.initial(), paths[x]) == Some(g.model(&states[x])));
    }
    let t = terminal_values(g, states);
    assert forall|x: int| 0 <= x < edges.len() implies #[trigger] edges[x].len() <= 0xffff_ffff by {
        assert(edges_follow_moves(g, states, edges, x));
        g.lemma_moves_bounded(g.model(&states[x]));
    }
    assert forall|x: int, y: int| 0 <= x < edges.len() && 0 <= y < edges[x].len() implies (#[trigger] edges[x][y]) < edges.len() by {
        assert(edges_follow_moves(g, states, edges, x));
    }
    assert forall|x: int| 0 <= x < edges.len() implies (t[x] is Some <==> #[trigger] edges[x].len() == 0) by {
        assert(edges_follow_moves(g, states, edges, x));
        if g.result(g.model(&states[x])) is None {
            g.lemma_live_has_moves(g.model(&states[x]));
        }
    }
}

/// Terminal values of the stored positions (`None` for live ones).
fn terminal_outcomes<G: Game>(game: &G, states: &Vec<G::State>) -> (terminal: Vec<Option<Wdl>>)
    requires
        game.wf(),
        forall|x: int| 0 <= x < states@.len() ==> #[trigger] game.valid(game.model(&states@[x])),
    ensures
        terminal@ == terminal_values(game, states@),
{
    let n = states.len();
    let mut terminal: Vec<Option<Wdl>> = Vec::new();
    let mut i: usize = 0;
    while i < n
        invariant
            game.wf(),
            n == states@.len(),
            i <= n,
            forall|x: int| 0 <= x < n ==> #[trigger] game.valid(game.model(&states@[x])),
            terminal@ == terminal_values(game, states@).take(i as int),
        decreases n - i,
    {
        let t = match game.outcome(&states[i]) {
            Some(o) => Some(Wdl::from_outcome(o, game.side_to_move(&states[i]))),
            None => None,
        };
        terminal.push(t);
        i += 1;
        assert(terminal@ =~= terminal_values(game, states@).take(i as int));
    }
    assert(terminal@ =~= terminal_values(game, states@));
    terminal
}

/// Breadth-first exploration of the positions reachable from the initial
/// position, deduplicated by key, with successor edges.
fn explore<G: Game>(game: &G, max_positions: usize) -> (r: Result<
    (Vec<G::State>, HashMap<u64, u32>, Vec<Vec<u32>>, Ghost<Seq<Seq<G::Move>>>),
    String,
>)
    requires
        game.wf(),
        max_positions <= 0xffff_ffff,
    ensures
        r matches Ok((states, index_of, edges, paths)) ==> {
            &&& bfs_inv(game, states@, index_of@, edges_view(edges@), paths@, states@.len() as int)
            &&& states@.len() <= vstd::math::max(max_positions as int, 1)
        },
        r matches Err(e) ==> e@ == "more reachable positions than max_positions"@,
        r is Err ==> exists|ms: Seq<G::Model>|
            {
                &&& ms.len() > max_positions
                &&& forall|i: int| 0 <= i < ms.len() ==> #[trigger] reachable(game, ms[i])
                &&& forall|i: int, j: int|
                    0 <= i < j < ms.len() ==> #[trigger] game.key(ms[i]) != #[trigger] game.key(ms[j])
            },
{
    let mut index_of: HashMap<u64, u32> = HashMap::new();
    let mut states: Vec<G::State> = Vec::new();
    let mut edges: Vec<Vec<u32>> = Vec::new();
    let initial = game.initial_state();
    proof {
        game.lemma_initial_valid();
        assert(play(game, game.initial(), Seq::<G::Move>::empty()) == Some(game.initial()));
    }
    index_of.insert(game.position_key(&initial), 0);
    states.push(initial);
    edges.push(Vec::new());
    let ghost mut paths: Seq<Seq<G::Move>> = seq![Seq::<G::Move>::empty()];
    proof {
        reveal(bfs_inv);
        assert(edges_view(edges@) =~= seq![Seq::<u32>::empty()]);
        assert forall|k: u64| #[trigger] index_of@.contains_key(k) implies index_of@[k] < states@.len() && state_key(
            game,
            states@,
            index_of@[k] as int,
        ) == k by {}
        assert(bfs_inv(game, states@, index_of@, edges_view(edges@), paths, 0));
    }
    let mut cursor: usize = 0;
    while cursor < states.len()
        invariant
            game.wf(),
            max_positions <= 0xffff_ffff,
            states@.len() <= vstd::math::max(max_positions as int, 1),
            bfs_inv(game, states@, index_of@, edges_view(edges@), paths, cursor as int),
        decreases max_positions + 2 - cursor,
    {
        proof {
            lemma_bfs_facts(game, states@, index_of@, edges_view(edges@), paths, cursor as int);
        }
        if game.outcome(&states[cursor]).is_some() {
            proof {
                lemma_bfs_skip(game, states@, index_of@, edges_view(edges@), paths, cursor as int);
            }
            cursor += 1;
            continue;
        }
        let ghost mc = game.model(&states@[cursor as int]);
        let ghost pc = paths[cursor as int];
        let mut state = game.clone_state(&states[cursor]);
        let mut moves = Vec::new();
        game.legal_moves(&state, &mut moves);
        let mut successors: Vec<u32> = Vec::new();
        let mut j: usize = 0;
        while j < moves.len()
            invariant
                game.wf(),
                max_positions <= 0xffff_ffff,
                states@.len() <= vstd::math::max(max_positions as int, 1),
                bfs_inv(game, states@, index_of@, edges_view(edges@), paths, cursor as int),
                cursor < states@.len(),
                mc == game.model(&states@[cursor as int]),
                game.valid(mc),
                game.result(mc) is None,
                play(game, game.initial(), pc) == Some(mc),
                game.model(&state) == mc,
                moves@ == game.moves(mc),
                j <= moves@.len(),
                successors@.len() == j,
                forall|t: int|
                    0 <= t < j ==> {
                        &&& #[trigger] successors@[t] < states@.len()
                        &&& state_key(game, states@, successors@[t] as int) == game.key(game.next(mc, game.moves(mc)[t]))
                    },
            decreases moves@.len() - j,
        {
            let mv = moves[j];
            proof {
                assert(game.moves(mc).contains(mv)) by {
                    assert(game.moves(mc)[j as int] == mv);
                }
                game.lemma_step(mc, mv);
                lemma_play_push(game, game.initial(), pc, mv, mc);
                lemma_bfs_facts(game, states@, index_of@, edges_view(edges@), paths, cursor as int);
            }
            let undo = game.make_move(&mut state, mv);
            let key = game.position_key(&state);
            let ghost states_before = states@;
            let index = match index_of.get(&key) {
                Some(found) => *found,
                None => {
                    let fresh = states.len() as u32;
                    if states.len() >= max_positions {
                        proof {
                            lemma_bfs_overflow(game, states@, index_of@, edges_view(edges@), paths, cursor as int, game.model(&state), pc.push(mv), max_positions as int);
                        }
                        return Err(String::from_str("more reachable positions than max_positions"));
                    }
                    let copy = game.clone_state(&state);
                    proof {
                        lemma_bfs_push(game, states@, index_of@, edges_view(edges@), paths, cursor as int, copy, pc.push(mv));
                    }
                    let ghost ev0 = edges_view(edges@);
                    index_of.insert(key, fresh);
                    states.push(copy);
                    edges.push(Vec::new());
                    proof {
                        paths = paths.push(pc.push(mv));
                        assert(edges_view(edges@) =~= ev0.push(Seq::empty()));
                    }
                    fresh
                },
            };
            proof {
                lemma_bfs_facts(game, states@, index_of@, edges_view(edges@), paths, cursor as int);
                assert(states@[cursor as int] == states_before[cursor as int]);
                assert forall|t: int| 0 <= t < j implies {
                    &&& #[trigger] successors@[t] < states@.len()
                    &&& state_key(game, states@, successors@[t] as int) == game.key(game.next(mc, game.moves(mc)[t]))
                } by {
                    assert(states@[successors@[t] as int] == states_before[successors@[t] as int]);
                }
            }
            successors.push(index);
            proof {
                assert(game.next(mc, mv) == game.model(&state));
            }
            game.unmake_move(&mut state, mv, undo);
            j += 1;
        }
        let ghost ev_before = edges_view(edges@);
        let ghost succ = successors@;
        proof {
            lemma_bfs_facts(game, states@, index_of@, ev_before, paths, cursor as int);
            lemma_bfs_advance(game, states@, index_of@, ev_before, paths, cursor as int, succ);
        }
        edges.set(cursor, successors);
        proof {
            assert(edges_view(edges@) =~= ev_before.update(cursor as int, succ));
        }
        cursor += 1;
    }
    Ok((states, index_of, edges, Ghost(paths)))
}

/// Solve a game whose positions may repeat, by forward reachability plus
/// backward induction. Fails if more than `max_positions` positions are
/// reachable.
pub fn solve_retrograde<G: Game>(game: &G, max_positions: usize) -> (r: Result<RetrogradeSolution<G>, String>)
    requires
        game.wf(),
        max_positions <= 0xffff_ffff,
    ensures
        r matches Ok(sol) ==> {
            &&& retrograde_ok(game, sol)
            &&& sol.states@.len() <= vstd::math::max(max_positions as int, 1)
        },
        r matches Err(e) ==> e@ == "more reachable positions than max_positions"@,
        r is Err ==> exists|ms: Seq<G::Model>|
            {
                &&& ms.len() > max_positions
                &&& forall|i: int| 0 <= i < ms.len() ==> #[trigger] reachable(game, ms[i])
                &&& forall|i: int, j: int|
                    0 <= i < j < ms.len() ==> #[trigger] game.key(ms[i]) != #[trigger] game.key(ms[j])
            },
{
    let (states, index_of, edges, Ghost(paths)) = match explore(game, max_positions) {
        Ok(found) => found,
        Err(message) => {
            return Err(message);
        },
    };
    Ok(finish_solution(game, states, index_of, edges, Ghost(paths)))
}

/// Backward induction over an explored graph.
fn finish_solution<G: Game>(
    game: &G,
    states: Vec<G::State>,
    index_of: HashMap<u64, u32>,
    edges: Vec<Vec<u32>>,
    Ghost(paths): Ghost<Seq<Seq<G::Move>>>,
) -> (sol: RetrogradeSolution<G>)
    requires
        game.wf(),
        bfs_inv(game, states@, index_of@, edges_view(edges@), paths, states@.len() as int),
    ensures
        retrograde_ok(game, sol),
        sol.states@ == states@,
{
    proof {
        lemma_bfs_done(game, states@, index_of@, edges_view(edges@), paths);
    }
    let terminal = terminal_outcomes(game, &states);
    let values = backward_induction(&edges, &terminal);
    proof {
        lemma_retrograde_ok(game, states@, index_of@, edges_view(edges@), terminal@, values@);
    }
    RetrogradeSolution { states, values, index_of, edges }
}

proof fn lemma_retrograde_ok<G: Game>(
    g: &G,
    states: Seq<G::State>,
    index_of: Map<u64, u32>,
    edges: Seq<Seq<u32>>,
    terminal: Seq<Option<Wdl>>,
    values: Seq<Wdl>,
)
    requires
        retro_graph_ok(g, states, index_of, edges),
        terminal == terminal_values(g, states),
        retro_solved(edges, terminal, values),
    ensures
        retrograde_parts_ok(g, states, index_of, edges, values),
{
    reveal(retrograde_parts_ok);
}

proof fn lemma_graph_facts<G: Game>(
    g: &G,
    states: Seq<G::State>,
    index_of: Map<u64, u32>,
    edges: Seq<Seq<u32>>,
)
    requires
        retro_graph_ok(g, states, index_of, edges),
    ensures
        edges.len() == states.len(),
        forall|i: int| 0 <= i < states.len() ==> #[trigger] g.valid(g.model(&states[i])),
        forall|k: u64| #[trigger] index_of.contains_key(k) ==> index_of[k] < states.len(),
        forall|i: int, j: int|
            0 <= i < states.len() && 0 <= j < edges[i].len() ==> #[trigger] edges[i][j] < states.len(),
{
    reveal(retro_graph_ok);
    assert forall|i: int, j: int| 0 <= i < states.len() && 0 <= j < edges[i].len() implies #[trigger] edges[i][j]
        < states.len() by {
        assert(edges_follow_moves(g, states, edges, i));
    }
}

proof fn lemma_solved_len(edges: Seq<Seq<u32>>, terminal: Seq<Option<Wdl>>, values: Seq<Wdl>)
    requires
        retro_solved(edges, terminal, values),
    ensures
        values.len() == edges.len(),
{
    reveal(retro_solved);
}

/// What a complete retrograde solution guarantees of its parts.
pub proof fn lemma_solution_facts<G: Game>(g: &G, sol: RetrogradeSolution<G>)
    requires
        retrograde_ok(g, sol),
    ensures
        sol.values@.len() == sol.states@.len(),
        sol.edges@.len() == sol.states@.len(),
        forall|i: int| 0 <= i < sol.states@.len() ==> #[trigger] g.valid(g.model(&sol.states@[i])),
        forall|k: u64|
            #[trigger] sol.index_of@.contains_key(k) ==> sol.index_of@[k] < sol.states@.len(),
        forall|i: int, j: int|
            0 <= i < sol.states@.len() && 0 <= j < sol.edges@[i]@.len() ==> #[trigger] sol.edges@[i]@[j]
                < sol.states@.len(),
{
    reveal(retrograde_parts_ok);
    let e = edges_view(sol.edges@);
    lemma_graph_facts(g, sol.states@, sol.index_of@, e);
    lemma_solved_len(e, terminal_values(g, sol.states@), sol.values@);
    assert forall|i: int, j: int|
        0 <= i < sol.states@.len() && 0 <= j < sol.edges@[i]@.len() implies #[trigger] sol.edges@[i]@[j]
        < sol.states@.len() by {
        assert(e[i] == sol.edges@[i]@);
    }
}

/// Zero leaf value, no policy ordering: the model-free baseline.
pub struct ZeroEvaluator;

/// Move iteration order. `Natural` follows the game's generation order
/// (stable action-ID order); `Reversed` deliberately degrades ordering for
/// controlled experiments.
#[derive(Clone, Copy, PartialEq, Eq, Debug, Structural)]
pub enum MoveOrdering {
    Natural,
    Reversed,
}

/// Result of one iterative-deepening search.
#[derive(Clone, Debug)]
pub struct SearchResult<M> {
    pub best_move: Option<M>,
    pub value: i32,
    pub completed_depth: u32,
    /// Total nodes including work on the final, possibly aborted depth.
    pub nodes: u64,
    /// Nodes spent up to and including the last fully completed depth.
    pub nodes_at_completed_depth: u64,
    /// `(best move, value)` after each completed iteration, indexed by
    /// `depth - 1`.
    pub per_depth: Vec<(M, i32)>,
    /// Nodes spent inside quiescence (subset of `nodes`).
    pub quiescence_nodes: u64,
}

} // verus!
