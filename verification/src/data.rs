//! Typed teacher records with target provenance.
//!
//! A position is stored as the exact action path from the game's initial
//! state. Replaying the path reconstructs the full state, including
//! repetition history and move counters that `position_key` may not
//! cover. Records are game-agnostic; the game and all search settings
//! live in the run manifest and resolved configuration.

pub mod summary;
pub mod sampling;

use crate::game::{ActionId, Game, Outcome, Player};
use crate::search::alpha_beta::{by_keys, order_by_keys, same_moves};
use crate::search::{
    lemma_solution_facts, retrograde_ok, Evaluator, MoveOrdering, RetrogradeSolution, SearchResult, Searcher, Wdl,
    SCORE_TERMINAL_BOUND, SCORE_WIN,
};
use crate::training::SELFPLAY_TT_LOG2;
use crate::text::{decimal, text_number_text};
use vstd::prelude::*;

verus! {

/// Where a record's target came from. Every stored target carries
/// exactly one provenance value.
#[derive(Clone, Copy, Debug, PartialEq, Eq, Structural)]
pub enum Provenance {
    Exact,
    Terminal,
    InternalSearch,
    StockfishTeacher,
    HistoricalMatch,
    CounterfactualSearch,
    ShadowSearch,
}

/// One search's outcome at a fixed node budget, from the side to move's
/// perspective. `per_depth[d-1]` is `(best action, value)` after the
/// completed iteration at depth `d`.
#[derive(Clone, Debug, PartialEq, Eq)]
pub struct SearchLabel {
    pub node_budget: u64,
    pub nodes: u64,
    pub completed_depth: u32,
    pub value: i32,
    pub best_action: ActionId,
    pub per_depth: Vec<(ActionId, i32)>,
}

impl SearchLabel {
    /// Label of a search result: its counters, value, and the stable
    /// action IDs of its best moves.
    pub fn from_result<G: Game>(
        game: &G,
        state: &G::State,
        node_budget: u64,
        result: &SearchResult<G::Move>,
    ) -> (label: SearchLabel)
        requires
            game.wf(),
            game.valid(game.model(state)),
            result.best_move matches Some(mv) && game.moves(game.model(state)).contains(mv),
            forall|i: int|
                0 <= i < result.per_depth@.len() ==> game.moves(game.model(state)).contains(
                    (#[trigger] result.per_depth@[i]).0,
                ),
        ensures
            label.node_budget == node_budget,
            label.nodes == result.nodes,
            label.completed_depth == result.completed_depth,
            label.value == result.value,
            label.best_action == game.action(game.model(state), result.best_move->0),
            label.per_depth@.len() == result.per_depth@.len(),
            forall|i: int|
                0 <= i < label.per_depth@.len() ==> #[trigger] label.per_depth@[i] == (
                    game.action(game.model(state), result.per_depth@[i].0),
                    result.per_depth@[i].1,
                ),
    {
        let best = match result.best_move {
            Some(mv) => mv,
            None => {
                proof {
                    assert(false);
                }
                return SearchLabel {
                    node_budget,
                    nodes: 0,
                    completed_depth: 0,
                    value: 0,
                    best_action: 0,
                    per_depth: Vec::new(),
                };
            },
        };
        let best_action = game.action_id(state, best);
        let mut per_depth: Vec<(ActionId, i32)> = Vec::new();
        let mut i: usize = 0;
        while i < result.per_depth.len()
            invariant
                game.wf(),
                game.valid(game.model(state)),
                forall|i: int|
                    0 <= i < result.per_depth@.len() ==> game.moves(game.model(state)).contains(
                        (#[trigger] result.per_depth@[i]).0,
                    ),
                i <= result.per_depth@.len(),
                per_depth@.len() == i,
                forall|j: int|
                    0 <= j < i ==> #[trigger] per_depth@[j] == (
                        game.action(game.model(state), result.per_depth@[j].0),
                        result.per_depth@[j].1,
                    ),
            decreases result.per_depth@.len() - i,
        {
            let (mv, value) = result.per_depth[i];
            let a = game.action_id(state, mv);
            per_depth.push((a, value));
            i += 1;
        }
        SearchLabel {
            node_budget,
            nodes: result.nodes,
            completed_depth: result.completed_depth,
            value: result.value,
            best_action,
            per_depth,
        }
    }
}

/// One searched child of the record's position. `value` is from the
/// *parent* mover's perspective (the child search value negated).
#[derive(Clone, Debug, PartialEq, Eq)]
pub struct ChildLabel {
    pub action: ActionId,
    pub node_budget: u64,
    pub nodes: u64,
    pub completed_depth: u32,
    pub value: i32,
}

/// One teacher-labelled position.
#[derive(Clone, Debug, PartialEq, Eq)]
pub struct TeacherRecord {
    /// Action path from the initial state (exact reconstruction).
    pub path: Vec<ActionId>,
    /// `position_key` at the position (dedup and oracle join).
    pub key: u64,
    pub ply: u32,
    /// Times this position was visited across sampled trajectories.
    pub weight: u32,
    pub provenance: Provenance,
    /// Identifier of the evaluator that produced every label in this
    /// record ("zero" or a checkpoint path).
    pub evaluator: String,
    pub shallow: Vec<SearchLabel>,
    pub deep: SearchLabel,
    /// Rank (0 = first) of `deep.best_action` in the evaluator-induced
    /// root move ordering.
    pub deep_best_order_rank: u32,
    /// Counterfactual child labels in legal-move generation order.
    pub children: Vec<ChildLabel>,
    /// Exact WDL for the side to move, when an oracle was joined.
    pub exact_wdl: Option<Wdl>,
    /// Exact optimal actions, when an oracle was joined.
    pub exact_optimal: Option<Vec<ActionId>>,
}

/// One sampled position awaiting labels.
#[derive(Clone, Debug, PartialEq, Eq)]
pub struct PositionSample {
    pub path: Vec<ActionId>,
    pub key: u64,
    pub ply: u32,
    pub weight: u32,
}

/// Result of joining records against an exact retrograde solution.
#[derive(Clone, Copy, Debug, Default)]
pub struct OracleJoinStats {
    pub joined: u64,
    pub missed: u64,
}

/// The first of `moves[0..n]` whose action ID in `m` is `a`.
pub open spec fn first_with_action<G: Game>(g: &G, m: G::Model, moves: Seq<G::Move>, a: ActionId, n: int) -> Option<
    G::Move,
>
    decreases n,
{
    if n <= 0 {
        None
    } else {
        match first_with_action(g, m, moves, a, n - 1) {
            Some(mv) => Some(mv),
            None => if g.action(m, moves[n - 1]) == a {
                Some(moves[n - 1])
            } else {
                None
            },
        }
    }
}

/// The position reached by replaying `path` from `m`, taking at each step
/// the first legal move with that action ID; `None` if a step starts from
/// a terminal position or its action is not legal.
pub open spec fn replay<G: Game>(g: &G, m: G::Model, path: Seq<ActionId>) -> Option<G::Model>
    decreases path.len(),
{
    if path.len() == 0 {
        Some(m)
    } else if g.result(m) is Some {
        None
    } else {
        match first_with_action(g, m, g.moves(m), path[0], g.moves(m).len() as int) {
            Some(mv) => replay(g, g.next(m, mv), path.drop_first()),
            None => None,
        }
    }
}

/// The message of a replay that fails, counting steps from `step`: the
/// first step that starts from a terminal position, or whose action no
/// legal move has.
pub open spec fn replay_error<G: Game>(g: &G, m: G::Model, path: Seq<ActionId>, step: nat) -> Seq<char>
    decreases path.len(),
{
    if path.len() == 0 {
        Seq::empty()
    } else if g.result(m) is Some {
        "path step "@ + decimal(step) + ": state is already terminal"@
    } else {
        match first_with_action(g, m, g.moves(m), path[0], g.moves(m).len() as int) {
            Some(mv) => replay_error(g, g.next(m, mv), path.drop_first(), step + 1),
            None => "path step "@ + decimal(step) + ": action "@ + decimal(path[0] as nat) + " is not legal"@,
        }
    }
}

proof fn lemma_first_with_action<G: Game>(g: &G, m: G::Model, moves: Seq<G::Move>, a: ActionId, n: int)
    requires
        0 <= n <= moves.len(),
    ensures
        first_with_action(g, m, moves, a, n) matches Some(mv) ==> moves.contains(mv),
    decreases n,
{
    if n > 0 {
        lemma_first_with_action(g, m, moves, a, n - 1);
        if first_with_action(g, m, moves, a, n - 1) is None && g.action(m, moves[n - 1]) == a {
            assert(moves[n - 1] == moves[n - 1]);
        }
    }
}

/// Replay an action path from the initial state. Errors on illegal or
/// early-terminal paths instead of panicking: paths cross process and
/// code-revision boundaries.
pub fn replay_path<G: Game>(game: &G, path: &[ActionId]) -> (r: Result<G::State, String>)
    requires
        game.wf(),
    ensures
        r is Ok <==> replay(game, game.initial(), path@) is Some,
        r matches Ok(s) ==> replay(game, game.initial(), path@) == Some(game.model(&s)),
        r matches Err(e) ==> e@ == replay_error(game, game.initial(), path@, 0),
{
    let mut state = game.initial_state();
    proof {
        game.lemma_initial_valid();
    }
    let mut moves: Vec<G::Move> = Vec::new();
    let mut step: usize = 0;
    assert(path@.subrange(0, path@.len() as int) =~= path@);
    assert(path@.subrange(0, path@.len() as int) == path@);
    while step < path.len()
        invariant
            game.wf(),
            game.valid(game.model(&state)),
            step <= path@.len(),
            replay(game, game.initial(), path@) == replay(game, game.model(&state), path@.subrange(step as int, path@.len() as int)),
            replay_error(game, game.initial(), path@, 0) == replay_error(
                game,
                game.model(&state),
                path@.subrange(step as int, path@.len() as int),
                step as nat,
            ),
        decreases path@.len() - step,
    {
        let ghost m = game.model(&state);
        let ghost rest = path@.subrange(step as int, path@.len() as int);
        assert(rest[0] == path@[step as int]);
        assert(rest.drop_first() =~= path@.subrange(step + 1, path@.len() as int));
        if game.outcome(&state).is_some() {
            return Err(text_number_text("path step ", step as u64, ": state is already terminal"));
        }
        game.legal_moves(&state, &mut moves);
        let action = path[step];
        let mut found: Option<G::Move> = None;
        let mut i: usize = 0;
        while i < moves.len()
            invariant
                game.wf(),
                game.valid(m),
                moves@ == game.moves(m),
                m == game.model(&state),
                i <= moves@.len(),
                found == first_with_action(game, m, moves@, action, i as int),
            decreases moves@.len() - i,
        {
            if found.is_none() {
                proof {
                    assert(game.moves(m).contains(moves@[i as int]));
                }
                let a = game.action_id(&state, moves[i]);
                if a == action {
                    found = Some(moves[i]);
                }
            }
            i += 1;
        }
        let mv = match found {
            Some(mv) => mv,
            None => {
                let mut message = text_number_text("path step ", step as u64, ": action ");
                let tail = text_number_text("", action as u64, " is not legal");
                message.append(tail.as_str());
                proof {
                    reveal_strlit("");
                    assert(message@ =~= "path step "@ + decimal(step as nat) + ": action "@ + decimal(action as nat)
                        + " is not legal"@);
                }
                return Err(message);
            },
        };
        proof {
            lemma_first_with_action(game, m, moves@, action, moves@.len() as int);
            game.lemma_step(m, mv);
        }
        game.make_move(&mut state, mv);
        step += 1;
    }
    proof {
        assert(path@.subrange(step as int, path@.len() as int) =~= Seq::<ActionId>::empty());
    }
    Ok(state)
}

/// Sanity guard used by tests and callers: a deep label whose value
/// proves a terminal result must agree in sign with any exact WDL.
pub fn value_wdl_sign_consistent(value: i32, wdl: Wdl) -> (r: bool)
    ensures
        r == if value > SCORE_TERMINAL_BOUND {
            wdl == Wdl::Win
        } else if value < -SCORE_TERMINAL_BOUND {
            wdl == Wdl::Loss
        } else {
            true
        },
{
    if value > SCORE_TERMINAL_BOUND {
        wdl == Wdl::Win
    } else if value < -SCORE_TERMINAL_BOUND {
        wdl == Wdl::Loss
    } else {
        true
    }
}

/// Action IDs, in move order, of the moves `j < k` of `m` whose exact
/// value `childs[j]` equals `value`.
pub open spec fn optimal_actions<G: Game>(g: &G, m: G::Model, childs: Seq<Wdl>, value: Wdl, k: int) -> Seq<ActionId>
    decreases k,
{
    if k <= 0 {
        Seq::empty()
    } else {
        optimal_actions(g, m, childs, value, k - 1) + if childs[k - 1] == value {
            seq![g.action(m, g.moves(m)[k - 1])]
        } else {
            Seq::empty()
        }
    }
}

/// Exact values (mover's perspective) of the moves of stored position
/// `i`, in legal-move order.
pub open spec fn child_wdls<G: Game>(sol: RetrogradeSolution<G>, i: int) -> Seq<Wdl> {
    Seq::new(sol.edges@[i]@.len(), |j: int| sol.values@[sol.edges@[i]@[j] as int].flipped())
}

/// `after` is `before` with, when its key is a solved position, that
/// position's exact value and the action IDs of its value-preserving
/// moves attached; otherwise unchanged.
pub open spec fn joined<G: Game>(g: &G, sol: RetrogradeSolution<G>, before: TeacherRecord, after: TeacherRecord) -> bool {
    if sol.index_of@.contains_key(before.key) {
        let i = sol.index_of@[before.key] as int;
        let m = g.model(&sol.states@[i]);
        let childs = child_wdls(sol, i);
        let n = vstd::math::min(g.moves(m).len() as int, childs.len() as int);
        &&& after.exact_wdl == Some(sol.values@[i])
        &&& after.exact_optimal matches Some(v) && v@ == optimal_actions(g, m, childs, sol.values@[i], n)
        &&& after.path == before.path
        &&& after.key == before.key
        &&& after.ply == before.ply
        &&& after.weight == before.weight
        &&& after.provenance == before.provenance
        &&& after.evaluator == before.evaluator
        &&& after.shallow == before.shallow
        &&& after.deep == before.deep
        &&& after.deep_best_order_rank == before.deep_best_order_rank
        &&& after.children == before.children
    } else {
        after == before
    }
}

/// Number of the first `k` records whose key is a solved position.
pub open spec fn solved_count<G: Game>(sol: RetrogradeSolution<G>, records: Seq<TeacherRecord>, k: int) -> nat
    decreases k,
{
    if k <= 0 {
        0
    } else {
        solved_count(sol, records, k - 1) + if sol.index_of@.contains_key(records[k - 1].key) {
            1nat
        } else {
            0nat
        }
    }
}

proof fn lemma_solved_count_bound<G: Game>(sol: RetrogradeSolution<G>, records: Seq<TeacherRecord>, k: int)
    requires
        0 <= k,
    ensures
        solved_count(sol, records, k) <= k,
    decreases k,
{
    if k > 0 {
        lemma_solved_count_bound(sol, records, k - 1);
    }
}

/// Attach the exact value and the exact optimal-action set to every
/// record whose `key` is a position of the solution. The join is by
/// `position_key`, so it inherits the retrograde caveats
/// (repetition-as-draw, no fifty-move rule).
pub fn join_retrograde_oracle<G: Game>(
    game: &G,
    records: &mut Vec<TeacherRecord>,
    solution: &RetrogradeSolution<G>,
) -> (stats: OracleJoinStats)
    requires
        game.wf(),
        retrograde_ok(game, *solution),
    ensures
        final(records)@.len() == old(records)@.len(),
        forall|i: int|
            0 <= i < old(records)@.len() ==> joined(game, *solution, old(records)@[i], #[trigger] final(records)@[i]),
        stats.joined == solved_count(*solution, old(records)@, old(records)@.len() as int),
        stats.joined + stats.missed == old(records)@.len(),
{
    proof {
        lemma_solution_facts(game, *solution);
    }
    let ghost before = records@;
    let mut stats = OracleJoinStats { joined: 0, missed: 0 };
    let mut moves: Vec<G::Move> = Vec::new();
    let mut i: usize = 0;
    while i < records.len()
        invariant
            game.wf(),
            retrograde_ok(game, *solution),
            solution.values@.len() == solution.states@.len(),
            solution.edges@.len() == solution.states@.len(),
            forall|i: int| 0 <= i < solution.states@.len() ==> #[trigger] game.valid(game.model(&solution.states@[i])),
            forall|k: u64|
                #[trigger] solution.index_of@.contains_key(k) ==> solution.index_of@[k] < solution.states@.len(),
            forall|i: int, j: int|
                0 <= i < solution.states@.len() && 0 <= j < solution.edges@[i]@.len() ==> #[trigger] solution.edges@[i]@[j]
                    < solution.states@.len(),
            records@.len() == before.len(),
            i <= before.len(),
            forall|t: int| 0 <= t < i ==> joined(game, *solution, before[t], #[trigger] records@[t]),
            forall|t: int| i <= t < before.len() ==> #[trigger] records@[t] == before[t],
            stats.joined == solved_count(*solution, before, i as int),
            stats.joined + stats.missed == i,
        decreases before.len() - i,
    {
        proof {
            lemma_solved_count_bound(*solution, before, i as int);
        }
        let key = records[i].key;
        match solution.index_of.get(&key) {
            None => {
                stats.missed = stats.missed + 1;
            },
            Some(found) => {
                let index = *found as usize;
                let value = solution.values[index];
                let state = &solution.states[index];
                game.legal_moves(state, &mut moves);
                let child_values = solution.child_values(index);
                let ghost m = game.model(state);
                let ghost childs = child_wdls(*solution, index as int);
                assert(child_values@ =~= childs);
                let n = if moves.len() < child_values.len() {
                    moves.len()
                } else {
                    child_values.len()
                };
                let mut optimal: Vec<ActionId> = Vec::new();
                let mut j: usize = 0;
                while j < n
                    invariant
                        game.wf(),
                        game.valid(m),
                        m == game.model(state),
                        moves@ == game.moves(m),
                        child_values@ == childs,
                        n <= moves@.len(),
                        n <= child_values@.len(),
                        j <= n,
                        optimal@ == optimal_actions(game, m, childs, value, j as int),
                    decreases n - j,
                {
                    if child_values[j] == value {
                        assert(moves@[j as int] == game.moves(m)[j as int]);
                        let a = game.action_id(state, moves[j]);
                        optimal.push(a);
                    }
                    j += 1;
                }
                records[i].exact_wdl = Some(value);
                records[i].exact_optimal = Some(optimal);
                stats.joined = stats.joined + 1;
            },
        }
        i += 1;
    }
    stats
}

/// Replaying legal moves from a valid position ends in a valid position.
proof fn lemma_replay_valid<G: Game>(g: &G, m: G::Model, path: Seq<ActionId>)
    requires
        g.wf(),
        g.valid(m),
    ensures
        replay(g, m, path) matches Some(r) ==> g.valid(r),
    decreases path.len(),
{
    if path.len() > 0 && g.result(m) is None {
        let n = g.moves(m).len() as int;
        match first_with_action(g, m, g.moves(m), path[0], n) {
            Some(mv) => {
                lemma_first_with_action(g, m, g.moves(m), path[0], n);
                g.lemma_step(m, mv);
                lemma_replay_valid(g, g.next(m, mv), path.drop_first());
            },
            None => {},
        }
    }
}

/// Exact value of a terminal child from the parent mover's perspective,
/// consistent with the search's shortest-win convention one ply down.
pub open spec fn terminal_child_spec(outcome: Outcome, parent: Player) -> i32 {
    match outcome {
        Outcome::Draw => 0,
        Outcome::Win(winner) => if winner == parent {
            (SCORE_WIN - 1) as i32
        } else {
            (-(SCORE_WIN - 1)) as i32
        },
    }
}

fn terminal_child_value(outcome: Outcome, parent: Player) -> (v: i32)
    ensures
        v == terminal_child_spec(outcome, parent),
{
    match outcome {
        Outcome::Draw => 0,
        Outcome::Win(winner) => {
            if winner == parent {
                SCORE_WIN - 1
            } else {
                -(SCORE_WIN - 1)
            }
        },
    }
}

/// What a node-limited search of the live position `m` with `budget`
/// nodes hands back: a legal best move, legal moves per completed depth,
/// no more than `budget` nodes, a value within the score range.
pub open spec fn node_limited_result<G: Game>(g: &G, m: G::Model, budget: u64, r: SearchResult<G::Move>) -> bool {
    &&& -SCORE_WIN <= r.value <= SCORE_WIN
    &&& r.best_move matches Some(mv) && g.moves(m).contains(mv)
    &&& forall|i: int| 0 <= i < r.per_depth@.len() ==> g.moves(m).contains((#[trigger] r.per_depth@[i]).0)
    &&& budget > 0 ==> r.nodes <= budget
    &&& r.completed_depth <= 512
    &&& r.per_depth@.len() == r.completed_depth
}

/// The label of the child reached by `action` from the search `result`
/// of that child: the child search's value is from the child's mover's
/// side, so the label, from the parent mover's side, is its negation.
pub fn child_label_from_search<M>(action: ActionId, budget: u64, result: &SearchResult<M>) -> (l: ChildLabel)
    requires
        result.value > i32::MIN,
    ensures
        l.action == action,
        l.node_budget == budget,
        l.nodes == result.nodes,
        l.completed_depth == result.completed_depth,
        l.value == -result.value,
{
    ChildLabel {
        action,
        node_budget: budget,
        nodes: result.nodes,
        completed_depth: result.completed_depth,
        value: -result.value,
    }
}

/// The label of the child of the live position `m` after `mv`: a finished
/// child is scored by its outcome for the parent's mover, with no search;
/// a live one carries the negated value, the nodes and the depth of a
/// node-limited search of it with `budget` nodes.
pub open spec fn child_label_of<G: Game>(g: &G, m: G::Model, mv: G::Move, l: ChildLabel, budget: u64) -> bool {
    let c = g.next(m, mv);
    match g.result(c) {
        Some(o) => l.value == terminal_child_spec(o, g.side(m)) && l.nodes == 0 && l.completed_depth == 0,
        None => exists|r: SearchResult<G::Move>|
            #[trigger] node_limited_result(g, c, budget, r) && l.value == -r.value && l.nodes == r.nodes
                && l.completed_depth == r.completed_depth,
    }
}

/// A node-limited search with a fresh transposition table.
fn search_at<G: Game, E: Evaluator<G>>(
    game: &G,
    state: &mut G::State,
    budget: u64,
    quiescence: bool,
    eval: &mut E,
) -> (r: SearchResult<G::Move>)
    requires
        game.wf(),
        game.valid(game.model(old(state))),
        game.result(game.model(old(state))) is None,
    ensures
        game.model(final(state)) == game.model(old(state)),
        -SCORE_WIN <= r.value <= SCORE_WIN,
        r.best_move matches Some(mv) && game.moves(game.model(old(state))).contains(mv),
        forall|i: int|
            0 <= i < r.per_depth@.len() ==> game.moves(game.model(old(state))).contains(
                (#[trigger] r.per_depth@[i]).0,
            ),
        budget > 0 ==> r.nodes <= budget,
        r.completed_depth <= 512,
        r.per_depth@.len() == r.completed_depth,
        node_limited_result(game, game.model(old(state)), budget, r),
{
    let mut searcher: Searcher<G> = Searcher::new(Some(SELFPLAY_TT_LOG2), MoveOrdering::Natural);
    searcher.set_quiescence(quiescence);
    searcher.search(game, state, 512, budget, eval)
}

/// The indices `0, 1, …, n - 1`.
pub open spec fn natural_order(n: nat) -> Seq<usize> {
    Seq::new(n, |i: int| i as usize)
}

/// The root order of `n` moves: by the evaluator's keys when it gave
/// them, else generation order.
pub open spec fn key_order(n: nat, keys: Option<Seq<u32>>) -> Seq<usize> {
    match keys {
        Some(k) => by_keys(natural_order(n), k),
        None => natural_order(n),
    }
}

/// Position, at or after `j`, of the first index in `order` whose move
/// has ID `action` (`order.len()` if none).
pub open spec fn rank_from<G: Game>(
    g: &G,
    m: G::Model,
    moves: Seq<G::Move>,
    order: Seq<usize>,
    action: ActionId,
    j: int,
) -> int
    decreases order.len() - j,
{
    if j < 0 || j >= order.len() || g.action(m, moves[order[j] as int]) == action {
        j
    } else {
        rank_from(g, m, moves, order, action, j + 1)
    }
}

/// Rank (0 = first) of the move with ID `action` in the evaluator-induced
/// root ordering: descending key with stable action-ID order on ties, or
/// plain generation order when the evaluator gives no keys.
fn order_rank<G: Game, E: Evaluator<G>>(
    game: &G,
    state: &G::State,
    moves: &Vec<G::Move>,
    action: ActionId,
    eval: &mut E,
) -> (r: u32)
    requires
        game.wf(),
        game.valid(game.model(state)),
        moves@ == game.moves(game.model(state)),
        exists|i: int| 0 <= i < moves@.len() && game.action(game.model(state), #[trigger] moves@[i]) == action,
    ensures
        r < moves@.len(),
        exists|keys: Option<Seq<u32>>|
            #![trigger key_order(moves@.len(), keys)]
            {
                &&& (keys matches Some(k) ==> k.len() == moves@.len())
                &&& r == rank_from(
                    game,
                    game.model(state),
                    moves@,
                    key_order(moves@.len(), keys),
                    action,
                    0,
                )
            },
{
    let n = moves.len();
    let mut order: Vec<usize> = Vec::new();
    let mut i: usize = 0;
    while i < n
        invariant
            i <= n,
            order@.len() == i,
            forall|j: int| 0 <= j < i ==> order@[j] == j,
        decreases n - i,
    {
        order.push(i);
        i += 1;
    }
    let ghost natural = order@;
    assert(natural =~= natural_order(n as nat));
    let mut keys: Vec<u32> = Vec::new();
    let ghost mut given: Option<Seq<u32>> = None;
    if eval.policy_keys(game, state, moves.as_slice(), &mut keys) {
        order_by_keys(&mut order, &keys);
        proof {
            given = Some(keys@);
        }
    }
    assert(order@ == key_order(moves@.len(), given));
    let ghost target = choose|i: int| 0 <= i < moves@.len() && game.action(game.model(state), #[trigger] moves@[i]) == action;
    proof {
        assert(natural[target] == target as usize);
        assert(natural.contains(target as usize));
        assert(order@.contains(target as usize));
        game.lemma_moves_bounded(game.model(state));
    }
    let mut r: usize = 0;
    while r < order.len()
        invariant
            game.wf(),
            game.valid(game.model(state)),
            moves@ == game.moves(game.model(state)),
            order@.len() == n,
            n == moves@.len(),
            same_moves(order@, natural),
            forall|j: int| 0 <= j < n ==> natural[j] == j,
            0 <= target < n,
            game.action(game.model(state), moves@[target]) == action,
            order@.contains(target as usize),
            forall|j: int| 0 <= j < r ==> order@[j] != target,
            r <= n,
            order@ == key_order(moves@.len(), given),
            given matches Some(k) ==> k.len() == moves@.len(),
            n <= 0xffff_ffff,
            rank_from(game, game.model(state), moves@, order@, action, r as int) == rank_from(
                game,
                game.model(state),
                moves@,
                order@,
                action,
                0,
            ),
        decreases n - r,
    {
        let k = order[r];
        proof {
            assert(order@.contains(k));
            assert(natural.contains(k));
            let w = choose|w: int| 0 <= w < n && natural[w] == k;
            assert(moves@.contains(moves@[k as int]));
        }
        if game.action_id(state, moves[k]) == action {
            proof {
                assert(rank_from(game, game.model(state), moves@, order@, action, r as int) == r);
                assert(r < n);
            }
            return r as u32;
        }
        proof {
            if k == target {
                assert(false);
            }
        }
        r += 1;
    }
    proof {
        let w = choose|w: int| 0 <= w < order@.len() && order@[w] == target as usize;
        assert(false);
    }
    0
}

/// A label of a search of `m` run with `budget` nodes: it records that
/// budget, spent no more than it, completed at most the 512 iterations
/// asked for (one entry each), and names a legal move of `m`.
pub open spec fn search_label_ok<G: Game>(g: &G, m: G::Model, l: SearchLabel, budget: u64) -> bool {
    &&& l.node_budget == budget
    &&& (budget > 0 ==> l.nodes <= budget)
    &&& l.completed_depth <= 512
    &&& l.per_depth@.len() == l.completed_depth
    &&& -SCORE_WIN <= l.value <= SCORE_WIN
    &&& exists|mv: G::Move| #[trigger] g.moves(m).contains(mv) && g.action(m, mv) == l.best_action
}

/// A child label run with `budget` nodes: it records that budget, spent
/// no more than it, and completed at most 512 iterations.
pub open spec fn child_label_ok(l: ChildLabel, budget: u64) -> bool {
    &&& l.node_budget == budget
    &&& (budget > 0 ==> l.nodes <= budget)
    &&& l.completed_depth <= 512
}

/// Label one sampled position with shallow, deep and optional
/// counterfactual child searches. Every search is node-limited with a
/// fresh transposition table, so labels do not depend on the order in
/// which positions are labelled.
pub fn label_position<G: Game, E: Evaluator<G>>(
    game: &G,
    sample: &PositionSample,
    evaluator_id: &str,
    shallow_nodes: &[u64],
    deep_nodes: u64,
    label_children: bool,
    child_nodes: u64,
    quiescence: bool,
    eval: &mut E,
) -> (record: TeacherRecord)
    requires
        game.wf(),
        replay(game, game.initial(), sample.path@) matches Some(m) && game.result(m) is None,
    ensures
        record.path@ == sample.path@,
        record.key == sample.key,
        record.ply == sample.ply,
        record.weight == sample.weight,
        record.provenance == Provenance::InternalSearch,
        record.evaluator@ == evaluator_id@,
        record.shallow@.len() == shallow_nodes@.len(),
        forall|i: int| 0 <= i < shallow_nodes@.len() ==> (#[trigger] record.shallow@[i]).node_budget == shallow_nodes@[i],
        record.deep.node_budget == deep_nodes,
        ({
            let m = replay(game, game.initial(), sample.path@)->0;
            &&& forall|i: int|
                0 <= i < shallow_nodes@.len() ==> search_label_ok(game, m, #[trigger] record.shallow@[i], shallow_nodes@[i])
            &&& search_label_ok(game, m, record.deep, deep_nodes)
            &&& forall|i: int| 0 <= i < record.children@.len() ==> child_label_ok(#[trigger] record.children@[i], child_nodes)
            &&& record.deep_best_order_rank < game.moves(m).len()
            &&& label_children ==> record.children@.len() == game.moves(m).len() && forall|i: int|
                0 <= i < record.children@.len() ==> (#[trigger] record.children@[i]).action == game.action(
                    m,
                    game.moves(m)[i],
                ) && record.children@[i].node_budget == child_nodes
            &&& label_children ==> forall|i: int|
                0 <= i < record.children@.len() ==> child_label_of(
                    game,
                    m,
                    game.moves(m)[i],
                    #[trigger] record.children@[i],
                    child_nodes,
                )
            &&& !label_children ==> record.children@.len() == 0
        }),
        record.exact_wdl is None,
        record.exact_optimal is None,
{
    let ghost m = replay(game, game.initial(), sample.path@)->0;
    let mut state = match replay_path(game, sample.path.as_slice()) {
        Ok(s) => s,
        Err(_) => {
            proof {
                assert(false);
            }
            return TeacherRecord {
                path: Vec::new(),
                key: 0,
                ply: 0,
                weight: 0,
                provenance: Provenance::InternalSearch,
                evaluator: String::new(),
                shallow: Vec::new(),
                deep: SearchLabel { node_budget: 0, nodes: 0, completed_depth: 0, value: 0, best_action: 0, per_depth: Vec::new() },
                deep_best_order_rank: 0,
                children: Vec::new(),
                exact_wdl: None,
                exact_optimal: None,
            };
        },
    };
    proof {
        game.lemma_initial_valid();
        lemma_replay_valid(game, game.initial(), sample.path@);
    }
    let mut shallow: Vec<SearchLabel> = Vec::new();
    let mut i: usize = 0;
    while i < shallow_nodes.len()
        invariant
            game.wf(),
            game.model(&state) == m,
            game.valid(m),
            game.result(m) is None,
            i <= shallow_nodes@.len(),
            shallow@.len() == i,
            forall|j: int| 0 <= j < i ==> (#[trigger] shallow@[j]).node_budget == shallow_nodes@[j],
            forall|j: int| 0 <= j < i ==> search_label_ok(game, m, #[trigger] shallow@[j], shallow_nodes@[j]),
        decreases shallow_nodes@.len() - i,
    {
        let budget = shallow_nodes[i];
        let result = search_at(game, &mut state, budget, quiescence, eval);
        let label = SearchLabel::from_result(game, &state, budget, &result);
        proof {
            let mv = result.best_move->0;
            assert(game.moves(m).contains(mv) && game.action(m, mv) == label.best_action);
        }
        shallow.push(label);
        i += 1;
    }
    let deep_result = search_at(game, &mut state, deep_nodes, quiescence, eval);
    let deep = SearchLabel::from_result(game, &state, deep_nodes, &deep_result);
    proof {
        let mv = deep_result.best_move->0;
        assert(game.moves(m).contains(mv) && game.action(m, mv) == deep.best_action);
    }
    let mut moves = Vec::new();
    game.legal_moves(&state, &mut moves);
    proof {
        let best = deep_result.best_move->0;
        let k = choose|k: int| 0 <= k < moves@.len() && moves@[k] == best;
        assert(game.action(m, moves@[k]) == deep.best_action);
    }
    let deep_best_order_rank = order_rank(game, &state, &moves, deep.best_action, eval);
    let mut children: Vec<ChildLabel> = Vec::new();
    if label_children {
        let side = game.side_to_move(&state);
        let mut j: usize = 0;
        while j < moves.len()
            invariant
                game.wf(),
                game.model(&state) == m,
                game.valid(m),
                game.result(m) is None,
                moves@ == game.moves(m),
                j <= moves@.len(),
                children@.len() == j,
                forall|k: int|
                    0 <= k < j ==> (#[trigger] children@[k]).action == game.action(m, moves@[k])
                        && children@[k].node_budget == child_nodes,
                forall|k: int| 0 <= k < j ==> child_label_ok(#[trigger] children@[k], child_nodes),
                side == game.side(m),
                forall|k: int| 0 <= k < j ==> child_label_of(game, m, moves@[k], #[trigger] children@[k], child_nodes),
            decreases moves@.len() - j,
        {
            let mv = moves[j];
            proof {
                assert(moves@.contains(mv)) by {
                    assert(moves@[j as int] == mv);
                }
                game.lemma_step(m, mv);
            }
            let action = game.action_id(&state, mv);
            let undo = game.make_move(&mut state, mv);
            let label = match game.outcome(&state) {
                Some(outcome) => ChildLabel {
                    action,
                    node_budget: child_nodes,
                    nodes: 0,
                    completed_depth: 0,
                    value: terminal_child_value(outcome, side),
                },
                None => {
                    let result = search_at(game, &mut state, child_nodes, quiescence, eval);
                    let l = child_label_from_search(action, child_nodes, &result);
                    proof {
                        assert(node_limited_result(game, game.next(m, mv), child_nodes, result));
                    }
                    l
                },
            };
            proof {
                assert(game.next(m, mv) == game.model(&state));
                assert(child_label_of(game, m, mv, label, child_nodes));
            }
            game.unmake_move(&mut state, mv, undo);
            children.push(label);
            j += 1;
        }
    }
    let mut evaluator = String::new();
    evaluator.append(evaluator_id);
    TeacherRecord {
        path: sample.path.clone(),
        key: sample.key,
        ply: sample.ply,
        weight: sample.weight,
        provenance: Provenance::InternalSearch,
        evaluator,
        shallow,
        deep,
        deep_best_order_rank,
        children,
        exact_wdl: None,
        exact_optimal: None,
    }
}

} // verus!
