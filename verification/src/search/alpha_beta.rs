//! The production search: negamax with alpha–beta pruning, iterative
//! deepening, an optional transposition table, horizon quiescence and a
//! deterministic node budget. Search is single-threaded; parallelism
//! comes from independent games.

use crate::game::{Game, Outcome, Player};
use crate::search::{
    best_score, negamax_value, solvable, terminal_score, terminal_value, MoveOrdering, SearchResult, ZeroEvaluator, SCORE_EVAL_MAX, SCORE_INF,
    SCORE_TERMINAL_BOUND, SCORE_WIN,
};
use std::time::Instant;
use vstd::prelude::*;

verus! {

/// Quiescence stops extending after this many plies past the horizon.
const QS_MAX_DEPTH: u32 = 32;

#[verifier::external_type_specification]
#[verifier::external_body]
pub struct ExInstant(std::time::Instant);

/// `Instant::now() >= *deadline`. It reads the clock, so nothing is
/// claimed of the answer.
#[verifier::external_body]
fn deadline_passed(deadline: &Instant) -> (passed: bool) {
    Instant::now() >= *deadline
}

/// Leaf evaluation and move ordering supplied to the search.
pub trait Evaluator<G: Game> {
    /// Score a non-terminal depth-0 leaf from the side to move's
    /// perspective, within `[-SCORE_EVAL_MAX, SCORE_EVAL_MAX]`.
    fn leaf_value(&mut self, game: &G, state: &G::State) -> (v: i32)
        requires
            game.wf(),
            game.valid(game.model(state)),
        ensures
            -SCORE_EVAL_MAX <= v <= SCORE_EVAL_MAX,
    ;

    /// Ordering keys for `moves`, aligned by index: higher keys are
    /// searched first, equal keys keep their order. A model with
    /// real-valued scores hands over an order-preserving image of them.
    /// Return `false` to keep pure stable action-ID order.
    fn policy_keys(&mut self, game: &G, state: &G::State, moves: &[G::Move], out: &mut Vec<u32>) -> (ordered:
        bool)
        requires
            game.wf(),
            game.valid(game.model(state)),
        ensures
            ordered ==> final(out)@.len() == moves@.len(),
    {
        false
    }
}

impl<G: Game> Evaluator<G> for ZeroEvaluator {
    /// Every leaf is a draw-like 0.
    fn leaf_value(&mut self, game: &G, state: &G::State) -> (v: i32)
        ensures
            v == 0,
    {
        0
    }
}

#[derive(Clone, Copy, PartialEq, Eq, Debug, Structural)]
enum Bound {
    Exact,
    Lower,
    Upper,
}

#[derive(Clone, Copy)]
struct TtEntry<M> {
    key: u64,
    score: i32,
    depth: u32,
    bound: Bound,
    best: Option<M>,
}

struct TranspositionTable<M> {
    entries: Vec<Option<TtEntry<M>>>,
    mask: usize,
    probes: u64,
    hits: u64,
}

/// Scores kept in the table stay within the terminal score range.
pub open spec fn tt_score_ok(score: int) -> bool {
    -SCORE_WIN <= score <= SCORE_WIN
}

/// The slot of `key` in a table of `mask + 1` entries.
pub open spec fn tt_slot(key: u64, mask: usize) -> int {
    ((key as usize) & mask) as int
}

/// The entry under `key` in `entries`, if the slot holds that key.
spec fn tt_lookup<M>(entries: Seq<Option<TtEntry<M>>>, mask: usize, key: u64) -> Option<TtEntry<M>> {
    match entries[tt_slot(key, mask)] {
        Some(e) => if e.key == key {
            Some(e)
        } else {
            None
        },
        None => None,
    }
}

impl<M: Copy> TranspositionTable<M> {
    spec fn wf(&self) -> bool {
        &&& self.entries@.len() == self.mask + 1
        &&& forall|i: int|
            0 <= i < self.entries@.len() ==> (#[trigger] self.entries@[i] matches Some(e) ==> tt_score_ok(
                e.score as int,
            ))
    }

    fn new(log2_entries: u32) -> (t: TranspositionTable<M>)
        requires
            log2_entries <= 30,
        ensures
            t.wf(),
            t.probes == 0,
            t.hits == 0,
    {
        let len: usize = 1usize << log2_entries;
        assert(1usize << log2_entries >= 1usize) by (bit_vector)
            requires
                log2_entries <= 30u32,
        ;
        let mut entries: Vec<Option<TtEntry<M>>> = Vec::new();
        let mut i: usize = 0;
        while i < len
            invariant
                i <= len,
                entries@.len() == i,
                forall|j: int| 0 <= j < i ==> #[trigger] entries@[j] is None,
            decreases len - i,
        {
            entries.push(None);
            i += 1;
        }
        TranspositionTable { entries, mask: len - 1, probes: 0, hits: 0 }
    }

    /// The entry stored under `key`, if the slot holds that key.
    fn probe(&mut self, key: u64) -> (r: Option<TtEntry<M>>)
        requires
            old(self).wf(),
        ensures
            final(self).wf(),
            final(self).entries@ == old(self).entries@,
            final(self).mask == old(self).mask,
            r == tt_lookup(old(self).entries@, old(self).mask, key),
            final(self).probes == vstd::wrapping::u64_specs::wrapping_add(old(self).probes, 1),
            final(self).hits == if r is Some {
                vstd::wrapping::u64_specs::wrapping_add(old(self).hits, 1)
            } else {
                old(self).hits
            },
            r matches Some(e) ==> e.key == key && tt_score_ok(e.score as int),
    {
        self.probes = self.probes.wrapping_add(1);
        let mask = self.mask;
        let index = (key as usize) & mask;
        assert(index <= mask) by (bit_vector)
            requires
                index == (key as usize) & mask,
        ;
        match self.entries[index] {
            Some(e) => {
                if e.key == key {
                    self.hits = self.hits.wrapping_add(1);
                    Some(e)
                } else {
                    None
                }
            },
            None => None,
        }
    }

    fn store(&mut self, entry: TtEntry<M>)
        requires
            old(self).wf(),
            tt_score_ok(entry.score as int),
        ensures
            final(self).wf(),
            final(self).mask == old(self).mask,
            final(self).entries@ == old(self).entries@.update(tt_slot(entry.key, old(self).mask), Some(entry)),
            final(self).probes == old(self).probes,
            final(self).hits == old(self).hits,
    {
        let mask = self.mask;
        let key = entry.key;
        let index = (key as usize) & mask;
        assert(index <= mask) by (bit_vector)
            requires
                index == (key as usize) & mask,
        ;
        self.entries.set(index, Some(entry));
    }
}

/// Scores a node at `ply` can return: plain scores, or proven win/loss
/// scores no further than the distance left to `SCORE_WIN`.
pub open spec fn node_score_ok(v: int, ply: int) -> bool {
    ||| -SCORE_TERMINAL_BOUND <= v <= SCORE_TERMINAL_BOUND
    ||| -(SCORE_WIN - ply) <= v <= SCORE_WIN - ply
}

/// Deepest ply the search reaches; the score arithmetic stays exact
/// below it.
pub const MAX_PLY: u32 = 60_000;

/// Deepest iteration a search may be asked for. An iteration of depth
/// `d` recurses `d` plies deep (one call frame, with its move list, per
/// ply), so depths of this size already exceed any thread's stack; the
/// bound is that machine limit, written down so that the ply arithmetic
/// of scores (`SCORE_WIN - ply`, table conversions by `ply`) provably
/// stays within `i32`. Callers ask for depths of a few hundred at most.
pub const MAX_SEARCH_DEPTH: u32 = 50_000;

pub open spec fn to_tt_spec(score: int, ply: int) -> int {
    if score > SCORE_TERMINAL_BOUND {
        score + ply
    } else if score < -SCORE_TERMINAL_BOUND {
        score - ply
    } else {
        score
    }
}

pub open spec fn from_tt_spec(score: int, ply: int) -> int {
    if score > SCORE_TERMINAL_BOUND {
        score - ply
    } else if score < -SCORE_TERMINAL_BOUND {
        score + ply
    } else {
        score
    }
}

/// Convert a search-perspective score to its transposition-table form
/// (terminal distances stored relative to the node, not the root).
fn score_to_tt(score: i32, ply: u32) -> (r: i32)
    requires
        ply <= MAX_PLY,
        node_score_ok(score as int, ply as int),
    ensures
        r == to_tt_spec(score as int, ply as int),
        tt_score_ok(r as int),
{
    if score > SCORE_TERMINAL_BOUND {
        score + ply as i32
    } else if score < -SCORE_TERMINAL_BOUND {
        score - ply as i32
    } else {
        score
    }
}

fn score_from_tt(score: i32, ply: u32) -> (r: i32)
    requires
        ply <= MAX_PLY,
        tt_score_ok(score as int),
    ensures
        r == from_tt_spec(score as int, ply as int),
        node_score_ok(r as int, ply as int),
{
    if score > SCORE_TERMINAL_BOUND {
        score - ply as i32
    } else if score < -SCORE_TERMINAL_BOUND {
        score + ply as i32
    } else {
        score
    }
}

// ---- move ordering ----

/// Two move lists hold the same moves.
pub open spec fn same_moves<M>(a: Seq<M>, b: Seq<M>) -> bool {
    &&& a.len() == b.len()
    &&& forall|x: M| a.contains(x) <==> b.contains(x)
}

proof fn lemma_insert_contains<M>(s: Seq<M>, i: int, x: M, y: M)
    requires
        0 <= i <= s.len(),
    ensures
        s.insert(i, x).contains(y) <==> (y == x || s.contains(y)),
{
    let t = s.insert(i, x);
    if t.contains(y) {
        let j = choose|j: int| 0 <= j < t.len() && t[j] == y;
        if j < i {
            assert(s[j] == y);
        } else if j > i {
            assert(s[j - 1] == y);
        }
    }
    if y == x {
        assert(t[i] == x);
    } else if s.contains(y) {
        let j = choose|j: int| 0 <= j < s.len() && s[j] == y;
        if j < i {
            assert(t[j] == y);
        } else {
            assert(t[j + 1] == y);
        }
    }
}

proof fn lemma_push_contains<M>(s: Seq<M>, x: M)
    ensures
        forall|y: M| s.push(x).contains(y) <==> (y == x || s.contains(y)),
{
    let t = s.push(x);
    assert forall|y: M| t.contains(y) <==> (y == x || s.contains(y)) by {
        if t.contains(y) {
            let j = choose|j: int| 0 <= j < t.len() && t[j] == y;
            if j < s.len() {
                assert(s[j] == y);
            }
        }
        if y == x {
            assert(t[s.len() as int] == x);
        } else if s.contains(y) {
            let j = choose|j: int| 0 <= j < s.len() && s[j] == y;
            assert(t[j] == y);
        }
    }
}

/// Inserting the same move into two lists that hold the same moves
/// keeps them so.
proof fn lemma_insert_same<M>(a: Seq<M>, b: Seq<M>, p: int, q: int, x: M)
    requires
        forall|y: M| a.contains(y) <==> b.contains(y),
        0 <= p <= a.len(),
        0 <= q <= b.len(),
    ensures
        forall|y: M| #[trigger] a.insert(p, x).contains(y) <==> b.insert(q, x).contains(y),
{
    assert forall|y: M| #[trigger] a.insert(p, x).contains(y) <==> b.insert(q, x).contains(y) by {
        lemma_insert_contains(a, p, x, y);
        lemma_insert_contains(b, q, x, y);
    }
}

/// Where a move with key `k` goes in a list whose keys are `rk`: after
/// every leading key at least `k` (searching from `p`).
pub open spec fn key_slot(rk: Seq<u32>, k: u32, p: int) -> int
    decreases rk.len() - p,
{
    if p < 0 || p >= rk.len() || rk[p] < k {
        p
    } else {
        key_slot(rk, k, p + 1)
    }
}

/// Moves and keys after stably sorting by descending key: each move in
/// turn goes after every earlier move whose key is at least its own.
pub open spec fn keyed_order<M>(moves: Seq<M>, keys: Seq<u32>) -> (Seq<M>, Seq<u32>)
    decreases moves.len(),
{
    if moves.len() == 0 || keys.len() == 0 {
        (Seq::empty(), Seq::empty())
    } else {
        let (r, rk) = keyed_order(moves.drop_last(), keys.drop_last());
        let p = key_slot(rk, keys.last(), 0);
        (r.insert(p, moves.last()), rk.insert(p, keys.last()))
    }
}

/// `moves` stably sorted by descending key.
pub open spec fn by_keys<M>(moves: Seq<M>, keys: Seq<u32>) -> Seq<M> {
    keyed_order(moves, keys).0
}

proof fn lemma_key_slot_range(rk: Seq<u32>, k: u32, p: int)
    requires
        0 <= p <= rk.len(),
    ensures
        p <= key_slot(rk, k, p) <= rk.len(),
    decreases rk.len() - p,
{
    if p < rk.len() && rk[p] >= k {
        lemma_key_slot_range(rk, k, p + 1);
    }
}

proof fn lemma_keyed_order_len<M>(moves: Seq<M>, keys: Seq<u32>)
    requires
        moves.len() == keys.len(),
    ensures
        keyed_order(moves, keys).0.len() == moves.len(),
        keyed_order(moves, keys).1.len() == moves.len(),
    decreases moves.len(),
{
    if moves.len() > 0 {
        lemma_keyed_order_len(moves.drop_last(), keys.drop_last());
        let (r, rk) = keyed_order(moves.drop_last(), keys.drop_last());
        lemma_key_slot_range(rk, keys.last(), 0);
    }
}

/// Stable reorder of `moves` by descending key.
pub(crate) fn order_by_keys<M: Copy>(moves: &mut Vec<M>, keys: &Vec<u32>)
    requires
        keys@.len() == old(moves)@.len(),
    ensures
        final(moves)@ == by_keys(old(moves)@, keys@),
        same_moves(final(moves)@, old(moves)@),
{
    let mut r: Vec<M> = Vec::new();
    let mut rk: Vec<u32> = Vec::new();
    let mut i: usize = 0;
    while i < moves.len()
        invariant
            i <= moves@.len(),
            keys@.len() == moves@.len(),
            r@.len() == i,
            rk@.len() == i,
            (r@, rk@) == keyed_order(moves@.take(i as int), keys@.take(i as int)),
            forall|x: M| r@.contains(x) <==> moves@.take(i as int).contains(x),
        decreases moves@.len() - i,
    {
        let x = moves[i];
        let k = keys[i];
        let mut p: usize = 0;
        while p < r.len() && rk[p] >= k
            invariant
                p <= r@.len(),
                r@.len() == rk@.len(),
                key_slot(rk@, k, p as int) == key_slot(rk@, k, 0),
            decreases r@.len() - p,
        {
            p += 1;
        }
        proof {
            let t = moves@.take(i as int);
            lemma_insert_same(r@, t, p as int, t.len() as int, x);
            assert(t.insert(t.len() as int, x) =~= moves@.take(i + 1));
            assert(moves@.take(i + 1).drop_last() =~= t);
            assert(keys@.take(i + 1).drop_last() =~= keys@.take(i as int));
            assert(key_slot(rk@, k, p as int) == p);
        }
        r.insert(p, x);
        rk.insert(p, k);
        i += 1;
    }
    assert(moves@.take(moves@.len() as int) =~= moves@);
    assert(keys@.take(keys@.len() as int) =~= keys@);
    *moves = r;
}

/// The first index of `x` in `s` at or after `i` (`s.len()` if none).
pub open spec fn first_index<M>(s: Seq<M>, x: M, i: int) -> int
    decreases s.len() - i,
{
    if i < 0 || i >= s.len() || s[i] == x {
        i
    } else {
        first_index(s, x, i + 1)
    }
}

/// `s` with the first occurrence of the table's move, if listed, moved to
/// the front.
pub open spec fn tt_first<M>(s: Seq<M>, tt: Option<M>) -> Seq<M> {
    match tt {
        Some(b) => {
            let pos = first_index(s, b, 0);
            if pos < s.len() {
                s.remove(pos).insert(0, s[pos])
            } else {
                s
            }
        },
        None => s,
    }
}

/// A node's move order: by the evaluator's keys when it gave them,
/// reversed when asked, then the table's move first.
pub open spec fn ordered_moves<M>(moves: Seq<M>, keys: Option<Seq<u32>>, ordering: MoveOrdering, tt: Option<M>) -> Seq<M> {
    let keyed = match keys {
        Some(k) => by_keys(moves, k),
        None => moves,
    };
    let turned = if ordering == MoveOrdering::Reversed {
        keyed.reverse()
    } else {
        keyed
    };
    tt_first(turned, tt)
}

/// Reverse a move list.
fn reverse_moves<M: Copy>(moves: &mut Vec<M>)
    ensures
        final(moves)@ == old(moves)@.reverse(),
        same_moves(final(moves)@, old(moves)@),
{
    let mut r: Vec<M> = Vec::new();
    let mut i: usize = moves.len();
    while i > 0
        invariant
            i <= moves@.len(),
            r@.len() == moves@.len() - i,
            r@ == moves@.skip(i as int).reverse(),
            forall|x: M| r@.contains(x) <==> moves@.skip(i as int).contains(x),
        decreases i,
    {
        i -= 1;
        let x = moves[i];
        proof {
            lemma_insert_same(r@, moves@.skip(i + 1), r@.len() as int, 0, x);
            assert(moves@.skip(i as int) =~= moves@.skip(i + 1).insert(0, x));
            assert(r@.insert(r@.len() as int, x) =~= r@.push(x));
            assert(moves@.skip(i as int).reverse() =~= moves@.skip(i + 1).reverse().push(x));
        }
        r.push(x);
    }
    assert(moves@.skip(0) =~= moves@);
    *moves = r;
}

/// Move `moves[pos]` to the front, keeping the order of the others.
fn move_to_front<M: Copy>(moves: &mut Vec<M>, pos: usize)
    requires
        pos < old(moves)@.len(),
    ensures
        same_moves(final(moves)@, old(moves)@),
        final(moves)@ == old(moves)@.remove(pos as int).insert(0, old(moves)@[pos as int]),
        final(moves)@[0] == old(moves)@[pos as int],
{
    let ghost m0 = moves@;
    let x = moves.remove(pos);
    proof {
        assert(moves@.insert(pos as int, x) =~= m0);
        assert forall|y: M| moves@.contains(y) <==> moves@.contains(y) by {}
        lemma_insert_same(moves@, moves@, 0, pos as int, x);
    }
    moves.insert(0, x);
}


// ---- what alpha–beta computes ----

/// Fail-soft alpha–beta: a score at or below the window bounds the true
/// value from above, one at or above it bounds it from below, and one
/// inside it is exact.
pub open spec fn bound_ok(v: int, truth: int, alpha: int, beta: int) -> bool {
    &&& v <= alpha ==> truth <= v
    &&& v >= beta ==> truth >= v
    &&& alpha < v < beta ==> truth == v
}

/// Negated full-depth score of the position after `mv`.
pub open spec fn child_score<G: Game>(g: &G, m: G::Model, ply: int, mv: G::Move) -> int {
    -negamax_value(g, g.next(m, mv), ply + 1)
}

/// Best child score over `list` (`-SCORE_INF` for an empty list).
pub open spec fn ordered_best<G: Game>(g: &G, m: G::Model, ply: int, list: Seq<G::Move>) -> int
    decreases list.len(),
{
    if list.len() == 0 {
        -SCORE_INF
    } else {
        let rest = ordered_best(g, m, ply, list.drop_last());
        let last = child_score(g, m, ply, list.last());
        if rest >= last {
            rest
        } else {
            last
        }
    }
}

/// Full-depth scores stay within the terminal range while the plies do.
proof fn lemma_negamax_bounded<G: Game>(g: &G, m: G::Model, ply: int)
    requires
        solvable(g, m),
        0 <= ply,
        ply + g.height(m) <= 64_000,
    ensures
        -SCORE_WIN <= negamax_value(g, m, ply) <= SCORE_WIN,
    decreases g.height(m), g.moves(m).len() + 1,
{
    if g.result(m) is None {
        g.lemma_live_has_moves(m);
        lemma_best_bounded(g, m, ply, g.moves(m).len() as int);
    }
}

proof fn lemma_best_bounded<G: Game>(g: &G, m: G::Model, ply: int, n: int)
    requires
        solvable(g, m),
        g.result(m) is None,
        1 <= n <= g.moves(m).len(),
        0 <= ply,
        ply + g.height(m) <= 64_000,
    ensures
        -SCORE_WIN <= best_score(g, m, ply, n) <= SCORE_WIN,
    decreases g.height(m), n,
{
    let mv = g.moves(m)[n - 1];
    assert(g.moves(m).contains(mv));
    g.lemma_step(m, mv);
    g.lemma_height_decreases(m, mv);
    lemma_negamax_bounded(g, g.next(m, mv), ply + 1);
    if n > 1 {
        lemma_best_bounded(g, m, ply, n - 1);
    }
}

/// Every legal move's child score is above the sentinel.
proof fn lemma_children_bounded<G: Game>(g: &G, m: G::Model, ply: int)
    requires
        solvable(g, m),
        g.result(m) is None,
        0 <= ply,
        ply + g.height(m) <= 64_000,
    ensures
        forall|x: G::Move| g.moves(m).contains(x) ==> #[trigger] child_score(g, m, ply, x) >= -SCORE_WIN,
{
    assert forall|x: G::Move| g.moves(m).contains(x) implies #[trigger] child_score(g, m, ply, x) >= -SCORE_WIN by {
        g.lemma_step(m, x);
        g.lemma_height_decreases(m, x);
        lemma_negamax_bounded(g, g.next(m, x), ply + 1);
    }
}

/// The best over a non-empty list is at least every child score and
/// equal to one of them.
proof fn lemma_ordered_best_char<G: Game>(g: &G, m: G::Model, ply: int, list: Seq<G::Move>)
    requires
        list.len() > 0,
        forall|j: int| 0 <= j < list.len() ==> #[trigger] child_score(g, m, ply, list[j]) >= -SCORE_INF,
    ensures
        forall|j: int|
            0 <= j < list.len() ==> ordered_best(g, m, ply, list) >= #[trigger] child_score(g, m, ply, list[j]),
        exists|j: int|
            0 <= j < list.len() && ordered_best(g, m, ply, list) == #[trigger] child_score(g, m, ply, list[j]),
    decreases list.len(),
{
    let rest = list.drop_last();
    let n = list.len() - 1;
    assert(list[n] == list.last());
    assert(child_score(g, m, ply, list[n]) >= -SCORE_INF);
    if rest.len() == 0 {
        assert(ordered_best(g, m, ply, rest) == -SCORE_INF);
        assert(n == 0);
        assert(ordered_best(g, m, ply, list) == child_score(g, m, ply, list[0]));
    } else {
        assert forall|j: int| 0 <= j < rest.len() implies #[trigger] child_score(g, m, ply, rest[j]) >= -SCORE_INF by {
            assert(rest[j] == list[j]);
            assert(child_score(g, m, ply, list[j]) >= -SCORE_INF);
        }
        lemma_ordered_best_char(g, m, ply, rest);
        assert forall|j: int| 0 <= j < list.len() implies ordered_best(g, m, ply, list) >= #[trigger] child_score(
            g,
            m,
            ply,
            list[j],
        ) by {
            if j < rest.len() {
                assert(rest[j] == list[j]);
                assert(ordered_best(g, m, ply, rest) >= child_score(g, m, ply, rest[j]));
            }
        }
        let k = choose|k: int|
            0 <= k < rest.len() && ordered_best(g, m, ply, rest) == #[trigger] child_score(g, m, ply, rest[k]);
        assert(rest[k] == list[k]);
        if ordered_best(g, m, ply, list) == ordered_best(g, m, ply, rest) {
            assert(ordered_best(g, m, ply, list) == child_score(g, m, ply, list[k]));
        } else {
            assert(ordered_best(g, m, ply, list) == child_score(g, m, ply, list[n]));
        }
    }
}

/// The same for `best_score` over the game's own move order.
proof fn lemma_best_score_char<G: Game>(g: &G, m: G::Model, ply: int, n: int)
    requires
        solvable(g, m),
        g.result(m) is None,
        1 <= n <= g.moves(m).len(),
        forall|x: G::Move| g.moves(m).contains(x) ==> #[trigger] child_score(g, m, ply, x) >= -SCORE_INF,
    ensures
        forall|j: int| 0 <= j < n ==> best_score(g, m, ply, n) >= #[trigger] child_score(g, m, ply, g.moves(m)[j]),
        exists|j: int| 0 <= j < n && best_score(g, m, ply, n) == #[trigger] child_score(g, m, ply, g.moves(m)[j]),
    decreases n,
{
    let s = g.moves(m);
    assert(s.contains(s[n - 1]));
    let c = child_score(g, m, ply, s[n - 1]);
    assert(c >= -SCORE_INF);
    assert(best_score(g, m, ply, n) == vstd::math::max(best_score(g, m, ply, n - 1), c));
    if n == 1 {
        assert(best_score(g, m, ply, 0) == -SCORE_INF);
        assert(best_score(g, m, ply, n) == c);
    } else {
        lemma_best_score_char(g, m, ply, n - 1);
        let k = choose|k: int| 0 <= k < n - 1 && best_score(g, m, ply, n - 1) == #[trigger] child_score(g, m, ply, s[k]);
        if best_score(g, m, ply, n) == best_score(g, m, ply, n - 1) {
            assert(best_score(g, m, ply, n) == child_score(g, m, ply, s[k]));
        } else {
            assert(best_score(g, m, ply, n) == child_score(g, m, ply, s[n - 1]));
        }
    }
}

/// The best over any list holding exactly the legal moves is the
/// position's full-depth score.
proof fn lemma_same_best<G: Game>(g: &G, m: G::Model, ply: int, list: Seq<G::Move>)
    requires
        solvable(g, m),
        g.result(m) is None,
        same_moves(list, g.moves(m)),
        list.len() > 0,
        0 <= ply,
        ply + g.height(m) <= 64_000,
    ensures
        ordered_best(g, m, ply, list) == negamax_value(g, m, ply),
{
    let s = g.moves(m);
    lemma_children_bounded(g, m, ply);
    assert forall|j: int| 0 <= j < list.len() implies #[trigger] child_score(g, m, ply, list[j]) >= -SCORE_INF by {
        assert(list.contains(list[j]));
        assert(s.contains(list[j]));
    }
    lemma_ordered_best_char(g, m, ply, list);
    lemma_best_score_char(g, m, ply, s.len() as int);
    let a = ordered_best(g, m, ply, list);
    let b = best_score(g, m, ply, s.len() as int);
    let j = choose|j: int| 0 <= j < s.len() && b == #[trigger] child_score(g, m, ply, s[j]);
    assert(s.contains(s[j]));
    assert(list.contains(s[j]));
    let jj = choose|jj: int| 0 <= jj < list.len() && list[jj] == s[j];
    assert(a >= child_score(g, m, ply, list[jj]));
    let k = choose|k: int| 0 <= k < list.len() && a == #[trigger] child_score(g, m, ply, list[k]);
    assert(list.contains(list[k]));
    assert(s.contains(list[k]));
    let kk = choose|kk: int| 0 <= kk < s.len() && s[kk] == list[k];
    assert(b >= child_score(g, m, ply, s[kk]));
}

/// Extending a non-empty list never lowers its best.
proof fn lemma_ordered_best_prefix<G: Game>(g: &G, m: G::Model, ply: int, list: Seq<G::Move>, k: int)
    requires
        1 <= k <= list.len(),
    ensures
        ordered_best(g, m, ply, list.take(k)) <= ordered_best(g, m, ply, list),
    decreases list.len() - k,
{
    if k < list.len() {
        lemma_ordered_best_prefix(g, m, ply, list, k + 1);
        assert(list.take(k + 1).drop_last() =~= list.take(k));
    } else {
        assert(list.take(k) =~= list);
    }
}


// ---- the searcher ----

/// The production search: negamax with alpha–beta pruning, iterative
/// deepening, an optional transposition table, and a deterministic node
/// budget.
pub struct Searcher<G: Game> {
    tt: Option<TranspositionTable<G::Move>>,
    ordering: MoveOrdering,
    /// Resolve captures/promotions at the horizon. Off by default; off is
    /// the reference mode.
    quiescence: bool,
    nodes: u64,
    qnodes: u64,
    node_limit: u64,
    /// Optional wall-clock deadline, checked every 128 nodes. Node-budget
    /// runs leave this `None` and stay fully deterministic.
    deadline: Option<Instant>,
    aborted: bool,
    keys: Vec<u32>,
}

impl<G: Game> Searcher<G> {
    pub closed spec fn wf(&self) -> bool {
        &&& self.tt matches Some(t) ==> t.wf()
        &&& self.qnodes <= self.nodes
        &&& (self.nodes <= self.node_limit || self.nodes == 1)
    }

    /// Another node may be counted: the budget is not spent, or nothing
    /// was counted yet.
    pub closed spec fn may_count(&self) -> bool {
        &&& !self.aborted
        &&& (self.nodes < self.node_limit || self.nodes == 0)
    }

    pub closed spec fn has_tt(&self) -> bool {
        self.tt is Some
    }

    pub closed spec fn quiescence_on(&self) -> bool {
        self.quiescence
    }

    pub closed spec fn spec_ordering(&self) -> MoveOrdering {
        self.ordering
    }

    /// The wall-clock deadline in force.
    pub closed spec fn spec_deadline(&self) -> Option<Instant> {
        self.deadline
    }

    /// The searcher with its deadline cleared: everything but the deadline.
    pub closed spec fn without_deadline(&self) -> Self {
        Searcher { deadline: None, ..*self }
    }

    /// `(probes, hits)` of the transposition table, `(0, 0)` without one.
    pub closed spec fn spec_tt_stats(&self) -> (u64, u64) {
        match self.tt {
            Some(t) => (t.probes, t.hits),
            None => (0u64, 0u64),
        }
    }

    /// The move the table stores for `key`, if any.
    spec fn tt_best(&self, key: u64) -> Option<G::Move> {
        match self.tt {
            Some(t) => match tt_lookup(t.entries@, t.mask, key) {
                Some(e) => e.best,
                None => None,
            },
            None => None,
        }
    }

    /// The settings a search keeps.
    pub closed spec fn same_settings(&self, other: &Self) -> bool {
        &&& self.tt is Some == other.tt is Some
        &&& self.quiescence == other.quiescence
        &&& self.ordering == other.ordering
    }

    /// `tt_log2_entries: None` disables the transposition table (used only
    /// by controlled experiments; production keeps it on).
    pub fn new(tt_log2_entries: Option<u32>, ordering: MoveOrdering) -> (s: Searcher<G>)
        requires
            tt_log2_entries matches Some(n) ==> n <= 30,
        ensures
            s.wf(),
            s.has_tt() == tt_log2_entries is Some,
            !s.quiescence_on(),
            s.spec_ordering() == ordering,
    {
        let tt = match tt_log2_entries {
            Some(n) => Some(TranspositionTable::new(n)),
            None => None,
        };
        Searcher {
            tt,
            ordering,
            quiescence: false,
            nodes: 0,
            qnodes: 0,
            node_limit: u64::MAX,
            deadline: None,
            aborted: false,
            keys: Vec::new(),
        }
    }

    /// Set or clear the wall-clock deadline for subsequent searches.
    pub fn set_deadline(&mut self, deadline: Option<Instant>)
        requires
            old(self).wf(),
        ensures
            final(self).wf(),
            final(self).same_settings(old(self)),
            final(self).spec_deadline() == deadline,
            final(self).without_deadline() == old(self).without_deadline(),
    {
        self.deadline = deadline;
    }

    /// Enable or disable horizon quiescence (captures and promotions
    /// only; games without a tactical classification are unaffected).
    pub fn set_quiescence(&mut self, on: bool)
        requires
            old(self).wf(),
        ensures
            final(self).wf(),
            final(self).has_tt() == old(self).has_tt(),
            final(self).spec_ordering() == old(self).spec_ordering(),
            final(self).quiescence_on() == on,
    {
        self.quiescence = on;
    }

    /// Transposition-table probes and hits, `(0, 0)` without a table.
    pub fn tt_stats(&self) -> (r: (u64, u64))
        ensures
            r == self.spec_tt_stats(),
            !self.has_tt() ==> r == (0u64, 0u64),
    {
        match &self.tt {
            Some(t) => (t.probes, t.hits),
            None => (0, 0),
        }
    }

    /// Count a node; `true` when the budget or the deadline ends the search.
    fn count_node(&mut self) -> (stop: bool)
        requires
            old(self).wf(),
            old(self).nodes < old(self).node_limit || old(self).nodes == 0,
        ensures
            final(self).wf(),
            final(self).same_settings(old(self)),
            final(self).nodes == old(self).nodes + 1,
            final(self).qnodes == old(self).qnodes,
            final(self).node_limit == old(self).node_limit,
            final(self).tt == old(self).tt,
            final(self).aborted == (old(self).aborted || stop),
            !stop ==> final(self).nodes < final(self).node_limit,
            final(self).deadline == old(self).deadline,
    {
        self.nodes = self.nodes + 1;
        if self.nodes >= self.node_limit {
            self.aborted = true;
            return true;
        }
        if self.nodes % 128 == 0 {
            match &self.deadline {
                Some(d) => {
                    if deadline_passed(d) {
                        self.aborted = true;
                        return true;
                    }
                },
                None => {},
            }
        }
        false
    }

    /// Order a node's moves: by the evaluator's keys when it gives them,
    /// reversed under `Reversed`, and the table's move for the position
    /// (if any, and listed) first.
    fn order_moves<E: Evaluator<G>>(
        &mut self,
        game: &G,
        state: &G::State,
        tt_move: Option<G::Move>,
        moves: &mut Vec<G::Move>,
        eval: &mut E,
    )
        requires
            game.wf(),
            game.valid(game.model(state)),
        ensures
            same_moves(final(moves)@, old(moves)@),
            *final(self) == (Searcher { keys: final(self).keys, ..*old(self) }),
            exists|keys: Option<Seq<u32>>|
                #![trigger ordered_moves(old(moves)@, keys, old(self).ordering, tt_move)]
                {
                    &&& (keys matches Some(k) ==> k.len() == old(moves)@.len())
                    &&& final(moves)@ == ordered_moves(
                        old(moves)@,
                        keys,
                        old(self).ordering,
                        tt_move,
                    )
                },
    {
        let ghost m0 = moves@;
        let mut keys = Vec::new();
        std::mem::swap(&mut keys, &mut self.keys);
        let ghost mut given: Option<Seq<u32>> = None;
        if eval.policy_keys(game, state, moves.as_slice(), &mut keys) {
            order_by_keys(moves, &keys);
            proof {
                given = Some(keys@);
            }
        }
        self.keys = keys;
        let ghost keyed = moves@;
        if self.ordering == MoveOrdering::Reversed {
            reverse_moves(moves);
        }
        let ghost turned = moves@;
        match tt_move {
            Some(best) => {
                let mut pos: usize = 0;
                while pos < moves.len() && !game.same_move(moves[pos], best)
                    invariant
                        pos <= moves@.len(),
                        moves@ == turned,
                        first_index(turned, best, pos as int) == first_index(turned, best, 0),
                    decreases moves@.len() - pos,
                {
                    pos += 1;
                }
                if pos < moves.len() {
                    move_to_front(moves, pos);
                }
            },
            None => {},
        }
        assert(moves@ == ordered_moves(m0, given, self.ordering, tt_move));
    }

    /// Negamax with alpha–beta pruning and the transposition table.
    /// Returns 0 with `aborted` set when the budget or deadline runs out.
    #[verifier::rlimit(40)]
    #[verifier::spinoff_prover]
    fn negamax<E: Evaluator<G>>(
        &mut self,
        game: &G,
        state: &mut G::State,
        depth: u32,
        ply: u32,
        alpha: i32,
        beta: i32,
        eval: &mut E,
    ) -> (v: i32)
        requires
            old(self).wf(),
            old(self).may_count(),
            game.wf(),
            game.valid(game.model(old(state))),
            ply + depth + QS_MAX_DEPTH <= MAX_PLY,
            -SCORE_INF <= alpha <= SCORE_INF,
            -SCORE_INF <= beta <= SCORE_INF,
            alpha < beta,
        ensures
            game.model(final(state)) == game.model(old(state)),
            final(self).wf(),
            final(self).same_settings(old(self)),
            final(self).node_limit == old(self).node_limit,
            final(self).nodes >= old(self).nodes,
            !final(self).aborted ==> final(self).nodes < final(self).node_limit,
            node_score_ok(v as int, ply as int),
            !old(self).has_tt() && !old(self).quiescence_on() && solvable(game, game.model(old(state)))
                && depth >= game.height(game.model(old(state))) && !final(self).aborted ==> bound_ok(
                v as int,
                negamax_value(game, game.model(old(state)), ply as int),
                alpha as int,
                beta as int,
            ),
        decreases depth,
    {
        let ghost m0 = game.model(state);
        let ghost ex = !self.has_tt() && !self.quiescence_on() && solvable(game, m0) && depth >= game.height(m0);
        let ghost beta0 = beta;
        if self.count_node() {
            return 0;
        }
        match game.outcome(state) {
            Some(outcome) => {
                return terminal_score(outcome, game.side_to_move(state), ply);
            },
            None => {},
        }
        if depth == 0 {
            proof {
                if ex {
                    game.lemma_live_has_moves(m0);
                    let first = game.moves(m0)[0];
                    assert(game.moves(m0).contains(first));
                    game.lemma_height_decreases(m0, first);
                }
            }
            if self.quiescence {
                // The horizon node was already counted; quiescence counts
                // it again.
                self.nodes = self.nodes - 1;
                return self.qsearch(game, state, ply, alpha, beta, eval, 0);
            }
            return eval.leaf_value(game, state);
        }
        let key = game.position_key(state);
        let alpha_entry = alpha;
        let mut alpha = alpha;
        let mut beta = beta;
        let mut tt_move: Option<G::Move> = None;
        let mut cut: Option<i32> = None;
        let mut table: Option<TranspositionTable<G::Move>> = None;
        std::mem::swap(&mut table, &mut self.tt);
        match table {
            Some(mut t) => {
                match t.probe(key) {
                    Some(entry) => {
                        tt_move = entry.best;
                        if entry.depth >= depth {
                            let score = score_from_tt(entry.score, ply);
                            match entry.bound {
                                Bound::Exact => {
                                    cut = Some(score);
                                },
                                Bound::Lower => {
                                    if score > alpha {
                                        alpha = score;
                                    }
                                },
                                Bound::Upper => {
                                    if score < beta {
                                        beta = score;
                                    }
                                },
                            }
                            if cut.is_none() && alpha >= beta {
                                cut = Some(score);
                            }
                        }
                    },
                    None => {},
                }
                self.tt = Some(t);
            },
            None => {},
        }
        match cut {
            Some(score) => {
                return score;
            },
            None => {},
        }
        let mut moves = Vec::new();
        game.legal_moves(state, &mut moves);
        proof {
            game.lemma_live_has_moves(m0);
        }
        let ghost legal = moves@;
        self.order_moves(game, state, tt_move, &mut moves, eval);
        let mut best_score: i32 = -SCORE_INF;
        let mut best_move: Option<G::Move> = None;
        let mut cutoff = false;
        let mut i: usize = 0;
        while i < moves.len() && !cutoff
            invariant
                game.wf(),
                game.valid(m0),
                game.result(m0) is None,
                game.model(state) == m0,
                m0 == game.model(old(state)),
                legal == game.moves(m0),
                same_moves(moves@, legal),
                moves@.len() > 0,
                i <= moves@.len(),
                cutoff ==> i > 0,
                ex == (!self.has_tt() && !self.quiescence_on() && solvable(game, m0) && depth >= game.height(m0)),
                ex ==> alpha_entry < beta0 && beta == beta0,
                ex && !cutoff ==> ordered_best(game, m0, ply as int, moves@.take(i as int)) <= best_score,
                ex && !cutoff && best_score > alpha_entry ==> ordered_best(game, m0, ply as int, moves@.take(i as int)) == best_score,
                ex ==> alpha == (if alpha_entry >= best_score {
                    alpha_entry
                } else {
                    best_score
                }),
                ex && cutoff ==> ordered_best(game, m0, ply as int, moves@.take(i as int)) >= best_score && best_score >= beta,
                !cutoff ==> alpha < beta,
                ex && !cutoff ==> best_score < beta,
                -SCORE_INF <= alpha_entry <= SCORE_INF,
                self.wf(),
                self.same_settings(old(self)),
                self.node_limit == old(self).node_limit,
                self.nodes >= old(self).nodes,
                !self.aborted,
                self.nodes < self.node_limit,
                0 < depth,
                ply + depth + QS_MAX_DEPTH <= MAX_PLY,
                -SCORE_INF <= alpha <= SCORE_INF,
                -SCORE_INF <= beta <= SCORE_INF,
                i == 0 ==> best_score == -SCORE_INF,
                i > 0 ==> node_score_ok(best_score as int, ply as int),
            decreases moves@.len() - i,
        {
            let mv = moves[i];
            proof {
                assert(moves@.contains(mv)) by {
                    assert(moves@[i as int] == mv);
                }
                game.lemma_step(m0, mv);
                game.lemma_height_decreases(m0, mv);
                if ex {
                    lemma_negamax_bounded(game, game.next(m0, mv), ply + 1);
                }
            }
            let ghost t_old = ordered_best(game, m0, ply as int, moves@.take(i as int));
            let ghost best_old = best_score;
            let ghost alpha_old = alpha;
            let undo = game.make_move(state, mv);
            let child = self.negamax(game, state, depth - 1, ply + 1, -beta, -alpha, eval);
            proof {
                assert(game.next(m0, mv) == game.model(state));
            }
            game.unmake_move(state, mv, undo);
            if self.aborted {
                return 0;
            }
            let score = -child;
            if score > best_score {
                best_score = score;
                best_move = Some(mv);
            }
            if score > alpha {
                alpha = score;
            }
            if alpha >= beta {
                cutoff = true;
            }
            proof {
                if ex {
                    let cs = child_score(game, m0, ply as int, mv);
                    assert(moves@.take(i + 1).drop_last() =~= moves@.take(i as int));
                    assert(moves@.take(i + 1).last() == mv);
                    let t_new = ordered_best(game, m0, ply as int, moves@.take(i + 1));
                    assert(t_new == if t_old >= cs {
                        t_old
                    } else {
                        cs
                    });
                    if i == 0 {
                        assert(t_old == -SCORE_INF);
                    }
                }
            }
            i += 1;
        }
        proof {
            if ex {
                lemma_same_best(game, m0, ply as int, moves@);
                if cutoff {
                    lemma_ordered_best_prefix(game, m0, ply as int, moves@, i as int);
                } else {
                    assert(moves@.take(i as int) =~= moves@);
                }
            }
        }
        let mut table: Option<TranspositionTable<G::Move>> = None;
        std::mem::swap(&mut table, &mut self.tt);
        match table {
            Some(mut t) => {
                let bound = if best_score <= alpha_entry {
                    Bound::Upper
                } else if best_score >= beta {
                    Bound::Lower
                } else {
                    Bound::Exact
                };
                t.store(TtEntry { key, score: score_to_tt(best_score, ply), depth, bound, best: best_move });
                self.tt = Some(t);
            },
            None => {},
        }
        best_score
    }

    /// Horizon quiescence: stand pat on the static evaluation, then
    /// resolve captures and promotions only. No transposition-table
    /// interaction; nodes count against the budget and are reported
    /// separately.
    #[verifier::rlimit(40)]
    #[verifier::spinoff_prover]
    fn qsearch<E: Evaluator<G>>(
        &mut self,
        game: &G,
        state: &mut G::State,
        ply: u32,
        alpha: i32,
        beta: i32,
        eval: &mut E,
        qdepth: u32,
    ) -> (v: i32)
        requires
            old(self).wf(),
            old(self).may_count(),
            game.wf(),
            game.valid(game.model(old(state))),
            qdepth <= QS_MAX_DEPTH,
            ply + QS_MAX_DEPTH - qdepth <= MAX_PLY,
            -SCORE_INF <= alpha <= SCORE_INF,
            -SCORE_INF <= beta <= SCORE_INF,
            alpha < beta,
        ensures
            game.model(final(state)) == game.model(old(state)),
            final(self).wf(),
            final(self).same_settings(old(self)),
            final(self).node_limit == old(self).node_limit,
            final(self).nodes > old(self).nodes,
            !final(self).aborted ==> final(self).nodes < final(self).node_limit,
            node_score_ok(v as int, ply as int),
        decreases QS_MAX_DEPTH - qdepth,
    {
        let ghost m0 = game.model(state);
        let stop = self.count_node();
        self.qnodes = self.qnodes + 1;
        if stop {
            return 0;
        }
        match game.outcome(state) {
            Some(outcome) => {
                return terminal_score(outcome, game.side_to_move(state), ply);
            },
            None => {},
        }
        let stand = eval.leaf_value(game, state);
        if qdepth >= QS_MAX_DEPTH || stand >= beta {
            return stand;
        }
        let mut alpha = if stand > alpha {
            stand
        } else {
            alpha
        };
        let mut all = Vec::new();
        game.legal_moves(state, &mut all);
        let mut moves: Vec<G::Move> = Vec::new();
        let mut j: usize = 0;
        while j < all.len()
            invariant
                game.wf(),
                game.valid(m0),
                game.model(state) == m0,
                all@ == game.moves(m0),
                j <= all@.len(),
                forall|x: G::Move| moves@.contains(x) ==> all@.contains(x),
            decreases all@.len() - j,
        {
            let mv = all[j];
            proof {
                assert(all@.contains(mv)) by {
                    assert(all@[j as int] == mv);
                }
            }
            if game.is_tactical(state, mv) {
                proof {
                    lemma_push_contains(moves@, mv);
                }
                moves.push(mv);
            }
            j += 1;
        }
        if moves.len() == 0 {
            return stand;
        }
        let ghost tactical = moves@;
        let mut keys = Vec::new();
        std::mem::swap(&mut keys, &mut self.keys);
        if eval.policy_keys(game, state, moves.as_slice(), &mut keys) {
            order_by_keys(&mut moves, &keys);
        }
        self.keys = keys;
        let mut best = stand;
        let mut cutoff = false;
        let mut i: usize = 0;
        while i < moves.len() && !cutoff
            invariant
                game.wf(),
                game.valid(m0),
                game.result(m0) is None,
                game.model(state) == m0,
                m0 == game.model(old(state)),
                same_moves(moves@, tactical),
                forall|x: G::Move| tactical.contains(x) ==> game.moves(m0).contains(x),
                i <= moves@.len(),
                self.wf(),
                self.same_settings(old(self)),
                self.node_limit == old(self).node_limit,
                self.nodes > old(self).nodes,
                !self.aborted,
                self.nodes < self.node_limit,
                qdepth < QS_MAX_DEPTH,
                ply + QS_MAX_DEPTH - qdepth <= MAX_PLY,
                -SCORE_INF <= alpha <= SCORE_INF,
                -SCORE_INF <= beta <= SCORE_INF,
                node_score_ok(best as int, ply as int),
                !cutoff ==> alpha < beta,
            decreases moves@.len() - i,
        {
            let mv = moves[i];
            proof {
                assert(moves@.contains(mv)) by {
                    assert(moves@[i as int] == mv);
                }
                game.lemma_step(m0, mv);
            }
            let undo = game.make_move(state, mv);
            let child = self.qsearch(game, state, ply + 1, -beta, -alpha, eval, qdepth + 1);
            proof {
                assert(game.next(m0, mv) == game.model(state));
            }
            game.unmake_move(state, mv, undo);
            if self.aborted {
                return 0;
            }
            let score = -child;
            if score > best {
                best = score;
            }
            if score > alpha {
                alpha = score;
            }
            if alpha >= beta {
                cutoff = true;
            }
            i += 1;
        }
        best
    }

    /// The table's best move for `key`, if the table holds one.
    fn probe_best(&mut self, key: u64) -> (best: Option<G::Move>)
        requires
            old(self).wf(),
        ensures
            final(self).wf(),
            final(self).same_settings(old(self)),
            final(self).nodes == old(self).nodes,
            final(self).qnodes == old(self).qnodes,
            final(self).node_limit == old(self).node_limit,
            final(self).aborted == old(self).aborted,
            best == old(self).tt_best(key),
            final(self).tt is Some == old(self).tt is Some,
            old(self).tt matches Some(t) ==> final(self).tt matches Some(u) && u.entries@ == t.entries@,
    {
        let mut table: Option<TranspositionTable<G::Move>> = None;
        std::mem::swap(&mut table, &mut self.tt);
        let mut best: Option<G::Move> = None;
        match table {
            Some(mut t) => {
                match t.probe(key) {
                    Some(entry) => {
                        best = entry.best;
                    },
                    None => {},
                }
                self.tt = Some(t);
            },
            None => {},
        }
        best
    }

    /// Iterative-deepening search to `max_depth` within `max_nodes` nodes.
    /// Returns the result of the last fully completed depth; work on an
    /// aborted deeper iteration is counted in `nodes` but not in
    /// `nodes_at_completed_depth`.
    ///
    /// `eval` scores non-terminal depth-0 leaves from the side to move's
    /// perspective.
    #[verifier::rlimit(40)]
    #[verifier::spinoff_prover]
    pub fn search<E: Evaluator<G>>(
        &mut self,
        game: &G,
        state: &mut G::State,
        max_depth: u32,
        max_nodes: u64,
        eval: &mut E,
    ) -> (r: SearchResult<G::Move>)
        requires
            old(self).wf(),
            game.wf(),
            game.valid(game.model(old(state))),
            max_depth <= MAX_SEARCH_DEPTH,
        ensures
            game.model(final(state)) == game.model(old(state)),
            final(self).wf(),
            final(self).same_settings(old(self)),
            r.completed_depth <= max_depth,
            r.per_depth@.len() == r.completed_depth,
            r.nodes_at_completed_depth <= r.nodes,
            r.quiescence_nodes <= r.nodes,
            max_nodes > 0 ==> r.nodes <= max_nodes,
            game.result(game.model(old(state))) is Some ==> r.best_move is None && r.value == 0
                && r.completed_depth == 0 && r.nodes == 0,
            game.result(game.model(old(state))) is None ==> (r.best_move matches Some(mv)
                && game.moves(game.model(old(state))).contains(mv)),
            forall|i: int|
                0 <= i < r.per_depth@.len() ==> game.moves(game.model(old(state))).contains(
                    #[trigger] r.per_depth@[i].0,
                ),
            r.completed_depth > 0 ==> r.best_move == Some(r.per_depth@.last().0) && r.value
                == r.per_depth@.last().1,
            r.completed_depth == 0 ==> r.value == 0,
            -SCORE_WIN <= r.value <= SCORE_WIN,
            !old(self).has_tt() && !old(self).quiescence_on() && solvable(game, game.model(old(state)))
                ==> forall|d: int|
                0 <= d < r.per_depth@.len() && d + 1 >= game.height(game.model(old(state))) ==> (
                #[trigger] r.per_depth@[d]).1 == negamax_value(game, game.model(old(state)), 0)
                    && child_score(game, game.model(old(state)), 0, r.per_depth@[d].0) == r.per_depth@[d].1,
    {
        let ghost m0 = game.model(state);
        self.nodes = 0;
        self.qnodes = 0;
        self.node_limit = max_nodes;
        self.aborted = false;
        let mut result = SearchResult {
            best_move: None,
            value: 0,
            completed_depth: 0,
            nodes: 0,
            nodes_at_completed_depth: 0,
            per_depth: Vec::new(),
            quiescence_nodes: 0,
        };
        if game.outcome(state).is_some() {
            return result;
        }
        let mut moves = Vec::new();
        game.legal_moves(state, &mut moves);
        proof {
            game.lemma_live_has_moves(m0);
        }
        let ghost legal = moves@;
        let key = game.position_key(state);
        let tt_move = self.probe_best(key);
        self.order_moves(game, state, tt_move, &mut moves, eval);
        proof {
            assert(moves@.contains(moves@[0]));
        }
        // If the budget is too small for even one completed iteration,
        // fall back to the first ordered move.
        result.best_move = Some(moves[0]);
        let mut depth: u32 = 1;
        let mut stop = false;
        while depth <= max_depth && !stop
            invariant
                game.wf(),
                game.valid(m0),
                game.result(m0) is None,
                game.model(state) == m0,
                m0 == game.model(old(state)),
                legal == game.moves(m0),
                same_moves(moves@, legal),
                moves@.len() > 0,
                1 <= depth,
                max_depth <= MAX_SEARCH_DEPTH,
                depth <= max_depth + 1,
                self.wf(),
                self.same_settings(old(self)),
                self.node_limit == max_nodes,
                !stop ==> self.may_count(),
                result.completed_depth == depth - 1,
                result.completed_depth <= max_depth,
                result.per_depth@.len() == result.completed_depth,
                result.nodes_at_completed_depth <= self.nodes,
                result.best_move matches Some(mv) && legal.contains(mv),
                forall|i: int| 0 <= i < result.per_depth@.len() ==> legal.contains(#[trigger] result.per_depth@[i].0),
                result.completed_depth > 0 ==> result.best_move == Some(result.per_depth@.last().0)
                    && result.value == result.per_depth@.last().1,
                result.completed_depth == 0 ==> result.value == 0,
                -SCORE_WIN <= result.value <= SCORE_WIN,
                !old(self).has_tt() && !old(self).quiescence_on() && solvable(game, m0) ==> forall|d: int|
                    0 <= d < result.per_depth@.len() && d + 1 >= game.height(m0) ==> (
                    #[trigger] result.per_depth@[d]).1 == negamax_value(game, m0, 0) && child_score(
                        game,
                        m0,
                        0,
                        result.per_depth@[d].0,
                    ) == result.per_depth@[d].1,
                result.nodes == 0,
                result.quiescence_nodes == 0,
            decreases (max_depth + 1 - depth) * 2 + if stop {
                0int
            } else {
                1int
            },
        {
            let mut best_move = moves[0];
            let mut best_score: i32 = -SCORE_INF;
            let mut alpha: i32 = -SCORE_INF;
            let ghost exr = !self.has_tt() && !self.quiescence_on() && solvable(game, m0) && depth >= game.height(m0);
            proof {
                assert(moves@.contains(moves@[0]));
            }
            let mut i: usize = 0;
            while i < moves.len() && !self.aborted
                invariant
                    game.wf(),
                    game.valid(m0),
                    game.result(m0) is None,
                    game.model(state) == m0,
                    m0 == game.model(old(state)),
                    legal == game.moves(m0),
                    same_moves(moves@, legal),
                    i <= moves@.len(),
                    1 <= depth <= max_depth,
                    max_depth <= MAX_SEARCH_DEPTH,
                    self.wf(),
                    self.same_settings(old(self)),
                    self.node_limit == max_nodes,
                    !self.aborted ==> self.may_count(),
                    result.nodes_at_completed_depth <= self.nodes,
                    legal.contains(best_move),
                    i == 0 ==> best_score == -SCORE_INF && alpha == -SCORE_INF,
                    exr == (!self.has_tt() && !self.quiescence_on() && solvable(game, m0) && depth >= game.height(m0)),
                    exr && !self.aborted && i > 0 ==> ordered_best(game, m0, 0, moves@.take(i as int)) == best_score
                        && child_score(game, m0, 0, best_move) == best_score && alpha == best_score,
                    i > 0 && !self.aborted ==> node_score_ok(best_score as int, 0),
                    -SCORE_INF <= alpha <= SCORE_WIN,
                decreases moves@.len() - i,
            {
                let mv = moves[i];
                proof {
                    assert(moves@.contains(mv)) by {
                        assert(moves@[i as int] == mv);
                    }
                    game.lemma_step(m0, mv);
                    game.lemma_height_decreases(m0, mv);
                    if exr {
                        lemma_negamax_bounded(game, game.next(m0, mv), 1);
                    }
                }
                let ghost t_old = ordered_best(game, m0, 0, moves@.take(i as int));
                let undo = game.make_move(state, mv);
                let child = self.negamax(game, state, depth - 1, 1, -SCORE_INF, -alpha, eval);
                proof {
                    assert(game.next(m0, mv) == game.model(state));
                }
                game.unmake_move(state, mv, undo);
                if !self.aborted {
                    let score = -child;
                    if score > best_score {
                        best_score = score;
                        best_move = mv;
                        if score > alpha {
                            alpha = score;
                        }
                    }
                    proof {
                        if exr {
                            let cs = child_score(game, m0, 0, mv);
                            assert(moves@.take(i + 1).drop_last() =~= moves@.take(i as int));
                            assert(moves@.take(i + 1).last() == mv);
                            if i == 0 {
                                assert(t_old == -SCORE_INF);
                            }
                        }
                    }
                }
                i += 1;
            }
            if self.aborted {
                stop = true;
            } else {
                proof {
                    if exr {
                        assert(moves@.take(i as int) =~= moves@);
                        lemma_same_best(game, m0, 0, moves@);
                    }
                }
                result.best_move = Some(best_move);
                result.value = best_score;
                result.completed_depth = depth;
                result.nodes_at_completed_depth = self.nodes;
                result.per_depth.push((best_move, best_score));
                // A proven win/loss with distance within the searched
                // horizon cannot change at deeper depths.
                let magnitude: i32 = if best_score < 0 {
                    -best_score
                } else {
                    best_score
                };
                if magnitude > SCORE_TERMINAL_BOUND && ((SCORE_WIN - magnitude) as u32) <= depth {
                    stop = true;
                } else {
                    let mut pos: usize = 0;
                    while pos < moves.len() && !game.same_move(moves[pos], best_move)
                        invariant
                            pos <= moves@.len(),
                        decreases moves@.len() - pos,
                    {
                        pos += 1;
                    }
                    if pos < moves.len() {
                        move_to_front(&mut moves, pos);
                    }
                }
                depth += 1;
            }
        }
        result.nodes = self.nodes;
        result.quiescence_nodes = self.qnodes;
        result
    }
}

} // verus!
