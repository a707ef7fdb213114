//! Counts behind the relabelling summary: best-move agreement per
//! shallow budget, deep-search stability, move-ordering ranks and exact
//! oracle agreement. The summary's rates are these counts divided by the
//! number of records they range over.

use crate::data::{ChildLabel, TeacherRecord};
use crate::game::ActionId;
use crate::search::{Wdl, SCORE_EVAL_MAX};
use vstd::prelude::*;

verus! {

/// Agreement of one shallow budget with the deep label.
pub struct BudgetTally {
    pub node_budget: u64,
    /// Records whose shallow best action equals the deep one.
    pub agree: u64,
    /// Sum of `|shallow - deep|` over the heuristic pairs.
    pub residual_sum: u128,
    /// Records where both values are heuristic (inside the eval clamp).
    pub heuristic_pairs: u64,
}

/// Exact-oracle agreement over the joined records.
pub struct OracleTally {
    pub joined: u64,
    pub missed: u64,
    pub losses: u64,
    pub draws: u64,
    pub wins: u64,
    /// Per shallow budget: joined records whose shallow best action is
    /// exactly optimal.
    pub shallow_optimal: Vec<u64>,
    pub deep_optimal: u64,
    /// Joined records with child labels.
    pub with_children: u64,
    /// Of those, records whose best-valued child is exactly optimal.
    pub child_top_optimal: u64,
}

/// All counts of one relabelling run.
pub struct RelabelTally {
    pub positions: u64,
    pub total_weight: u128,
    pub shallow: Vec<BudgetTally>,
    /// Records whose deep best move did not change over the last
    /// completed iteration (or that completed fewer than two).
    pub last_stable: u64,
    /// Best-move changes across consecutive deep iterations, summed.
    pub best_move_changes: u128,
    pub rank_sum: u128,
    pub top1: u64,
    pub top3: u64,
    /// `None` when no record was joined with an oracle.
    pub oracle: Option<OracleTally>,
}

pub open spec fn abs(v: int) -> int {
    if v < 0 {
        -v
    } else {
        v
    }
}

/// Both values of the pair lie inside the evaluator clamp.
pub open spec fn heuristic(r: TeacherRecord, i: int) -> bool {
    abs(r.shallow@[i].value as int) <= SCORE_EVAL_MAX && abs(r.deep.value as int) <= SCORE_EVAL_MAX
}

pub open spec fn agree_count(s: Seq<TeacherRecord>, i: int) -> nat
    decreases s.len(),
{
    if s.len() == 0 {
        0
    } else {
        agree_count(s.drop_last(), i) + if s.last().shallow@[i].best_action == s.last().deep.best_action {
            1nat
        } else {
            0nat
        }
    }
}

pub open spec fn pair_count(s: Seq<TeacherRecord>, i: int) -> nat
    decreases s.len(),
{
    if s.len() == 0 {
        0
    } else {
        pair_count(s.drop_last(), i) + if heuristic(s.last(), i) {
            1nat
        } else {
            0nat
        }
    }
}

pub open spec fn residual_total(s: Seq<TeacherRecord>, i: int) -> int
    decreases s.len(),
{
    if s.len() == 0 {
        0
    } else {
        residual_total(s.drop_last(), i) + if heuristic(s.last(), i) {
            abs(s.last().shallow@[i].value - s.last().deep.value)
        } else {
            0
        }
    }
}

pub open spec fn weight_total(s: Seq<TeacherRecord>) -> int
    decreases s.len(),
{
    if s.len() == 0 {
        0
    } else {
        weight_total(s.drop_last()) + s.last().weight
    }
}

/// The deep best move held over the last completed iteration.
pub open spec fn last_stable(r: TeacherRecord) -> bool {
    let pd = r.deep.per_depth@;
    pd.len() < 2 || pd[pd.len() - 1].0 == pd[pd.len() - 2].0
}

pub open spec fn stable_count(s: Seq<TeacherRecord>) -> nat
    decreases s.len(),
{
    if s.len() == 0 {
        0
    } else {
        stable_count(s.drop_last()) + if last_stable(s.last()) {
            1nat
        } else {
            0nat
        }
    }
}

/// Best-move changes between consecutive iterations.
pub open spec fn changes(pd: Seq<(ActionId, i32)>) -> int
    decreases pd.len(),
{
    if pd.len() < 2 {
        0
    } else {
        changes(pd.drop_last()) + if pd[pd.len() - 2].0 != pd[pd.len() - 1].0 {
            1int
        } else {
            0int
        }
    }
}

pub open spec fn change_total(s: Seq<TeacherRecord>) -> int
    decreases s.len(),
{
    if s.len() == 0 {
        0
    } else {
        change_total(s.drop_last()) + changes(s.last().deep.per_depth@)
    }
}

pub open spec fn rank_total(s: Seq<TeacherRecord>) -> int
    decreases s.len(),
{
    if s.len() == 0 {
        0
    } else {
        rank_total(s.drop_last()) + s.last().deep_best_order_rank
    }
}

/// Records whose deep best action ranked below `limit`.
pub open spec fn top_count(s: Seq<TeacherRecord>, limit: int) -> nat
    decreases s.len(),
{
    if s.len() == 0 {
        0
    } else {
        top_count(s.drop_last(), limit) + if s.last().deep_best_order_rank < limit {
            1nat
        } else {
            0nat
        }
    }
}

/// Records joined with the exact value `w` (any value for `None`).
pub open spec fn joined_count(s: Seq<TeacherRecord>, w: Option<Wdl>) -> nat
    decreases s.len(),
{
    if s.len() == 0 {
        0
    } else {
        joined_count(s.drop_last(), w) + if s.last().exact_wdl is Some && (w is None || s.last().exact_wdl
            == w) {
            1nat
        } else {
            0nat
        }
    }
}

/// Is `a` an exact optimal action of the joined record `r`?
pub open spec fn is_optimal(r: TeacherRecord, a: ActionId) -> bool {
    &&& r.exact_wdl is Some
    &&& r.exact_optimal matches Some(opt) && opt@.contains(a)
}

/// The best action picked by shallow budget `i`, or by the deep search
/// for `None`.
pub open spec fn picked(r: TeacherRecord, which: Option<int>) -> ActionId {
    match which {
        Some(i) => r.shallow@[i].best_action,
        None => r.deep.best_action,
    }
}

pub open spec fn optimal_count(s: Seq<TeacherRecord>, which: Option<int>) -> nat
    decreases s.len(),
{
    if s.len() == 0 {
        0
    } else {
        optimal_count(s.drop_last(), which) + if is_optimal(s.last(), picked(s.last(), which)) {
            1nat
        } else {
            0nat
        }
    }
}

/// Each record is judged by its own label for budget `i`: the count for
/// budget `i` is the number of records `r` whose exact optimal actions hold
/// `r.shallow[i].best_action`, whatever the other budgets picked.
pub proof fn lemma_shallow_optimal_own_label(s: Seq<TeacherRecord>, i: int)
    ensures
        optimal_count(s, Some(i)) == s.filter(
            |r: TeacherRecord| is_optimal(r, r.shallow@[i].best_action),
        ).len(),
    decreases s.len(),
{
    reveal(Seq::filter);
    if s.len() > 0 {
        lemma_shallow_optimal_own_label(s.drop_last(), i);
    }
}

/// The deep count judges each record by its own deep best action.
pub proof fn lemma_deep_optimal_own_label(s: Seq<TeacherRecord>)
    ensures
        optimal_count(s, None) == s.filter(|r: TeacherRecord| is_optimal(r, r.deep.best_action)).len(),
    decreases s.len(),
{
    reveal(Seq::filter);
    if s.len() > 0 {
        lemma_deep_optimal_own_label(s.drop_last());
    }
}

/// The joined count is the number of records carrying an exact value, and
/// the count for `w` the number of records whose exact value is `w`.
pub proof fn lemma_joined_records(s: Seq<TeacherRecord>, w: Wdl)
    ensures
        joined_count(s, None) == s.filter(|r: TeacherRecord| r.exact_wdl is Some).len(),
        joined_count(s, Some(w)) == s.filter(|r: TeacherRecord| r.exact_wdl == Some(w)).len(),
    decreases s.len(),
{
    reveal(Seq::filter);
    if s.len() > 0 {
        lemma_joined_records(s.drop_last(), w);
    }
}

/// Index of the best-valued child among the first `n`, the last one on
/// ties (`Iterator::max_by_key`).
pub open spec fn top_child(c: Seq<ChildLabel>, n: int) -> int
    decreases n,
{
    if n <= 1 {
        0
    } else {
        let t = top_child(c, n - 1);
        if c[n - 1].value >= c[t].value {
            n - 1
        } else {
            t
        }
    }
}

pub open spec fn has_children(r: TeacherRecord) -> bool {
    r.exact_wdl is Some && r.children@.len() > 0
}

pub open spec fn children_count(s: Seq<TeacherRecord>) -> nat
    decreases s.len(),
{
    if s.len() == 0 {
        0
    } else {
        children_count(s.drop_last()) + if has_children(s.last()) {
            1nat
        } else {
            0nat
        }
    }
}

/// The joined record's best-valued child is exactly optimal.
pub open spec fn top_child_optimal(r: TeacherRecord) -> bool {
    has_children(r) && is_optimal(r, r.children@[top_child(r.children@, r.children@.len() as int)].action)
}

pub open spec fn child_top_count(s: Seq<TeacherRecord>) -> nat
    decreases s.len(),
{
    if s.len() == 0 {
        0
    } else {
        child_top_count(s.drop_last()) + if top_child_optimal(s.last()) {
            1nat
        } else {
            0nat
        }
    }
}

proof fn lemma_top_child_range(c: Seq<ChildLabel>, n: int)
    requires
        1 <= n,
    ensures
        0 <= top_child(c, n) < n,
    decreases n,
{
    if n > 1 {
        lemma_top_child_range(c, n - 1);
    }
}

/// Best-move changes of one deep label.
fn count_changes(pd: &Vec<(ActionId, i32)>) -> (c: u64)
    ensures
        c == changes(pd@),
{
    if pd.len() < 2 {
        return 0;
    }
    let mut c: u64 = 0;
    let mut k: usize = 1;
    proof {
        assert(pd@.take(1).len() == 1);
    }
    while k < pd.len()
        invariant
            1 <= k <= pd@.len(),
            c == changes(pd@.take(k as int)),
            c < k,
        decreases pd@.len() - k,
    {
        proof {
            assert(pd@.take(k + 1).drop_last() =~= pd@.take(k as int));
        }
        if pd[k - 1].0 != pd[k].0 {
            c = c + 1;
        }
        k += 1;
    }
    assert(pd@.take(pd@.len() as int) =~= pd@);
    c
}

/// Index of the best-valued child, the last one on ties.
fn top_child_index(children: &Vec<ChildLabel>) -> (t: usize)
    requires
        children@.len() > 0,
    ensures
        t == top_child(children@, children@.len() as int),
        t < children@.len(),
{
    let mut t: usize = 0;
    let mut k: usize = 1;
    while k < children.len()
        invariant
            1 <= k <= children@.len(),
            t == top_child(children@, k as int),
            t < k,
        decreases children@.len() - k,
    {
        if children[k].value >= children[t].value {
            t = k;
        }
        k += 1;
    }
    t
}

fn has_action(v: &Vec<ActionId>, a: ActionId) -> (b: bool)
    ensures
        b == v@.contains(a),
{
    let mut k: usize = 0;
    while k < v.len()
        invariant
            k <= v@.len(),
            forall|j: int| 0 <= j < k ==> v@[j] != a,
        decreases v@.len() - k,
    {
        if v[k] == a {
            return true;
        }
        k += 1;
    }
    false
}

fn optimal_in(r: &TeacherRecord, a: ActionId) -> (b: bool)
    ensures
        b == is_optimal(*r, a),
{
    if r.exact_wdl.is_none() {
        return false;
    }
    match &r.exact_optimal {
        Some(opt) => has_action(opt, a),
        None => false,
    }
}

/// Agreement of shallow budget `i` with the deep labels.
fn budget_tally(records: &[TeacherRecord], i: usize, budget: u64) -> (t: BudgetTally)
    requires
        forall|j: int| 0 <= j < records@.len() ==> (#[trigger] records@[j]).shallow@.len() > i,
    ensures
        t.node_budget == budget,
        t.agree == agree_count(records@, i as int),
        t.heuristic_pairs == pair_count(records@, i as int),
        t.residual_sum == residual_total(records@, i as int),
{
    let mut agree: u64 = 0;
    let mut pairs: u64 = 0;
    let mut residual: u128 = 0;
    let mut k: usize = 0;
    while k < records.len()
        invariant
            forall|j: int| 0 <= j < records@.len() ==> (#[trigger] records@[j]).shallow@.len() > i,
            k <= records@.len(),
            agree == agree_count(records@.take(k as int), i as int),
            pairs == pair_count(records@.take(k as int), i as int),
            residual == residual_total(records@.take(k as int), i as int),
            agree <= k,
            pairs <= k,
            residual <= 2000 * k,
        decreases records@.len() - k,
    {
        let r = &records[k];
        proof {
            assert(records@.take(k + 1).drop_last() =~= records@.take(k as int));
            assert(records@.take(k + 1).last() == records@[k as int]);
        }
        let label = &r.shallow[i];
        if label.best_action == r.deep.best_action {
            agree = agree + 1;
        }
        let sv = label.value as i64;
        let dv = r.deep.value as i64;
        let sa = if sv < 0 {
            -sv
        } else {
            sv
        };
        let da = if dv < 0 {
            -dv
        } else {
            dv
        };
        if sa <= SCORE_EVAL_MAX as i64 && da <= SCORE_EVAL_MAX as i64 {
            let d = if sv >= dv {
                sv - dv
            } else {
                dv - sv
            };
            residual = residual + d as u128;
            pairs = pairs + 1;
        }
        k += 1;
    }
    assert(records@.take(records@.len() as int) =~= records@);
    BudgetTally { node_budget: budget, agree, residual_sum: residual, heuristic_pairs: pairs }
}

/// Joined records whose shallow best action `i` is exactly optimal.
fn shallow_optimal_count(records: &[TeacherRecord], i: usize) -> (c: u64)
    requires
        forall|j: int| 0 <= j < records@.len() ==> (#[trigger] records@[j]).shallow@.len() > i,
    ensures
        c == optimal_count(records@, Some(i as int)),
{
    let mut c: u64 = 0;
    let mut k: usize = 0;
    while k < records.len()
        invariant
            forall|j: int| 0 <= j < records@.len() ==> (#[trigger] records@[j]).shallow@.len() > i,
            k <= records@.len(),
            c == optimal_count(records@.take(k as int), Some(i as int)),
            c <= k,
        decreases records@.len() - k,
    {
        let r = &records[k];
        proof {
            assert(records@.take(k + 1).drop_last() =~= records@.take(k as int));
            assert(records@.take(k + 1).last() == records@[k as int]);
        }
        if optimal_in(r, r.shallow[i].best_action) {
            c = c + 1;
        }
        k += 1;
    }
    assert(records@.take(records@.len() as int) =~= records@);
    c
}

/// The counts of a relabelling run. Every record carries a label for
/// each shallow budget, and every record joined with an oracle carries
/// its optimal actions.
pub fn tally_records(records: &[TeacherRecord], shallow_budgets: &[u64]) -> (t: RelabelTally)
    requires
        forall|j: int|
            0 <= j < records@.len() ==> (#[trigger] records@[j]).shallow@.len() >= shallow_budgets@.len(),
        forall|j: int|
            0 <= j < records@.len() ==> ((#[trigger] records@[j]).exact_wdl is Some ==> records@[j].exact_optimal is Some),
    ensures
        t.positions == records@.len(),
        t.total_weight == weight_total(records@),
        t.shallow@.len() == shallow_budgets@.len(),
        forall|i: int|
            0 <= i < shallow_budgets@.len() ==> {
                let b = #[trigger] t.shallow@[i];
                &&& b.node_budget == shallow_budgets@[i]
                &&& b.agree == agree_count(records@, i)
                &&& b.heuristic_pairs == pair_count(records@, i)
                &&& b.residual_sum == residual_total(records@, i)
            },
        t.last_stable == stable_count(records@),
        t.best_move_changes == change_total(records@),
        t.rank_sum == rank_total(records@),
        t.top1 == top_count(records@, 1),
        t.top3 == top_count(records@, 3),
        t.oracle is None <==> joined_count(records@, None) == 0,
        t.oracle matches Some(o) ==> {
            &&& o.joined == joined_count(records@, None)
            &&& o.missed == records@.len() - o.joined
            &&& o.losses == joined_count(records@, Some(Wdl::Loss))
            &&& o.draws == joined_count(records@, Some(Wdl::Draw))
            &&& o.wins == joined_count(records@, Some(Wdl::Win))
            &&& o.shallow_optimal@.len() == shallow_budgets@.len()
            &&& forall|i: int|
                0 <= i < shallow_budgets@.len() ==> #[trigger] o.shallow_optimal@[i] == optimal_count(
                    records@,
                    Some(i),
                )
            &&& forall|i: int|
                0 <= i < shallow_budgets@.len() ==> #[trigger] o.shallow_optimal@[i] == records@.filter(
                    |r: TeacherRecord| is_optimal(r, r.shallow@[i].best_action),
                ).len()
            &&& o.deep_optimal == optimal_count(records@, None)
            &&& o.deep_optimal == records@.filter(|r: TeacherRecord| is_optimal(r, r.deep.best_action)).len()
            &&& o.joined == records@.filter(|r: TeacherRecord| r.exact_wdl is Some).len()
            &&& o.losses == records@.filter(|r: TeacherRecord| r.exact_wdl == Some(Wdl::Loss)).len()
            &&& o.draws == records@.filter(|r: TeacherRecord| r.exact_wdl == Some(Wdl::Draw)).len()
            &&& o.wins == records@.filter(|r: TeacherRecord| r.exact_wdl == Some(Wdl::Win)).len()
            &&& o.with_children == children_count(records@)
            &&& o.child_top_optimal == child_top_count(records@)
        },
{
    let n = records.len();
    let mut weight: u128 = 0;
    let mut stable: u64 = 0;
    let mut changed: u128 = 0;
    let mut ranks: u128 = 0;
    let mut top1: u64 = 0;
    let mut top3: u64 = 0;
    let mut joined: u64 = 0;
    let mut losses: u64 = 0;
    let mut draws: u64 = 0;
    let mut wins: u64 = 0;
    let mut deep_optimal: u64 = 0;
    let mut with_children: u64 = 0;
    let mut child_top: u64 = 0;
    let mut k: usize = 0;
    while k < n
        invariant
            n == records@.len(),
            k <= n,
            weight == weight_total(records@.take(k as int)),
            weight <= 0xffff_ffff * k,
            stable == stable_count(records@.take(k as int)),
            changed == change_total(records@.take(k as int)),
            changed <= 0xffff_ffff_ffff_ffff * k,
            ranks == rank_total(records@.take(k as int)),
            ranks <= 0xffff_ffff * k,
            top1 == top_count(records@.take(k as int), 1),
            top3 == top_count(records@.take(k as int), 3),
            joined == joined_count(records@.take(k as int), None),
            losses == joined_count(records@.take(k as int), Some(Wdl::Loss)),
            draws == joined_count(records@.take(k as int), Some(Wdl::Draw)),
            wins == joined_count(records@.take(k as int), Some(Wdl::Win)),
            deep_optimal == optimal_count(records@.take(k as int), None),
            with_children == children_count(records@.take(k as int)),
            child_top == child_top_count(records@.take(k as int)),
            stable <= k && top1 <= k && top3 <= k && joined <= k && losses <= k && draws <= k,
            wins <= k && deep_optimal <= k && with_children <= k && child_top <= k,
        decreases n - k,
    {
        let r = &records[k];
        proof {
            assert(records@.take(k + 1).drop_last() =~= records@.take(k as int));
            assert(records@.take(k + 1).last() == records@[k as int]);
        }
        weight = weight + r.weight as u128;
        let pd = &r.deep.per_depth;
        if pd.len() < 2 || pd[pd.len() - 1].0 == pd[pd.len() - 2].0 {
            stable = stable + 1;
        }
        changed = changed + count_changes(pd) as u128;
        ranks = ranks + r.deep_best_order_rank as u128;
        if r.deep_best_order_rank < 1 {
            top1 = top1 + 1;
        }
        if r.deep_best_order_rank < 3 {
            top3 = top3 + 1;
        }
        match r.exact_wdl {
            Some(w) => {
                joined = joined + 1;
                match w {
                    Wdl::Loss => {
                        losses = losses + 1;
                    },
                    Wdl::Draw => {
                        draws = draws + 1;
                    },
                    Wdl::Win => {
                        wins = wins + 1;
                    },
                }
                if r.children.len() > 0 {
                    with_children = with_children + 1;
                    let top = top_child_index(&r.children);
                    if optimal_in(r, r.children[top].action) {
                        child_top = child_top + 1;
                    }
                }
            },
            None => {},
        }
        if optimal_in(r, r.deep.best_action) {
            deep_optimal = deep_optimal + 1;
        }
        k += 1;
    }
    assert(records@.take(n as int) =~= records@);
    let mut shallow: Vec<BudgetTally> = Vec::new();
    let mut shallow_optimal: Vec<u64> = Vec::new();
    let mut i: usize = 0;
    while i < shallow_budgets.len()
        invariant
            forall|j: int|
                0 <= j < records@.len() ==> (#[trigger] records@[j]).shallow@.len() >= shallow_budgets@.len(),
            i <= shallow_budgets@.len(),
            shallow@.len() == i,
            shallow_optimal@.len() == i,
            forall|x: int|
                0 <= x < i ==> {
                    let b = #[trigger] shallow@[x];
                    &&& b.node_budget == shallow_budgets@[x]
                    &&& b.agree == agree_count(records@, x)
                    &&& b.heuristic_pairs == pair_count(records@, x)
                    &&& b.residual_sum == residual_total(records@, x)
                },
            forall|x: int| 0 <= x < i ==> #[trigger] shallow_optimal@[x] == optimal_count(records@, Some(x)),
        decreases shallow_budgets@.len() - i,
    {
        shallow.push(budget_tally(records, i, shallow_budgets[i]));
        shallow_optimal.push(shallow_optimal_count(records, i));
        i += 1;
    }
    proof {
        assert forall|x: int| 0 <= x < shallow_budgets@.len() implies #[trigger] shallow_optimal@[x]
            == records@.filter(|r: TeacherRecord| is_optimal(r, r.shallow@[x].best_action)).len() by {
            lemma_shallow_optimal_own_label(records@, x);
        }
        lemma_deep_optimal_own_label(records@);
        lemma_joined_records(records@, Wdl::Loss);
        lemma_joined_records(records@, Wdl::Draw);
        lemma_joined_records(records@, Wdl::Win);
    }
    let oracle = if joined == 0 {
        None
    } else {
        Some(
            OracleTally {
                joined,
                missed: n as u64 - joined,
                losses,
                draws,
                wins,
                shallow_optimal,
                deep_optimal,
                with_children,
                child_top_optimal: child_top,
            },
        )
    };
    RelabelTally {
        positions: n as u64,
        total_weight: weight,
        shallow,
        last_stable: stable,
        best_move_changes: changed,
        rank_sum: ranks,
        top1,
        top3,
        oracle,
    }
}

} // verus!
