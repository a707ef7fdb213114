//! The run scheduler of a sweep: a manifest of runs, each occupying a
//! number of CPU slots while active, is started first-in first-out while
//! the slots it asks for are free; a run that exits frees its slots, and
//! a run that exits unsuccessfully counts as a failure.
//!
//! The scheduler is a step function from state and event to the next
//! state and the runs to start now; the caller spawns and watches the
//! processes and reports each exit.

use crate::games::chess::{debug_quote, str_debug};
use crate::text::{decimal, push_decimal};
use vstd::prelude::*;

verus! {

/// One line of a sweep manifest.
pub struct SweepEntry {
    /// `lab` subcommand to run.
    pub command: String,
    /// Path of the run's configuration.
    pub config: String,
    /// CPU slots this run occupies while active.
    pub cores: usize,
}

/// The subcommands a sweep may run.
pub open spec fn known_command(c: Seq<char>) -> bool {
    c == "train"@ || c == "solve"@ || c == "evaluate"@ || c == "selfplay"@ || c == "fit"@ || c == "relabel"@
}

/// The first problem of a manifest, if any.
pub open spec fn sweep_problem(entries: Seq<(Seq<char>, Seq<char>, usize)>, total: usize) -> Option<Seq<char>>
    decreases entries.len(),
{
    if entries.len() == 0 {
        None
    } else {
        match sweep_problem(entries.drop_last(), total) {
            Some(e) => Some(e),
            None => {
                let (command, config, cores) = entries.last();
                if cores == 0 || cores > total {
                    Some("entry "@ + config + " requests "@ + decimal(cores as nat) + " cores (machine has "@
                        + decimal(total as nat) + ")"@)
                } else if !known_command(command) {
                    Some("unknown sweep command "@ + str_debug(command))
                } else {
                    None
                }
            },
        }
    }
}

pub open spec fn entries_view(entries: Seq<SweepEntry>) -> Seq<(Seq<char>, Seq<char>, usize)> {
    entries.map_values(|e: SweepEntry| (e.command@, e.config@, e.cores))
}

fn text_eq(a: &str, b: &str) -> (r: bool)
    ensures
        r == (a@ == b@),
{
    let n = a.unicode_len();
    if n != b.unicode_len() {
        return false;
    }
    let mut i: usize = 0;
    while i < n
        invariant
            n == a@.len(),
            n == b@.len(),
            i <= n,
            forall|j: int| 0 <= j < i ==> a@[j] == b@[j],
        decreases n - i,
    {
        if a.get_char(i) != b.get_char(i) {
            return false;
        }
        i += 1;
    }
    assert(a@ =~= b@);
    true
}

fn is_known_command(c: &str) -> (r: bool)
    ensures
        r == known_command(c@),
{
    text_eq(c, "train") || text_eq(c, "solve") || text_eq(c, "evaluate") || text_eq(c, "selfplay")
        || text_eq(c, "fit") || text_eq(c, "relabel")
}

/// Check a manifest against the machine's `total_cores`: it is not
/// empty, every run asks for between one and `total_cores` slots, and
/// every command is one a sweep runs. The first problem is reported.
pub fn validate_sweep(entries: &[SweepEntry], total_cores: usize) -> (r: Result<(), String>)
    ensures
        entries@.len() == 0 ==> (r matches Err(e) && e@ == "sweep manifest is empty"@),
        entries@.len() > 0 ==> match sweep_problem(entries_view(entries@), total_cores) {
            None => r is Ok,
            Some(p) => (r matches Err(e) && e@ == p),
        },
{
    if entries.len() == 0 {
        return Err(String::from_str("sweep manifest is empty"));
    }
    let mut i: usize = 0;
    while i < entries.len()
        invariant
            i <= entries@.len(),
            sweep_problem(entries_view(entries@).take(i as int), total_cores) is None,
        decreases entries@.len() - i,
    {
        let e = &entries[i];
        proof {
            assert(entries_view(entries@).take(i + 1).drop_last() =~= entries_view(entries@).take(i as int));
            assert(entries_view(entries@).take(i + 1).last() == (e.command@, e.config@, e.cores));
        }
        if e.cores == 0 || e.cores > total_cores {
            let mut s = String::from_str("entry ");
            s.append(e.config.as_str());
            s.append(" requests ");
            push_decimal(&mut s, e.cores as u64);
            s.append(" cores (machine has ");
            push_decimal(&mut s, total_cores as u64);
            s.append(")");
            proof {
                lemma_first_problem(entries_view(entries@), i as int, total_cores);
            }
            return Err(s);
        }
        if !is_known_command(e.command.as_str()) {
            let mut s = String::from_str("unknown sweep command ");
            let q = debug_quote(e.command.as_str());
            s.append(q.as_str());
            proof {
                lemma_first_problem(entries_view(entries@), i as int, total_cores);
            }
            return Err(s);
        }
        i += 1;
    }
    assert(entries_view(entries@).take(entries@.len() as int) =~= entries_view(entries@));
    Ok(())
}

/// A problem in entry `i`, after none before it, is the manifest's problem.
proof fn lemma_first_problem(es: Seq<(Seq<char>, Seq<char>, usize)>, i: int, total: usize)
    requires
        0 <= i < es.len(),
        sweep_problem(es.take(i), total) is None,
        sweep_problem(es.take(i + 1), total) is Some,
    ensures
        sweep_problem(es, total) == sweep_problem(es.take(i + 1), total),
    decreases es.len() - i,
{
    if i + 1 < es.len() {
        lemma_problem_stays(es, i + 1, total);
    } else {
        assert(es.take(i + 1) =~= es);
    }
}

proof fn lemma_problem_stays(es: Seq<(Seq<char>, Seq<char>, usize)>, k: int, total: usize)
    requires
        1 <= k <= es.len(),
        sweep_problem(es.take(k), total) is Some,
    ensures
        sweep_problem(es, total) == sweep_problem(es.take(k), total),
    decreases es.len() - k,
{
    if k < es.len() {
        assert(es.take(k + 1).drop_last() =~= es.take(k));
        lemma_problem_stays(es, k + 1, total);
    } else {
        assert(es.take(k) =~= es);
    }
}

/// Scheduler state: runs waiting (index, slots) in manifest order, runs
/// active (index, slots), free slots and failures so far.
#[derive(Clone)]
pub struct SweepState {
    pub pending: Vec<(usize, usize)>,
    pub active: Vec<(usize, usize)>,
    pub free: usize,
    pub failures: usize,
}

/// What the caller reports.
#[derive(Clone, Copy)]
pub enum SweepEvent {
    /// Nothing exited; start what fits.
    Tick,
    /// Run `index` exited, successfully or not.
    Exited { index: usize, success: bool },
}

/// The slots of a list of runs.
pub open spec fn slots(runs: Seq<(usize, usize)>) -> int
    decreases runs.len(),
{
    if runs.len() == 0 {
        0
    } else {
        slots(runs.drop_last()) + runs.last().1
    }
}

/// Start runs from the front of `pending` while each fits the free slots.
/// Gives the remaining queue, the active runs, the free slots and the
/// started indices.
pub open spec fn start_fitting(pending: Seq<(usize, usize)>, active: Seq<(usize, usize)>, free: int, started: Seq<usize>) -> (
    Seq<(usize, usize)>,
    Seq<(usize, usize)>,
    int,
    Seq<usize>,
)
    decreases pending.len(),
{
    if pending.len() > 0 && pending[0].1 <= free {
        start_fitting(pending.drop_first(), active.push(pending[0]), free - pending[0].1, started.push(pending[0].0))
    } else {
        (pending, active, free, started)
    }
}

/// Position of the first active run with this index (`runs.len()` if none).
pub open spec fn run_pos(runs: Seq<(usize, usize)>, index: usize, i: int) -> int
    decreases runs.len() - i,
{
    if i < 0 || i >= runs.len() || runs[i].0 == index {
        i
    } else {
        run_pos(runs, index, i + 1)
    }
}

/// The scheduler after an event, before starting runs: an exited active run
/// leaves, frees its slots and, if unsuccessful, counts as a failure;
/// an exit of a run that is not active changes nothing.
pub open spec fn after_event(pending: Seq<(usize, usize)>, active: Seq<(usize, usize)>, free: int, failures: int, ev: SweepEvent) -> (
    Seq<(usize, usize)>,
    Seq<(usize, usize)>,
    int,
    int,
) {
    match ev {
        SweepEvent::Tick => (pending, active, free, failures),
        SweepEvent::Exited { index, success } => {
            let p = run_pos(active, index, 0);
            if p < active.len() {
                (pending, active.remove(p), free + active[p].1, if success { failures } else { failures + 1 })
            } else {
                (pending, active, free, failures)
            }
        },
    }
}

proof fn lemma_slots_push(runs: Seq<(usize, usize)>, x: (usize, usize))
    ensures
        slots(runs.push(x)) == slots(runs) + x.1,
{
    assert(runs.push(x).drop_last() =~= runs);
}

proof fn lemma_slots_nonneg(runs: Seq<(usize, usize)>)
    ensures
        slots(runs) >= 0,
    decreases runs.len(),
{
    if runs.len() > 0 {
        lemma_slots_nonneg(runs.drop_last());
    }
}

proof fn lemma_slots_remove(runs: Seq<(usize, usize)>, p: int)
    requires
        0 <= p < runs.len(),
    ensures
        slots(runs.remove(p)) + runs[p].1 == slots(runs),
    decreases runs.len(),
{
    if p == runs.len() - 1 {
        assert(runs.remove(p) =~= runs.drop_last());
    } else {
        lemma_slots_remove(runs.drop_last(), p);
        assert(runs.remove(p) =~= runs.drop_last().remove(p).push(runs.last()));
        lemma_slots_push(runs.drop_last().remove(p), runs.last());
    }
}

proof fn lemma_run_pos(runs: Seq<(usize, usize)>, index: usize, i: int, j: int)
    requires
        0 <= i <= j <= runs.len(),
        forall|t: int| i <= t < j ==> #[trigger] runs[t].0 != index,
        j == runs.len() || runs[j].0 == index,
    ensures
        run_pos(runs, index, i) == j,
    decreases j - i,
{
    if i < j {
        lemma_run_pos(runs, index, i + 1, j);
    }
}

fn copy_runs(v: &Vec<(usize, usize)>) -> (r: Vec<(usize, usize)>)
    ensures
        r@ == v@,
{
    let mut r: Vec<(usize, usize)> = Vec::new();
    let mut i: usize = 0;
    while i < v.len()
        invariant
            i <= v@.len(),
            r@ == v@.take(i as int),
        decreases v@.len() - i,
    {
        r.push(v[i]);
        proof {
            assert(v@.take(i + 1) =~= v@.take(i as int).push(v@[i as int]));
        }
        i += 1;
    }
    assert(v@.take(v@.len() as int) =~= v@);
    r
}

/// One scheduling step: apply the event, then start runs first-in
/// first-out while the front run fits the free slots. Returns the new
/// state and the indices to start now, in order.
pub fn sweep_step(s: &SweepState, ev: SweepEvent) -> (r: (SweepState, Vec<usize>))
    requires
        s.free as int + slots(s.active@) <= usize::MAX,
        s.failures < usize::MAX,
    ensures
        ({
            let (p, a, f, n) = after_event(s.pending@, s.active@, s.free as int, s.failures as int, ev);
            let (p2, a2, f2, st) = start_fitting(p, a, f, Seq::empty());
            &&& r.0.pending@ == p2
            &&& r.0.active@ == a2
            &&& r.0.free == f2
            &&& r.0.failures == n
            &&& r.1@ == st
        }),
        r.0.free as int + slots(r.0.active@) == s.free as int + slots(s.active@),
{
    let pending = copy_runs(&s.pending);
    let mut active = copy_runs(&s.active);
    let mut free = s.free;
    let mut failures = s.failures;
    match ev {
        SweepEvent::Tick => {},
        SweepEvent::Exited { index, success } => {
            let mut p: usize = 0;
            while p < active.len() && active[p].0 != index
                invariant
                    active@ == s.active@,
                    p <= active@.len(),
                    forall|t: int| 0 <= t < p ==> #[trigger] active@[t].0 != index,
                decreases active@.len() - p,
            {
                p += 1;
            }
            proof {
                lemma_run_pos(active@, index, 0, p as int);
            }
            if p < active.len() {
                proof {
                    lemma_slots_remove(active@, p as int);
                    lemma_slots_nonneg(active@.remove(p as int));
                }
                let done = active.remove(p);
                free = free + done.1;
                if !success {
                    failures = failures + 1;
                }
            }
        },
    }
    let ghost (p0, a0, f0, n0) = after_event(s.pending@, s.active@, s.free as int, s.failures as int, ev);
    assert(pending@ == p0 && active@ == a0 && free == f0 && failures == n0);
    let mut started: Vec<usize> = Vec::new();
    let mut k: usize = 0;
    assert(p0.skip(0) =~= p0);
    assert(started@ =~= Seq::<usize>::empty());
    while k < pending.len() && pending[k].1 <= free
        invariant
            k <= pending@.len(),
            pending@ == p0,
            start_fitting(p0.skip(k as int), active@, free as int, started@) == start_fitting(p0, a0, f0, Seq::empty()),
            free as int + slots(active@) == s.free as int + slots(s.active@),
        decreases pending@.len() - k,
    {
        let run = pending[k];
        proof {
            assert(p0.skip(k as int)[0] == run);
            assert(p0.skip(k as int).drop_first() =~= p0.skip(k + 1));
            lemma_slots_push(active@, run);
        }
        active.push(run);
        free = free - run.1;
        started.push(run.0);
        k += 1;
    }
    let mut rest: Vec<usize> = Vec::new();
    let mut waiting: Vec<(usize, usize)> = Vec::new();
    let mut j: usize = k;
    while j < pending.len()
        invariant
            k <= j <= pending@.len(),
            waiting@ == pending@.subrange(k as int, j as int),
        decreases pending@.len() - j,
    {
        waiting.push(pending[j]);
        proof {
            assert(pending@.subrange(k as int, j + 1) =~= pending@.subrange(k as int, j as int).push(pending@[j as int]));
        }
        j += 1;
    }
    proof {
        assert(waiting@ =~= p0.skip(k as int));
    }
    (SweepState { pending: waiting, active, free, failures }, started)
}

/// The result of a finished sweep: `Ok` when no run failed.
pub fn sweep_result(failures: usize) -> (r: Result<(), String>)
    ensures
        failures == 0 ==> r is Ok,
        failures > 0 ==> (r matches Err(e) && e@ == decimal(failures as nat) + " sweep run(s) failed"@),
{
    if failures == 0 {
        Ok(())
    } else {
        let mut s = String::new();
        push_decimal(&mut s, failures as u64);
        s.append(" sweep run(s) failed");
        Err(s)
    }
}

} // verus!
