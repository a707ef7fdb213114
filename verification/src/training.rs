//! Exact supervised datasets: every reachable non-terminal position of
//! a small game, solved exactly and split by a hash of its position key.
//!
//! Everything is in side-to-move perspective and uses stable action IDs.

use crate::game::{ActionId, FeatureId, Game};
use crate::search::{
    enumerate_solved, entries_ok, entry_key, entry_keys, keys_faithful, keys_identify, lists_reachable, ExactSolver,
    SolvedPosition, Wdl,
};
use vstd::prelude::*;

verus! {

/// Transposition-table size (log2 entries) of every labelling and
/// self-play search.
pub const SELFPLAY_TT_LOG2: u32 = 16;


/// One labelled position.
#[derive(Clone, Debug)]
pub struct Example {
    pub features: Vec<u32>,
    pub legal: Vec<u32>,
    /// Exact value of each legal action (aligned with `legal`).
    pub child_wdl: Vec<Wdl>,
    pub wdl: Wdl,
    pub ply: u32,
}

/// Mathematical view of an example.
pub struct ExampleModel {
    pub features: Seq<u32>,
    pub legal: Seq<u32>,
    pub child_wdl: Seq<Wdl>,
    pub wdl: Wdl,
    pub ply: u32,
}

impl View for Example {
    type V = ExampleModel;

    open spec fn view(&self) -> ExampleModel {
        ExampleModel {
            features: self.features@,
            legal: self.legal@,
            child_wdl: self.child_wdl@,
            wdl: self.wdl,
            ply: self.ply,
        }
    }
}

/// Indices `0..n` of `values` equal to `target`, ascending.
pub open spec fn indices_with(values: Seq<Wdl>, target: Wdl, n: int) -> Seq<usize>
    decreases n,
{
    if n <= 0 {
        Seq::empty()
    } else {
        let prev = indices_with(values, target, n - 1);
        if values[n - 1] == target {
            prev.push((n - 1) as usize)
        } else {
            prev
        }
    }
}

impl Example {
    /// Indices into `legal` of the game-theoretically optimal actions.
    pub fn optimal_indices(&self) -> (r: Vec<usize>)
        ensures
            r@ == indices_with(self.child_wdl@, self.wdl, self.child_wdl@.len() as int),
    {
        let mut r: Vec<usize> = Vec::new();
        let mut i: usize = 0;
        while i < self.child_wdl.len()
            invariant
                i <= self.child_wdl@.len(),
                r@ == indices_with(self.child_wdl@, self.wdl, i as int),
            decreases self.child_wdl@.len() - i,
        {
            if self.child_wdl[i] == self.wdl {
                r.push(i);
            }
            i += 1;
        }
        r
    }
}

/// Exact-state dataset stratified by position hash: 80% train, 10%
/// validation, 10% test. States are unique, so splits cannot leak.
pub struct ExactDataset {
    pub train: Vec<Example>,
    pub val: Vec<Example>,
    pub test: Vec<Example>,
    pub max_features: usize,
}

/// The SplitMix64 finaliser.
pub open spec fn splitmix(x: u64) -> u64 {
    let a = vstd::wrapping::u64_specs::wrapping_add(x, 0x9e37_79b9_7f4a_7c15);
    let b = vstd::wrapping::u64_specs::wrapping_mul(a ^ (a >> 30u64), 0xbf58_476d_1ce4_e5b9);
    let c = vstd::wrapping::u64_specs::wrapping_mul(b ^ (b >> 27u64), 0x94d0_49bb_1331_11eb);
    c ^ (c >> 31u64)
}

/// SplitMix64 finaliser: a fixed bijective mix of a 64-bit word.
pub fn splitmix64(x: u64) -> (r: u64)
    ensures
        r == splitmix(x),
{
    let a = x.wrapping_add(0x9e37_79b9_7f4a_7c15);
    let b = (a ^ (a >> 30u64)).wrapping_mul(0xbf58_476d_1ce4_e5b9);
    let c = (b ^ (b >> 27u64)).wrapping_mul(0x94d0_49bb_1331_11eb);
    c ^ (c >> 31u64)
}

/// Split bucket (0..=9) of a solved position.
pub open spec fn bucket<G: Game>(g: &G, e: SolvedPosition<G>) -> u64 {
    splitmix(entry_key(g, e)) % 10
}

/// The example a solved position becomes.
pub open spec fn example_of<G: Game>(g: &G, e: SolvedPosition<G>) -> ExampleModel {
    let m = g.model(&e.state);
    ExampleModel {
        features: g.features(m),
        legal: Seq::new(e.legal@.len(), |i: int| g.action(m, e.legal@[i])),
        child_wdl: e.child_values@,
        wdl: e.value,
        ply: e.ply,
    }
}

/// Examples of the first `n` entries whose bucket lies in `lo..=hi`.
pub open spec fn split_of<G: Game>(g: &G, es: Seq<SolvedPosition<G>>, lo: u64, hi: u64, n: int) -> Seq<
    ExampleModel,
>
    decreases n,
{
    if n <= 0 {
        Seq::empty()
    } else {
        let prev = split_of(g, es, lo, hi, n - 1);
        let b = bucket(g, es[n - 1]);
        if lo <= b && b <= hi {
            prev.push(example_of(g, es[n - 1]))
        } else {
            prev
        }
    }
}

/// Largest feature count among the first `n` entries.
pub open spec fn max_features_of<G: Game>(g: &G, es: Seq<SolvedPosition<G>>, n: int) -> nat
    decreases n,
{
    if n <= 0 {
        0
    } else {
        vstd::math::max(
            max_features_of(g, es, n - 1) as int,
            g.features(g.model(&es[n - 1].state)).len() as int,
        ) as nat
    }
}

/// The views of a list of examples.
pub open spec fn views(v: Seq<Example>) -> Seq<ExampleModel> {
    Seq::new(v.len(), |i: int| v[i]@)
}

/// Append the example of one solved position.
fn example_from<G: Game>(game: &G, position: &SolvedPosition<G>) -> (e: Example)
    requires
        game.wf(),
        game.valid(game.model(&position.state)),
        position.legal@ == game.moves(game.model(&position.state)),
    ensures
        e@ == example_of(game, *position),
{
    let mut features: Vec<FeatureId> = Vec::new();
    game.encode_features(&position.state, &mut features);
    let ghost m = game.model(&position.state);
    let mut legal: Vec<ActionId> = Vec::new();
    let mut i: usize = 0;
    while i < position.legal.len()
        invariant
            game.wf(),
            game.valid(m),
            m == game.model(&position.state),
            position.legal@ == game.moves(m),
            i <= position.legal@.len(),
            legal@ =~= Seq::new(i as nat, |j: int| game.action(m, position.legal@[j])),
        decreases position.legal@.len() - i,
    {
        assert(game.moves(m).contains(position.legal@[i as int]));
        let a = game.action_id(&position.state, position.legal[i]);
        legal.push(a);
        i += 1;
    }
    let mut child_wdl: Vec<Wdl> = Vec::new();
    let mut j: usize = 0;
    while j < position.child_values.len()
        invariant
            j <= position.child_values@.len(),
            child_wdl@ =~= position.child_values@.subrange(0, j as int),
        decreases position.child_values@.len() - j,
    {
        child_wdl.push(position.child_values[j]);
        j += 1;
    }
    assert(child_wdl@ =~= position.child_values@);
    Example { features, legal, child_wdl, wdl: position.value, ply: position.ply }
}

/// Enumerate and solve every reachable non-terminal state of `game` (see
/// [`enumerate_solved`]), splitting by position-key hash: bucket
/// `splitmix64(key) % 10` of `0..=7` goes to train, `8` to validation,
/// `9` to test.
pub fn build_exact_dataset<G: Game>(game: &G) -> (ds: ExactDataset)
    requires
        game.wf(),
        game.acyclic(),
    ensures
        exists|es: Seq<SolvedPosition<G>>|
            {
                &&& entries_ok(
                    game,
                    es,
                    Set::new(|k: u64| exists|i: int| 0 <= i < es.len() && entry_key(game, es[i]) == k),
                    keys_faithful(game),
                )
                &&& keys_identify(game) ==> lists_reachable(game, entry_keys(game, es))
                &&& game.result(game.initial()) is None ==> es.len() > 0 && game.model(&es[0].state)
                    == game.initial()
                &&& views(ds.train@) == split_of(game, es, 0, 7, es.len() as int)
                &&& views(ds.val@) == split_of(game, es, 8, 8, es.len() as int)
                &&& views(ds.test@) == split_of(game, es, 9, 9, es.len() as int)
                &&& ds.max_features == max_features_of(game, es, es.len() as int)
            },
{
    let mut solver = ExactSolver::new();
    let positions = enumerate_solved(game, &mut solver);
    let ghost es = positions@;
    let ghost keys = Set::new(|k: u64| exists|i: int| 0 <= i < es.len() && entry_key(game, es[i]) == k);
    proof {
        assert(crate::search::memo_sound(game, Map::<u64, Wdl>::empty()));
        assert((keys_faithful(game) && crate::search::memo_sound(game, Map::<u64, Wdl>::empty())) == keys_faithful(game));
    }
    let mut train: Vec<Example> = Vec::new();
    let mut val: Vec<Example> = Vec::new();
    let mut test: Vec<Example> = Vec::new();
    let mut max_features: usize = 0;
    let mut i: usize = 0;
    while i < positions.len()
        invariant
            game.wf(),
            es == positions@,
            keys == Set::new(|k: u64| exists|i: int| 0 <= i < es.len() && entry_key(game, es[i]) == k),
            entries_ok(game, es, keys, keys_faithful(game)),
            i <= es.len(),
            views(train@) == split_of(game, es, 0, 7, i as int),
            views(val@) == split_of(game, es, 8, 8, i as int),
            views(test@) == split_of(game, es, 9, 9, i as int),
            max_features == max_features_of(game, es, i as int),
        decreases es.len() - i,
    {
        let position = &positions[i];
        assert(crate::search::solved_entry_ok(game, es[i as int], keys_faithful(game)));
        let example = example_from(game, position);
        let key = game.position_key(&position.state);
        let b = splitmix64(key) % 10;
        if example.features.len() > max_features {
            max_features = example.features.len();
        }
        if b <= 7 {
            train.push(example);
            assert(views(train@) =~= split_of(game, es, 0, 7, i + 1));
        } else if b == 8 {
            val.push(example);
            assert(views(val@) =~= split_of(game, es, 8, 8, i + 1));
        } else {
            test.push(example);
            assert(views(test@) =~= split_of(game, es, 9, 9, i + 1));
        }
        assert(views(train@) =~= split_of(game, es, 0, 7, i + 1));
        assert(views(val@) =~= split_of(game, es, 8, 8, i + 1));
        assert(views(test@) =~= split_of(game, es, 9, 9, i + 1));
        i += 1;
    }
    ExactDataset { train, val, test, max_features }
}

} // verus!
