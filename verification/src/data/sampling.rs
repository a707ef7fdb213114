//! Position sampling along trajectories: which positions are sampled, and
//! how the per-game samples merge into one deduplicated, weighted list.
//!
//! A position is sampled iff `splitmix64(key ^ SAMPLE_SALT) % one_in == 0`,
//! so a given position is always in or always out. The merge walks games
//! in index order: a key seen before gains weight, a new key is kept while
//! fewer than `max_positions` distinct positions are held, and refused
//! afterwards (its repeat visits still count once it is held).

use crate::data::PositionSample;
use crate::game::ActionId;
use crate::training::{splitmix, splitmix64};
use std::collections::HashMap;
use vstd::prelude::*;

verus! {

broadcast use vstd::std_specs::hash::group_hash_axioms;

/// Salt separating position-sampling hashes from split and thinning
/// hashes.
pub const SAMPLE_SALT: u64 = 0x7eac_4e2d_a7a5_1e11;

/// Is the position with this key sampled at rate one in `one_in`?
pub open spec fn sampled_spec(key: u64, one_in: u64) -> bool {
    splitmix(key ^ SAMPLE_SALT) % one_in == 0
}

/// Sample test of one position: `splitmix64(key ^ SAMPLE_SALT) % one_in == 0`.
pub fn sampled(key: u64, one_in: u64) -> (b: bool)
    requires
        one_in >= 1,
    ensures
        b == sampled_spec(key, one_in),
{
    splitmix64(key ^ SAMPLE_SALT) % one_in == 0
}

/// One visit: the action path, the position key and the ply.
pub type VisitView = (Seq<ActionId>, u64, u32);

/// A sample: path, key, ply and weight.
pub type SampleView = (Seq<ActionId>, u64, u32, u32);

pub open spec fn sample_view(s: PositionSample) -> SampleView {
    (s.path@, s.key, s.ply, s.weight)
}

pub open spec fn visit_view(t: (Vec<ActionId>, u64, u32)) -> VisitView {
    (t.0@, t.1, t.2)
}

/// The visits of every game, as plain values.
pub open spec fn games_view(per_game: Seq<Vec<(Vec<ActionId>, u64, u32)>>) -> Seq<Seq<VisitView>> {
    per_game.map_values(|v: Vec<(Vec<ActionId>, u64, u32)>| v@.map_values(|t: (Vec<ActionId>, u64, u32)| visit_view(t)))
}

/// All visits, game after game.
pub open spec fn flat(games: Seq<Seq<VisitView>>) -> Seq<VisitView>
    decreases games.len(),
{
    if games.len() == 0 {
        Seq::empty()
    } else {
        flat(games.drop_last()) + games.last()
    }
}

/// Index, at or after `i`, of the first sample with key `k` (`s.len()` if none).
pub open spec fn key_index(s: Seq<SampleView>, k: u64, i: int) -> int
    decreases s.len() - i,
{
    if i < 0 || i >= s.len() || s[i].1 == k {
        i
    } else {
        key_index(s, k, i + 1)
    }
}

/// The merged samples of a visit sequence, with at most `cap` distinct
/// positions: a known key gains one weight, a new one is appended with
/// weight one while there is room and refused otherwise.
pub open spec fn merge_spec(visits: Seq<VisitView>, cap: nat) -> Seq<SampleView>
    decreases visits.len(),
{
    if visits.len() == 0 {
        Seq::empty()
    } else {
        let prev = merge_spec(visits.drop_last(), cap);
        let v = visits.last();
        let j = key_index(prev, v.1, 0);
        if j < prev.len() {
            prev.update(j, (prev[j].0, prev[j].1, prev[j].2, (prev[j].3 + 1) as u32))
        } else if prev.len() >= cap {
            prev
        } else {
            prev.push((v.0, v.1, v.2, 1u32))
        }
    }
}

/// Keys of the samples are pairwise distinct.
pub open spec fn distinct_keys(s: Seq<SampleView>) -> bool {
    forall|a: int, b: int| 0 <= a < b < s.len() ==> #[trigger] s[a].1 != #[trigger] s[b].1
}

proof fn lemma_key_index(s: Seq<SampleView>, k: u64, i: int, j: int)
    requires
        0 <= i <= j <= s.len(),
        forall|t: int| i <= t < j ==> #[trigger] s[t].1 != k,
        j == s.len() || s[j].1 == k,
    ensures
        key_index(s, k, i) == j,
    decreases j - i,
{
    if i < j {
        lemma_key_index(s, k, i + 1, j);
    }
}

/// Merged samples hold distinct keys, at most `cap` of them, and weights
/// no larger than the number of visits.
proof fn lemma_merge_facts(visits: Seq<VisitView>, cap: nat)
    requires
        visits.len() < 0xffff_ffff,
    ensures
        distinct_keys(merge_spec(visits, cap)),
        merge_spec(visits, cap).len() <= cap || visits.len() == 0,
        merge_spec(visits, cap).len() <= cap,
        forall|t: int|
            0 <= t < merge_spec(visits, cap).len() ==> 1 <= #[trigger] merge_spec(visits, cap)[t].3 <= visits.len(),
    decreases visits.len(),
{
    if visits.len() > 0 {
        let prev = merge_spec(visits.drop_last(), cap);
        lemma_merge_facts(visits.drop_last(), cap);
        let v = visits.last();
        let j = key_index(prev, v.1, 0);
        if exists|t: int| 0 <= t < prev.len() && prev[t].1 == v.1 {
            let t = choose|t: int| 0 <= t < prev.len() && prev[t].1 == v.1;
            lemma_key_index(prev, v.1, 0, t);
        } else {
            lemma_key_index(prev, v.1, 0, prev.len() as int);
        }
    }
}

/// Merge per-game visits, in game order, into deduplicated samples.
pub fn merge_samples(per_game: &Vec<Vec<(Vec<ActionId>, u64, u32)>>, max_positions: usize) -> (r: Vec<PositionSample>)
    requires
        flat(games_view(per_game@)).len() < 0xffff_ffff,
    ensures
        r@.map_values(|s: PositionSample| sample_view(s)) == merge_spec(flat(games_view(per_game@)), max_positions as nat),
        distinct_keys(merge_spec(flat(games_view(per_game@)), max_positions as nat)),
        r@.len() <= max_positions,
{
    let ghost gv = games_view(per_game@);
    let ghost cap = max_positions as nat;
    let mut by_key: HashMap<u64, usize> = HashMap::new();
    let mut samples: Vec<PositionSample> = Vec::new();
    let mut g: usize = 0;
    proof {
        assert(gv.take(0) =~= Seq::<Seq<VisitView>>::empty());
        assert(samples@.map_values(|s: PositionSample| sample_view(s)) =~= Seq::<SampleView>::empty());
        lemma_flat_prefix(gv, 0);
    }
    while g < per_game.len()
        invariant
            gv == games_view(per_game@),
            cap == max_positions as nat,
            g <= per_game@.len(),
            flat(gv).len() < 0xffff_ffff,
            flat(gv.take(g as int)).len() <= flat(gv).len(),
            samples@.map_values(|s: PositionSample| sample_view(s)) == merge_spec(flat(gv.take(g as int)), cap),
            forall|k: u64|
                #[trigger] by_key@.contains_key(k) <==> exists|t: int| 0 <= t < samples@.len() && samples@[t].key == k,
            forall|k: u64|
                #[trigger] by_key@.contains_key(k) ==> by_key@[k] < samples@.len() && samples@[by_key@[k] as int].key == k,
        decreases per_game@.len() - g,
    {
        let game_samples = &per_game[g];
        let ghost before = flat(gv.take(g as int));
        let mut i: usize = 0;
        proof {
            assert(gv[g as int] == game_samples@.map_values(|t: (Vec<ActionId>, u64, u32)| visit_view(t)));
            assert(before + gv[g as int].take(0) =~= before);
            lemma_flat_prefix(gv, g as int + 1);
        }
        while i < game_samples.len()
            invariant
                gv == games_view(per_game@),
                cap == max_positions as nat,
                g < per_game@.len(),
                game_samples == per_game@[g as int],
                gv[g as int] == game_samples@.map_values(|t: (Vec<ActionId>, u64, u32)| visit_view(t)),
                before == flat(gv.take(g as int)),
                flat(gv.take(g + 1)) == before + gv[g as int],
                flat(gv.take(g + 1)).len() <= flat(gv).len(),
                flat(gv).len() < 0xffff_ffff,
                i <= game_samples@.len(),
                samples@.map_values(|s: PositionSample| sample_view(s)) == merge_spec(
                    before + gv[g as int].take(i as int),
                    cap,
                ),
                forall|k: u64|
                    #[trigger] by_key@.contains_key(k) <==> exists|t: int|
                        0 <= t < samples@.len() && samples@[t].key == k,
                forall|k: u64|
                    #[trigger] by_key@.contains_key(k) ==> by_key@[k] < samples@.len() && samples@[by_key@[k] as int].key
                        == k,
            decreases game_samples@.len() - i,
        {
            let ghost prefix = before + gv[g as int].take(i as int);
            let ghost next_prefix = before + gv[g as int].take(i + 1);
            let ghost sv = samples@.map_values(|s: PositionSample| sample_view(s));
            let ghost v = gv[g as int][i as int];
            proof {
                assert(next_prefix.drop_last() =~= prefix);
                assert(next_prefix.last() == v);
                lemma_merge_facts(prefix, cap);
                lemma_merge_facts(next_prefix, cap);
                assert(prefix.len() < next_prefix.len());
                assert(next_prefix.len() <= flat(gv.take(g + 1)).len()) by {
                    assert(gv[g as int].take(i + 1).len() <= gv[g as int].len());
                }
            }
            let key = game_samples[i].1;
            match by_key.get(&key) {
                Some(index) => {
                    let index = *index;
                    proof {
                        assert(sv[index as int].1 == key);
                        assert forall|t: int| 0 <= t < index implies #[trigger] sv[t].1 != key by {
                            assert(distinct_keys(sv));
                        }
                        lemma_key_index(sv, key, 0, index as int);
                        assert(sv[index as int].3 <= prefix.len());
                    }
                    let ghost old_samples = samples@;
                    let mut s = samples.remove(index);
                    s.weight = s.weight + 1;
                    samples.insert(index, s);
                    proof {
                        assert(samples@.map_values(|s: PositionSample| sample_view(s)) =~= merge_spec(next_prefix, cap));
                        assert forall|t: int| 0 <= t < samples@.len() implies #[trigger] samples@[t].key == old_samples[t].key by {}
                        assert(samples@.len() == old_samples.len());
                        assert forall|k: u64| #[trigger] by_key@.contains_key(k) <==> exists|t: int|
                            0 <= t < samples@.len() && samples@[t].key == k by {
                            if exists|t: int| 0 <= t < samples@.len() && samples@[t].key == k {
                                let t = choose|t: int| 0 <= t < samples@.len() && samples@[t].key == k;
                                assert(old_samples[t].key == k);
                            }
                            if by_key@.contains_key(k) {
                                let t = by_key@[k] as int;
                                assert(samples@[t].key == k);
                            }
                        }
                    }
                },
                None => {
                    proof {
                        assert forall|t: int| 0 <= t < sv.len() implies #[trigger] sv[t].1 != key by {
                            if sv[t].1 == key {
                                assert(samples@[t].key == key);
                            }
                        }
                        lemma_key_index(sv, key, 0, sv.len() as int);
                    }
                    if samples.len() < max_positions {
                        let ghost old_samples = samples@;
                        let path = game_samples[i].0.clone();
                        proof {
                            assert(path@ =~= game_samples@[i as int].0@);
                        }
                        let ghost old_map = by_key@;
                        by_key.insert(key, samples.len());
                        samples.push(PositionSample { path, key, ply: game_samples[i].2, weight: 1 });
                        proof {
                            assert(samples@.map_values(|s: PositionSample| sample_view(s)) =~= merge_spec(next_prefix, cap));
                            assert(by_key@ == old_map.insert(key, (samples@.len() - 1) as usize));
                            assert forall|k: u64| #[trigger] by_key@.contains_key(k) implies by_key@[k] < samples@.len()
                                && samples@[by_key@[k] as int].key == k by {
                                if k != key {
                                    assert(old_map.contains_key(k));
                                    assert(samples@[old_map[k] as int] == old_samples[old_map[k] as int]);
                                }
                            }
                            assert forall|k: u64| #[trigger] by_key@.contains_key(k) <==> exists|t: int|
                                0 <= t < samples@.len() && samples@[t].key == k by {
                                if exists|t: int| 0 <= t < samples@.len() && samples@[t].key == k {
                                    let t = choose|t: int| 0 <= t < samples@.len() && samples@[t].key == k;
                                    if t < samples@.len() - 1 {
                                        assert(old_samples[t].key == k);
                                        assert(old_map.contains_key(k));
                                    }
                                }
                                if by_key@.contains_key(k) {
                                    if k == key {
                                        assert(samples@[samples@.len() - 1].key == k);
                                    } else {
                                        assert(old_map.contains_key(k));
                                        let t = old_map[k] as int;
                                        assert(samples@[t].key == k);
                                    }
                                }
                            }
                        }
                    } else {
                        proof {
                            assert(samples@.map_values(|s: PositionSample| sample_view(s)) =~= merge_spec(next_prefix, cap));
                        }
                    }
                },
            }
            i += 1;
        }
        proof {
            assert(gv[g as int].take(game_samples@.len() as int) =~= gv[g as int]);
        }
        g += 1;
    }
    proof {
        assert(gv.take(gv.len() as int) =~= gv);
        lemma_merge_facts(flat(gv), cap);
        assert(samples@.len() == samples@.map_values(|s: PositionSample| sample_view(s)).len());
    }
    samples
}

/// The visits of the first `g + 1` games are those of the first `g`,
/// then game `g`'s; none is longer than all visits.
proof fn lemma_flat_prefix(games: Seq<Seq<VisitView>>, g: int)
    requires
        0 <= g <= games.len(),
    ensures
        g > 0 ==> flat(games.take(g)) == flat(games.take(g - 1)) + games[g - 1],
        flat(games.take(g)).len() <= flat(games).len(),
    decreases games.len() - g,
{
    if g > 0 {
        assert(games.take(g).drop_last() =~= games.take(g - 1));
    }
    if g < games.len() {
        lemma_flat_prefix(games, g + 1);
        assert(games.take(g + 1).drop_last() =~= games.take(g));
    } else {
        assert(games.take(g) =~= games);
    }
}

} // verus!
