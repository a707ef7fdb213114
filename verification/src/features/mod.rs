//! Structured position and move measurements.
//!
//! Extractors compute *measurements* of a position or move — counts,
//! geometry, attack relations — from the side to move's perspective.
//! They never assert strategy: every sign and magnitude is learned
//! downstream. Measurements are integers; a model that consumes them as
//! reals converts them.

pub mod chess;
pub mod forward_chess;

use crate::game::Game;
use vstd::prelude::*;

verus! {

/// A sparse feature vector entry: `(feature index, value)`.
pub type FeatureEntry = (u32, i32);

/// The indices of `s` lie in `lo..hi` and strictly increase, so none
/// repeats.
pub open spec fn indices_between(s: Seq<FeatureEntry>, lo: int, hi: int) -> bool {
    &&& forall|i: int| 0 <= i < s.len() ==> lo <= #[trigger] s[i].0 < hi
    &&& forall|i: int, j: int| 0 <= i < j < s.len() ==> #[trigger] s[i].0 < #[trigger] s[j].0
}

/// Feature indices that are unique and below `dimension`.
pub open spec fn indices_ok(s: Seq<FeatureEntry>, dimension: int) -> bool {
    &&& forall|i: int| 0 <= i < s.len() ==> 0 <= #[trigger] s[i].0 < dimension
    &&& forall|i: int, j: int| 0 <= i < j < s.len() ==> #[trigger] s[i].0 != #[trigger] s[j].0
}

/// Increasing indices below `dimension` are unique.
pub proof fn lemma_between_ok(s: Seq<FeatureEntry>, dimension: int)
    requires
        indices_between(s, 0, dimension),
    ensures
        indices_ok(s, dimension),
{
}

/// Two lists of unique indices, with no index in both, join into one.
pub proof fn lemma_ok_concat(a: Seq<FeatureEntry>, b: Seq<FeatureEntry>, dimension: int)
    requires
        indices_ok(a, dimension),
        indices_ok(b, dimension),
        forall|i: int, j: int| 0 <= i < a.len() && 0 <= j < b.len() ==> #[trigger] a[i].0 != #[trigger] b[j].0,
    ensures
        indices_ok(a + b, dimension),
{
    assert forall|i: int| 0 <= i < (a + b).len() implies 0 <= #[trigger] (a + b)[i].0 < dimension by {
        if i < a.len() {
            assert((a + b)[i] == a[i]);
        } else {
            assert((a + b)[i] == b[i - a.len()]);
        }
    }
    assert forall|i: int, j: int| 0 <= i < j < (a + b).len() implies #[trigger] (a + b)[i].0 != #[trigger] (a
        + b)[j].0 by {
        if j < a.len() {
            assert((a + b)[i] == a[i]);
            assert((a + b)[j] == a[j]);
        } else if i >= a.len() {
            assert((a + b)[i] == b[i - a.len()]);
            assert((a + b)[j] == b[j - a.len()]);
        } else {
            assert((a + b)[i] == a[i]);
            assert((a + b)[j] == b[j - a.len()]);
        }
    }
}

pub proof fn lemma_between_concat(a: Seq<FeatureEntry>, b: Seq<FeatureEntry>, lo: int, mid: int, hi: int)
    requires
        indices_between(a, lo, mid),
        indices_between(b, mid, hi),
        lo <= mid <= hi,
    ensures
        indices_between(a + b, lo, hi),
{
    assert forall|i: int| 0 <= i < (a + b).len() implies lo <= #[trigger] (a + b)[i].0 < hi by {
        if i >= a.len() {
            assert((a + b)[i] == b[i - a.len()]);
        } else {
            assert((a + b)[i] == a[i]);
        }
    }
    assert forall|i: int, j: int| 0 <= i < j < (a + b).len() implies #[trigger] (a + b)[i].0 < #[trigger] (a
        + b)[j].0 by {
        if j < a.len() {
            assert((a + b)[i] == a[i]);
            assert((a + b)[j] == a[j]);
        } else if i >= a.len() {
            assert((a + b)[i] == b[i - a.len()]);
            assert((a + b)[j] == b[j - a.len()]);
        } else {
            assert((a + b)[i] == a[i]);
            assert((a + b)[j] == b[j - a.len()]);
            assert(lo <= a[i].0 < mid);
            assert(mid <= b[j - a.len()].0);
        }
    }
}

pub proof fn lemma_between_widen(s: Seq<FeatureEntry>, lo: int, hi: int, lo2: int, hi2: int)
    requires
        indices_between(s, lo, hi),
        lo2 <= lo,
        hi <= hi2,
    ensures
        indices_between(s, lo2, hi2),
{
}

/// Computes structured measurements of a position, side-to-move
/// perspective. `&mut self` allows internal scratch buffers; extraction
/// is a pure function of `(game, state)`.
pub trait FeatureExtractor<G: Game> {
    /// The extractor is set up (its sizes are in range).
    spec fn extractor_wf(&self) -> bool;

    /// Total dimension of the feature space.
    spec fn spec_dimension(&self) -> int;

    /// The positions of `game` this extractor measures.
    spec fn measures(&self, game: &G, state: &G::State) -> bool;

    fn dimension(&self) -> (d: usize)
        requires
            self.extractor_wf(),
        ensures
            d == self.spec_dimension(),
    ;

    /// Clear `out` and append the active features. Indices are unique
    /// and below the dimension.
    fn extract(&mut self, game: &G, state: &G::State, out: &mut Vec<FeatureEntry>)
        requires
            old(self).extractor_wf(),
            old(self).measures(game, state),
        ensures
            final(self).extractor_wf(),
            final(self).spec_dimension() == old(self).spec_dimension(),
            indices_ok(final(out)@, old(self).spec_dimension()),
    ;

    /// Stable, human-readable name of a feature index.
    fn feature_name(&self, index: u32) -> String
        requires
            self.extractor_wf(),
            index < self.spec_dimension(),
    ;
}

/// Computes state-action (move) measurements for ordering models. Same
/// purity contract as [`FeatureExtractor`].
pub trait MoveFeatures<G: Game> {
    /// Total dimension of the feature space.
    spec fn spec_dimension(&self) -> int;

    /// The moves of positions of `game` this extractor measures.
    spec fn measures(&self, game: &G, state: &G::State, mv: G::Move) -> bool;

    fn dimension(&self) -> (d: usize)
        ensures
            d == self.spec_dimension(),
    ;

    /// Clear `out` and append the move's features, mover perspective.
    /// Indices are unique and below the dimension.
    fn extract(&mut self, game: &G, state: &G::State, mv: G::Move, out: &mut Vec<FeatureEntry>)
        requires
            old(self).measures(game, state, mv),
        ensures
            final(self).spec_dimension() == old(self).spec_dimension(),
            indices_ok(final(out)@, old(self).spec_dimension()),
    ;

    /// Stable, human-readable name of a feature index.
    fn feature_name(&self, index: u32) -> String;
}

} // verus!
