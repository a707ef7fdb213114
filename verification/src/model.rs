//! Dimensions of the policy/value network: the embedding table covers
//! every feature ID plus one padding row, the policy head every action ID.

use vstd::prelude::*;

verus! {

/// Sizes of the network's input vocabulary, output head and hidden layers.
#[derive(Clone, Copy, Debug, PartialEq, Eq, Structural)]
pub struct ModelDims {
    pub feature_count: usize,
    pub action_count: usize,
    pub width: usize,
}

} // verus!
