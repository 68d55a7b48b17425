use vstd::prelude::*;

verus! {

/// A connection between two neurons of a RankNet network.
pub struct Synapse {}

/// A layer of a RankNet network.
pub struct Layer {}

/// A RankNet learner. It has no layers yet, and learning leaves it as it is.
pub struct RankNet {}

impl RankNet {
    pub fn new() -> (r: RankNet) {
        RankNet {}
    }

    /// Prepares the network; there is nothing to prepare.
    pub fn init(&self) {
    }

    /// Runs learning; with no layers there is nothing to learn.
    pub fn learn(&self) {
    }
}

} // verus!
