use vstd::prelude::*;
use crate::tree::{walk, RegressionTree};

verus! {

/// The trees of a trained model, in the order they were built. Each tree's
/// leaf outputs, scaled by the learning rate, are summed to score an
/// instance; the outputs are kept by the caller.
pub struct Ensemble {
    pub trees: Vec<RegressionTree>,
}

impl Ensemble {
    /// Every tree is built.
    pub open spec fn wf(&self) -> bool {
        forall|t: int| 0 <= t < self.trees@.len() ==> (#[trigger] self.trees@[t]).wf()
    }

    /// An ensemble of no tree.
    pub fn new() -> (r: Ensemble)
        ensures
            r.wf(),
            r.trees@.len() == 0,
    {
        Ensemble { trees: Vec::new() }
    }

    /// Number of trees.
    pub fn len(&self) -> (r: usize)
        ensures
            r == self.trees@.len(),
    {
        self.trees.len()
    }

    /// Appends a built tree.
    pub fn push(&mut self, tree: RegressionTree)
        requires
            old(self).wf(),
            tree.wf(),
        ensures
            final(self).wf(),
            final(self).trees@ == old(self).trees@.push(tree),
    {
        self.trees.push(tree);
    }

    /// The leaf that the instance reaches in each tree, tree by tree. An
    /// empty ensemble gives no leaf, so the instance scores 0.
    pub fn leaves_of(&self, values: &Vec<u64>, zero: u64) -> (r: Vec<usize>)
        requires
            self.wf(),
        ensures
            r@.len() == self.trees@.len(),
            forall|t: int|
                0 <= t < r@.len() ==> #[trigger] r@[t] as int == walk(self.trees@[t].nodes@, 0, values@, zero)
                    && r@[t] < self.trees@[t].n_leaves,
    {
        let mut r: Vec<usize> = Vec::new();
        let mut t: usize = 0;
        while t < self.trees.len()
            invariant
                self.wf(),
                t <= self.trees@.len(),
                r@.len() == t,
                forall|u: int|
                    0 <= u < t ==> #[trigger] r@[u] as int == walk(self.trees@[u].nodes@, 0, values@, zero)
                        && r@[u] < self.trees@[u].n_leaves,
            decreases self.trees@.len() - t,
        {
            let leaf = self.trees[t].leaf_of(values, zero);
            r.push(leaf);
            t = t + 1;
        }
        r
    }
}

} // verus!
