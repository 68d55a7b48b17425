use vstd::prelude::*;
use crate::metric::{self, Metric};

verus! {

/// A configuration that training cannot run with.
pub enum ConfigError {
    /// The bin budget per feature is below 1.
    Thresholds,
    /// The leaf budget is below 1, or too large to index the tree's nodes.
    MaxLeaves,
    /// The minimum number of instances per leaf is below 1.
    MinLeafSamples,
    /// The metric name is neither `NDCG` nor `DCG`.
    Metric,
}

/// The largest leaf budget: the nodes of a tree with that many leaves can
/// be indexed even where `usize` has 32 bits.
pub const MAX_LEAVES_LIMIT: usize = 0x3FFF_FFFF;

/// The integer options of a LambdaMART run. The learning rate, a real,
/// is held beside it by the driver.
pub struct Config {
    pub trees: usize,
    pub max_leaves: usize,
    pub min_leaf_samples: usize,
    pub thresholds: usize,
    pub metric: Metric,
    pub early_stop: usize,
    pub print_metric: bool,
    pub print_tree: bool,
}

impl Config {
    /// The options are usable: every budget is at least 1.
    pub open spec fn wf(&self) -> bool {
        &&& 1 <= self.max_leaves <= MAX_LEAVES_LIMIT
        &&& self.min_leaf_samples >= 1
        &&& self.thresholds >= 1
    }

    /// Checks the options, in the order bin budget, leaf budget, minimum
    /// leaf size, metric name, and reports the first one that is wrong.
    pub fn new(
        trees: usize,
        max_leaves: usize,
        min_leaf_samples: usize,
        thresholds: usize,
        metric_name: &str,
        metric_k: usize,
        early_stop: usize,
    ) -> (r: Result<Config, ConfigError>)
        ensures
            thresholds < 1 ==> r matches Err(ConfigError::Thresholds),
            thresholds >= 1 && !(1 <= max_leaves <= MAX_LEAVES_LIMIT) ==> r matches Err(ConfigError::MaxLeaves),
            thresholds >= 1 && 1 <= max_leaves <= MAX_LEAVES_LIMIT && min_leaf_samples < 1 ==> r matches Err(
                ConfigError::MinLeafSamples,
            ),
            thresholds >= 1 && 1 <= max_leaves <= MAX_LEAVES_LIMIT && min_leaf_samples >= 1 && metric_name@
                != "NDCG"@ && metric_name@ != "DCG"@ ==> r matches Err(ConfigError::Metric),
            r matches Ok(c) ==> {
                &&& c.wf()
                &&& c.trees == trees
                &&& c.max_leaves == max_leaves
                &&& c.min_leaf_samples == min_leaf_samples
                &&& c.thresholds == thresholds
                &&& c.early_stop == early_stop
                &&& c.metric.k() == metric_k
                &&& (c.metric is Ndcg <==> metric_name@ == "NDCG"@)
                &&& (c.metric is Dcg <==> metric_name@ == "DCG"@)
                &&& c.print_metric
                &&& !c.print_tree
            },
            (thresholds >= 1 && 1 <= max_leaves <= MAX_LEAVES_LIMIT && min_leaf_samples >= 1 && (metric_name@
                == "NDCG"@ || metric_name@ == "DCG"@)) ==> r is Ok,
    {
        if thresholds < 1 {
            return Err(ConfigError::Thresholds);
        }
        if max_leaves < 1 || max_leaves > MAX_LEAVES_LIMIT {
            return Err(ConfigError::MaxLeaves);
        }
        if min_leaf_samples < 1 {
            return Err(ConfigError::MinLeafSamples);
        }
        proof {
            reveal_strlit("NDCG");
            reveal_strlit("DCG");
            assert("NDCG"@.len() != "DCG"@.len());
        }
        match metric::new(metric_name, metric_k) {
            None => Err(ConfigError::Metric),
            Some(metric) => Ok(
                Config {
                    trees,
                    max_leaves,
                    min_leaf_samples,
                    thresholds,
                    metric,
                    early_stop,
                    print_metric: true,
                    print_tree: false,
                },
            ),
        }
    }
}

} // verus!
