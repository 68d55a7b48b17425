//! Training engine of a LambdaMART learner to rank.
//!
//! The library holds the discrete skeleton of training: the svmlight line
//! grammar, grouping of instances into queries, stable ranking, the label
//! pairs that carry lambdas, pre-discretization of feature values into
//! bins, count histograms, split admissibility and selection, partitioning
//! of samples, best-first growth of regression trees and their evaluation,
//! the run's configuration and feature statistics. Real values (labels,
//! scores, feature values) enter the library as order keys: `u64` values
//! whose order is the order of the reals they stand for. Arithmetic on the
//! reals themselves (gains, discounts, lambdas, leaf outputs) is done by
//! the caller, which hands its results in as keys or through closures.
pub mod ensemble;
pub mod grow;
pub mod histogram;
pub mod lambda;
pub mod lambdamart;
pub mod metric;
pub mod query;
pub mod rank;
pub mod ranknet;
pub mod split;
pub mod stats;
pub mod svmlight;
pub mod threshold;
pub mod tree;
