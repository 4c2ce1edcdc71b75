//! Scoped graph memory engine: a node/edge store partitioned into isolated
//! scopes, queried by exact lookup, bounded breadth-first traversal, and a
//! spreading-activation ranking that selects a bounded, deterministically
//! ordered sub-graph.
#![verifier::loop_isolation(false)]

use vstd::prelude::*;

pub mod activate;
pub mod export;
pub mod facade;
pub mod ids;
pub mod meta;
pub mod paths;
pub mod report;
pub mod runtime;
pub mod scope;
pub mod store;
pub mod textutil;
pub mod traverse;
pub mod types;

verus! {

/// Fixed-point scale for edge weights and activation scores: a stored value
/// of `WEIGHT_SCALE` stands for 1.0.
pub const WEIGHT_SCALE: i64 = 1000;

} // verus!
