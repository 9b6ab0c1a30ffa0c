//! Core of a replicated-log consensus engine: a durable, index-ordered log
//! store with election state, a queue that releases linearizable reads once
//! the applied index has caught up, a leader-following client gateway, and
//! the convergence helpers used by a cluster test harness.
#![allow(unused_imports)]
use vstd::prelude::*;

pub mod codec;
pub mod env;
pub mod gateway;
pub mod query;
pub mod storage;

verus! {

/// A monotonically assigned, totally ordered position in the replicated log.
/// Index 0 is reserved to mean "empty log" / "no entry".
pub type Index = u64;

/// Identity of a node in the cluster.
pub type NodeId = u64;

} // verus!
