//! Bounded exhaustive checker for a small majority-quorum consensus protocol.
//!
//! The crate models a fixed set of processes that exchange `Propose`, `Vote`
//! and `Commit` messages over an unordered, non-duplicating network, and
//! explores every configuration reachable from an initial configuration by
//! breadth-first search, deduplicating configurations through a canonical,
//! order-independent encoding and evaluating safety and progress properties
//! on every configuration discovered.

use vstd::prelude::*;

pub mod config;
pub mod encode;
pub mod explore;
pub mod protocol;

verus! {

} // verus!
