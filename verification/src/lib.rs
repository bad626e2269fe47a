//! Road-network pathfinding engine.
//!
//! The engine holds a directed weighted road graph in memory, finds
//! least-cost paths between geographic points with A*, turns a path into
//! turn-by-turn maneuvers, and memoizes finished routes keyed by a request
//! fingerprint.  All geometry is done in integer units: coordinates in
//! microdegrees, distances in millimeters, bearings in millidegrees.

use vstd::prelude::*;

pub mod geo;
pub mod graph;
pub mod instructions;
pub mod route;
pub mod cache;
pub mod engine;
pub mod search;
pub mod units;

verus! {

/// Error taxonomy of the engine.
#[derive(Clone, Copy, Debug, PartialEq, Eq, Structural)]
pub enum MapsError {
    /// A latitude or longitude outside its valid range was rejected at the boundary.
    OutOfRange,
    /// No nodes are loaded, so a nearest-node query cannot proceed.
    EmptyGraph,
    /// A graph load was refused because an edge references an unknown node.
    DanglingEdge,
    /// A graph load was refused because an edge carries a zero or oversized cost,
    /// length or traversal time.
    InvalidEdgeCost,
    /// The search exhausted its frontier without reaching the goal.
    NotFound,
    /// No result is available for this caller: a computation for the same
    /// fingerprint is already under way, or it failed while this caller was
    /// waiting on it.  Callers should retry once the in-flight computation
    /// settles rather than treat the route as unreachable.
    CacheComputeFailed,
}

impl MapsError {
    /// A short human-readable description of the error.
    pub fn message(&self) -> (r: &'static str)
        ensures
            *self == MapsError::OutOfRange ==> r@ == "coordinate out of range"@,
            *self == MapsError::EmptyGraph ==> r@ == "no nodes loaded"@,
            *self == MapsError::DanglingEdge ==> r@ == "edge references an unknown node"@,
            *self == MapsError::InvalidEdgeCost ==> r@ == "edge cost out of range"@,
            *self == MapsError::NotFound ==> r@ == "no route found"@,
            *self == MapsError::CacheComputeFailed ==> r@ == "route computation failed"@,
    {
        match self {
            MapsError::OutOfRange => "coordinate out of range",
            MapsError::EmptyGraph => "no nodes loaded",
            MapsError::DanglingEdge => "edge references an unknown node",
            MapsError::InvalidEdgeCost => "edge cost out of range",
            MapsError::NotFound => "no route found",
            MapsError::CacheComputeFailed => "route computation failed",
        }
    }
}

} // verus!
