//! The [DijkstraNode] struct: one entry of the search frontier of a shortest-route run.
use vstd::prelude::*;

use crate::types::{Location, Time};

verus! {

/// A struct to store Dijkstra calculations for a Node.
#[derive(Clone, Copy, Debug, PartialEq, Eq)]
pub struct DijkstraNode {
    /// The cost to reach the node.
    pub cost: Time,
    /// The location of the node. Corresponds to OSM id.
    pub location: Location,
}

impl DijkstraNode {
    /// True if `self` must leave the frontier before `other`: the entry with the smaller
    /// cost has the higher priority.
    pub fn has_priority_over(&self, other: &Self) -> (b: bool)
        ensures
            b == (self.cost < other.cost),
    {
        self.cost < other.cost
    }
}

} // verus!
