//! The [Node] struct and its associated methods.
use vstd::prelude::*;

use crate::types::{Location, Time};

verus! {

/// Represents a node on the graph.
///
/// Note: a node doesn't store its own location as nodes are stored in a map keyed by
/// their [Location].
pub struct Node {
    /// The IDs of nodes that can be reached by leaving this node.
    out_locations: Vec<Location>,
    /// The associated cost of travelling to each location in `out_locations`.
    ///
    /// Index 0 corresponds to the cost of going to index 0 in `out_locations` and so on.
    out_costs: Vec<Time>,
}

/// The abstract state of a [Node]: its out-going edges.
pub struct NodeView {
    pub out_locations: Seq<Location>,
    pub out_costs: Seq<Time>,
}

impl View for Node {
    type V = NodeView;

    closed spec fn view(&self) -> NodeView {
        NodeView { out_locations: self.out_locations@, out_costs: self.out_costs@ }
    }
}

impl Node {
    /// Returns a new Node object.
    pub fn new(out_locations: Vec<Location>, out_costs: Vec<Time>) -> (n: Self)
        ensures
            n@.out_locations == out_locations@,
            n@.out_costs == out_costs@,
    {
        Node { out_locations, out_costs }
    }

    /// Returns a reference to the list of out IDs.
    pub fn get_out_locations(&self) -> (r: &Vec<Location>)
        ensures
            r@ == self@.out_locations,
    {
        &self.out_locations
    }

    /// Returns a reference to the list containing out costs.
    pub fn get_out_costs(&self) -> (r: &Vec<Time>)
        ensures
            r@ == self@.out_costs,
    {
        &self.out_costs
    }
}

} // verus!
