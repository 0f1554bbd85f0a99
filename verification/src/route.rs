//! The mathematical model of the road graph: walks, their travel times and shortest
//! travel times.
use vstd::prelude::*;

use crate::node::Node;
use crate::types::{Location, Time};

verus! {

/// Every node's cost list covers its out-going edges, and every edge leads to a node of
/// the graph.
pub open spec fn graph_wf(g: Map<Location, Node>) -> bool {
    forall|u: Location| #[trigger] g.contains_key(u) ==> {
        &&& g[u]@.out_costs.len() >= g[u]@.out_locations.len()
        &&& forall|i: int|
            0 <= i < g[u]@.out_locations.len() ==> g.contains_key(#[trigger] g[u]@.out_locations[i])
    }
}

/// Node `u` has an out-going edge with index `i`.
pub open spec fn has_edge(g: Map<Location, Node>, u: Location, i: int) -> bool {
    g.contains_key(u) && 0 <= i < g[u]@.out_locations.len()
}

/// Where edge `i` of node `u` leads.
pub open spec fn edge_target(g: Map<Location, Node>, u: Location, i: int) -> Location {
    g[u]@.out_locations[i]
}

/// The travel time along edge `i` of node `u`.
pub open spec fn edge_cost(g: Map<Location, Node>, u: Location, i: int) -> Time {
    g[u]@.out_costs[i]
}

/// `ns` is a walk through the graph, `ix[k]` naming the edge taken out of `ns[k]`.
pub open spec fn is_walk(g: Map<Location, Node>, ns: Seq<Location>, ix: Seq<int>) -> bool {
    &&& ns.len() == ix.len() + 1
    &&& forall|k: int|
        0 <= k < ix.len() ==> #[trigger] has_edge(g, ns[k], ix[k]) && edge_target(g, ns[k], ix[k])
            == ns[k + 1]
}

/// The travel time of a walk: the sum of its edge costs, saturating at `Time::MAX`.
pub open spec fn walk_cost(g: Map<Location, Node>, ns: Seq<Location>, ix: Seq<int>) -> Time
    decreases ix.len(),
{
    if ix.len() == 0 {
        0
    } else {
        walk_cost(g, ns.drop_last(), ix.drop_last()).saturating_add(
            edge_cost(g, ns[ix.len() - 1], ix.last()),
        )
    }
}

/// A walk from `s` to `t`.
pub open spec fn is_walk_between(
    g: Map<Location, Node>,
    s: Location,
    t: Location,
    ns: Seq<Location>,
    ix: Seq<int>,
) -> bool {
    is_walk(g, ns, ix) && ns[0] == s && ns.last() == t
}

/// Some walk from `s` to `t` takes time `c`.
pub open spec fn reaches_with_cost(g: Map<Location, Node>, s: Location, t: Location, c: Time) -> bool {
    exists|ns: Seq<Location>, ix: Seq<int>|
        #[trigger] is_walk_between(g, s, t, ns, ix) && walk_cost(g, ns, ix) == c
}

/// Some walk leads from `s` to `t`.
pub open spec fn reachable(g: Map<Location, Node>, s: Location, t: Location) -> bool {
    exists|ns: Seq<Location>, ix: Seq<int>| #[trigger] is_walk_between(g, s, t, ns, ix)
}

/// Every walk from `s` to `t` takes at least time `c`.
pub open spec fn costs_at_least(g: Map<Location, Node>, s: Location, t: Location, c: Time) -> bool {
    forall|ns: Seq<Location>, ix: Seq<int>|
        #[trigger] is_walk_between(g, s, t, ns, ix) ==> walk_cost(g, ns, ix) >= c
}

/// `c` is the shortest travel time from `s` to `t`.
pub open spec fn is_shortest(g: Map<Location, Node>, s: Location, t: Location, c: Time) -> bool {
    reaches_with_cost(g, s, t, c) && costs_at_least(g, s, t, c)
}

/// The shortest travel time from `s` to `t`, or `None` when `t` cannot be reached.
pub open spec fn shortest_time(g: Map<Location, Node>, s: Location, t: Location) -> Option<Time> {
    if reachable(g, s, t) {
        Some(choose|c: Time| is_shortest(g, s, t, c))
    } else {
        None
    }
}

/// Every location reachable from `s` is a node of the graph whose cost list covers its
/// out-going edges.
pub open spec fn reachable_wf(g: Map<Location, Node>, s: Location) -> bool {
    forall|t: Location|
        #[trigger] reachable(g, s, t) ==> g.contains_key(t) && g[t]@.out_costs.len() >= g[t]@.out_locations.len()
}

/// In a well-formed graph, everything reachable from one of its nodes is a well-formed
/// node.
pub proof fn lemma_graph_wf_reachable(g: Map<Location, Node>, s: Location)
    requires
        graph_wf(g),
        g.contains_key(s),
    ensures
        reachable_wf(g, s),
{
    assert forall|t: Location| #[trigger] reachable(g, s, t) implies g.contains_key(t)
        && g[t]@.out_costs.len() >= g[t]@.out_locations.len() by {
        let (ns, ix) = choose|ns: Seq<Location>, ix: Seq<int>| #[trigger] is_walk_between(g, s, t, ns, ix);
        if ix.len() > 0 {
            let k = ix.len() - 1;
            assert(has_edge(g, ns[k], ix[k]));
            assert(g.contains_key(ns[k]));
            assert(g.contains_key(g[ns[k]]@.out_locations[ix[k]]));
        }
    }
}

/// A walk from `a` to `b` followed by a walk from `b` to `c` is a walk from `a` to `c`.
pub proof fn lemma_reachable_trans(g: Map<Location, Node>, a: Location, b: Location, c: Location)
    requires
        reachable(g, a, b),
        reachable(g, b, c),
    ensures
        reachable(g, a, c),
{
    let (ns1, ix1) = choose|ns: Seq<Location>, ix: Seq<int>| #[trigger] is_walk_between(g, a, b, ns, ix);
    let (ns2, ix2) = choose|ns: Seq<Location>, ix: Seq<int>| #[trigger] is_walk_between(g, b, c, ns, ix);
    let ns = ns1 + ns2.drop_first();
    let ix = ix1 + ix2;
    let m = ix1.len() as int;
    assert forall|k: int| 0 <= k < ix.len() implies #[trigger] has_edge(g, ns[k], ix[k]) && edge_target(g, ns[k], ix[k])
        == ns[k + 1] by {
        if k < m {
            assert(has_edge(g, ns1[k], ix1[k]));
            assert(ns[k] == ns1[k]);
            assert(ns[k + 1] == ns1[k + 1]);
        } else {
            let j = k - m;
            assert(has_edge(g, ns2[j], ix2[j]));
            assert(ns[k] == ns2[j]);
            assert(ns[k + 1] == ns2[j + 1]);
            assert(ix[k] == ix2[j]);
        }
    }
    assert(ns[0] == a);
    if ix2.len() == 0 {
        assert(ns =~= ns1);
    } else {
        assert(ns.last() == ns2.last());
    }
    assert(is_walk_between(g, a, c, ns, ix));
}

/// Everything reachable from a place reachable from `a` is reachable from `a`: a place
/// reachable from a routable place is routable.
pub proof fn lemma_reachable_wf_step(g: Map<Location, Node>, a: Location, b: Location)
    requires
        reachable_wf(g, a),
        reachable(g, a, b),
    ensures
        reachable_wf(g, b),
{
    assert forall|t: Location| #[trigger] reachable(g, b, t) implies g.contains_key(t) && g[t]@.out_costs.len()
        >= g[t]@.out_locations.len() by {
        lemma_reachable_trans(g, a, b, t);
    }
}

/// Staying put is a walk of time 0.
pub proof fn lemma_stay(g: Map<Location, Node>, s: Location)
    ensures
        reaches_with_cost(g, s, s, 0),
        is_shortest(g, s, s, 0),
{
    let ns = seq![s];
    let ix = Seq::<int>::empty();
    assert(is_walk_between(g, s, s, ns, ix));
    assert(walk_cost(g, ns, ix) == 0);
}

/// Following one more edge from a walk to `u` gives a walk to the edge's target.
pub proof fn lemma_extend(g: Map<Location, Node>, s: Location, u: Location, c: Time, i: int)
    requires
        reaches_with_cost(g, s, u, c),
        has_edge(g, u, i),
    ensures
        reaches_with_cost(g, s, edge_target(g, u, i), c.saturating_add(edge_cost(g, u, i))),
{
    let (ns, ix) = choose|ns: Seq<Location>, ix: Seq<int>|
        #[trigger] is_walk_between(g, s, u, ns, ix) && walk_cost(g, ns, ix) == c;
    let v = edge_target(g, u, i);
    let ns2 = ns.push(v);
    let ix2 = ix.push(i);
    assert forall|k: int| 0 <= k < ix2.len() implies #[trigger] has_edge(g, ns2[k], ix2[k])
        && edge_target(g, ns2[k], ix2[k]) == ns2[k + 1] by {
        if k < ix.len() {
            assert(has_edge(g, ns[k], ix[k]));
        }
    }
    assert(is_walk_between(g, s, v, ns2, ix2));
    assert(ns2.drop_last() =~= ns);
    assert(ix2.drop_last() =~= ix);
    assert(walk_cost(g, ns2, ix2) == c.saturating_add(edge_cost(g, u, i)));
}

/// The prefix of a walk up to its `k`-th node is a walk that takes no longer.
pub proof fn lemma_prefix(g: Map<Location, Node>, ns: Seq<Location>, ix: Seq<int>, k: int)
    requires
        is_walk(g, ns, ix),
        0 <= k <= ix.len(),
    ensures
        is_walk(g, ns.take(k + 1), ix.take(k)),
        walk_cost(g, ns.take(k + 1), ix.take(k)) <= walk_cost(g, ns, ix),
    decreases ix.len() - k,
{
    let ns1 = ns.take(k + 1);
    let ix1 = ix.take(k);
    assert forall|j: int| 0 <= j < ix1.len() implies #[trigger] has_edge(g, ns1[j], ix1[j])
        && edge_target(g, ns1[j], ix1[j]) == ns1[j + 1] by {
        assert(has_edge(g, ns[j], ix[j]));
    }
    if k == ix.len() {
        assert(ns1 =~= ns);
        assert(ix1 =~= ix);
    } else {
        lemma_prefix(g, ns, ix, k + 1);
        let ns2 = ns.take(k + 2);
        let ix2 = ix.take(k + 1);
        assert(ns2.drop_last() =~= ns1);
        assert(ix2.drop_last() =~= ix1);
    }
}

/// A travel time that some walk achieves is no smaller than any lower bound.
pub proof fn lemma_reach_above_bound(g: Map<Location, Node>, s: Location, t: Location, c: Time, d: Time)
    requires
        reaches_with_cost(g, s, t, c),
        costs_at_least(g, s, t, d),
    ensures
        d <= c,
{
    let (ns, ix) = choose|ns: Seq<Location>, ix: Seq<int>|
        #[trigger] is_walk_between(g, s, t, ns, ix) && walk_cost(g, ns, ix) == c;
}

/// A shortest travel time is the value of `shortest_time`.
pub proof fn lemma_shortest_time_is(g: Map<Location, Node>, s: Location, t: Location, c: Time)
    requires
        is_shortest(g, s, t, c),
    ensures
        shortest_time(g, s, t) == Some(c),
{
    let (ns, ix) = choose|ns: Seq<Location>, ix: Seq<int>|
        #[trigger] is_walk_between(g, s, t, ns, ix) && walk_cost(g, ns, ix) == c;
    assert(reachable(g, s, t));
    let d = choose|d: Time| is_shortest(g, s, t, d);
    lemma_reach_above_bound(g, s, t, c, d);
    lemma_reach_above_bound(g, s, t, d, c);
}

proof fn lemma_least_cost_below(g: Map<Location, Node>, s: Location, t: Location, c: Time) -> (m: Time)
    requires
        reaches_with_cost(g, s, t, c),
    ensures
        m <= c,
        reaches_with_cost(g, s, t, m),
        forall|d: Time| d < m ==> !reaches_with_cost(g, s, t, d),
    decreases c,
{
    if exists|d: Time| d < c && reaches_with_cost(g, s, t, d) {
        let d = choose|d: Time| d < c && reaches_with_cost(g, s, t, d);
        lemma_least_cost_below(g, s, t, d)
    } else {
        c
    }
}

/// The shortest travel time is the least time of any walk: `None` exactly when no walk
/// leads from `s` to `t`, and otherwise a time that some walk takes and no walk beats.
pub proof fn law_shortest_time_is_least(g: Map<Location, Node>, s: Location, t: Location)
    ensures
        shortest_time(g, s, t) is None <==> !reachable(g, s, t),
        shortest_time(g, s, t) matches Some(c) ==> is_shortest(g, s, t, c),
{
    if reachable(g, s, t) {
        let (ns, ix) = choose|ns: Seq<Location>, ix: Seq<int>| #[trigger] is_walk_between(g, s, t, ns, ix);
        let c0 = walk_cost(g, ns, ix);
        assert(reaches_with_cost(g, s, t, c0));
        let m = lemma_least_cost_below(g, s, t, c0);
        assert forall|ns2: Seq<Location>, ix2: Seq<int>|
            #[trigger] is_walk_between(g, s, t, ns2, ix2) implies walk_cost(g, ns2, ix2) >= m by {
            let w = walk_cost(g, ns2, ix2);
            assert(reaches_with_cost(g, s, t, w));
        }
        assert(is_shortest(g, s, t, m));
        lemma_shortest_time_is(g, s, t, m);
    }
}

} // verus!
