//! The police response simulation.
//!
//! The simulation can be explained as such:
//! 1. Spawn new incidents using the `spawn_stack` incident schedule
//! 2. Dispatch vehicles to incidents as efficiently as possible
//! 3. Step the simulation and vehicles using the desired timestep
//! 4. If the time < end_time go back to the start, else sum and return performance
//!    metrics
//!
//! Route calculations are done with Dijkstra's algorithm and every travel time that a run
//! settles is kept in a [RouteCache]; before performing any calculation the cache is
//! checked, so a route is never worked out twice.
use vstd::prelude::*;
use std::collections::{HashMap, HashSet};

use crate::dijkstra_node::DijkstraNode;
use crate::frontier::Frontier;
use vstd::multiset::Multiset;
use crate::incident::{Incident, IncidentState};
use crate::vehicle::{Vehicle, VehicleState};
use crate::node::Node;
use crate::route::{
    costs_at_least, edge_cost, edge_target, has_edge, is_shortest, is_walk_between, lemma_prefix,
    lemma_extend, lemma_reach_above_bound, lemma_shortest_time_is, lemma_stay, reachable,
    reaches_with_cost, shortest_time, walk_cost, reachable_wf,
    lemma_reachable_wf_step, law_shortest_time_is_least,
};
use crate::route_cache::RouteCache;
use crate::types::{Location, Time};

verus! {

broadcast use {vstd::std_specs::hash::group_hash_axioms, vstd::multiset::group_multiset_axioms};

/// Every entry of the cache is the shortest travel time of `g` for its pair of locations
/// (`None`: unreachable).
pub open spec fn cache_exact(g: Map<Location, Node>, cache: Map<(Location, Location), Option<Time>>) -> bool {
    forall|p: (Location, Location)| #[trigger] cache.contains_key(p) ==> cache[p] == shortest_time(g, p.0, p.1)
}

/// A route time that the cache holds is the time that a fresh calculation gives: once a
/// route has been worked out it never needs working out again.
pub proof fn law_cached_time_is_fresh(
    g: Map<Location, Node>,
    cache: Map<(Location, Location), Option<Time>>,
    s: Location,
    t: Location,
)
    requires
        cache_exact(g, cache),
        cache.contains_key((s, t)),
    ensures
        cache[(s, t)] == shortest_time(g, s, t),
{
}

/// The cache entries that a list of settled (location, time) pairs from `source` makes; a
/// later pair for the same location wins.
pub open spec fn knowledge_entries(source: Location, kn: Seq<(Location, Time)>) -> Map<(Location, Location), Option<Time>>
    decreases kn.len(),
{
    if kn.len() == 0 {
        Map::empty()
    } else {
        knowledge_entries(source, kn.drop_last()).insert((source, kn.last().0), Some(kn.last().1))
    }
}

/// Every pair of `kn` is a shortest travel time from `source`.
pub open spec fn knowledge_exact(g: Map<Location, Node>, source: Location, kn: Seq<(Location, Time)>) -> bool {
    forall|j: int| 0 <= j < kn.len() ==> is_shortest(g, source, #[trigger] kn[j].0, kn[j].1)
}

proof fn lemma_knowledge_exact(g: Map<Location, Node>, source: Location, kn: Seq<(Location, Time)>)
    requires
        knowledge_exact(g, source, kn),
    ensures
        cache_exact(g, knowledge_entries(source, kn)),
        forall|p: (Location, Location)| #[trigger] knowledge_entries(source, kn).contains_key(p) ==> p.0 == source,
    decreases kn.len(),
{
    if kn.len() > 0 {
        let kd = kn.drop_last();
        assert forall|j: int| 0 <= j < kd.len() implies is_shortest(g, source, #[trigger] kd[j].0, kd[j].1) by {
            assert(kd[j] == kn[j]);
        }
        lemma_knowledge_exact(g, source, kd);
        assert(is_shortest(g, source, kn[kn.len() - 1].0, kn[kn.len() - 1].1));
        lemma_shortest_time_is(g, source, kn.last().0, kn.last().1);
    }
}

/// Records every settled travel time of a run from `source` in the cache.
fn update_route_cache(route_cache: &mut RouteCache, new_knowledge: &Vec<(Location, Time)>, source: Location)
    ensures
        final(route_cache)@ == old(route_cache)@.union_prefer_right(knowledge_entries(source, new_knowledge@)),
{
    let mut i: usize = 0;
    while i < new_knowledge.len()
        invariant
            i <= new_knowledge.len(),
            route_cache@ == old(route_cache)@.union_prefer_right(
                knowledge_entries(source, new_knowledge@.take(i as int)),
            ),
        decreases new_knowledge.len() - i,
    {
        let (key, value) = new_knowledge[i];
        route_cache.insert(source, key, Some(value));
        proof {
            let kn = new_knowledge@.take(i + 1);
            assert(kn.drop_last() =~= new_knowledge@.take(i as int));
            assert(route_cache@ =~= old(route_cache)@.union_prefer_right(knowledge_entries(source, kn)));
        }
        i += 1;
    }
    assert(new_knowledge@.take(i as int) =~= new_knowledge@);
}

/// What a shortest-route run from `s` to `t` that answered `r` leaves in the cache, going
/// from `before` to `after`: the answer is recorded; nothing is dropped; entries from other
/// sources are untouched; every entry from `s` is either a shortest travel time or was
/// there before; and every location closer to `s` than `t` (every reachable location when
/// `t` cannot be reached) is recorded.
pub open spec fn records_run(
    g: Map<Location, Node>,
    before: Map<(Location, Location), Option<Time>>,
    after: Map<(Location, Location), Option<Time>>,
    s: Location,
    t: Location,
    r: Option<Time>,
) -> bool {
    &&& after.contains_key((s, t)) && after[(s, t)] == r
    &&& before.dom().subset_of(after.dom())
    &&& forall|p: (Location, Location)|
        #[trigger] after.contains_key(p) && p.0 != s ==> before.contains_key(p) && after[p] == before[p]
    &&& forall|p: (Location, Location)|
        #[trigger] after.contains_key(p) && p.0 == s ==> after[p] == shortest_time(g, p.0, p.1) || (
        before.contains_key(p) && after[p] == before[p])
    &&& forall|u: Location|
        (#[trigger] shortest_time(g, s, u) matches Some(d) && (r matches Some(c) ==> d < c)) ==> after.contains_key(
            (s, u),
        )
}

/// A run recorded on an exact cache leaves it exact and keeps every entry.
proof fn lemma_records_run_exact(
    g: Map<Location, Node>,
    before: Map<(Location, Location), Option<Time>>,
    after: Map<(Location, Location), Option<Time>>,
    s: Location,
    t: Location,
    r: Option<Time>,
)
    requires
        records_run(g, before, after, s, t, r),
        r == shortest_time(g, s, t),
        cache_exact(g, before),
    ensures
        cache_exact(g, after),
        before.submap_of(after),
{
    assert forall|p: (Location, Location)| #[trigger] after.contains_key(p) implies after[p] == shortest_time(g, p.0, p.1) by {
        if p.0 != s {
            assert(before.contains_key(p));
        } else if after[p] != shortest_time(g, p.0, p.1) {
            assert(before.contains_key(p));
        }
    }
    assert forall|p: (Location, Location)| #[trigger] before.contains_key(p) implies after.contains_key(p) && after[p] == before[p] by {
        assert(before.dom().contains(p));
        assert(after.contains_key(p));
    }
}

/// Edge `i` of settled node `u` has been relaxed: its target is known at a time no worse
/// than through `u`.
pub open spec fn relaxed_edge(
    g: Map<Location, Node>,
    fin: Map<Location, Time>,
    ld: Map<Location, Time>,
    u: Location,
    i: int,
) -> bool {
    ld.contains_key(edge_target(g, u, i)) && ld[edge_target(g, u, i)] <= fin[u].saturating_add(
        edge_cost(g, u, i),
    )
}

/// Every known but unsettled location waits in the frontier at its known time.
pub open spec fn queued(fin: Map<Location, Time>, ld: Map<Location, Time>, heap: Multiset<DijkstraNode>) -> bool {
    forall|v: Location|
        #[trigger] ld.contains_key(v) && !fin.contains_key(v) ==> heap.contains(
            DijkstraNode { cost: ld[v], location: v },
        )
}

proof fn lemma_boundary(ns: Seq<Location>, fin: Map<Location, Time>, k: int) -> (j: int)
    requires
        0 <= k < ns.len(),
        !fin.contains_key(ns[k]),
        fin.contains_key(ns[0]),
    ensures
        1 <= j <= k,
        !fin.contains_key(ns[j]),
        fin.contains_key(ns[j - 1]),
    decreases k,
{
    if fin.contains_key(ns[k - 1]) {
        k
    } else {
        lemma_boundary(ns, fin, k - 1)
    }
}

/// Any walk from a settled source to an unsettled location passes a known, unsettled
/// location that waits in the frontier at a time no later than the whole walk.
proof fn lemma_frontier(
    g: Map<Location, Node>,
    s: Location,
    fin: Map<Location, Time>,
    ld: Map<Location, Time>,
    heap: Multiset<DijkstraNode>,
    ns: Seq<Location>,
    ix: Seq<int>,
    x: Location,
) -> (y: Location)
    requires
        is_walk_between(g, s, x, ns, ix),
        fin.contains_key(s),
        !fin.contains_key(x),
        forall|u: Location| #[trigger] fin.contains_key(u) ==> costs_at_least(g, s, u, fin[u]),
        forall|u: Location, i: int|
            fin.contains_key(u) && has_edge(g, u, i) ==> #[trigger] relaxed_edge(g, fin, ld, u, i),
        queued(fin, ld, heap),
    ensures
        ld.contains_key(y),
        !fin.contains_key(y),
        heap.contains(DijkstraNode { cost: ld[y], location: y }),
        ld[y] <= walk_cost(g, ns, ix),
{
    let j = lemma_boundary(ns, fin, ix.len() as int);
    let u = ns[j - 1];
    let i = ix[j - 1];
    assert(has_edge(g, ns[j - 1], ix[j - 1]));
    assert(relaxed_edge(g, fin, ld, u, i));
    let y = ns[j];
    lemma_prefix(g, ns, ix, j - 1);
    lemma_prefix(g, ns, ix, j);
    let p0 = ns.take(j);
    let q0 = ix.take(j - 1);
    assert(is_walk_between(g, s, u, p0, q0));
    assert(walk_cost(g, p0, q0) >= fin[u]);
    let p1 = ns.take(j + 1);
    let q1 = ix.take(j);
    assert(p1.drop_last() =~= p0);
    assert(q1.drop_last() =~= q0);
    assert(walk_cost(g, p1, q1) == walk_cost(g, p0, q0).saturating_add(edge_cost(g, u, i)));
    assert(ld.contains_key(y) && !fin.contains_key(y));
    y
}

/// The facts that hold between the steps of a search from `s` for `t`: `fin` holds the
/// settled locations, `ld` the best known times, `heap` the frontier and `kn` the
/// recorded settled times.
spec fn search_inv(
    g: Map<Location, Node>,
    s: Location,
    t: Location,
    fin: Map<Location, Time>,
    ld: Map<Location, Time>,
    heap: Multiset<DijkstraNode>,
    kn: Seq<(Location, Time)>,
) -> bool {
    &&& fin.dom().subset_of(g.dom())
    &&& fin.dom().finite()
    &&& ld.contains_key(s) && ld[s] == 0
    &&& forall|e: DijkstraNode|
        #[trigger] heap.contains(e) ==> {
            &&& reaches_with_cost(g, s, e.location, e.cost)
            &&& ld.contains_key(e.location) && ld[e.location] <= e.cost
        }
    &&& forall|v: Location| #[trigger] ld.contains_key(v) ==> reaches_with_cost(g, s, v, ld[v])
    &&& forall|u: Location|
        #[trigger] fin.contains_key(u) ==> is_shortest(g, s, u, fin[u]) && ld.contains_key(u) && ld[u]
            == fin[u]
    &&& queued(fin, ld, heap)
    &&& knowledge_exact(g, s, kn)
}

/// Every edge out of every settled location has been relaxed.
spec fn all_relaxed(g: Map<Location, Node>, fin: Map<Location, Time>, ld: Map<Location, Time>) -> bool {
    forall|u: Location, i: int|
        fin.contains_key(u) && has_edge(g, u, i) ==> #[trigger] relaxed_edge(g, fin, ld, u, i)
}

/// Lowering the known time of `out` to `total` (reached over edge `i` of the settled
/// location `x`) and queueing it keeps the search facts.
proof fn lemma_after_push(
    g: Map<Location, Node>,
    s: Location,
    t: Location,
    fin: Map<Location, Time>,
    ld: Map<Location, Time>,
    heap: Multiset<DijkstraNode>,
    kn: Seq<(Location, Time)>,
    x: Location,
    c: Time,
    i: int,
    out: Location,
    total: Time,
)
    requires
        search_inv(g, s, t, fin, ld, heap, kn),
        has_edge(g, x, i),
        edge_target(g, x, i) == out,
        total == c.saturating_add(edge_cost(g, x, i)),
        fin.contains_key(x) && fin[x] == c,
        reaches_with_cost(g, s, out, total),
        !ld.contains_key(out) || ld[out] > total,
    ensures
        !fin.contains_key(out),
        search_inv(g, s, t, fin, ld.insert(out, total), heap.insert(DijkstraNode { cost: total, location: out }), kn),
        relaxed_edge(g, fin, ld.insert(out, total), x, i),
        forall|u: Location, k: int| #[trigger] relaxed_edge(g, fin, ld, u, k) ==> relaxed_edge(g, fin, ld.insert(out, total), u, k),
{
    broadcast use vstd::multiset::group_multiset_axioms;

    if fin.contains_key(out) {
        lemma_reach_above_bound(g, s, out, total, fin[out]);
    }
    let ld2 = ld.insert(out, total);
    let e = DijkstraNode { cost: total, location: out };
    let heap2 = heap.insert(e);
    assert forall|e1: DijkstraNode| #[trigger] heap2.contains(e1) implies {
        &&& reaches_with_cost(g, s, e1.location, e1.cost)
        &&& ld2.contains_key(e1.location) && ld2[e1.location] <= e1.cost
    } by {
        if e1 != e {
            assert(heap.contains(e1));
        }
    }
    assert forall|v: Location|
        #[trigger] ld2.contains_key(v) && !fin.contains_key(v) implies heap2.contains(
        DijkstraNode { cost: ld2[v], location: v },
    ) by {
        if v != out {
            assert(ld.contains_key(v));
            assert(heap.contains(DijkstraNode { cost: ld[v], location: v }));
        }
    }
    assert forall|v: Location| #[trigger] ld2.contains_key(v) implies reaches_with_cost(g, s, v, ld2[v]) by {
        if v != out {
            assert(ld.contains_key(v));
        }
    }
    assert forall|u: Location|
        #[trigger] fin.contains_key(u) implies is_shortest(g, s, u, fin[u]) && ld2.contains_key(u) && ld2[u]
            == fin[u] by {
        assert(ld.contains_key(u));
    }
}

/// The locations that a run from `s` in search of `t` settles: those no farther from `s`
/// than `t`, or every location reachable from `s` when `t` cannot be reached.
pub open spec fn settled_by_run(g: Map<Location, Node>, s: Location, t: Location, u: Location) -> bool {
    shortest_time(g, s, u) matches Some(d) && (shortest_time(g, s, t) matches Some(c) ==> d <= c)
}

/// A run from `s` in search of `t` only looks at nodes of the graph whose cost lists cover
/// their out-going edges: every location it settles is such a node (a run from `t` to itself
/// looks at nothing).
pub open spec fn run_wf(g: Map<Location, Node>, s: Location, t: Location) -> bool {
    s == t || forall|u: Location|
        #[trigger] settled_by_run(g, s, t, u) ==> g.contains_key(u) && g[u]@.out_costs.len()
            >= g[u]@.out_locations.len()
}

/// The cache that a run from `s` in search of `t` leaves behind `before`: the shortest time of
/// every location it settles, and its answer for (`s`, `t`) (only that answer when `s` is
/// `t`).
pub open spec fn cache_after_run(
    g: Map<Location, Node>,
    before: Map<(Location, Location), Option<Time>>,
    s: Location,
    t: Location,
) -> Map<(Location, Location), Option<Time>> {
    if s == t {
        before.insert((s, t), shortest_time(g, s, t))
    } else {
        before.union_prefer_right(
            Map::new(
                |p: (Location, Location)| p.0 == s && settled_by_run(g, s, t, p.1),
                |p: (Location, Location)| shortest_time(g, p.0, p.1),
            ),
        ).insert((s, t), shortest_time(g, s, t))
    }
}

/// A run from a routable place only looks at nodes whose cost lists cover their edges.
pub proof fn lemma_reachable_wf_run(g: Map<Location, Node>, s: Location, t: Location)
    requires
        reachable_wf(g, s),
    ensures
        run_wf(g, s, t),
{
    assert forall|u: Location| #[trigger] settled_by_run(g, s, t, u) implies g.contains_key(u) && g[u]@.out_costs.len()
        >= g[u]@.out_locations.len() by {
        law_shortest_time_is_least(g, s, u);
    }
}

/// What a run leaves in the cache records the run (see `records_run`).
proof fn lemma_cache_after_run_records(
    g: Map<Location, Node>,
    before: Map<(Location, Location), Option<Time>>,
    s: Location,
    t: Location,
)
    ensures
        records_run(g, before, cache_after_run(g, before, s, t), s, t, shortest_time(g, s, t)),
{
    let after = cache_after_run(g, before, s, t);
    let r = shortest_time(g, s, t);
    if s == t {
        lemma_stay(g, s);
        lemma_shortest_time_is(g, s, s, 0);
        assert forall|u: Location|
            (#[trigger] shortest_time(g, s, u) matches Some(d) && (r matches Some(c) ==> d < c)) implies after.contains_key(
            (s, u),
        ) by {}
    } else {
        assert forall|u: Location|
            (#[trigger] shortest_time(g, s, u) matches Some(d) && (r matches Some(c) ==> d < c)) implies after.contains_key(
            (s, u),
        ) by {
            assert(settled_by_run(g, s, t, u));
        }
    }
    assert(before.dom().subset_of(after.dom()));
}

/// With the frontier's costs all at least `m`, a location that is not settled is at least
/// `m` away along the walk `ns`.
proof fn lemma_far(
    g: Map<Location, Node>,
    s: Location,
    t: Location,
    fin: Map<Location, Time>,
    ld: Map<Location, Time>,
    heap: Multiset<DijkstraNode>,
    kn: Seq<(Location, Time)>,
    ns: Seq<Location>,
    ix: Seq<int>,
    u: Location,
    m: Time,
)
    requires
        search_inv(g, s, t, fin, ld, heap, kn),
        all_relaxed(g, fin, ld),
        forall|e: DijkstraNode| #[trigger] heap.contains(e) ==> m <= e.cost,
        is_walk_between(g, s, u, ns, ix),
        !fin.contains_key(u),
    ensures
        walk_cost(g, ns, ix) >= m,
{
    if fin.contains_key(s) {
        let y = lemma_frontier(g, s, fin, ld, heap, ns, ix, u);
        assert(heap.contains(DijkstraNode { cost: ld[y], location: y }));
    } else {
        assert(ld.contains_key(s));
        assert(heap.contains(DijkstraNode { cost: ld[s], location: s }));
    }
}

/// Runs Dijkstra's algorithm from `source` in search of `target`, returning the shortest
/// travel time, or `None` when `target` cannot be reached. The search settles every
/// location no farther than `target` (every reachable location when `target` cannot be
/// reached) and records all of them in `route_cache` with the answer (see
/// `cache_after_run`). The cache is not read.
pub fn dijkstra(
    graph: &HashMap<Location, Node>,
    route_cache: &mut RouteCache,
    source: Location,
    target: Location,
) -> (r: Option<Time>)
    requires
        run_wf(graph@, source, target),
    ensures
        r == shortest_time(graph@, source, target),
        final(route_cache)@ == cache_after_run(graph@, old(route_cache)@, source, target),
        records_run(graph@, old(route_cache)@, final(route_cache)@, source, target, r),
        cache_exact(graph@, old(route_cache)@) ==> cache_exact(graph@, final(route_cache)@) && old(
            route_cache,
        )@.submap_of(final(route_cache)@),
{
    let ghost g = graph@;
    if source == target {
        route_cache.insert(source, target, Some(0));
        proof {
            lemma_stay(g, source);
            lemma_shortest_time_is(g, source, source, 0);
            lemma_cache_after_run_records(g, old(route_cache)@, source, target);
            if cache_exact(g, old(route_cache)@) {
                lemma_records_run_exact(g, old(route_cache)@, route_cache@, source, target, Some(0));
            }
        }
        return Some(0);
    }
    let mut heap: Frontier = Frontier::new();
    let mut local_discovery: HashMap<Location, Time> = HashMap::new();
    let mut knowledge: Vec<(Location, Time)> = Vec::new();
    let mut found: Option<Time> = None;
    let ghost mut fin: Map<Location, Time> = Map::empty();

    heap.push(DijkstraNode { cost: 0, location: source });
    local_discovery.insert(source, 0);
    proof {
        broadcast use vstd::multiset::group_multiset_axioms;

        lemma_stay(g, source);
        assert(heap@.contains(DijkstraNode { cost: 0, location: source }));
        assert forall|e: DijkstraNode| #[trigger] heap@.contains(e) implies e == DijkstraNode {
            cost: 0,
            location: source,
        } by {}
        assert(knowledge@ =~= Seq::<(Location, Time)>::empty());
    }

    loop
        invariant_except_break
            heap.wf(),
            search_inv(g, source, target, fin, local_discovery@, heap@, knowledge@),
            all_relaxed(g, fin, local_discovery@),
        invariant
            g == graph@,
            source != target,
            run_wf(g, source, target),
            route_cache@ == old(route_cache)@,
            knowledge_exact(g, source, knowledge@),
            forall|u: Location| #[trigger] fin.contains_key(u) ==> knowledge_entries(source, knowledge@).contains_key((source, u)),
            forall|p: (Location, Location)|
                #[trigger] knowledge_entries(source, knowledge@).contains_key(p) ==> p.0 == source && fin.contains_key(p.1),
            found is None <==> !fin.contains_key(target),
            found matches Some(c) ==> fin.contains_key(target) && fin[target] == c,
            forall|u: Location|
                #[trigger] fin.contains_key(u) ==> (shortest_time(g, source, target) matches Some(c) ==> fin[u] <= c),
        ensures
            forall|u: Location| #[trigger] settled_by_run(g, source, target, u) ==> fin.contains_key(u),
            forall|u: Location| #[trigger] fin.contains_key(u) ==> is_shortest(g, source, u, fin[u]),
            found == shortest_time(g, source, target),
        decreases g.dom().len() - fin.dom().len(), heap@.len(),
    {
        if heap.len() == 0 {
            proof {
                // with the frontier empty, every reachable location has been settled
                assert forall|u: Location| #[trigger] settled_by_run(g, source, target, u) implies fin.contains_key(u) by {
                    law_shortest_time_is_least(g, source, u);
                    if !fin.contains_key(u) {
                        let (ns, ix) = choose|ns: Seq<Location>, ix: Seq<int>| #[trigger] is_walk_between(g, source, u, ns, ix);
                        if !fin.contains_key(source) {
                            assert(local_discovery@.contains_key(source));
                            assert(heap@.contains(DijkstraNode { cost: local_discovery@[source], location: source }));
                        } else {
                            let y = lemma_frontier(g, source, fin, local_discovery@, heap@, ns, ix, u);
                            assert(heap@.contains(DijkstraNode { cost: local_discovery@[y], location: y }));
                        }
                    }
                }
                law_shortest_time_is_least(g, source, target);
                if let Some(c) = found {
                    lemma_shortest_time_is(g, source, target, c);
                } else {
                    if shortest_time(g, source, target) is Some {
                        assert(settled_by_run(g, source, target, target));
                    }
                }
            }
            break;
        }
        let ghost old_heap = heap@;
        let ghost ld0 = local_discovery@;
        let ghost fin_before = fin;
        let popped = heap.pop().unwrap();
        let cost = popped.cost;
        let location = popped.location;
        proof {
            assert(old_heap.contains(popped));
            assert forall|e: DijkstraNode| #[trigger] heap@.contains(e) implies old_heap.contains(e) by {
                assert(heap@.count(e) <= old_heap.count(e));
            }
            assert(reaches_with_cost(g, source, location, cost));
            assert(ld0.contains_key(location) && ld0[location] <= cost);
            // the start of the search lies in the frontier at time 0 until it is settled
            if !fin.contains_key(source) {
                let e = DijkstraNode { cost: ld0[source], location: source };
                assert(ld0.contains_key(source));
                assert(old_heap.contains(e));
            }
        }
        let mut past: bool = false;
        match found {
            Some(c) => {
                if cost > c {
                    past = true;
                }
            },
            None => {},
        }
        if past {
            proof {
                let c = found->0;
                lemma_shortest_time_is(g, source, target, c);
                // everything no farther than the target was settled before the frontier moved past it
                assert forall|u: Location| #[trigger] settled_by_run(g, source, target, u) implies fin.contains_key(u) by {
                    law_shortest_time_is_least(g, source, u);
                    if !fin.contains_key(u) {
                        let d = shortest_time(g, source, u)->0;
                        let (ns, ix) = choose|ns: Seq<Location>, ix: Seq<int>|
                            #[trigger] is_walk_between(g, source, u, ns, ix) && walk_cost(g, ns, ix) == d;
                        lemma_far(g, source, target, fin, ld0, old_heap, knowledge@, ns, ix, u, cost);
                    }
                }
            }
            break;
        }
        match local_discovery.get(&location) {
            None => {},
            Some(prev) => {
                if cost > *prev {
                    proof {
                        assert forall|v: Location|
                            #[trigger] local_discovery@.contains_key(v) && !fin.contains_key(v) implies heap@.contains(
                            DijkstraNode { cost: local_discovery@[v], location: v },
                        ) by {
                            let e = DijkstraNode { cost: local_discovery@[v], location: v };
                            assert(old_heap.contains(e));
                            assert(e != popped);
                        }
                    }
                    continue;
                }
            },
        }
        // `location` leaves the frontier at its known time: that time is the shortest
        let ghost was_settled = fin.contains_key(location);
        proof {
            assert(cost == ld0[location]);
            assert forall|ns: Seq<Location>, ix: Seq<int>|
                #[trigger] is_walk_between(g, source, location, ns, ix) implies walk_cost(g, ns, ix)
                >= cost by {
                if was_settled {
                    assert(is_shortest(g, source, location, fin[location]));
                } else if fin.contains_key(source) {
                    let y = lemma_frontier(g, source, fin, ld0, old_heap, ns, ix, location);
                    assert(old_heap.contains(DijkstraNode { cost: ld0[y], location: y }));
                }
            }
            assert(is_shortest(g, source, location, cost));
            lemma_shortest_time_is(g, source, location, cost);
            // no farther than the target: the run settles it, so it is a node of the graph
            if let Some(c) = shortest_time(g, source, target) {
                law_shortest_time_is_least(g, source, target);
                if found is None {
                    assert(!fin.contains_key(target));
                    let (ns, ix) = choose|ns: Seq<Location>, ix: Seq<int>|
                        #[trigger] is_walk_between(g, source, target, ns, ix) && walk_cost(g, ns, ix) == c;
                    lemma_far(g, source, target, fin, ld0, old_heap, knowledge@, ns, ix, target, cost);
                }
                assert(cost <= c);
            }
            assert(settled_by_run(g, source, target, location));
            if !was_settled {
                assert(g.contains_key(location));
                vstd::set_lib::lemma_len_subset(fin.dom(), g.dom());
                fin = fin.insert(location, cost);
            }
            assert(fin.contains_key(location) && fin[location] == cost);
            assert forall|v: Location|
                #[trigger] local_discovery@.contains_key(v) && !fin.contains_key(v) implies heap@.contains(
                DijkstraNode { cost: local_discovery@[v], location: v },
            ) by {
                let e = DijkstraNode { cost: local_discovery@[v], location: v };
                assert(old_heap.contains(e));
                assert(e != popped);
            }
        }
        let ghost kn0 = knowledge@;
        knowledge.push((location, cost));
        if location == target {
            if found.is_none() {
                found = Some(cost);
            }
        }
        proof {
            assert(knowledge@.drop_last() =~= kn0);
            assert forall|p: (Location, Location)| #[trigger] knowledge_entries(source, knowledge@).contains_key(p) implies p.0
                == source && fin.contains_key(p.1) by {
                if p != (source, location) {
                    assert(knowledge_entries(source, kn0).contains_key(p));
                }
            }
            assert forall|u: Location| #[trigger] fin.contains_key(u) implies (shortest_time(g, source, target) matches Some(
                c,
            ) ==> fin[u] <= c) by {
                if u != location {
                    assert(fin_before.contains_key(u));
                }
            }
            assert forall|u: Location| #[trigger] fin.contains_key(u) implies knowledge_entries(source, knowledge@).contains_key(
                (source, u),
            ) by {
                if u != location {
                    assert(fin_before.contains_key(u));
                    assert(knowledge_entries(source, kn0).contains_key((source, u)));
                }
            }
            assert(knowledge_exact(g, source, knowledge@));
            assert forall|u: Location, k: int|
                fin.contains_key(u) && u != location && has_edge(g, u, k) implies #[trigger] relaxed_edge(
                g,
                fin,
                local_discovery@,
                u,
                k,
            ) by {
                assert(fin_before.contains_key(u));
                assert(relaxed_edge(g, fin_before, ld0, u, k));
            }
        }
        let current_node: &Node = graph.get(&location).unwrap();
        let outs = current_node.get_out_locations();
        let costs = current_node.get_out_costs();
        let ghost h0 = heap@.len();
        let mut i: usize = 0;
        while i < outs.len()
            invariant
                g == graph@,
                g.contains_key(location),
                g[location]@.out_costs.len() >= g[location]@.out_locations.len(),
                outs@ == g[location]@.out_locations,
                costs@ == g[location]@.out_costs,
                i <= outs.len(),
                fin.contains_key(location) && fin[location] == cost,
                was_settled ==> heap@.len() == h0,
                heap.wf(),
                !was_settled ==> fin.dom().len() > fin_before.dom().len(),
                search_inv(g, source, target, fin, local_discovery@, heap@, knowledge@),
                forall|u: Location, k: int|
                    fin.contains_key(u) && u != location && has_edge(g, u, k) ==> #[trigger] relaxed_edge(
                        g,
                        fin,
                        local_discovery@,
                        u,
                        k,
                    ),
                forall|k: int| 0 <= k < i ==> #[trigger] relaxed_edge(g, fin, local_discovery@, location, k),
                was_settled ==> forall|k: int|
                    0 <= k < outs.len() ==> #[trigger] relaxed_edge(g, fin, local_discovery@, location, k),
            decreases outs.len() - i,
        {
            let out: Location = outs[i];
            let total: Time = cost.saturating_add(costs[i]);
            proof {
                assert(has_edge(g, location, i as int));
                lemma_extend(g, source, location, cost, i as int);
            }
            let ghost ld1 = local_discovery@;
            let ghost hp1 = heap@;
            match local_discovery.get(&out) {
                Some(prev) => {
                    if *prev > total {
                        proof {
                            if fin.contains_key(out) {
                                lemma_reach_above_bound(g, source, out, total, fin[out]);
                            }
                            if was_settled {
                                assert(relaxed_edge(g, fin, ld1, location, i as int));
                            }
                        }
                        local_discovery.insert(out, total);
                        heap.push(DijkstraNode { cost: total, location: out });
                        proof {
                            lemma_after_push(g, source, target, fin, ld1, hp1, knowledge@, location, cost, i as int, out, total);
                        }
                    }
                },
                None => {
                    proof {
                        if was_settled {
                            assert(relaxed_edge(g, fin, ld1, location, i as int));
                        }
                    }
                    local_discovery.insert(out, total);
                    heap.push(DijkstraNode { cost: total, location: out });
                    proof {
                        lemma_after_push(g, source, target, fin, ld1, hp1, knowledge@, location, cost, i as int, out, total);
                    }
                },
            }
            proof {
                assert forall|u: Location, k: int|
                    fin.contains_key(u) && u != location && has_edge(g, u, k) implies #[trigger] relaxed_edge(
                    g,
                    fin,
                    local_discovery@,
                    u,
                    k,
                ) by {
                    assert(relaxed_edge(g, fin, ld1, u, k));
                }
                assert forall|k: int| 0 <= k < i + 1 implies #[trigger] relaxed_edge(
                    g,
                    fin,
                    local_discovery@,
                    location,
                    k,
                ) by {
                    if k < i {
                        assert(relaxed_edge(g, fin, ld1, location, k));
                    }
                }
            }
            i += 1;
        }
        proof {
            assert forall|u: Location, k: int|
                fin.contains_key(u) && has_edge(g, u, k) implies #[trigger] relaxed_edge(
                g,
                fin,
                local_discovery@,
                u,
                k,
            ) by {
                if u == location {
                    assert(relaxed_edge(g, fin, local_discovery@, location, k));
                }
            }
            vstd::set_lib::lemma_len_subset(fin.dom(), g.dom());
        }
    }
    let r = found;
    proof {
        lemma_knowledge_exact(g, source, knowledge@);
        let ke = knowledge_entries(source, knowledge@);
        let settled = Map::new(
            |p: (Location, Location)| p.0 == source && settled_by_run(g, source, target, p.1),
            |p: (Location, Location)| shortest_time(g, p.0, p.1),
        );
        assert forall|p: (Location, Location)| #[trigger] ke.contains_key(p) implies settled.contains_key(p) by {
            assert(fin.contains_key(p.1));
            assert(is_shortest(g, source, p.1, fin[p.1]));
            lemma_shortest_time_is(g, source, p.1, fin[p.1]);
        }
        assert forall|p: (Location, Location)| #[trigger] settled.contains_key(p) implies ke.contains_key(p) by {
            assert(fin.contains_key(p.1));
        }
        assert(ke =~= settled);
    }
    update_route_cache(route_cache, &knowledge, source);
    route_cache.insert(source, target, r);
    proof {
        assert(route_cache@ =~= cache_after_run(g, old(route_cache)@, source, target));
        lemma_cache_after_run_records(g, old(route_cache)@, source, target);
        if cache_exact(g, old(route_cache)@) {
            lemma_records_run_exact(g, old(route_cache)@, route_cache@, source, target, r);
        }
    }
    r
}

/// Appends the incidents scheduled for step `index` of the schedule.
fn spawn_incidents(spawn_stack: &Vec<Vec<Incident>>, incidents: &mut Vec<Incident>, index: usize)
    requires
        index < spawn_stack.len(),
    ensures
        final(incidents)@ == old(incidents)@ + spawn_stack@[index as int]@,
{
    let mut this_step_incidents: Vec<Incident> = spawn_stack[index].clone();
    proof {
        assert(this_step_incidents@ =~= spawn_stack@[index as int]@);
    }
    incidents.append(&mut this_step_incidents);
}

/// Advances every vehicle by `timestep`.
fn step_vehicles(vehicles: &mut Vec<Vehicle>, timestep: Time)
    ensures
        final(vehicles)@.len() == old(vehicles)@.len(),
        forall|k: int|
            0 <= k < old(vehicles)@.len() ==> #[trigger] final(vehicles)@[k]@ == old(vehicles)@[k]@.after_step(timestep),
{
    let mut i: usize = 0;
    while i < vehicles.len()
        invariant
            i <= vehicles.len(),
            vehicles@.len() == old(vehicles)@.len(),
            forall|k: int| 0 <= k < i ==> #[trigger] vehicles@[k]@ == old(vehicles)@[k]@.after_step(timestep),
            forall|k: int| i <= k < vehicles@.len() ==> #[trigger] vehicles@[k] == old(vehicles)@[k],
        decreases vehicles.len() - i,
    {
        vehicles[i].timestep(timestep);
        i += 1;
    }
}

/// The travel time from `source` to `target`: what the cache holds for the pair, untouched,
/// when it holds it; otherwise exactly what a Dijkstra run gives, answer and cache alike.
pub fn calc_travel_time(
    source: Location,
    target: Location,
    route_cache: &mut RouteCache,
    graph: &HashMap<Location, Node>,
) -> (r: Option<Time>)
    requires
        old(route_cache)@.contains_key((source, target)) || run_wf(graph@, source, target),
    ensures
        old(route_cache)@.contains_key((source, target)) ==> r == old(route_cache)@[(source, target)]
            && final(route_cache)@ == old(route_cache)@,
        !old(route_cache)@.contains_key((source, target)) ==> r == shortest_time(graph@, source, target)
            && final(route_cache)@ == cache_after_run(graph@, old(route_cache)@, source, target)
            && records_run(graph@, old(route_cache)@, final(route_cache)@, source, target, r),
        cache_exact(graph@, old(route_cache)@) ==> {
            &&& r == shortest_time(graph@, source, target)
            &&& cache_exact(graph@, final(route_cache)@)
            &&& old(route_cache)@.submap_of(final(route_cache)@)
            &&& final(route_cache)@.contains_key((source, target))
        },
{
    match route_cache.get(source, target) {
        Some(time) => time,
        None => dijkstra(graph, route_cache, source, target),
    }
}

/// The views of a list of vehicles.
pub open spec fn fleet(vs: Seq<Vehicle>) -> Seq<VehicleState> {
    vs.map_values(|v: Vehicle| v@)
}

/// The views of a list of incidents.
pub open spec fn incident_states(is: Seq<Incident>) -> Seq<IncidentState> {
    is.map_values(|i: Incident| i@)
}

/// The outcome of looking over the free vehicles for the one closest to an incident.
pub struct Pick {
    /// The index of the closest free vehicle found so far.
    pub car: Option<usize>,
    /// Its travel time (`Time::MAX` while none is found).
    pub time: Time,
    /// A free vehicle could not reach the incident; the look-over stopped there.
    pub blocked: bool,
}

/// Looks over the first `n` vehicles for the free one closest to `target`: the first with
/// the strictly smallest travel time wins; the first free vehicle that cannot reach
/// `target` ends the look-over.
pub open spec fn pick_closest(vs: Seq<VehicleState>, g: Map<Location, Node>, target: Location, n: nat) -> Pick
    decreases n,
{
    if n == 0 {
        Pick { car: None, time: u64::MAX, blocked: false }
    } else {
        let r = pick_closest(vs, g, target, (n - 1) as nat);
        let v = vs[n - 1];
        if r.blocked || v.secs_till_free != 0 {
            r
        } else {
            match shortest_time(g, v.location, target) {
                Some(t) => if t < r.time {
                    Pick { car: Some((n - 1) as usize), time: t, blocked: false }
                } else {
                    r
                },
                None => Pick { blocked: true, ..r },
            }
        }
    }
}

/// Dispatching for one incident at time `now`: an unsolved incident gets the closest free
/// vehicle, which goes there at once, and is marked as attended on that vehicle's arrival;
/// it is marked unreachable when a free vehicle cannot reach it.
pub open spec fn dispatch_one(vs: Seq<VehicleState>, inc: IncidentState, g: Map<Location, Node>, now: Time) -> (
    Seq<VehicleState>,
    IncidentState,
) {
    if inc.solved() || !inc.valid {
        (vs, inc)
    } else {
        let r = pick_closest(vs, g, inc.location, vs.len());
        let inc1 = if r.blocked { IncidentState { valid: false, ..inc } } else { inc };
        match r.car {
            Some(k) => (
                vs.update(k as int, vs[k as int].after_goto(inc.location, r.time, inc.service_time)),
                IncidentState { resolved_time: Some(now.saturating_add(r.time)), ..inc1 },
            ),
            None => (vs, inc1),
        }
    }
}

/// Dispatching for the first `n` incidents, in order.
pub open spec fn dispatch_incidents(
    vs: Seq<VehicleState>,
    incs: Seq<IncidentState>,
    g: Map<Location, Node>,
    now: Time,
    n: nat,
) -> (Seq<VehicleState>, Seq<IncidentState>)
    decreases n,
{
    if n == 0 {
        (vs, incs)
    } else {
        let (vs1, incs1) = dispatch_incidents(vs, incs, g, now, (n - 1) as nat);
        let (vs2, inc2) = dispatch_one(vs1, incs1[n - 1], g, now);
        (vs2, incs1.update(n - 1, inc2))
    }
}

/// A free vehicle away from its base heads back: over its last travel time when that
/// travel started at the base, else over the shortest route; a vehicle that cannot reach
/// its base is reset there.
pub open spec fn return_to_base(v: VehicleState, g: Map<Location, Node>) -> VehicleState {
    if v.secs_till_free == 0 && v.location != v.base {
        if v.just_come_from_base {
            v.after_goto(v.base, v.last_travel, 0)
        } else {
            match shortest_time(g, v.location, v.base) {
                Some(t) => v.after_goto(v.base, t, 0),
                None => v.after_reset(),
            }
        }
    } else {
        v
    }
}

/// Every vehicle stands on, and is based at, a routable place: every location reachable
/// from there is a node of the graph whose cost list covers its out-going edges.
pub open spec fn fleet_routable(g: Map<Location, Node>, vs: Seq<VehicleState>) -> bool {
    forall|k: int| 0 <= k < vs.len() ==> reachable_wf(g, #[trigger] vs[k].location) && reachable_wf(g, vs[k].base)
}

/// Some incident is still unsolved: dispatching will look over the free vehicles.
pub open spec fn has_open_incident(incs: Seq<IncidentState>) -> bool {
    exists|j: int| 0 <= j < incs.len() && !(#[trigger] incs[j]).solved()
}

/// Every vehicle that dispatching may ask a route from stands at a routable place: a free
/// vehicle, when some incident is unsolved or when its route home must be worked out.
pub open spec fn dispatch_routable(g: Map<Location, Node>, vs: Seq<VehicleState>, incs: Seq<IncidentState>) -> bool {
    forall|k: int|
        0 <= k < vs.len() && (#[trigger] vs[k]).secs_till_free == 0 && (has_open_incident(incs) || needs_route_home(
            vs[k],
        )) ==> reachable_wf(g, vs[k].location)
}

proof fn lemma_pick_blocked_stays(vs: Seq<VehicleState>, g: Map<Location, Node>, target: Location, k: nat, n: nat)
    requires
        k <= n,
        pick_closest(vs, g, target, k).blocked,
    ensures
        pick_closest(vs, g, target, n) == pick_closest(vs, g, target, k),
    decreases n - k,
{
    if n > k {
        lemma_pick_blocked_stays(vs, g, target, k, (n - 1) as nat);
    }
}

proof fn lemma_pick_bounds(vs: Seq<VehicleState>, g: Map<Location, Node>, target: Location, n: nat)
    requires
        n <= usize::MAX,
    ensures
        pick_closest(vs, g, target, n).car matches Some(k) ==> k < n && vs[k as int].secs_till_free == 0,
    decreases n,
{
    if n > 0 {
        lemma_pick_bounds(vs, g, target, (n - 1) as nat);
    }
}

/// The vehicle that dispatching picks is the closest: unless a free vehicle could not reach
/// the incident, the picked vehicle is free and no free vehicle among those looked at
/// reaches the incident faster; and a vehicle is picked whenever some free vehicle could
/// reach it.
pub proof fn law_pick_is_closest(vs: Seq<VehicleState>, g: Map<Location, Node>, target: Location, n: nat)
    requires
        n <= vs.len(),
        n <= usize::MAX,
        !pick_closest(vs, g, target, n).blocked,
    ensures
        ({
            let p = pick_closest(vs, g, target, n);
            &&& forall|j: int|
                0 <= j < n && (#[trigger] vs[j]).secs_till_free == 0 ==> (shortest_time(g, vs[j].location, target)
                    matches Some(t) && p.time <= t)
            &&& p.car matches Some(k) ==> k < n && vs[k as int].secs_till_free == 0 && shortest_time(
                g,
                vs[k as int].location,
                target,
            ) == Some(p.time)
            &&& p.car is None ==> p.time == u64::MAX
            &&& (exists|j: int| 0 <= j < n && (#[trigger] vs[j]).secs_till_free == 0 && shortest_time(g, vs[j].location, target) != Some(u64::MAX))
                ==> p.car is Some
        }),
    decreases n,
{
    if n > 0 {
        let prev = pick_closest(vs, g, target, (n - 1) as nat);
        assert(!prev.blocked);
        law_pick_is_closest(vs, g, target, (n - 1) as nat);
        let p = pick_closest(vs, g, target, n);
        assert forall|j: int|
            0 <= j < n && (#[trigger] vs[j]).secs_till_free == 0 implies (shortest_time(g, vs[j].location, target)
                matches Some(t) && p.time <= t) by {
            if j < n - 1 {
                assert(p.time <= prev.time);
            }
        }
        if exists|j: int| 0 <= j < n && (#[trigger] vs[j]).secs_till_free == 0 && shortest_time(g, vs[j].location, target) != Some(u64::MAX) {
            let j = choose|j: int| 0 <= j < n && (#[trigger] vs[j]).secs_till_free == 0 && shortest_time(g, vs[j].location, target) != Some(u64::MAX);
            if j < n - 1 {
                assert(prev.car is Some);
            }
        }
    }
}

/// A vehicle found by the look-over is free and reaches `target` in the time found.
proof fn lemma_pick_car(vs: Seq<VehicleState>, g: Map<Location, Node>, target: Location, n: nat)
    requires
        n <= usize::MAX,
    ensures
        pick_closest(vs, g, target, n).car matches Some(k) ==> k < n && vs[k as int].secs_till_free == 0
            && shortest_time(g, vs[k as int].location, target) == Some(pick_closest(vs, g, target, n).time),
    decreases n,
{
    if n > 0 {
        lemma_pick_car(vs, g, target, (n - 1) as nat);
    }
}

/// The (location, target) pairs whose travel time the look-over of the first `n` vehicles
/// asks for: one for each free vehicle looked at, up to the first that cannot reach
/// `target`.
pub open spec fn looked_pairs(vs: Seq<VehicleState>, g: Map<Location, Node>, target: Location, n: nat) -> Set<
    (Location, Location),
>
    decreases n,
{
    if n == 0 {
        Set::empty()
    } else {
        let prev = looked_pairs(vs, g, target, (n - 1) as nat);
        if pick_closest(vs, g, target, (n - 1) as nat).blocked || vs[n - 1].secs_till_free != 0 {
            prev
        } else {
            prev.insert((vs[n - 1].location, target))
        }
    }
}

proof fn lemma_looked_blocked_stays(vs: Seq<VehicleState>, g: Map<Location, Node>, target: Location, k: nat, n: nat)
    requires
        k <= n,
        pick_closest(vs, g, target, k).blocked,
    ensures
        looked_pairs(vs, g, target, n) == looked_pairs(vs, g, target, k),
    decreases n - k,
{
    if n > k {
        lemma_looked_blocked_stays(vs, g, target, k, (n - 1) as nat);
        lemma_pick_blocked_stays(vs, g, target, k, (n - 1) as nat);
    }
}

/// The routes that dispatching for the first `n` incidents asks for: for each unsolved,
/// reachable incident in turn, the pairs of its look-over over the vehicles as they stand
/// then.
pub open spec fn dispatch_pairs(
    vs: Seq<VehicleState>,
    incs: Seq<IncidentState>,
    g: Map<Location, Node>,
    now: Time,
    n: nat,
) -> Set<(Location, Location)>
    decreases n,
{
    if n == 0 {
        Set::empty()
    } else {
        let (vs1, incs1) = dispatch_incidents(vs, incs, g, now, (n - 1) as nat);
        let inc = incs1[n - 1];
        dispatch_pairs(vs, incs, g, now, (n - 1) as nat).union(
            if inc.solved() || !inc.valid {
                Set::empty()
            } else {
                looked_pairs(vs1, g, inc.location, vs1.len())
            },
        )
    }
}

/// A free vehicle away from its base that did not just leave it needs its route home
/// worked out.
pub open spec fn needs_route_home(v: VehicleState) -> bool {
    v.secs_till_free == 0 && v.location != v.base && !v.just_come_from_base
}

/// The routes that sending the vehicles home asks for.
pub open spec fn home_pairs(vs: Seq<VehicleState>) -> Set<(Location, Location)> {
    Set::new(
        |p: (Location, Location)|
            exists|k: int| 0 <= k < vs.len() && needs_route_home(#[trigger] vs[k]) && p == (vs[k].location, vs[k].base),
    )
}

/// The cache went from `before` to `after` by working out the routes of `worked`: every
/// entry is kept, every route of `worked` is now recorded, and every new entry starts
/// where one of those routes starts.
pub open spec fn cache_grown(
    before: Map<(Location, Location), Option<Time>>,
    after: Map<(Location, Location), Option<Time>>,
    worked: Set<(Location, Location)>,
) -> bool {
    &&& before.submap_of(after)
    &&& forall|p: (Location, Location)| #[trigger] worked.contains(p) ==> after.contains_key(p)
    &&& forall|p: (Location, Location)|
        #[trigger] after.contains_key(p) ==> before.contains_key(p) || exists|t: Location| #[trigger] worked.contains((p.0, t))
}

proof fn lemma_cache_grown_none(c: Map<(Location, Location), Option<Time>>)
    ensures
        cache_grown(c, c, Set::empty()),
{
}

proof fn lemma_cache_grown_trans(
    a: Map<(Location, Location), Option<Time>>,
    b: Map<(Location, Location), Option<Time>>,
    c: Map<(Location, Location), Option<Time>>,
    w1: Set<(Location, Location)>,
    w2: Set<(Location, Location)>,
)
    requires
        cache_grown(a, b, w1),
        cache_grown(b, c, w2),
    ensures
        cache_grown(a, c, w1.union(w2)),
{
    assert forall|p: (Location, Location)| #[trigger] a.contains_key(p) implies c.contains_key(p) && c[p] == a[p] by {
        assert(a.dom().contains(p));
        assert(b.dom().contains(p));
        assert(c.dom().contains(p));
        assert(b[p] == a[p]);
    }
    assert(a.submap_of(c));
    assert forall|p: (Location, Location)| #[trigger] w1.union(w2).contains(p) implies c.contains_key(p) by {
        if w1.contains(p) {
            assert(b.contains_key(p));
        }
    }
    assert forall|p: (Location, Location)| #[trigger] c.contains_key(p) implies a.contains_key(p) || exists|t: Location|
        #[trigger] w1.union(w2).contains((p.0, t)) by {
        if !b.contains_key(p) {
            let t = choose|t: Location| #[trigger] w2.contains((p.0, t));
            assert(w1.union(w2).contains((p.0, t)));
        } else if !a.contains_key(p) {
            let t = choose|t: Location| #[trigger] w1.contains((p.0, t));
            assert(w1.union(w2).contains((p.0, t)));
        }
    }
}

/// One travel-time lookup on an exact cache grows it by that route.
proof fn lemma_lookup_grows(
    g: Map<Location, Node>,
    before: Map<(Location, Location), Option<Time>>,
    after: Map<(Location, Location), Option<Time>>,
    s: Location,
    t: Location,
)
    requires
        cache_exact(g, before),
        before.submap_of(after),
        after.contains_key((s, t)),
        before.contains_key((s, t)) ==> after == before,
        !before.contains_key((s, t)) ==> records_run(g, before, after, s, t, after[(s, t)]),
    ensures
        cache_grown(before, after, set![(s, t)]),
{
    assert forall|p: (Location, Location)| #[trigger] after.contains_key(p) implies before.contains_key(p) || exists|
        u: Location,
    | #[trigger] set![(s, t)].contains((p.0, u)) by {
        if !before.contains_key(p) {
            assert(p.0 == s);
            assert(set![(s, t)].contains((p.0, t)));
        }
    }
}

proof fn lemma_home_pairs_step(vs: Seq<VehicleState>, c: int)
    requires
        0 <= c < vs.len(),
    ensures
        home_pairs(vs.take(c + 1)) == home_pairs(vs.take(c)).union(
            if needs_route_home(vs[c]) {
                set![(vs[c].location, vs[c].base)]
            } else {
                Set::empty()
            },
        ),
{
    let a = vs.take(c);
    let b = vs.take(c + 1);
    let extra = if needs_route_home(vs[c]) {
        set![(vs[c].location, vs[c].base)]
    } else {
        Set::<(Location, Location)>::empty()
    };
    assert forall|p: (Location, Location)| #[trigger] home_pairs(b).contains(p) implies home_pairs(a).union(extra).contains(p) by {
        let k = choose|k: int| 0 <= k < b.len() && needs_route_home(#[trigger] b[k]) && p == (b[k].location, b[k].base);
        if k < c {
            assert(a[k] == b[k]);
            assert(home_pairs(a).contains(p));
        } else {
            assert(b[k] == vs[c]);
        }
    }
    assert forall|p: (Location, Location)| #[trigger] home_pairs(a).union(extra).contains(p) implies home_pairs(b).contains(p) by {
        if home_pairs(a).contains(p) {
            let k = choose|k: int| 0 <= k < a.len() && needs_route_home(#[trigger] a[k]) && p == (a[k].location, a[k].base);
            assert(b[k] == a[k]);
        } else {
            assert(b[c] == vs[c]);
        }
    }
    assert(home_pairs(b) =~= home_pairs(a).union(extra));
}

/// Looks over the vehicles for the free one closest to `target`.
fn closest_free_vehicle(
    vehicles: &Vec<Vehicle>,
    target: Location,
    route_cache: &mut RouteCache,
    graph: &HashMap<Location, Node>,
) -> (r: (Option<usize>, Time, bool))
    requires
        cache_exact(graph@, old(route_cache)@),
        forall|k: int|
            0 <= k < vehicles@.len() && (#[trigger] vehicles@[k])@.secs_till_free == 0 ==> reachable_wf(
                graph@,
                vehicles@[k]@.location,
            ),
    ensures
        cache_exact(graph@, final(route_cache)@),
        cache_grown(
            old(route_cache)@,
            final(route_cache)@,
            looked_pairs(fleet(vehicles@), graph@, target, vehicles@.len() as nat),
        ),
        ({
            let p = pick_closest(fleet(vehicles@), graph@, target, vehicles@.len() as nat);
            r.0 == p.car && r.1 == p.time && r.2 == p.blocked
        }),
{
    let ghost vs = fleet(vehicles@);
    let mut closest_time: Time = u64::MAX;
    let mut closest_car: Option<usize> = None;
    let mut c: usize = 0;
    proof {
        lemma_cache_grown_none(route_cache@);
        assert(looked_pairs(vs, graph@, target, 0) =~= Set::<(Location, Location)>::empty());
    }
    while c < vehicles.len()
        invariant
            cache_exact(graph@, old(route_cache)@),
            cache_exact(graph@, route_cache@),
            cache_grown(old(route_cache)@, route_cache@, looked_pairs(vs, graph@, target, c as nat)),
            vs == fleet(vehicles@),
            forall|k: int|
                0 <= k < vehicles@.len() && (#[trigger] vehicles@[k])@.secs_till_free == 0 ==> reachable_wf(
                    graph@,
                    vehicles@[k]@.location,
                ),
            c <= vehicles.len(),
            pick_closest(vs, graph@, target, c as nat) == (Pick { car: closest_car, time: closest_time, blocked: false }),
        decreases vehicles.len() - c,
    {
        let ghost before = route_cache@;
        proof {
            assert(vs[c as int] == vehicles@[c as int]@);
        }
        if vehicles[c].get_secs_till_free() == 0 {
            let current_loc: Location = vehicles[c].get_location();
            proof {
                assert(reachable_wf(graph@, vehicles@[c as int]@.location));
                lemma_reachable_wf_run(graph@, current_loc, target);
            }
            let found = calc_travel_time(current_loc, target, route_cache, graph);
            proof {
                if !before.contains_key((current_loc, target)) {
                    assert(found == shortest_time(graph@, current_loc, target));
                }
                lemma_lookup_grows(graph@, before, route_cache@, current_loc, target);
                lemma_cache_grown_trans(
                    old(route_cache)@,
                    before,
                    route_cache@,
                    looked_pairs(vs, graph@, target, c as nat),
                    set![(current_loc, target)],
                );
                assert(looked_pairs(vs, graph@, target, (c + 1) as nat) =~= looked_pairs(vs, graph@, target, c as nat).union(
                    set![(current_loc, target)],
                ));
            }
            match found {
                Some(travel_time) => {
                    if travel_time < closest_time {
                        closest_time = travel_time;
                        closest_car = Some(c);
                    }
                },
                None => {
                    proof {
                        lemma_pick_blocked_stays(vs, graph@, target, (c + 1) as nat, vehicles@.len() as nat);
                        lemma_looked_blocked_stays(vs, graph@, target, (c + 1) as nat, vehicles@.len() as nat);
                    }
                    return (closest_car, closest_time, true);
                },
            }
        }
        c += 1;
    }
    (closest_car, closest_time, false)
}

/// Dispatching for incident `e` (see `dispatch_one`).
fn dispatch_at(
    vehicles: &mut Vec<Vehicle>,
    incidents: &mut Vec<Incident>,
    e: usize,
    graph: &HashMap<Location, Node>,
    route_cache: &mut RouteCache,
    current_time: Time,
)
    requires
        e < old(incidents)@.len(),
        cache_exact(graph@, old(route_cache)@),
        !incident_states(old(incidents)@)[e as int].solved() ==> forall|k: int|
            0 <= k < old(vehicles)@.len() && (#[trigger] fleet(old(vehicles)@)[k]).secs_till_free == 0
                ==> reachable_wf(graph@, fleet(old(vehicles)@)[k].location),
    ensures
        final(incidents)@.len() == old(incidents)@.len(),
        final(vehicles)@.len() == old(vehicles)@.len(),
        cache_exact(graph@, final(route_cache)@),
        cache_grown(
            old(route_cache)@,
            final(route_cache)@,
            ({
                let inc = incident_states(old(incidents)@)[e as int];
                if inc.solved() || !inc.valid {
                    Set::empty()
                } else {
                    looked_pairs(fleet(old(vehicles)@), graph@, inc.location, old(vehicles)@.len() as nat)
                }
            }),
        ),
        ({
            let (vs2, inc2) = dispatch_one(
                fleet(old(vehicles)@),
                incident_states(old(incidents)@)[e as int],
                graph@,
                current_time,
            );
            &&& fleet(final(vehicles)@) == vs2
            &&& incident_states(final(incidents)@) == incident_states(old(incidents)@).update(e as int, inc2)
        }),
        forall|k: int|
            0 <= k < old(vehicles)@.len() ==> #[trigger] fleet(final(vehicles)@)[k] == fleet(old(vehicles)@)[k]
                || reachable_wf(graph@, fleet(final(vehicles)@)[k].location),
        fleet_routable(graph@, fleet(old(vehicles)@)) ==> fleet_routable(graph@, fleet(final(vehicles)@)),
{
    let ghost g = graph@;
    let ghost vsb = fleet(vehicles@);
    let ghost isb = incident_states(incidents@);
    let n_vehicles: usize = vehicles.len();
    proof {
        assert(isb[e as int] == incidents@[e as int]@);
        assert(vsb.len() == n_vehicles);
    }
    if incidents[e].is_solved() || !incidents[e].is_valid() {
        proof {
            assert(incident_states(incidents@) =~= isb.update(e as int, isb[e as int]));
            lemma_cache_grown_none(route_cache@);
        }
        return;
    }
    let target: Location = incidents[e].get_location();
    proof {
        assert forall|k: int| 0 <= k < vehicles@.len() && (#[trigger] vehicles@[k])@.secs_till_free == 0 implies reachable_wf(
            graph@,
            vehicles@[k]@.location,
        ) by {
            assert(fleet(vehicles@)[k] == vehicles@[k]@);
        }
    }
    let (closest_car, closest_time, blocked) = closest_free_vehicle(vehicles, target, route_cache, graph);
    if blocked {
        incidents.set(e, {
            let mut inc = incidents[e];
            inc.unreachable();
            inc
        });
    }
    match closest_car {
        Some(k) => {
            let incident_time: Time = incidents[e].get_service_time();
            let nveh: usize = vehicles.len();
            proof {
                assert(vsb.len() == nveh);
                lemma_pick_bounds(vsb, g, target, vsb.len() as nat);
                lemma_pick_car(vsb, g, target, vsb.len() as nat);
            }
            let _ = vehicles[k].goto(target, closest_time, incident_time);
            incidents.set(e, {
                let mut inc = incidents[e];
                inc.solved(current_time.saturating_add(closest_time));
                inc
            });
        },
        None => {},
    }
    proof {
        let (vs2, inc2) = dispatch_one(vsb, isb[e as int], g, current_time);
        assert(incident_states(incidents@) =~= isb.update(e as int, inc2));
        assert(fleet(vehicles@) =~= vs2);
        lemma_pick_car(vsb, g, target, vsb.len() as nat);
        if let Some(c) = pick_closest(vsb, g, target, vsb.len() as nat).car {
            // the vehicle can reach the incident, so the incident is a routable place
            assert(reachable_wf(g, vsb[c as int].location));
            law_shortest_time_is_least(g, vsb[c as int].location, target);
            lemma_reachable_wf_step(g, vsb[c as int].location, target);
        }
        assert(pick_closest(vsb, g, target, vsb.len() as nat).car is Some ==> reachable_wf(g, target));
        assert forall|k: int| 0 <= k < vsb.len() implies #[trigger] fleet(vehicles@)[k] == vsb[k] || reachable_wf(
            g,
            fleet(vehicles@)[k].location,
        ) by {
            let p = pick_closest(vsb, g, target, vsb.len() as nat);
            if p.car is Some && k == p.car->0 as int {
                assert(fleet(vehicles@)[k] == vsb[k].after_goto(target, p.time, isb[e as int].service_time));
            } else {
                assert(fleet(vehicles@)[k] == vsb[k]);
            }
        }
        if fleet_routable(g, vsb) {
            assert forall|k: int| 0 <= k < fleet(vehicles@).len() implies reachable_wf(g,
                #[trigger] fleet(vehicles@)[k].location,
            ) && reachable_wf(g, fleet(vehicles@)[k].base) by {
                assert(fleet(vehicles@).len() == vsb.len());
                assert(0 <= k < vsb.len());
                assert(reachable_wf(g, vsb[k].location));
                assert(reachable_wf(g, vsb[k].base));
                let p = pick_closest(vsb, g, target, vsb.len() as nat);
                if p.car is Some && k == p.car->0 as int {
                    assert(fleet(vehicles@)[k] == vsb[k].after_goto(target, p.time, isb[e as int].service_time));
                } else {
                    assert(fleet(vehicles@)[k] == vsb[k]);
                }
            }
            assert(fleet_routable(g, fleet(vehicles@)));
        }
    }
}

/// Sends the closest free vehicle to every unsolved incident, in order, then sends every
/// free vehicle that is away from its base back to it. An incident that a free vehicle
/// cannot reach (one off the graph, say) is marked unreachable.
///
/// The route cache keeps its entries and gains the routes asked for (see `cache_grown`).
pub fn dispatching(
    vehicles: &mut Vec<Vehicle>,
    incidents: &mut Vec<Incident>,
    graph: &HashMap<Location, Node>,
    route_cache: &mut RouteCache,
    current_time: Time,
)
    requires
        cache_exact(graph@, old(route_cache)@),
        dispatch_routable(graph@, fleet(old(vehicles)@), incident_states(old(incidents)@)),
    ensures
        cache_exact(graph@, final(route_cache)@),
        ({
            let (vs1, incs1) = dispatch_incidents(
                fleet(old(vehicles)@),
                incident_states(old(incidents)@),
                graph@,
                current_time,
                old(incidents)@.len() as nat,
            );
            &&& incident_states(final(incidents)@) == incs1
            &&& fleet(final(vehicles)@) == vs1.map_values(|v: VehicleState| return_to_base(v, graph@))
            &&& cache_grown(
                old(route_cache)@,
                final(route_cache)@,
                dispatch_pairs(
                    fleet(old(vehicles)@),
                    incident_states(old(incidents)@),
                    graph@,
                    current_time,
                    old(incidents)@.len() as nat,
                ).union(home_pairs(vs1)),
            )
        }),
        fleet_routable(graph@, fleet(old(vehicles)@)) ==> fleet_routable(graph@, fleet(final(vehicles)@)),
{
    let ghost g = graph@;
    let ghost vs0 = fleet(vehicles@);
    let ghost is0 = incident_states(incidents@);
    let n_vehicles: usize = vehicles.len();
    let mut e: usize = 0;
    proof {
        assert(vs0.len() == n_vehicles);
        lemma_cache_grown_none(route_cache@);
        assert(dispatch_pairs(vs0, is0, g, current_time, 0) =~= Set::<(Location, Location)>::empty());
    }
    while e < incidents.len()
        invariant
            g == graph@,
            cache_exact(g, old(route_cache)@),
            cache_exact(g, route_cache@),
            cache_grown(old(route_cache)@, route_cache@, dispatch_pairs(vs0, is0, g, current_time, e as nat)),
            e <= incidents.len(),
            incidents@.len() == is0.len(),
            vehicles@.len() == vs0.len(),
            vs0.len() <= usize::MAX,
            dispatch_routable(g, vs0, is0),
            forall|k: int|
                0 <= k < vs0.len() ==> #[trigger] fleet(vehicles@)[k] == vs0[k] || reachable_wf(
                    g,
                    fleet(vehicles@)[k].location,
                ),
            forall|j: int| e <= j < is0.len() ==> #[trigger] incident_states(incidents@)[j] == is0[j],
            fleet_routable(g, vs0) ==> fleet_routable(g, fleet(vehicles@)),
            ({
                let (vs1, incs1) = dispatch_incidents(vs0, is0, g, current_time, e as nat);
                &&& fleet(vehicles@) == vs1
                &&& incident_states(incidents@) == incs1
            }),
        decreases incidents.len() - e,
    {
        let ghost cache_before = route_cache@;
        let ghost vs_before = fleet(vehicles@);
        let ghost is_before = incident_states(incidents@);
        proof {
            if !is_before[e as int].solved() {
                assert(is_before[e as int] == is0[e as int]);
                assert(has_open_incident(is0));
                assert forall|k: int|
                    0 <= k < vehicles@.len() && (#[trigger] fleet(vehicles@)[k]).secs_till_free == 0 implies reachable_wf(
                    graph@,
                    fleet(vehicles@)[k].location,
                ) by {
                    if fleet(vehicles@)[k] == vs0[k] {
                        assert(vs0[k].secs_till_free == 0);
                    }
                }
            }
        }
        dispatch_at(vehicles, incidents, e, graph, route_cache, current_time);
        proof {
            assert forall|k: int| 0 <= k < vs0.len() implies #[trigger] fleet(vehicles@)[k] == vs0[k] || reachable_wf(
                g,
                fleet(vehicles@)[k].location,
            ) by {
                assert(fleet(vehicles@)[k] == vs_before[k] || reachable_wf(g, fleet(vehicles@)[k].location));
                assert(vs_before[k] == vs0[k] || reachable_wf(g, vs_before[k].location));
            }
            assert forall|j: int| e + 1 <= j < is0.len() implies #[trigger] incident_states(incidents@)[j] == is0[j] by {
                assert(incident_states(incidents@)[j] == is_before[j]);
            }
            let inc = is_before[e as int];
            let w = if inc.solved() || !inc.valid {
                Set::<(Location, Location)>::empty()
            } else {
                looked_pairs(vs_before, g, inc.location, vs_before.len())
            };
            lemma_cache_grown_trans(
                old(route_cache)@,
                cache_before,
                route_cache@,
                dispatch_pairs(vs0, is0, g, current_time, e as nat),
                w,
            );
            assert(dispatch_pairs(vs0, is0, g, current_time, (e + 1) as nat) == dispatch_pairs(
                vs0,
                is0,
                g,
                current_time,
                e as nat,
            ).union(w));
        }
        e += 1;
    }
    let ghost cache_mid = route_cache@;
    let ghost vs_mid = fleet(vehicles@);
    proof {
        assert forall|k: int|
            0 <= k < vehicles@.len() && needs_route_home(#[trigger] fleet(vehicles@)[k]) implies reachable_wf(
            graph@,
            fleet(vehicles@)[k].location,
        ) by {
            if fleet(vehicles@)[k] == vs0[k] {
                assert(vs0[k].secs_till_free == 0);
            }
        }
    }
    send_home(vehicles, graph, route_cache);
    proof {
        lemma_cache_grown_trans(
            old(route_cache)@,
            cache_mid,
            route_cache@,
            dispatch_pairs(vs0, is0, g, current_time, is0.len()),
            home_pairs(vs_mid),
        );
    }
}

/// Sends every free vehicle that is away from its base back to it.
fn send_home(vehicles: &mut Vec<Vehicle>, graph: &HashMap<Location, Node>, route_cache: &mut RouteCache)
    requires
        cache_exact(graph@, old(route_cache)@),
        forall|k: int|
            0 <= k < old(vehicles)@.len() && needs_route_home(#[trigger] fleet(old(vehicles)@)[k]) ==> reachable_wf(
                graph@,
                fleet(old(vehicles)@)[k].location,
            ),
    ensures
        cache_exact(graph@, final(route_cache)@),
        cache_grown(old(route_cache)@, final(route_cache)@, home_pairs(fleet(old(vehicles)@))),
        fleet(final(vehicles)@) == fleet(old(vehicles)@).map_values(|v: VehicleState| return_to_base(v, graph@)),
        fleet_routable(graph@, fleet(old(vehicles)@)) ==> fleet_routable(graph@, fleet(final(vehicles)@)),
{
    let ghost g = graph@;
    let ghost vs1 = fleet(vehicles@);
    let mut c: usize = 0;
    proof {
        lemma_cache_grown_none(route_cache@);
        assert(home_pairs(vs1.take(0)) =~= Set::<(Location, Location)>::empty());
    }
    while c < vehicles.len()
        invariant
            g == graph@,
            cache_exact(g, old(route_cache)@),
            cache_exact(g, route_cache@),
            cache_grown(old(route_cache)@, route_cache@, home_pairs(vs1.take(c as int))),
            c <= vehicles.len(),
            vehicles@.len() == vs1.len(),
            forall|k: int| 0 <= k < c ==> #[trigger] fleet(vehicles@)[k] == return_to_base(vs1[k], g),
            forall|k: int| c <= k < vehicles@.len() ==> #[trigger] fleet(vehicles@)[k] == vs1[k],
            forall|k: int| 0 <= k < vs1.len() && needs_route_home(#[trigger] vs1[k]) ==> reachable_wf(g, vs1[k].location),
            fleet_routable(g, vs1) ==> fleet_routable(g, fleet(vehicles@)),
        decreases vehicles.len() - c,
    {
        let ghost before = vehicles@;
        let ghost cache_before = route_cache@;
        proof {
            assert(fleet(vehicles@)[c as int] == vehicles@[c as int]@);
            lemma_home_pairs_step(vs1, c as int);
        }
        if vehicles[c].get_secs_till_free() == 0 && vehicles[c].get_location() != vehicles[c].get_base() {
            let base: Location = vehicles[c].get_base();
            if vehicles[c].last_move_from_base() {
                let last: Time = vehicles[c].get_last_travel();
                let _ = vehicles[c].goto(base, last, 0);
                proof {
                    assert(home_pairs(vs1.take(c + 1)) =~= home_pairs(vs1.take(c as int)));
                }
            } else {
                let here: Location = vehicles[c].get_location();
                proof {
                    assert(needs_route_home(vs1[c as int]));
                    lemma_reachable_wf_run(g, here, base);
                }
                let found = calc_travel_time(here, base, route_cache, graph);
                proof {
                    if !cache_before.contains_key((here, base)) {
                        assert(found == shortest_time(g, here, base));
                    }
                    lemma_lookup_grows(g, cache_before, route_cache@, here, base);
                    lemma_cache_grown_trans(
                        old(route_cache)@,
                        cache_before,
                        route_cache@,
                        home_pairs(vs1.take(c as int)),
                        set![(here, base)],
                    );
                }
                match found {
                    Some(travel_time) => {
                        let _ = vehicles[c].goto(base, travel_time, 0);
                    },
                    None => {
                        vehicles[c].reset();
                    },
                }
            }
        } else {
            proof {
                assert(home_pairs(vs1.take(c + 1)) =~= home_pairs(vs1.take(c as int)));
            }
        }
        proof {
            assert(fleet(vehicles@)[c as int] == vehicles@[c as int]@);
            assert(fleet(vehicles@)[c as int] == return_to_base(vs1[c as int], g));
            assert forall|k: int| 0 <= k < vehicles@.len() && k != c implies #[trigger] fleet(vehicles@)[k]
                == fleet(before)[k] by {
                assert(vehicles@[k] == before[k]);
            }
            if fleet_routable(g, vs1) {
                assert(reachable_wf(g, vs1[c as int].location) && reachable_wf(g, vs1[c as int].base));
                assert forall|k: int| 0 <= k < vehicles@.len() implies reachable_wf(g,
                    #[trigger] fleet(vehicles@)[k].location,
                ) && reachable_wf(g, fleet(vehicles@)[k].base) by {
                    assert(fleet(vehicles@).len() == fleet(before).len());
                    assert(0 <= k < fleet(before).len());
                    assert(reachable_wf(g, fleet(before)[k].location));
                    assert(reachable_wf(g, fleet(before)[k].base));
                    if k != c {
                        assert(fleet(vehicles@)[k] == fleet(before)[k]);
                    }
                }
            }
        }
        c += 1;
    }
    proof {
        assert(fleet(vehicles@) =~= vs1.map_values(|v: VehicleState| return_to_base(v, g)));
        assert(vs1.take(c as int) =~= vs1);
    }
}

/// The incident schedule as abstract states: entry `k` holds the incidents that appear at
/// step `k`.
pub open spec fn schedule(spawn_stack: Seq<Vec<Incident>>) -> Seq<Seq<IncidentState>> {
    spawn_stack.map_values(|step: Vec<Incident>| incident_states(step@))
}

/// One simulation step at `time`: the incidents scheduled for step `time / timestep`
/// appear, vehicles are dispatched and sent home, then every vehicle ages by `timestep`.
pub open spec fn sim_step(
    vs: Seq<VehicleState>,
    incs: Seq<IncidentState>,
    g: Map<Location, Node>,
    sched: Seq<Seq<IncidentState>>,
    timestep: Time,
    time: Time,
) -> (Seq<VehicleState>, Seq<IncidentState>) {
    let incs1 = incs + sched[(time / timestep) as int];
    let (vs2, incs2) = dispatch_incidents(vs, incs1, g, time, incs1.len());
    (
        vs2.map_values(|v: VehicleState| return_to_base(v, g)).map_values(
            |v: VehicleState| v.after_step(timestep),
        ),
        incs2,
    )
}

/// The simulation from `time` on: steps of `timestep` while the time is before
/// `end_time`. Gives the vehicles, the incidents and the time at the end.
pub open spec fn simulate(
    vs: Seq<VehicleState>,
    incs: Seq<IncidentState>,
    g: Map<Location, Node>,
    sched: Seq<Seq<IncidentState>>,
    timestep: Time,
    end_time: Time,
    time: Time,
) -> (Seq<VehicleState>, Seq<IncidentState>, Time)
    decreases (if time < end_time { end_time - time } else { 0 }),
{
    if time >= end_time || timestep == 0 {
        (vs, incs, time)
    } else {
        let (vs1, incs1) = sim_step(vs, incs, g, sched, timestep, time);
        let next = if time + timestep > u64::MAX { u64::MAX } else { (time + timestep) as Time };
        simulate(vs1, incs1, g, sched, timestep, end_time, next)
    }
}

/// The routes that one simulation step at `time` asks for (see `sim_step`).
pub open spec fn sim_step_pairs(
    vs: Seq<VehicleState>,
    incs: Seq<IncidentState>,
    g: Map<Location, Node>,
    sched: Seq<Seq<IncidentState>>,
    timestep: Time,
    time: Time,
) -> Set<(Location, Location)> {
    let incs1 = incs + sched[(time / timestep) as int];
    let (vs2, incs2) = dispatch_incidents(vs, incs1, g, time, incs1.len());
    dispatch_pairs(vs, incs1, g, time, incs1.len()).union(home_pairs(vs2))
}

/// The routes that the simulation from `time` on asks for (see `simulate`).
pub open spec fn simulate_pairs(
    vs: Seq<VehicleState>,
    incs: Seq<IncidentState>,
    g: Map<Location, Node>,
    sched: Seq<Seq<IncidentState>>,
    timestep: Time,
    end_time: Time,
    time: Time,
) -> Set<(Location, Location)>
    decreases (if time < end_time { end_time - time } else { 0 }),
{
    if time >= end_time || timestep == 0 {
        Set::empty()
    } else {
        let (vs1, incs1) = sim_step(vs, incs, g, sched, timestep, time);
        let next = if time + timestep > u64::MAX { u64::MAX } else { (time + timestep) as Time };
        sim_step_pairs(vs, incs, g, sched, timestep, time).union(
            simulate_pairs(vs1, incs1, g, sched, timestep, end_time, next),
        )
    }
}

/// The fleet `vs2` is the fleet `vs` with every vehicle keeping its base and name.
pub open spec fn same_fleet(vs: Seq<VehicleState>, vs2: Seq<VehicleState>) -> bool {
    vs2.len() == vs.len() && forall|k: int|
        0 <= k < vs.len() ==> (#[trigger] vs2[k]).base == vs[k].base && vs2[k].name == vs[k].name
}

/// Incident `b` is incident `a` after dispatching: where it is, when it appeared, how long
/// it takes and how many cars it needs stay; an incident already solved stays as it was;
/// an unreachable incident stays unreachable, and an attended one keeps its arrival time.
pub open spec fn incident_moved_on(a: IncidentState, b: IncidentState) -> bool {
    &&& b.location == a.location
    &&& b.creation_time == a.creation_time
    &&& b.service_time == a.service_time
    &&& b.vehicles_required == a.vehicles_required
    &&& a.solved() ==> b == a
    &&& !a.valid ==> !b.valid
    &&& a.resolved_time is Some ==> b.resolved_time == a.resolved_time
}

proof fn lemma_same_fleet_trans(a: Seq<VehicleState>, b: Seq<VehicleState>, c: Seq<VehicleState>)
    requires
        same_fleet(a, b),
        same_fleet(b, c),
    ensures
        same_fleet(a, c),
{
    assert forall|k: int| 0 <= k < a.len() implies (#[trigger] c[k]).base == a[k].base && c[k].name == a[k].name by {
        assert(b[k].base == a[k].base);
    }
}

/// Dispatching keeps every vehicle's base and name, and moves every incident on only as
/// its calls allow (see `incident_moved_on`).
pub proof fn law_dispatch_keeps_identities(
    vs: Seq<VehicleState>,
    incs: Seq<IncidentState>,
    g: Map<Location, Node>,
    now: Time,
    n: nat,
)
    requires
        n <= incs.len(),
        vs.len() <= usize::MAX,
    ensures
        ({
            let (vs1, incs1) = dispatch_incidents(vs, incs, g, now, n);
            &&& same_fleet(vs, vs1)
            &&& incs1.len() == incs.len()
            &&& forall|k: int| 0 <= k < incs.len() ==> incident_moved_on(incs[k], #[trigger] incs1[k])
            &&& forall|k: int| n <= k < incs.len() ==> #[trigger] incs1[k] == incs[k]
        }),
    decreases n,
{
    if n > 0 {
        law_dispatch_keeps_identities(vs, incs, g, now, (n - 1) as nat);
        let (vs1, incs1) = dispatch_incidents(vs, incs, g, now, (n - 1) as nat);
        let (vs2, inc2) = dispatch_one(vs1, incs1[n - 1], g, now);
        let incs2 = incs1.update(n - 1, inc2);
        assert(same_fleet(vs1, vs2)) by {
            if !(incs1[n - 1].solved() || !incs1[n - 1].valid) {
                let r = pick_closest(vs1, g, incs1[n - 1].location, vs1.len());
                lemma_pick_bounds(vs1, g, incs1[n - 1].location, vs1.len());
                if let Some(c) = r.car {
                    assert forall|k: int| 0 <= k < vs1.len() implies (#[trigger] vs2[k]).base == vs1[k].base
                        && vs2[k].name == vs1[k].name by {
                        if k == c {
                            crate::vehicle::law_base_and_name_fixed(vs1[k], incs1[n - 1].location, r.time, incs1[n - 1].service_time, 0);
                        }
                    }
                }
            }
        }
        lemma_same_fleet_trans(vs, vs1, vs2);
        assert forall|k: int| 0 <= k < incs.len() implies incident_moved_on(incs[k], #[trigger] incs2[k]) by {
            assert(incident_moved_on(incs[k], incs1[k]));
            if k == n - 1 {
                assert(incs1[k] == incs[k]);
            }
        }
    }
}

/// Dispatching, sending home and time passing keep every vehicle's base and name, for
/// a whole simulation.
pub proof fn law_simulation_keeps_fleet(
    vs: Seq<VehicleState>,
    incs: Seq<IncidentState>,
    g: Map<Location, Node>,
    sched: Seq<Seq<IncidentState>>,
    timestep: Time,
    end_time: Time,
    time: Time,
)
    requires
        vs.len() <= usize::MAX,
    ensures
        same_fleet(vs, simulate(vs, incs, g, sched, timestep, end_time, time).0),
    decreases (if time < end_time { end_time - time } else { 0 }),
{
    if time >= end_time || timestep == 0 {
        assert(same_fleet(vs, vs));
    } else {
        let incs1 = incs + sched[(time / timestep) as int];
        law_dispatch_keeps_identities(vs, incs1, g, time, incs1.len());
        let (vs2, incs2) = dispatch_incidents(vs, incs1, g, time, incs1.len());
        let vs3 = vs2.map_values(|v: VehicleState| return_to_base(v, g));
        let vs4 = vs3.map_values(|v: VehicleState| v.after_step(timestep));
        assert(same_fleet(vs2, vs4)) by {
            assert forall|k: int| 0 <= k < vs2.len() implies (#[trigger] vs4[k]).base == vs2[k].base && vs4[k].name
                == vs2[k].name by {
                let v = vs2[k];
                crate::vehicle::law_base_and_name_fixed(v, v.base, v.last_travel, 0, timestep);
                if let Some(t) = shortest_time(g, v.location, v.base) {
                    crate::vehicle::law_base_and_name_fixed(v, v.base, t, 0, timestep);
                }
                crate::vehicle::law_base_and_name_fixed(return_to_base(v, g), v.base, 0, 0, timestep);
            }
        }
        lemma_same_fleet_trans(vs, vs2, vs4);
        let (vs1, incs1b) = sim_step(vs, incs, g, sched, timestep, time);
        assert(vs1 == vs4);
        let next = if time + timestep > u64::MAX { u64::MAX } else { (time + timestep) as Time };
        law_simulation_keeps_fleet(vs1, incs1b, g, sched, timestep, end_time, next);
        lemma_same_fleet_trans(vs, vs1, simulate(vs1, incs1b, g, sched, timestep, end_time, next).0);
    }
}

/// The response time of an incident when the simulation stops at `end`: until the
/// police arrived, or until `end` if they never did.
pub open spec fn response_time(inc: IncidentState, end: Time) -> Time {
    match inc.resolved_time {
        Some(r) => r.saturating_sub(inc.creation_time),
        None => end.saturating_sub(inc.creation_time),
    }
}

/// The sum of the response times of the reachable incidents among the first `n`.
pub open spec fn response_total(incs: Seq<IncidentState>, end: Time, n: nat) -> Time
    decreases n,
{
    if n == 0 {
        0
    } else if incs[n - 1].valid {
        response_total(incs, end, (n - 1) as nat).saturating_add(response_time(incs[n - 1], end))
    } else {
        response_total(incs, end, (n - 1) as nat)
    }
}

/// The number of reachable incidents among the first `n`.
pub open spec fn valid_count(incs: Seq<IncidentState>, n: nat) -> nat
    decreases n,
{
    if n == 0 {
        0
    } else if incs[n - 1].valid {
        valid_count(incs, (n - 1) as nat) + 1
    } else {
        valid_count(incs, (n - 1) as nat)
    }
}

/// The average response time over the reachable incidents (rounded down), or `None`
/// when there is no reachable incident.
pub open spec fn mean_response(incs: Seq<IncidentState>, end: Time) -> Option<Time> {
    if valid_count(incs, incs.len()) == 0 {
        None
    } else {
        Some((response_total(incs, end, incs.len()) as int / valid_count(incs, incs.len()) as int) as Time)
    }
}

/// The sum of a list of times, as an integer.
pub open spec fn time_sum(ts: Seq<Time>) -> int
    decreases ts.len(),
{
    if ts.len() == 0 {
        0
    } else {
        time_sum(ts.drop_last()) + ts.last()
    }
}

/// The response times of the reachable incidents, in order: from creation until the
/// police arrived, or until `end` for an incident they never reached.
pub open spec fn reachable_responses(incs: Seq<IncidentState>, end: Time) -> Seq<Time> {
    incs.filter(|i: IncidentState| i.valid).map_values(
        |i: IncidentState|
            match i.resolved_time {
                Some(r) => r.saturating_sub(i.creation_time),
                None => end.saturating_sub(i.creation_time),
            },
    )
}

proof fn lemma_totals_match(incs: Seq<IncidentState>, end: Time, n: nat)
    requires
        n <= incs.len(),
    ensures
        valid_count(incs, n) == reachable_responses(incs.take(n as int), end).len(),
        time_sum(reachable_responses(incs.take(n as int), end)) <= u64::MAX ==> response_total(incs, end, n)
            == time_sum(reachable_responses(incs.take(n as int), end)),
        time_sum(reachable_responses(incs.take(n as int), end)) >= 0,
    decreases n,
{
    reveal(Seq::filter);
    let t = incs.take(n as int);
    if n == 0 {
        assert(t =~= Seq::<IncidentState>::empty());
        assert(t.filter(|i: IncidentState| i.valid) =~= Seq::<IncidentState>::empty());
        assert(reachable_responses(t, end) =~= Seq::<Time>::empty());
    } else {
        lemma_totals_match(incs, end, (n - 1) as nat);
        let t0 = incs.take(n - 1);
        assert(t.drop_last() =~= t0);
        assert(t.last() == incs[n - 1]);
        let f0 = t0.filter(|i: IncidentState| i.valid);
        let f = t.filter(|i: IncidentState| i.valid);
        let r0 = reachable_responses(t0, end);
        let r = reachable_responses(t, end);
        if incs[n - 1].valid {
            assert(f == f0.push(incs[n - 1]));
            assert(r.drop_last() =~= r0);
            assert(r.last() == response_time(incs[n - 1], end));
        } else {
            assert(f == f0);
            assert(r =~= r0);
        }
    }
}

proof fn lemma_sum_bounds(ts: Seq<Time>, x: int)
    ensures
        (forall|i: int| 0 <= i < ts.len() ==> #[trigger] ts[i] >= x) ==> time_sum(ts) >= x * ts.len(),
        (forall|i: int| 0 <= i < ts.len() ==> #[trigger] ts[i] <= x) ==> time_sum(ts) <= x * ts.len(),
    decreases ts.len(),
{
    if ts.len() > 0 {
        lemma_sum_bounds(ts.drop_last(), x);
        let n = ts.len() as int;
        assert(x * (n - 1) + x == x * n) by (nonlinear_arith);
        if forall|i: int| 0 <= i < ts.len() ==> #[trigger] ts[i] >= x {
            assert forall|i: int| 0 <= i < ts.drop_last().len() implies #[trigger] ts.drop_last()[i] >= x by {
                assert(ts.drop_last()[i] == ts[i]);
            }
            assert(ts.last() >= x);
        }
        if forall|i: int| 0 <= i < ts.len() ==> #[trigger] ts[i] <= x {
            assert forall|i: int| 0 <= i < ts.drop_last().len() implies #[trigger] ts.drop_last()[i] <= x by {
                assert(ts.drop_last()[i] == ts[i]);
            }
            assert(ts.last() <= x);
        }
    }
}

proof fn lemma_min_max_index(ts: Seq<Time>) -> (r: (int, int))
    requires
        ts.len() > 0,
    ensures
        0 <= r.0 < ts.len(),
        0 <= r.1 < ts.len(),
        forall|i: int| 0 <= i < ts.len() ==> ts[r.0] <= #[trigger] ts[i] && ts[i] <= ts[r.1],
    decreases ts.len(),
{
    if ts.len() == 1 {
        (0, 0)
    } else {
        let d = ts.drop_last();
        let (a, b) = lemma_min_max_index(d);
        let last = ts.len() - 1;
        let lo = if ts[last] < ts[a] { last } else { a };
        let hi = if ts[last] > ts[b] { last } else { b };
        assert forall|i: int| 0 <= i < ts.len() implies ts[lo] <= #[trigger] ts[i] && ts[i] <= ts[hi] by {
            if i < last {
                assert(d[i] == ts[i]);
            }
        }
        (lo, hi)
    }
}

/// The mean response time of a run is the mean of the response times of its reachable
/// incidents: there is none when no incident was reachable; otherwise it is their sum
/// divided by their number (rounded down), so it lies between the smallest and the largest
/// of them. (Stated where the sum does not exceed `Time::MAX`, beyond which the running
/// total saturates.)
pub proof fn law_mean_response_is_the_mean(incs: Seq<IncidentState>, end: Time)
    ensures
        ({
            let rs = reachable_responses(incs, end);
            &&& rs.len() == 0 ==> mean_response(incs, end) is None
            &&& rs.len() > 0 && time_sum(rs) <= u64::MAX ==> (mean_response(incs, end) matches Some(m) && m
                == time_sum(rs) / (rs.len() as int) && (exists|j: int| 0 <= j < rs.len() && rs[j] <= m) && (exists|
                k: int,
            | 0 <= k < rs.len() && m <= rs[k]))
        }),
{
    lemma_totals_match(incs, end, incs.len());
    assert(incs.take(incs.len() as int) =~= incs);
    let rs = reachable_responses(incs, end);
    if rs.len() > 0 && time_sum(rs) <= u64::MAX {
        let n = rs.len() as int;
        let total = time_sum(rs);
        let m = total / n;
        let (lo, hi) = lemma_min_max_index(rs);
        lemma_sum_bounds(rs, rs[lo] as int);
        lemma_sum_bounds(rs, rs[hi] as int);
        assert(rs[lo] * n <= total);
        assert(total <= rs[hi] * n);
        assert(rs[lo] <= m && m <= rs[hi]) by (nonlinear_arith)
            requires
                n > 0,
                m == total / n,
                rs[lo] * n <= total,
                total <= rs[hi] * n,
        ;
        assert(0 <= m <= u64::MAX) by (nonlinear_arith)
            requires
                n > 0,
                m == total / n,
                0 <= total <= u64::MAX,
        ;
    }
}

/// The locations of the incidents that turned out to be unreachable.
pub open spec fn unreachable_locations(incs: Seq<IncidentState>) -> Set<Location> {
    Set::new(|l: Location| exists|k: int| 0 <= k < incs.len() && !incs[k].valid && #[trigger] incs[k].location == l)
}

proof fn lemma_valid_count_le(incs: Seq<IncidentState>, n: nat)
    ensures
        valid_count(incs, n) <= n,
    decreases n,
{
    if n > 0 {
        lemma_valid_count_le(incs, (n - 1) as nat);
    }
}

/// Scores the finished incidents: adds the locations of the unreachable ones to
/// `unreachable_set` and returns the mean response time of the others.
fn score_incidents(incidents: &Vec<Incident>, time: Time, unreachable_set: &mut HashSet<Location>) -> (r: Option<Time>)
    ensures
        r == mean_response(incident_states(incidents@), time),
        reachable_responses(incident_states(incidents@), time).len() == 0 ==> r is None,
        ({
            let rs = reachable_responses(incident_states(incidents@), time);
            rs.len() > 0 && time_sum(rs) <= u64::MAX ==> r == Some((time_sum(rs) / (rs.len() as int)) as Time)
        }),
        final(unreachable_set)@ == old(unreachable_set)@.union(unreachable_locations(incident_states(incidents@))),
{
    proof {
        law_mean_response_is_the_mean(incident_states(incidents@), time);
    }
    let ghost incs = incident_states(incidents@);
    let mut sum_response_times: Time = 0;
    let mut inc_count: usize = 0;
    let mut i: usize = 0;
    while i < incidents.len()
        invariant
            i <= incidents.len(),
            incs == incident_states(incidents@),
            sum_response_times == response_total(incs, time, i as nat),
            inc_count == valid_count(incs, i as nat),
            unreachable_set@ == old(unreachable_set)@.union(
                unreachable_locations(incs.take(i as int)),
            ),
        decreases incidents.len() - i,
    {
        let event = incidents[i];
        proof {
            lemma_valid_count_le(incs, i as nat);
            assert(incs[i as int] == event@);
        }
        if event.is_valid() {
            inc_count += 1;
            match event.get_resolved_time() {
                Some(resolved_time) => {
                    let response_time: Time = resolved_time.saturating_sub(event.get_creation_time());
                    sum_response_times = sum_response_times.saturating_add(response_time);
                },
                None => {
                    let response_time: Time = time.saturating_sub(event.get_creation_time());
                    sum_response_times = sum_response_times.saturating_add(response_time);
                },
            }
        } else {
            unreachable_set.insert(event.get_location());
        }
        proof {
            let t0 = incs.take(i as int);
            let t1 = incs.take(i + 1);
            assert(t1 =~= t0.push(incs[i as int]));
            assert(unreachable_set@ =~= old(unreachable_set)@.union(unreachable_locations(t1))) by {
                assert forall|l: Location| unreachable_locations(t1).contains(l) implies #[trigger] unreachable_set@.contains(l) by {
                    let k = choose|k: int| 0 <= k < t1.len() && !t1[k].valid && #[trigger] t1[k].location == l;
                    if k < i {
                        assert(t0[k] == t1[k]);
                        assert(unreachable_locations(t0).contains(l));
                    }
                }
                assert forall|l: Location| unreachable_locations(t0).contains(l) implies #[trigger] unreachable_locations(t1).contains(l) by {
                    let k = choose|k: int| 0 <= k < t0.len() && !t0[k].valid && #[trigger] t0[k].location == l;
                    assert(t1[k] == t0[k]);
                }
                if !event@.valid {
                    assert(t1[i as int] == event@);
                    assert(unreachable_locations(t1).contains(event@.location));
                }
            }
        }
        i += 1;
    }
    proof {
        assert(incs.take(i as int) =~= incs);
    }
    if inc_count == 0 {
        None
    } else {
        Some(sum_response_times / (inc_count as Time))
    }
}

/// Runs one simulation from time 0 until `end_time` on the given schedule and returns the
/// mean response time over the reachable incidents (`None` when there is none). The
/// locations of unreachable incidents are added to `unreachable_set`.
pub fn run(
    graph: &HashMap<Location, Node>,
    spawn_stack: &Vec<Vec<Incident>>,
    vehicles: &mut Vec<Vehicle>,
    route_cache: &mut RouteCache,
    timestep: Time,
    end_time: Time,
    unreachable_set: &mut HashSet<Location>,
) -> (r: Option<Time>)
    requires
        cache_exact(graph@, old(route_cache)@),
        timestep > 0,
        spawn_stack@.len() * timestep >= end_time,
        fleet_routable(graph@, fleet(old(vehicles)@)),
    ensures
        ({
            let (vs, incs, t) = simulate(
                fleet(old(vehicles)@),
                Seq::empty(),
                graph@,
                schedule(spawn_stack@),
                timestep,
                end_time,
                0,
            );
            &&& fleet(final(vehicles)@) == vs
            &&& r == mean_response(incs, t)
            &&& reachable_responses(incs, t).len() == 0 ==> r is None
            &&& reachable_responses(incs, t).len() > 0 && time_sum(reachable_responses(incs, t)) <= u64::MAX ==> r
                == Some((time_sum(reachable_responses(incs, t)) / (reachable_responses(incs, t).len() as int)) as Time)
            &&& final(unreachable_set)@ == old(unreachable_set)@.union(unreachable_locations(incs))
        }),
        cache_exact(graph@, final(route_cache)@),
        cache_grown(
            old(route_cache)@,
            final(route_cache)@,
            simulate_pairs(fleet(old(vehicles)@), Seq::empty(), graph@, schedule(spawn_stack@), timestep, end_time, 0),
        ),
{
    let ghost g = graph@;
    let ghost sched = schedule(spawn_stack@);
    let ghost whole = simulate(fleet(vehicles@), Seq::empty(), g, sched, timestep, end_time, 0);
    let ghost all_pairs = simulate_pairs(fleet(vehicles@), Seq::empty(), g, sched, timestep, end_time, 0);
    let ghost mut done = Set::<(Location, Location)>::empty();
    let mut incidents: Vec<Incident> = Vec::new();
    let mut time: Time = 0;
    proof {
        assert(incident_states(incidents@) =~= Seq::<IncidentState>::empty());
        lemma_cache_grown_none(route_cache@);
        assert(done.union(all_pairs) =~= all_pairs);
    }
    while time < end_time
        invariant
            g == graph@,
            sched == schedule(spawn_stack@),
            cache_exact(g, old(route_cache)@),
            cache_exact(g, route_cache@),
            cache_grown(old(route_cache)@, route_cache@, done),
            done.union(simulate_pairs(fleet(vehicles@), incident_states(incidents@), g, sched, timestep, end_time, time))
                == all_pairs,
            timestep > 0,
            spawn_stack@.len() * timestep >= end_time,
            fleet_routable(g, fleet(vehicles@)),
            simulate(fleet(vehicles@), incident_states(incidents@), g, sched, timestep, end_time, time) == whole,
        decreases (if time < end_time { end_time - time } else { 0 }),
    {
        let ghost cache_before = route_cache@;
        let n_steps: usize = spawn_stack.len();
        proof {
            assert((time / timestep) < spawn_stack@.len()) by (nonlinear_arith)
                requires
                    time < end_time,
                    spawn_stack@.len() * timestep >= end_time,
                    timestep > 0,
            ;
        }
        let index: usize = (time / timestep) as usize;
        let ghost vsb = fleet(vehicles@);
        let ghost isb = incident_states(incidents@);
        spawn_incidents(spawn_stack, &mut incidents, index);
        proof {
            assert(sched[index as int] == incident_states(spawn_stack@[index as int]@));
            assert(incident_states(incidents@) =~= isb + sched[index as int]);
        }
        dispatching(vehicles, &mut incidents, graph, route_cache, time);
        let ghost vs2 = fleet(vehicles@);
        step_vehicles(vehicles, timestep);
        proof {
            assert(fleet(vehicles@) =~= vs2.map_values(|v: VehicleState| v.after_step(timestep)));
            assert(index as int == (time / timestep) as int);
            let step = sim_step_pairs(vsb, isb, g, sched, timestep, time);
            lemma_cache_grown_trans(old(route_cache)@, cache_before, route_cache@, done, step);
            let next = if time + timestep > u64::MAX { u64::MAX } else { (time + timestep) as Time };
            let rest = simulate_pairs(fleet(vehicles@), incident_states(incidents@), g, sched, timestep, end_time, next);
            assert(simulate_pairs(vsb, isb, g, sched, timestep, end_time, time) == step.union(rest));
            assert(done.union(step).union(rest) =~= done.union(step.union(rest)));
            done = done.union(step);
        }
        time = time.saturating_add(timestep);
    }
    proof {
        assert(done.union(Set::empty()) =~= done);
    }
    let r = score_incidents(&incidents, time, unreachable_set);
    r
}

/// The character of decimal digit `d`.
pub open spec fn digit_char(d: nat) -> char {
    (48 + d) as char
}

/// `n` written in decimal.
pub open spec fn decimal(n: nat) -> Seq<char>
    decreases n,
{
    if n < 10 {
        seq![digit_char(n)]
    } else {
        decimal(n / 10).push(digit_char(n % 10))
    }
}

/// The name of the car with number `n`: "Car " and the number in decimal.
pub open spec fn car_label(n: nat) -> Seq<char> {
    seq!['C', 'a', 'r', ' '] + decimal(n)
}

/// The decimal digit `d` as a string.
fn digit_text(d: u8) -> (s: &'static str)
    requires
        d < 10,
    ensures
        s@ == seq![digit_char(d as nat)],
{
    match d {
        0 => { proof { reveal_strlit("0"); } "0" },
        1 => { proof { reveal_strlit("1"); } "1" },
        2 => { proof { reveal_strlit("2"); } "2" },
        3 => { proof { reveal_strlit("3"); } "3" },
        4 => { proof { reveal_strlit("4"); } "4" },
        5 => { proof { reveal_strlit("5"); } "5" },
        6 => { proof { reveal_strlit("6"); } "6" },
        7 => { proof { reveal_strlit("7"); } "7" },
        8 => { proof { reveal_strlit("8"); } "8" },
        _ => { proof { reveal_strlit("9"); } "9" },
    }
}

/// Names a car by its number: "Car " and the number in decimal.
fn car_name(counter: u8) -> (name: String)
    ensures
        name@ == car_label(counter as nat),
{
    let mut name: String = String::from_str("Car ");
    proof {
        reveal_strlit("Car ");
    }
    if counter >= 100 {
        name.append(digit_text(counter / 100));
    }
    if counter >= 10 {
        name.append(digit_text((counter / 10) % 10));
    }
    name.append(digit_text(counter % 10));
    proof {
        let n = counter as nat;
        reveal_with_fuel(decimal, 3);
        if n >= 100 {
            assert(decimal(n / 10) == decimal(n / 100).push(digit_char((n / 10) % 10)));
            assert(decimal(n / 100) == seq![digit_char(n / 100)]);
        } else if n >= 10 {
            assert(decimal(n / 10) == seq![digit_char(n / 10)]);
            assert((n / 10) % 10 == n / 10);
        }
        assert(name@ =~= car_label(n));
    }
    name
}

/// The number of cars that the first `n` bases of a solution hold.
pub open spec fn cars_at_first(solution: Seq<u8>, n: nat) -> nat
    decreases n,
{
    if n == 0 {
        0
    } else {
        cars_at_first(solution, (n - 1) as nat) + solution[n - 1] as nat
    }
}

/// The fleet of a solution over the first `n` bases: base after base, as many cars as the
/// solution gives it, numbered from 0 in that order, each free at its base.
pub open spec fn initial_fleet(solution: Seq<u8>, bases: Seq<Location>, n: nat) -> Seq<VehicleState>
    decreases n,
{
    if n == 0 {
        Seq::empty()
    } else {
        let before = initial_fleet(solution, bases, (n - 1) as nat);
        before + Seq::new(
            solution[n - 1] as nat,
            |j: int| VehicleState {
                base: bases[n - 1],
                location: bases[n - 1],
                secs_till_free: 0,
                name: car_label((before.len() + j) as nat),
                last_travel: 0,
                just_come_from_base: false,
            },
        )
    }
}

proof fn lemma_initial_fleet_len(solution: Seq<u8>, bases: Seq<Location>, n: nat)
    ensures
        initial_fleet(solution, bases, n).len() == cars_at_first(solution, n),
    decreases n,
{
    if n > 0 {
        lemma_initial_fleet_len(solution, bases, (n - 1) as nat);
    }
}

pub proof fn lemma_cars_at_first_mono(solution: Seq<u8>, m: nat, n: nat)
    requires
        m <= n,
    ensures
        cars_at_first(solution, m) <= cars_at_first(solution, n),
    decreases n - m,
{
    if m < n {
        lemma_cars_at_first_mono(solution, m, (n - 1) as nat);
    }
}

/// Adds two fitness values; `None` (no value) absorbs.
pub open spec fn add_fitness(a: Option<Time>, b: Option<Time>) -> Option<Time> {
    match (a, b) {
        (Some(x), Some(y)) => Some(x.saturating_add(y)),
        _ => None,
    }
}

/// The sum of `k` copies of a fitness value.
pub open spec fn fitness_sum(x: Option<Time>, k: nat) -> Option<Time>
    decreases k,
{
    if k == 0 {
        Some(0)
    } else {
        add_fitness(fitness_sum(x, (k - 1) as nat), x)
    }
}

/// The mean of `k` evaluations that each gave `x`; `None` when `k` is 0.
pub open spec fn repeated_mean(x: Option<Time>, k: nat) -> Option<Time> {
    if k == 0 {
        None
    } else {
        match fitness_sum(x, k) {
            Some(sum) => Some((sum as int / k as int) as Time),
            None => None,
        }
    }
}

/// The fitness of a solution: the mean, over `iterations` runs, of the mean response time
/// of a simulation with the cars that the solution places at `bases`.
pub open spec fn solution_fitness(
    solution: Seq<u8>,
    iterations: u8,
    g: Map<Location, Node>,
    sched: Seq<Seq<IncidentState>>,
    bases: Seq<Location>,
    timestep: Time,
    end_time: Time,
) -> Option<Time> {
    let (vs, incs, t) = simulate(initial_fleet(solution, bases, bases.len()), Seq::empty(), g, sched, timestep, end_time, 0);
    repeated_mean(mean_response(incs, t), iterations as nat)
}

/// The conditions under which solutions can be evaluated on a graph, a schedule and a
/// list of bases with a route cache.
pub open spec fn evaluation_ready(
    g: Map<Location, Node>,
    cache: Map<(Location, Location), Option<Time>>,
    spawn_stack: Seq<Vec<Incident>>,
    bases: Seq<Location>,
    timestep: Time,
    end_time: Time,
) -> bool {
    &&& cache_exact(g, cache)
    &&& timestep > 0
    &&& spawn_stack.len() * timestep >= end_time
    &&& forall|k: int| 0 <= k < bases.len() ==> reachable_wf(g, #[trigger] bases[k])
}

/// The vehicles that a solution stands for: `solution[i]` cars at base `i`, named
/// "Car 0", "Car 1", ... in that order.
pub fn build_fleet(solution: &Vec<u8>, base_locations: &Vec<Location>) -> (vehicles: Vec<Vehicle>)
    requires
        solution@.len() >= base_locations@.len(),
        cars_at_first(solution@, base_locations@.len() as nat) <= 255,
    ensures
        fleet(vehicles@) == initial_fleet(solution@, base_locations@, base_locations@.len() as nat),
{
    let mut vehicles: Vec<Vehicle> = Vec::new();
    let mut counter: u8 = 0;
    let mut i: usize = 0;
    while i < base_locations.len()
        invariant
            i <= base_locations.len(),
            solution@.len() >= base_locations@.len(),
            cars_at_first(solution@, base_locations@.len() as nat) <= 255,
            fleet(vehicles@) == initial_fleet(solution@, base_locations@, i as nat),
            counter as nat == cars_at_first(solution@, i as nat),
        decreases base_locations.len() - i,
    {
        let base: Location = base_locations[i];
        let ghost before = initial_fleet(solution@, base_locations@, i as nat);
        proof {
            lemma_initial_fleet_len(solution@, base_locations@, i as nat);
            lemma_cars_at_first_mono(solution@, (i + 1) as nat, base_locations@.len() as nat);
        }
        let mut made: u8 = 0;
        while made < solution[i]
            invariant
                i < base_locations.len(),
                solution@.len() >= base_locations@.len(),
                base == base_locations@[i as int],
                made <= solution@[i as int],
                counter as nat == cars_at_first(solution@, i as nat) + made,
                cars_at_first(solution@, (i + 1) as nat) <= 255,
                before == initial_fleet(solution@, base_locations@, i as nat),
                before.len() == cars_at_first(solution@, i as nat),
                fleet(vehicles@) =~= before + Seq::new(
                    made as nat,
                    |j: int| VehicleState {
                        base: base,
                        location: base,
                        secs_till_free: 0,
                        name: car_label((before.len() + j) as nat),
                        last_travel: 0,
                        just_come_from_base: false,
                    },
                ),
            decreases solution@[i as int] - made,
        {
            let name: String = car_name(counter);
            let car: Vehicle = Vehicle::new(base, name);
            let ghost pre = vehicles@;
            let ghost made_before = made;
            vehicles.push(car);
            proof {
                assert(fleet(vehicles@) =~= fleet(pre).push(car@));
                assert(car@.name == car_label((before.len() + made_before) as nat));
            }
            counter += 1;
            made += 1;
        }
        i += 1;
    }
    vehicles
}

/// Evaluates a solution: runs the simulation `iterations` times with the cars that the
/// solution places at the bases, and returns the mean of the runs' mean response times.
/// `None` when `iterations` is 0 or a run has no reachable incident.
pub fn evaluate(
    solution: &Vec<u8>,
    iterations: u8,
    spawn_stack: &Vec<Vec<Incident>>,
    graph: &HashMap<Location, Node>,
    base_locations: &Vec<Location>,
    route_cache: &mut RouteCache,
    timestep: Time,
    end_time: Time,
    unreachable_set: &mut HashSet<Location>,
) -> (r: Option<Time>)
    requires
        cache_exact(graph@, old(route_cache)@),
        timestep > 0,
        spawn_stack@.len() * timestep >= end_time,
        forall|k: int| 0 <= k < base_locations@.len() && solution@[k] > 0 ==> reachable_wf(graph@, #[trigger] base_locations@[k]),
        solution@.len() >= base_locations@.len(),
        cars_at_first(solution@, base_locations@.len() as nat) <= 255,
    ensures
        ({
            let (vs, incs, t) = simulate(
                initial_fleet(solution@, base_locations@, base_locations@.len() as nat),
                Seq::empty(),
                graph@,
                schedule(spawn_stack@),
                timestep,
                end_time,
                0,
            );
            &&& r == repeated_mean(mean_response(incs, t), iterations as nat)
            &&& r == solution_fitness(
                solution@,
                iterations,
                graph@,
                schedule(spawn_stack@),
                base_locations@,
                timestep,
                end_time,
            )
            &&& final(unreachable_set)@ == if iterations == 0 {
                old(unreachable_set)@
            } else {
                old(unreachable_set)@.union(unreachable_locations(incs))
            }
        }),
        cache_exact(graph@, final(route_cache)@),
        iterations == 0 ==> final(route_cache)@ == old(route_cache)@,
        iterations > 0 ==> cache_grown(
            old(route_cache)@,
            final(route_cache)@,
            simulate_pairs(
                initial_fleet(solution@, base_locations@, base_locations@.len() as nat),
                Seq::empty(),
                graph@,
                schedule(spawn_stack@),
                timestep,
                end_time,
                0,
            ),
        ),
{
    let ghost fleet0 = initial_fleet(solution@, base_locations@, base_locations@.len() as nat);
    let ghost pairs = simulate_pairs(fleet0, Seq::empty(), graph@, schedule(spawn_stack@), timestep, end_time, 0);
    let ghost outcome = simulate(fleet0, Seq::empty(), graph@, schedule(spawn_stack@), timestep, end_time, 0);
    let ghost x = mean_response(outcome.1, outcome.2);
    let mut sum_avg_response_times: Option<Time> = Some(0);
    let mut it: u8 = 0;
    while it < iterations
        invariant
            cache_exact(graph@, route_cache@),
            timestep > 0,
            spawn_stack@.len() * timestep >= end_time,
            forall|k: int| 0 <= k < base_locations@.len() && solution@[k] > 0 ==> reachable_wf(graph@, #[trigger] base_locations@[k]),
            cache_exact(graph@, old(route_cache)@),
            pairs == simulate_pairs(fleet0, Seq::empty(), graph@, schedule(spawn_stack@), timestep, end_time, 0),
            it == 0 ==> route_cache@ == old(route_cache)@,
            it > 0 ==> cache_grown(old(route_cache)@, route_cache@, pairs),
            solution@.len() >= base_locations@.len(),
            cars_at_first(solution@, base_locations@.len() as nat) <= 255,
            fleet0 == initial_fleet(solution@, base_locations@, base_locations@.len() as nat),
            outcome == simulate(fleet0, Seq::empty(), graph@, schedule(spawn_stack@), timestep, end_time, 0),
            x == mean_response(outcome.1, outcome.2),
            it <= iterations,
            sum_avg_response_times == fitness_sum(x, it as nat),
            unreachable_set@ == if it == 0 {
                old(unreachable_set)@
            } else {
                old(unreachable_set)@.union(unreachable_locations(outcome.1))
            },
        decreases iterations - it,
    {
        let mut vehicles: Vec<Vehicle> = build_fleet(solution, base_locations);
        proof {
            lemma_fleet_routable(graph@, solution@, base_locations@, base_locations@.len() as nat);
        }
        let ghost cache_before = route_cache@;
        let avg_response_time = run(graph, spawn_stack, &mut vehicles, route_cache, timestep, end_time, unreachable_set);
        proof {
            if it > 0 {
                lemma_cache_grown_trans(old(route_cache)@, cache_before, route_cache@, pairs, pairs);
                assert(pairs.union(pairs) =~= pairs);
            }
        }
        sum_avg_response_times = match (sum_avg_response_times, avg_response_time) {
            (Some(a), Some(b)) => Some(a.saturating_add(b)),
            _ => None,
        };
        proof {
            if it > 0 {
                assert(unreachable_set@ =~= old(unreachable_set)@.union(unreachable_locations(outcome.1)));
            }
        }
        it += 1;
    }
    if iterations == 0 {
        None
    } else {
        match sum_avg_response_times {
            Some(sum) => Some(sum / (iterations as Time)),
            None => None,
        }
    }
}

proof fn lemma_fleet_routable(g: Map<Location, Node>, solution: Seq<u8>, bases: Seq<Location>, n: nat)
    requires
        n <= bases.len(),
        n <= solution.len(),
        forall|k: int| 0 <= k < bases.len() && k < solution.len() && solution[k] > 0 ==> reachable_wf(g, #[trigger] bases[k]),
    ensures
        fleet_routable(g, initial_fleet(solution, bases, n)),
    decreases n,
{
    if n > 0 {
        lemma_fleet_routable(g, solution, bases, (n - 1) as nat);
        let before = initial_fleet(solution, bases, (n - 1) as nat);
        let all = initial_fleet(solution, bases, n);
        if solution[n - 1] > 0 {
            assert(reachable_wf(g, bases[n - 1]));
        } else {
            assert(all =~= before);
        }
        assert forall|k: int| 0 <= k < all.len() implies reachable_wf(g, #[trigger] all[k].location) && reachable_wf(g, 
            all[k].base,
        ) by {
            if k < before.len() {
                assert(all[k] == before[k]);
            }
        }
    }
}

} // verus!
