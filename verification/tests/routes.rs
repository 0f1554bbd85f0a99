use std::collections::HashMap;

use simulation::node::Node;
use simulation::route_cache::RouteCache;
use simulation::simulation::{calc_travel_time, dijkstra};

/// 1 -5-> 2 -5-> 3, 1 -20-> 3, 3 -7-> 1; 4 has no way out; 5 -> 4.
fn small_graph() -> HashMap<u64, Node> {
    let mut g = HashMap::new();
    g.insert(1, Node::new(vec![2, 3], vec![5, 20]));
    g.insert(2, Node::new(vec![3], vec![5]));
    g.insert(3, Node::new(vec![1], vec![7]));
    g.insert(4, Node::new(vec![], vec![]));
    g.insert(5, Node::new(vec![4], vec![1]));
    g
}

#[test]
fn dijkstra_takes_the_cheaper_route() {
    let g = small_graph();
    let mut cache = RouteCache::new();
    assert_eq!(dijkstra(&g, &mut cache, 1, 3), Some(10));
    assert_eq!(cache.get(1, 3), Some(Some(10)));
}

#[test]
fn dijkstra_follows_edges_around() {
    let g = small_graph();
    let mut cache = RouteCache::new();
    assert_eq!(dijkstra(&g, &mut cache, 3, 2), Some(12));
    assert_eq!(dijkstra(&g, &mut cache, 2, 1), Some(12));
}

#[test]
fn dijkstra_reports_unreachable() {
    let g = small_graph();
    let mut cache = RouteCache::new();
    assert_eq!(dijkstra(&g, &mut cache, 1, 4), None);
    assert_eq!(cache.get(1, 4), Some(None));
    // what the run settled is cached with its shortest time
    assert_eq!(cache.get(1, 2), Some(Some(5)));
    assert_eq!(cache.get(1, 3), Some(Some(10)));
    assert_eq!(cache.get(1, 1), Some(Some(0)));
}

#[test]
fn dijkstra_to_itself_is_free() {
    let g = small_graph();
    let mut cache = RouteCache::new();
    assert_eq!(dijkstra(&g, &mut cache, 3, 3), Some(0));
    // a location outside the graph reaches only itself
    assert_eq!(dijkstra(&g, &mut cache, 99, 99), Some(0));
}

#[test]
fn dijkstra_saturates_long_routes() {
    let mut g = HashMap::new();
    g.insert(1, Node::new(vec![2], vec![u64::MAX - 1]));
    g.insert(2, Node::new(vec![3], vec![10]));
    g.insert(3, Node::new(vec![], vec![]));
    let mut cache = RouteCache::new();
    assert_eq!(dijkstra(&g, &mut cache, 1, 3), Some(u64::MAX));
}

#[test]
fn dijkstra_prefers_cheap_parallel_edge() {
    let mut g = HashMap::new();
    g.insert(1, Node::new(vec![2, 2], vec![9, 4]));
    g.insert(2, Node::new(vec![], vec![]));
    let mut cache = RouteCache::new();
    assert_eq!(dijkstra(&g, &mut cache, 1, 2), Some(4));
}

#[test]
fn cached_travel_time_equals_a_fresh_calculation() {
    let g = small_graph();
    let mut warm = RouteCache::new();
    // warm the cache with runs that settle other pairs first
    assert_eq!(calc_travel_time(1, 4, &mut warm, &g), None);
    assert_eq!(calc_travel_time(3, 2, &mut warm, &g), Some(12));
    for s in 1..=5u64 {
        for t in 1..=5u64 {
            let mut fresh = RouteCache::new();
            let a = calc_travel_time(s, t, &mut warm, &g);
            let b = calc_travel_time(s, t, &mut fresh, &g);
            assert_eq!(a, b, "from {} to {}", s, t);
            assert_eq!(calc_travel_time(s, t, &mut warm, &g), a);
        }
    }
}

#[test]
fn calc_travel_time_answers_from_the_cache() {
    let g = small_graph();
    let mut cache = RouteCache::new();
    cache.insert(1, 3, Some(10));
    assert_eq!(calc_travel_time(1, 3, &mut cache, &g), Some(10));
    assert_eq!(calc_travel_time(5, 4, &mut cache, &g), Some(1));
    assert_eq!(cache.get(5, 4), Some(Some(1)));
}

#[test]
fn dijkstra_caches_what_it_settles_on_the_way() {
    let mut g = HashMap::new();
    g.insert(1, Node::new(vec![2, 3], vec![10, 20]));
    g.insert(2, Node::new(vec![3], vec![5]));
    g.insert(3, Node::new(vec![], vec![]));
    let mut cache = RouteCache::new();
    assert_eq!(dijkstra(&g, &mut cache, 1, 3), Some(15));
    assert_eq!(cache.get(1, 3), Some(Some(15)));
    assert_eq!(cache.get(1, 2), Some(Some(10)));
}

#[test]
fn dijkstra_caches_everything_reachable_when_the_target_is_not() {
    let mut g = HashMap::new();
    g.insert(1, Node::new(vec![2], vec![4]));
    g.insert(2, Node::new(vec![], vec![]));
    g.insert(3, Node::new(vec![], vec![]));
    let mut cache = RouteCache::new();
    assert_eq!(dijkstra(&g, &mut cache, 1, 3), None);
    assert_eq!(cache.get(1, 3), Some(None));
    assert_eq!(cache.get(1, 2), Some(Some(4)));
}

#[test]
fn dijkstra_finds_nothing_off_the_graph() {
    let g = small_graph();
    let mut cache = RouteCache::new();
    assert_eq!(dijkstra(&g, &mut cache, 1, 99), None);
    assert_eq!(cache.get(1, 99), Some(None));
}

#[test]
fn cached_route_is_answered_without_the_graph() {
    let g: HashMap<u64, Node> = HashMap::new();
    let mut cache = RouteCache::new();
    cache.insert(1, 2, Some(7));
    assert_eq!(calc_travel_time(1, 2, &mut cache, &g), Some(7));
    assert_eq!(cache.get(1, 2), Some(Some(7)));
    assert_eq!(cache.get(2, 1), None);
}

#[test]
fn dijkstra_caches_locations_as_far_as_the_target() {
    let mut g = HashMap::new();
    g.insert(1, Node::new(vec![2, 3], vec![5, 5]));
    g.insert(2, Node::new(vec![4], vec![0]));
    g.insert(3, Node::new(vec![5], vec![1]));
    g.insert(4, Node::new(vec![], vec![]));
    g.insert(5, Node::new(vec![], vec![]));
    let mut cache = RouteCache::new();
    assert_eq!(dijkstra(&g, &mut cache, 1, 3), Some(5));
    assert_eq!(cache.get(1, 1), Some(Some(0)));
    assert_eq!(cache.get(1, 2), Some(Some(5)));
    assert_eq!(cache.get(1, 4), Some(Some(5)));
    assert_eq!(cache.get(1, 3), Some(Some(5)));
    assert_eq!(cache.get(1, 5), None);
}

#[test]
fn dijkstra_to_itself_needs_no_graph() {
    let g: HashMap<u64, Node> = HashMap::new();
    let mut cache = RouteCache::new();
    assert_eq!(dijkstra(&g, &mut cache, 7, 7), Some(0));
    assert_eq!(cache.get(7, 7), Some(Some(0)));
}

#[test]
fn cache_miss_gives_what_dijkstra_gives() {
    let g = small_graph();
    let mut a = RouteCache::new();
    let mut b = RouteCache::new();
    assert_eq!(calc_travel_time(1, 3, &mut a, &g), dijkstra(&g, &mut b, 1, 3));
    for s in 1..6 {
        for t in 1..6 {
            assert_eq!(a.get(s, t), b.get(s, t));
        }
    }
}
