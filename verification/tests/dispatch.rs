use std::collections::{HashMap, HashSet};

use simulation::incident::Incident;
use simulation::node::Node;
use simulation::route_cache::RouteCache;
use simulation::simulation::{build_fleet, dispatching, evaluate, run};
use simulation::vehicle::Vehicle;

fn small_graph() -> HashMap<u64, Node> {
    let mut g = HashMap::new();
    g.insert(1, Node::new(vec![2, 3], vec![5, 20]));
    g.insert(2, Node::new(vec![3], vec![5]));
    g.insert(3, Node::new(vec![1], vec![7]));
    g.insert(4, Node::new(vec![], vec![]));
    g.insert(5, Node::new(vec![4], vec![1]));
    g
}

#[test]
fn closest_free_vehicle_is_sent() {
    let g = small_graph();
    let mut cache = RouteCache::new();
    let mut vehicles = vec![Vehicle::new(3, String::from("far")), Vehicle::new(1, String::from("near"))];
    let mut incidents = vec![Incident::new(2, 100, 0, 1)];
    dispatching(&mut vehicles, &mut incidents, &g, &mut cache, 40);
    assert_eq!(incidents[0].get_resolved_time(), Some(45));
    assert!(incidents[0].is_valid());
    assert_eq!(vehicles[1].get_location(), 2);
    assert_eq!(vehicles[1].get_secs_till_free(), 105);
    assert!(vehicles[1].last_move_from_base());
    assert_eq!(vehicles[0].get_location(), 3);
    assert_eq!(vehicles[0].get_secs_till_free(), 0);
}

#[test]
fn first_of_equally_close_vehicles_is_sent() {
    let g = small_graph();
    let mut cache = RouteCache::new();
    let mut vehicles = vec![Vehicle::new(1, String::from("a")), Vehicle::new(1, String::from("b"))];
    let mut incidents = vec![Incident::new(3, 10, 0, 1), Incident::new(3, 10, 0, 1), Incident::new(3, 10, 0, 1)];
    dispatching(&mut vehicles, &mut incidents, &g, &mut cache, 0);
    assert_eq!(vehicles[0].get_location(), 3);
    assert_eq!(vehicles[1].get_location(), 3);
    assert_eq!(incidents[0].get_resolved_time(), Some(10));
    assert_eq!(incidents[1].get_resolved_time(), Some(10));
    // no free vehicle left for the third
    assert_eq!(incidents[2].get_resolved_time(), None);
    assert!(!incidents[2].is_solved());
}

#[test]
fn unreachable_incident_is_marked_invalid() {
    let g = small_graph();
    let mut cache = RouteCache::new();
    let mut vehicles = vec![Vehicle::new(1, String::from("a"))];
    let mut incidents = vec![Incident::new(4, 100, 0, 1)];
    dispatching(&mut vehicles, &mut incidents, &g, &mut cache, 0);
    assert!(!incidents[0].is_valid());
    assert_eq!(incidents[0].get_resolved_time(), None);
    assert_eq!(vehicles[0].get_location(), 1);
}

#[test]
fn solved_incidents_are_left_alone() {
    let g = small_graph();
    let mut cache = RouteCache::new();
    let mut vehicles = vec![Vehicle::new(1, String::from("a"))];
    let mut done = Incident::new(2, 100, 0, 1);
    done.solved(3);
    let mut incidents = vec![done];
    dispatching(&mut vehicles, &mut incidents, &g, &mut cache, 50);
    assert_eq!(incidents[0].get_resolved_time(), Some(3));
    assert_eq!(vehicles[0].get_location(), 1);
}

#[test]
fn vehicle_from_base_returns_over_its_last_travel() {
    let g = small_graph();
    let mut cache = RouteCache::new();
    let mut vehicles = vec![Vehicle::new(1, String::from("a"))];
    let mut incidents = vec![Incident::new(2, 0, 0, 1)];
    dispatching(&mut vehicles, &mut incidents, &g, &mut cache, 0);
    assert_eq!(vehicles[0].get_secs_till_free(), 5);
    vehicles[0].timestep(5);
    let mut none: Vec<Incident> = Vec::new();
    dispatching(&mut vehicles, &mut none, &g, &mut cache, 5);
    // back home over the last travel time (5), not the shortest way back (2 -> 3 -> 1 = 12)
    assert_eq!(vehicles[0].get_location(), 1);
    assert_eq!(vehicles[0].get_secs_till_free(), 5);
}

#[test]
fn vehicle_elsewhere_returns_over_the_shortest_route() {
    let g = small_graph();
    let mut cache = RouteCache::new();
    let mut v = Vehicle::new(1, String::from("a"));
    v.goto(2, 5, 0).unwrap();
    v.timestep(5);
    v.goto(3, 5, 0).unwrap();
    v.timestep(5);
    let mut vehicles = vec![v];
    let mut none: Vec<Incident> = Vec::new();
    dispatching(&mut vehicles, &mut none, &g, &mut cache, 10);
    assert_eq!(vehicles[0].get_location(), 1);
    assert_eq!(vehicles[0].get_secs_till_free(), 7);
}

#[test]
fn trapped_vehicle_is_reset() {
    let g = small_graph();
    let mut cache = RouteCache::new();
    let mut v = Vehicle::new(1, String::from("a"));
    v.goto(5, 1, 0).unwrap();
    v.timestep(1);
    v.goto(4, 9, 0).unwrap();
    v.timestep(9);
    let mut vehicles = vec![v];
    let mut none: Vec<Incident> = Vec::new();
    dispatching(&mut vehicles, &mut none, &g, &mut cache, 10);
    assert_eq!(vehicles[0].get_location(), 1);
    assert_eq!(vehicles[0].get_secs_till_free(), 9);
}

fn schedule() -> Vec<Vec<Incident>> {
    vec![vec![Incident::new(2, 100, 0, 1)], vec![], vec![]]
}

#[test]
fn run_reports_mean_response_time() {
    let g = small_graph();
    let mut cache = RouteCache::new();
    let mut vehicles = vec![Vehicle::new(1, String::from("a")), Vehicle::new(3, String::from("b"))];
    let mut unreachable = HashSet::new();
    let r = run(&g, &schedule(), &mut vehicles, &mut cache, 10, 30, &mut unreachable);
    assert_eq!(r, Some(5));
    assert!(unreachable.is_empty());
    assert_eq!(vehicles[0].get_location(), 2);
    assert_eq!(vehicles[0].get_secs_till_free(), 75);
}

#[test]
fn run_counts_unattended_incidents_until_the_end() {
    let g = small_graph();
    let mut cache = RouteCache::new();
    let mut vehicles: Vec<Vehicle> = Vec::new();
    let mut unreachable = HashSet::new();
    let stack = vec![vec![], vec![Incident::new(2, 100, 10, 1)], vec![]];
    let r = run(&g, &stack, &mut vehicles, &mut cache, 10, 30, &mut unreachable);
    assert_eq!(r, Some(20));
}

#[test]
fn run_without_reachable_incidents_has_no_mean() {
    let g = small_graph();
    let mut cache = RouteCache::new();
    let mut vehicles = vec![Vehicle::new(1, String::from("a"))];
    let mut unreachable = HashSet::new();
    let stack = vec![vec![Incident::new(4, 100, 0, 1)]];
    let r = run(&g, &stack, &mut vehicles, &mut cache, 10, 10, &mut unreachable);
    assert_eq!(r, None);
    assert!(unreachable.contains(&4));
    assert_eq!(unreachable.len(), 1);
}

#[test]
fn build_fleet_names_cars_in_order() {
    let fleet = build_fleet(&vec![2, 0, 1], &vec![1, 5, 3]);
    assert_eq!(fleet.len(), 3);
    assert_eq!(fleet[0].get_name(), "Car 0");
    assert_eq!(fleet[1].get_name(), "Car 1");
    assert_eq!(fleet[2].get_name(), "Car 2");
    assert_eq!(fleet[0].get_base(), 1);
    assert_eq!(fleet[1].get_base(), 1);
    assert_eq!(fleet[2].get_base(), 3);
    let many = build_fleet(&vec![12], &vec![4]);
    assert_eq!(many[11].get_name(), "Car 11");
}

#[test]
fn evaluate_places_the_solution_cars() {
    let g = small_graph();
    let mut cache = RouteCache::new();
    let mut unreachable = HashSet::new();
    let bases = vec![1, 3];
    assert_eq!(evaluate(&vec![1, 1], 1, &schedule(), &g, &bases, &mut cache, 10, 30, &mut unreachable), Some(5));
    assert_eq!(evaluate(&vec![0, 2], 1, &schedule(), &g, &bases, &mut cache, 10, 30, &mut unreachable), Some(12));
}

#[test]
fn evaluate_repeats_give_the_same_fitness() {
    let g = small_graph();
    let mut cache = RouteCache::new();
    let mut unreachable = HashSet::new();
    let bases = vec![1, 3];
    let once = evaluate(&vec![0, 2], 1, &schedule(), &g, &bases, &mut cache, 10, 30, &mut unreachable);
    let thrice = evaluate(&vec![0, 2], 3, &schedule(), &g, &bases, &mut cache, 10, 30, &mut unreachable);
    assert_eq!(once, thrice);
}

#[test]
fn evaluate_without_iterations_has_no_fitness() {
    let g = small_graph();
    let mut cache = RouteCache::new();
    let mut unreachable = HashSet::new();
    let bases = vec![1, 3];
    assert_eq!(evaluate(&vec![1, 1], 0, &schedule(), &g, &bases, &mut cache, 10, 30, &mut unreachable), None);
}

#[test]
fn incident_off_the_graph_is_unreachable() {
    let g = small_graph();
    let mut cache = RouteCache::new();
    let mut vehicles = vec![Vehicle::new(1, String::from("A"))];
    let mut incidents = vec![Incident::new(99, 100, 0, 1)];
    dispatching(&mut vehicles, &mut incidents, &g, &mut cache, 0);
    assert!(!incidents[0].is_valid());
    assert!(incidents[0].is_solved());
    assert_eq!(incidents[0].get_resolved_time(), None);
    assert_eq!(vehicles[0].get_location(), 1);
    assert_eq!(vehicles[0].get_secs_till_free(), 0);
    assert_eq!(cache.get(1, 99), Some(None));
}

#[test]
fn unreachable_incident_is_marked_in_the_cache() {
    let mut g = HashMap::new();
    g.insert(1, Node::new(vec![], vec![]));
    g.insert(2, Node::new(vec![], vec![]));
    let mut cache = RouteCache::new();
    let mut vehicles = vec![Vehicle::new(1, String::from("A"))];
    let mut incidents = vec![Incident::new(2, 100, 0, 1)];
    dispatching(&mut vehicles, &mut incidents, &g, &mut cache, 0);
    assert!(!incidents[0].is_valid());
    assert_eq!(incidents[0].get_resolved_time(), None);
    assert_eq!(vehicles[0].get_location(), 1);
    assert_eq!(cache.get(1, 2), Some(None));
}

#[test]
fn return_from_base_works_out_no_route() {
    let g: HashMap<u64, Node> = HashMap::new();
    let mut cache = RouteCache::new();
    let mut v = Vehicle::new(1, String::from("A"));
    let _ = v.goto(2, 30, 0);
    v.timestep(60);
    let mut vehicles = vec![v];
    let mut incidents: Vec<Incident> = vec![];
    dispatching(&mut vehicles, &mut incidents, &g, &mut cache, 60);
    assert_eq!(vehicles[0].get_location(), 1);
    assert_eq!(vehicles[0].get_secs_till_free(), 30);
    assert_eq!(vehicles[0].get_last_travel(), 30);
    assert!(!vehicles[0].last_move_from_base());
    assert_eq!(cache.get(2, 1), None);
}

#[test]
fn run_counts_incidents_off_the_graph_as_unreachable() {
    let g = small_graph();
    let mut cache = RouteCache::new();
    let mut unreachable = HashSet::new();
    let mut vehicles = vec![Vehicle::new(1, String::from("A"))];
    let spawn_stack = vec![vec![Incident::new(99, 10, 0, 1), Incident::new(2, 10, 0, 1)], vec![], vec![]];
    let r = run(&g, &spawn_stack, &mut vehicles, &mut cache, 10, 30, &mut unreachable);
    assert_eq!(r, Some(5));
    assert!(unreachable.contains(&99));
    assert!(!unreachable.contains(&2));
}

#[test]
fn build_fleet_names_three_digit_cars() {
    let vehicles = build_fleet(&vec![105], &vec![1]);
    assert_eq!(vehicles.len(), 105);
    assert_eq!(vehicles[0].get_name(), "Car 0");
    assert_eq!(vehicles[9].get_name(), "Car 9");
    assert_eq!(vehicles[10].get_name(), "Car 10");
    assert_eq!(vehicles[104].get_name(), "Car 104");
}

#[test]
fn evaluate_ignores_empty_bases_off_the_graph() {
    let g = small_graph();
    let mut cache = RouteCache::new();
    let mut unreachable = HashSet::new();
    let spawn_stack = vec![vec![Incident::new(2, 10, 0, 1)], vec![], vec![]];
    let r = evaluate(&vec![1, 0], 1, &spawn_stack, &g, &vec![1, 99], &mut cache, 10, 30, &mut unreachable);
    assert_eq!(r, Some(5));
}
