use simulation::data::Data;
use simulation::dijkstra_node::DijkstraNode;
use simulation::frontier::Frontier;
use simulation::incident::Incident;
use simulation::node::Node;
use simulation::route_cache::RouteCache;
use simulation::vehicle::Vehicle;

#[test]
fn vehicle_starts_free_at_its_base() {
    let v = Vehicle::new(7, String::from("Car 0"));
    assert_eq!(v.get_base(), 7);
    assert_eq!(v.get_location(), 7);
    assert_eq!(v.get_secs_till_free(), 0);
    assert_eq!(v.get_last_travel(), 0);
    assert!(!v.last_move_from_base());
    assert_eq!(v.get_name(), "Car 0");
}

#[test]
fn vehicle_goto_moves_a_free_vehicle() {
    let mut v = Vehicle::new(7, String::from("a"));
    assert_eq!(v.goto(9, 120, 30), Ok(9));
    assert_eq!(v.get_location(), 9);
    assert_eq!(v.get_secs_till_free(), 150);
    assert_eq!(v.get_last_travel(), 120);
    assert!(v.last_move_from_base());
}

#[test]
fn vehicle_goto_refuses_while_busy() {
    let mut v = Vehicle::new(7, String::from("a"));
    v.goto(9, 120, 30).unwrap();
    assert_eq!(v.goto(7, 10, 0), Err("Busy"));
    assert_eq!(v.get_location(), 9);
    assert_eq!(v.get_secs_till_free(), 150);
}

#[test]
fn vehicle_goto_refuses_the_current_location() {
    let mut v = Vehicle::new(7, String::from("a"));
    assert_eq!(v.goto(7, 10, 0), Err("Already Here"));
    assert_eq!(v.get_secs_till_free(), 0);
    assert!(!v.last_move_from_base());
}

#[test]
fn vehicle_second_move_is_not_from_base() {
    let mut v = Vehicle::new(7, String::from("a"));
    v.goto(9, 5, 0).unwrap();
    v.timestep(5);
    assert_eq!(v.goto(11, 3, 0), Ok(11));
    assert!(!v.last_move_from_base());
}

#[test]
fn vehicle_goto_saturates_busy_time() {
    let mut v = Vehicle::new(7, String::from("a"));
    v.goto(9, u64::MAX - 1, 5).unwrap();
    assert_eq!(v.get_secs_till_free(), u64::MAX);
}

#[test]
fn vehicle_timestep_counts_down_and_stops_at_zero() {
    let mut v = Vehicle::new(7, String::from("a"));
    v.goto(9, 100, 0).unwrap();
    v.timestep(40);
    assert_eq!(v.get_secs_till_free(), 60);
    v.timestep(60);
    assert_eq!(v.get_secs_till_free(), 0);
    v.goto(7, 100, 0).unwrap();
    v.timestep(500);
    assert_eq!(v.get_secs_till_free(), 0);
}

#[test]
fn vehicle_reset_returns_to_base_busy_for_last_travel() {
    let mut v = Vehicle::new(7, String::from("a"));
    v.goto(9, 100, 50).unwrap();
    v.timestep(150);
    v.reset();
    assert_eq!(v.get_location(), 7);
    assert_eq!(v.get_secs_till_free(), 100);
}

#[test]
fn incident_lifecycle() {
    let mut i = Incident::new(4, 600, 60, 2);
    assert_eq!(i.get_location(), 4);
    assert_eq!(i.get_service_time(), 600);
    assert_eq!(i.get_creation_time(), 60);
    assert_eq!(i.get_vehicles_required(), 2);
    assert_eq!(i.get_resolved_time(), None);
    assert!(i.is_valid());
    assert!(!i.is_solved());
    i.solved(90);
    assert_eq!(i.get_resolved_time(), Some(90));
    assert!(i.is_solved());
}

#[test]
fn unreachable_incident_counts_as_solved() {
    let mut i = Incident::new(4, 600, 60, 1);
    i.unreachable();
    assert!(!i.is_valid());
    assert!(i.is_solved());
    assert_eq!(i.get_resolved_time(), None);
}

#[test]
fn node_keeps_its_edges() {
    let n = Node::new(vec![2, 3], vec![10, 20]);
    assert_eq!(n.get_out_locations(), &vec![2, 3]);
    assert_eq!(n.get_out_costs(), &vec![10, 20]);
}

#[test]
fn data_keeps_its_values() {
    let d = Data::new(vec![1, 2], Some(30), None);
    assert_eq!(d.get_best_solution(), &vec![1, 2]);
    assert_eq!(d.get_best_fitness(), Some(30));
    assert_eq!(d.get_avg_fitness(), None);
}

#[test]
fn cheaper_frontier_entry_has_priority() {
    let a = DijkstraNode { cost: 3, location: 1 };
    let b = DijkstraNode { cost: 5, location: 2 };
    assert!(a.has_priority_over(&b));
    assert!(!b.has_priority_over(&a));
    assert!(!a.has_priority_over(&a));
}

#[test]
fn route_cache_keeps_pairs_apart() {
    let mut c = RouteCache::new();
    assert_eq!(c.get(1, 2), None);
    c.insert(1, 2, Some(5));
    c.insert(2, 1, None);
    c.insert(u64::MAX, 0, Some(9));
    assert_eq!(c.get(1, 2), Some(Some(5)));
    assert_eq!(c.get(2, 1), Some(None));
    assert_eq!(c.get(u64::MAX, 0), Some(Some(9)));
    assert_eq!(c.get(0, u64::MAX), None);
    c.insert(1, 2, Some(4));
    assert_eq!(c.get(1, 2), Some(Some(4)));
}

#[test]
fn frontier_hands_out_cheapest_first() {
    let mut f = Frontier::new();
    assert_eq!(f.pop(), None);
    for (cost, location) in [(5, 1), (3, 2), (9, 3), (1, 4), (3, 5), (7, 6), (0, 7), (8, 8)] {
        f.push(DijkstraNode { cost, location });
    }
    assert_eq!(f.len(), 8);
    let mut costs = Vec::new();
    while let Some(e) = f.pop() {
        costs.push(e.cost);
    }
    assert_eq!(costs, vec![0, 1, 3, 3, 5, 7, 8, 9]);
    assert_eq!(f.len(), 0);
}

#[test]
fn two_timesteps_equal_one_of_their_sum() {
    for (a, b) in [(30, 50), (10, 200), (0, 0), (150, 1)] {
        let mut one = Vehicle::new(1, String::from("a"));
        one.goto(2, 100, 50).unwrap();
        let mut two = Vehicle::new(1, String::from("a"));
        two.goto(2, 100, 50).unwrap();
        one.timestep(a);
        one.timestep(b);
        two.timestep(a + b);
        assert_eq!(one.get_secs_till_free(), two.get_secs_till_free());
    }
}

#[test]
fn vehicle_keeps_base_and_name_over_calls() {
    let mut v = Vehicle::new(4, String::from("Car 7"));
    let _ = v.goto(9, 20, 5);
    v.timestep(10);
    let _ = v.goto(3, 1, 1);
    v.reset();
    v.timestep(100);
    let _ = v.goto(2, 1, 0);
    assert_eq!(v.get_base(), 4);
    assert_eq!(v.get_name(), "Car 7");
}

#[test]
fn incident_state_follows_its_calls() {
    let mut i = Incident::new(5, 10, 0, 1);
    assert!(i.is_valid());
    assert_eq!(i.get_resolved_time(), None);
    i.solved(5);
    i.unreachable();
    i.solved(7);
    assert!(!i.is_valid());
    assert_eq!(i.get_resolved_time(), Some(7));
    assert_eq!(i.get_location(), 5);
}
