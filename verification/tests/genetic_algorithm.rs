use std::collections::{HashMap, HashSet};

use simulation::genetic::{
    avg_and_best_fitness, crossover, evolve_pop, fitness_less, generate_solution, initial_population, tournament_selection,
};
use simulation::incident::Incident;
use simulation::node::Node;
use simulation::route_cache::RouteCache;

fn small_graph() -> HashMap<u64, Node> {
    let mut g = HashMap::new();
    g.insert(1, Node::new(vec![2, 3], vec![5, 20]));
    g.insert(2, Node::new(vec![3], vec![5]));
    g.insert(3, Node::new(vec![1], vec![7]));
    g
}

fn schedule() -> Vec<Vec<Incident>> {
    vec![vec![Incident::new(2, 100, 0, 1)], vec![], vec![]]
}

#[test]
fn generated_solution_places_every_car() {
    let mut rng = rand::rng();
    for _ in 0..20 {
        let s = generate_solution(4, 10, &mut rng);
        assert_eq!(s.len(), 4);
        assert_eq!(s.iter().map(|&x| x as u32).sum::<u32>(), 10);
    }
    let one = generate_solution(1, 255, &mut rng);
    assert_eq!(one, vec![255]);
}

#[test]
fn crossover_children_hold_max_cars() {
    let mut rng = rand::rng();
    for _ in 0..20 {
        let mut a = vec![2, 3, 5, 0];
        let mut b = vec![5, 5, 0, 0];
        crossover(&mut a, &mut b, 10, &mut rng);
        assert_eq!(a.len(), 4);
        assert_eq!(b.len(), 4);
        assert_eq!(a.iter().map(|&x| x as u32).sum::<u32>(), 10);
        assert_eq!(b.iter().map(|&x| x as u32).sum::<u32>(), 10);
        // a base without cars in both parents stays without cars
        assert_eq!(a[3], 0);
        assert_eq!(b[3], 0);
    }
}

#[test]
fn crossover_with_no_cars_wanted_empties_both() {
    let mut rng = rand::rng();
    let mut a = vec![1, 0];
    let mut b = vec![0, 2];
    crossover(&mut a, &mut b, 0, &mut rng);
    assert_eq!(a, vec![0, 0]);
    assert_eq!(b, vec![0, 0]);
}

#[test]
fn fitness_comparison_ignores_missing_values() {
    assert!(fitness_less(Some(1), Some(2)));
    assert!(!fitness_less(Some(2), Some(2)));
    assert!(!fitness_less(None, Some(2)));
    assert!(!fitness_less(Some(1), None));
}

#[test]
fn tournament_selects_distinct_best_first() {
    let g = small_graph();
    let mut cache = RouteCache::new();
    let mut unreachable = HashSet::new();
    let mut rng = rand::rng();
    let bases = vec![1, 3];
    // fitness: [0,2] -> 12, [2,0] -> 5, [1,1] -> 5
    let solutions = vec![vec![0, 2], vec![2, 0], vec![1, 1]];
    let mut best = 0;
    let selected = tournament_selection(
        &solutions, 2, 3, 1, &schedule(), &g, &bases, &mut cache, 10, 30, &mut rng, &mut unreachable, &mut best,
    );
    assert_eq!(selected.len(), 2);
    assert_ne!(selected[0], selected[1]);
    assert!(!selected.contains(&0));
    assert_eq!(best, 5);
}

#[test]
fn tournament_smaller_than_selection() {
    let g = small_graph();
    let mut cache = RouteCache::new();
    let mut unreachable = HashSet::new();
    let mut rng = rand::rng();
    let bases = vec![1, 3];
    let solutions = vec![vec![0, 2], vec![2, 0], vec![1, 1]];
    let mut best = 0;
    let selected = tournament_selection(
        &solutions, 5, 1, 1, &schedule(), &g, &bases, &mut cache, 10, 30, &mut rng, &mut unreachable, &mut best,
    );
    assert_eq!(selected.len(), 1);
    assert!(selected[0] < 3);
}

#[test]
fn evolved_population_stays_valid() {
    let g = small_graph();
    let mut cache = RouteCache::new();
    let mut unreachable = HashSet::new();
    let mut rng = rand::rng();
    let bases = vec![1, 3];
    let mut solutions = vec![vec![0, 2], vec![2, 0], vec![1, 1], vec![1, 1]];
    for round in 0..6 {
        let best = evolve_pop(
            &mut solutions, 2, 4, 1, &schedule(), &g, &bases, &mut cache, 10, 30, 2, 1, 1, &mut rng,
            &mut unreachable, round % 2 == 0,
        );
        assert_eq!(best, 5);
        assert_eq!(solutions.len(), 4);
        for s in &solutions {
            assert_eq!(s.len(), 2);
            assert_eq!(s.iter().map(|&x| x as u32).sum::<u32>(), 2);
        }
    }
}

#[test]
fn average_covers_every_solution() {
    let g = small_graph();
    let mut cache = RouteCache::new();
    let mut unreachable = HashSet::new();
    let bases = vec![1, 3];
    let solutions = vec![vec![0, 2], vec![2, 0], vec![1, 1]];
    let d = avg_and_best_fitness(&solutions, 1, &schedule(), &g, &bases, &mut cache, 10, 30, &mut unreachable);
    assert_eq!(d.get_best_solution(), &vec![2, 0]);
    assert_eq!(d.get_best_fitness(), Some(5));
    // (12 + 5 + 5) / 3, rounded down
    assert_eq!(d.get_avg_fitness(), Some(7));
}

#[test]
fn children_without_crossover_or_mutation_copy_their_parents() {
    let g = small_graph();
    let mut cache = RouteCache::new();
    let mut unreachable = HashSet::new();
    let mut rng = rand::rng();
    let bases = vec![1, 3];
    let mut solutions = vec![vec![0, 2], vec![2, 0], vec![1, 1], vec![1, 1]];
    let best = evolve_pop(
        &mut solutions, 2, 4, 1, &schedule(), &g, &bases, &mut cache, 10, 30, 2, 3, 0, &mut rng,
        &mut unreachable, false,
    );
    assert_eq!(best, 5);
    assert_eq!(solutions.len(), 4);
    // kept parents at 0 and 3, their children at 1 and 2
    assert_eq!(solutions[1], solutions[0]);
    assert_eq!(solutions[2], solutions[3]);
    assert!(!solutions.contains(&vec![0, 2]));
}

#[test]
fn crossover_of_equal_parents_changes_nothing() {
    let mut rng = rand::rng();
    let mut a = vec![2, 0, 4];
    let mut b = vec![2, 0, 4];
    crossover(&mut a, &mut b, 6, &mut rng);
    assert_eq!(a, vec![2, 0, 4]);
    assert_eq!(b, vec![2, 0, 4]);
}

#[test]
fn initial_population_places_every_car() {
    let mut rng = rand::rng();
    let p = initial_population(5, 3, 7, &mut rng);
    assert_eq!(p.len(), 5);
    for s in &p {
        assert_eq!(s.len(), 3);
        assert_eq!(s.iter().map(|&x| x as u32).sum::<u32>(), 7);
    }
}

#[test]
fn evolution_keeps_longer_solutions_whole() {
    let g = small_graph();
    let mut cache = RouteCache::new();
    let mut unreachable = HashSet::new();
    let mut rng = rand::rng();
    let bases = vec![1, 3];
    let mut solutions = vec![vec![0, 2, 0], vec![2, 0, 0], vec![1, 1, 0], vec![1, 0, 1]];
    for round in 0..4 {
        let _ = evolve_pop(
            &mut solutions, 2, 4, 1, &schedule(), &g, &bases, &mut cache, 10, 30, 2, 1, 1, &mut rng,
            &mut unreachable, round % 2 == 0,
        );
        assert_eq!(solutions.len(), 4);
        for s in &solutions {
            assert_eq!(s.len(), 3);
            assert_eq!(s.iter().map(|&x| x as u32).sum::<u32>(), 2);
        }
    }
}
