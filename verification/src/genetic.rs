//! The genetic algorithm: random solutions, mutation, crossover with repair, tournament
//! selection and the evolution of a population.
use vstd::prelude::*;
use rand::rngs::ThreadRng;

use crate::random::{random_bool, sample_below, shuffle_indices};
use std::collections::{HashMap, HashSet};

use crate::incident::Incident;
use crate::node::Node;
use crate::route_cache::RouteCache;
use crate::simulation::{cars_at_first, evaluate, evaluation_ready, schedule, solution_fitness, time_sum};
use crate::data::{Data, DataState};
use crate::types::{Location, Solution, Time};

verus! {

/// The number of cars a solution places, over all bases.
pub open spec fn total_cars(s: Seq<u8>) -> nat {
    cars_at_first(s, s.len())
}

proof fn lemma_cars_update(s: Seq<u8>, j: int, v: u8, n: nat)
    requires
        0 <= j < s.len(),
        n <= s.len(),
    ensures
        j < n ==> cars_at_first(s.update(j, v), n) == cars_at_first(s, n) - s[j] + v,
        j >= n ==> cars_at_first(s.update(j, v), n) == cars_at_first(s, n),
    decreases n,
{
    if n > 0 {
        lemma_cars_update(s, j, v, (n - 1) as nat);
    }
}

proof fn lemma_entry_le_cars(s: Seq<u8>, j: int, n: nat)
    requires
        0 <= j < n <= s.len(),
    ensures
        s[j] <= cars_at_first(s, n),
    decreases n,
{
    if j < n - 1 {
        lemma_entry_le_cars(s, j, (n - 1) as nat);
    }
}

/// A solution's total after entry `j` is set to `v`.
proof fn lemma_total_update(s: Seq<u8>, j: int, v: u8)
    requires
        0 <= j < s.len(),
    ensures
        total_cars(s.update(j, v)) == total_cars(s) - s[j] + v,
{
    lemma_cars_update(s, j, v, s.len());
}

proof fn lemma_entry_le_total(s: Seq<u8>, j: int)
    requires
        0 <= j < s.len(),
    ensures
        s[j] <= total_cars(s),
{
    lemma_entry_le_cars(s, j, s.len());
}

/// Returns a solution by randomly assigning `max_cars` cars, one at a time, to
/// `base_number` police bases.
///
/// The result has one entry per base and its entries sum to `max_cars`: entry `j` counts
/// the draws, among `max_cars` draws of a base below `base_number`, that gave `j`.
pub fn generate_solution(base_number: u8, max_cars: u16, rngthread: &mut ThreadRng) -> (solution: Solution)
    requires
        base_number > 0,
        max_cars <= 255,
    ensures
        solution@.len() == base_number,
        total_cars(solution@) == max_cars,
        exists|draws: Seq<usize>|
            {
                &&& draws.len() == max_cars
                &&& forall|i: int| 0 <= i < draws.len() ==> #[trigger] draws[i] < base_number
                &&& forall|j: int| 0 <= j < base_number ==> #[trigger] solution@[j] == draws.to_multiset().count(j as usize)
            },
{
    let mut solution: Solution = Vec::new();
    let mut k: u8 = 0;
    while k < base_number
        invariant
            k <= base_number,
            solution@.len() == k,
            forall|j: int| 0 <= j < k ==> solution@[j] == 0,
        decreases base_number - k,
    {
        solution.push(0);
        k += 1;
    }
    proof {
        assert(total_cars(solution@) == 0) by {
            assert forall|n: nat| n <= solution@.len() implies cars_at_first(solution@, n) == 0 by {
                lemma_zero_prefix(solution@, n);
            }
        }
    }
    let ghost mut draws: Seq<usize> = Seq::empty();
    proof {
        broadcast use vstd::multiset::group_multiset_axioms;

        draws.to_multiset_ensures();
        assert forall|j: int| 0 <= j < base_number implies #[trigger] solution@[j] == draws.to_multiset().count(j as usize) by {
            assert(!draws.contains(j as usize));
        }
    }
    let mut placed: u16 = 0;
    while placed < max_cars
        invariant
            placed <= max_cars <= 255,
            base_number > 0,
            solution@.len() == base_number,
            total_cars(solution@) == placed,
            draws.len() == placed,
            forall|i: int| 0 <= i < draws.len() ==> #[trigger] draws[i] < base_number,
            forall|j: int| 0 <= j < base_number ==> #[trigger] solution@[j] == draws.to_multiset().count(j as usize),
        decreases max_cars - placed,
    {
        let choice: usize = sample_below(base_number as usize, rngthread);
        proof {
            lemma_entry_le_total(solution@, choice as int);
            lemma_total_update(solution@, choice as int, (solution@[choice as int] + 1) as u8);
        }
        let ghost before = solution@;
        let value: u8 = solution[choice] + 1;
        solution.set(choice, value);
        proof {
            broadcast use vstd::multiset::group_multiset_axioms;

            draws.to_multiset_ensures();
            let d1 = draws.push(choice);
            assert(d1.to_multiset() =~= draws.to_multiset().insert(choice));
            assert forall|j: int| 0 <= j < base_number implies #[trigger] solution@[j] == d1.to_multiset().count(j as usize) by {
                assert(before[j] == draws.to_multiset().count(j as usize));
            }
            assert forall|i: int| 0 <= i < d1.len() implies #[trigger] d1[i] < base_number by {
                if i < draws.len() {
                    assert(d1[i] == draws[i]);
                }
            }
            draws = d1;
        }
        placed += 1;
    }
    solution
}

proof fn lemma_zero_prefix(s: Seq<u8>, n: nat)
    requires
        n <= s.len(),
        forall|j: int| 0 <= j < s.len() ==> s[j] == 0,
    ensures
        cars_at_first(s, n) == 0,
    decreases n,
{
    if n > 0 {
        lemma_zero_prefix(s, (n - 1) as nat);
    }
}

/// How many cars the first `n` bases lost going from `before` to `after`.
pub open spec fn cars_moved(before: Seq<u8>, after: Seq<u8>, n: nat) -> nat
    decreases n,
{
    if n == 0 {
        0
    } else {
        cars_moved(before, after, (n - 1) as nat) + if before[n - 1] > after[n - 1] {
            (before[n - 1] - after[n - 1]) as nat
        } else {
            0nat
        }
    }
}

proof fn lemma_cars_moved_update(before: Seq<u8>, s: Seq<u8>, j: int, v: u8, n: nat)
    requires
        0 <= j < s.len(),
        n <= s.len(),
        s.len() == before.len(),
    ensures
        j < n ==> cars_moved(before, s.update(j, v), n) + (if before[j] > s[j] { (before[j] - s[j]) as nat } else { 0nat })
            == cars_moved(before, s, n) + (if before[j] > v { (before[j] - v) as nat } else { 0nat }),
        j >= n ==> cars_moved(before, s.update(j, v), n) == cars_moved(before, s, n),
    decreases n,
{
    if n > 0 {
        lemma_cars_moved_update(before, s, j, v, (n - 1) as nat);
    }
}

proof fn lemma_cars_moved_none(s: Seq<u8>, n: nat)
    requires
        n <= s.len(),
    ensures
        cars_moved(s, s, n) == 0,
    decreases n,
{
    if n > 0 {
        lemma_cars_moved_none(s, (n - 1) as nat);
    }
}

/// Mutates a solution `num_of_mutations` times: each time a random base is picked and, if
/// it holds a car, that car moves to another random base. The total never changes, so the
/// solution needs no repair; at most `num_of_mutations` cars change base, so no base gains
/// or loses more than that. Which cars move is left to chance.
fn mutate(solution: &mut Solution, num_of_mutations: u8, rngthread: &mut ThreadRng)
    requires
        old(solution)@.len() > 0,
        total_cars(old(solution)@) <= 255,
    ensures
        final(solution)@.len() == old(solution)@.len(),
        total_cars(final(solution)@) == total_cars(old(solution)@),
        cars_moved(old(solution)@, final(solution)@, old(solution)@.len()) <= num_of_mutations,
        forall|j: int|
            0 <= j < old(solution)@.len() ==> #[trigger] final(solution)@[j] <= old(solution)@[j] + num_of_mutations
                && old(solution)@[j] <= final(solution)@[j] + num_of_mutations,
{
    proof {
        lemma_cars_moved_none(solution@, solution@.len());
    }
    let len: usize = solution.len();
    let mut m: u8 = 0;
    while m < num_of_mutations
        invariant
            m <= num_of_mutations,
            solution@.len() == len,
            len > 0,
            total_cars(solution@) == total_cars(old(solution)@),
            total_cars(old(solution)@) <= 255,
            old(solution)@.len() == len,
            cars_moved(old(solution)@, solution@, len as nat) <= m,
            forall|j: int|
                0 <= j < len ==> #[trigger] solution@[j] <= old(solution)@[j] + m && old(solution)@[j] <= solution@[j]
                    + m,
        decreases num_of_mutations - m,
    {
        let mut index: usize = sample_below(len, rngthread);
        if solution[index] > 0 {
            let ghost s0 = solution@;
            proof {
                lemma_total_update(solution@, index as int, (solution@[index as int] - 1) as u8);
                lemma_cars_moved_update(old(solution)@, solution@, index as int, (solution@[index as int] - 1) as u8, len as nat);
            }
            let lowered: u8 = solution[index] - 1;
            solution.set(index, lowered);
            let ghost s1 = solution@;
            let from = index;
            index = sample_below(len, rngthread);
            proof {
                lemma_entry_le_total(solution@, index as int);
                lemma_total_update(solution@, index as int, (solution@[index as int] + 1) as u8);
                lemma_cars_moved_update(old(solution)@, solution@, index as int, (solution@[index as int] + 1) as u8, len as nat);
            }
            let raised: u8 = solution[index] + 1;
            solution.set(index, raised);
            proof {
                assert forall|j: int| 0 <= j < len implies #[trigger] solution@[j] <= old(solution)@[j] + (m + 1)
                    && old(solution)@[j] <= solution@[j] + (m + 1) by {
                    assert(s0[j] <= old(solution)@[j] + m && old(solution)@[j] <= s0[j] + m);
                    if j != from && j != index {
                        assert(solution@[j] == s0[j]);
                    }
                }
            }
        }
        m += 1;
    }
}

/// Draws, uniformly, one of the bases that hold at least one car. Drawing a random base
/// until one with a car turns up gives each base with a car the same chance; this draws
/// from those bases directly.
fn pick_occupied(solution: &Solution, rngthread: &mut ThreadRng) -> (index: usize)
    requires
        total_cars(solution@) > 0,
    ensures
        index < solution@.len(),
        solution@[index as int] > 0,
{
    let mut occupied: Vec<usize> = Vec::new();
    let mut i: usize = 0;
    while i < solution.len()
        invariant
            i <= solution@.len(),
            forall|k: int| 0 <= k < occupied@.len() ==> #[trigger] occupied@[k] < solution@.len() && solution@[occupied@[k] as int] > 0,
            forall|j: int| 0 <= j < i && solution@[j] > 0 ==> occupied@.contains(j as usize),
        decreases solution.len() - i,
    {
        let ghost before = occupied@;
        if solution[i] > 0 {
            occupied.push(i);
            proof {
                assert(occupied@[occupied@.len() - 1] == i);
            }
        }
        proof {
            assert forall|j: int| 0 <= j < i + 1 && solution@[j] > 0 implies occupied@.contains(j as usize) by {
                if j < i {
                    assert(before.contains(j as usize));
                    let m = choose|m: int| 0 <= m < before.len() && before[m] == j as usize;
                    assert(occupied@[m] == j as usize);
                }
            }
        }
        i += 1;
    }
    proof {
        if occupied@.len() == 0 {
            assert forall|j: int| 0 <= j < solution@.len() implies solution@[j] == 0 by {
                if solution@[j] > 0 {
                    assert(occupied@.contains(j as usize));
                }
            }
            lemma_zero_prefix(solution@, solution@.len());
        }
    }
    let k: usize = sample_below(occupied.len(), rngthread);
    occupied[k]
}

/// Randomly repairs a solution (if required) so that its cars sum to `max_cars`: while the
/// total is off, a random base that holds a car gains a car (total too small) or loses
/// one (total too large).
fn repair(solution: &mut Solution, max_cars: u16, rngthread: &mut ThreadRng)
    requires
        max_cars <= 127,
        forall|j: int| 0 <= j < old(solution)@.len() ==> #[trigger] old(solution)@[j] <= 127,
        total_cars(old(solution)@) <= 32767,
        total_cars(old(solution)@) == max_cars || total_cars(old(solution)@) > 0,
    ensures
        final(solution)@.len() == old(solution)@.len(),
        total_cars(final(solution)@) == max_cars,
        forall|j: int| 0 <= j < final(solution)@.len() ==> #[trigger] final(solution)@[j] <= 127,
        forall|j: int| 0 <= j < old(solution)@.len() && old(solution)@[j] == 0 ==> #[trigger] final(solution)@[j] == 0,
        total_cars(old(solution)@) <= max_cars ==> forall|j: int|
            0 <= j < old(solution)@.len() ==> old(solution)@[j] <= #[trigger] final(solution)@[j],
        total_cars(old(solution)@) >= max_cars ==> forall|j: int|
            0 <= j < old(solution)@.len() ==> #[trigger] final(solution)@[j] <= old(solution)@[j],
{
    let mut total_sum: i16 = 0;
    let mut i: usize = 0;
    while i < solution.len()
        invariant
            i <= solution@.len(),
            solution@ == old(solution)@,
            total_cars(old(solution)@) <= 32767,
            total_sum as int == cars_at_first(solution@, i as nat),
        decreases solution.len() - i,
    {
        proof {
            crate::simulation::lemma_cars_at_first_mono(solution@, (i + 1) as nat, solution@.len());
        }
        total_sum += solution[i] as i16;
        i += 1;
    }
    let change: i8;
    if total_sum == max_cars as i16 {
        return;
    } else if total_sum > max_cars as i16 {
        change = -1;
    } else {
        change = 1;
    }
    let ghost grow = change == 1;
    while total_sum != max_cars as i16
        invariant
            max_cars <= 127,
            change == 1 || change == -1,
            grow == (change == 1),
            grow ==> total_sum <= max_cars,
            !grow ==> total_sum >= max_cars,
            total_sum as int == total_cars(solution@),
            total_sum >= 0,
            solution@.len() == old(solution)@.len(),
            forall|j: int| 0 <= j < solution@.len() ==> #[trigger] solution@[j] <= 127,
            forall|j: int| 0 <= j < old(solution)@.len() && old(solution)@[j] == 0 ==> #[trigger] solution@[j] == 0,
            grow ==> total_cars(old(solution)@) > 0,
            grow ==> forall|j: int| 0 <= j < old(solution)@.len() ==> old(solution)@[j] <= #[trigger] solution@[j],
            !grow ==> forall|j: int| 0 <= j < old(solution)@.len() ==> #[trigger] solution@[j] <= old(solution)@[j],
            grow ==> total_cars(solution@) >= total_cars(old(solution)@),
        decreases (if grow { max_cars - total_sum } else { total_sum - max_cars }),
    {
        let index: usize = pick_occupied(solution, rngthread);
        proof {
            lemma_entry_le_total(solution@, index as int);
        }
        let temp: i8 = solution[index] as i8 + change;
        proof {
            lemma_total_update(solution@, index as int, temp as u8);
        }
        solution.set(index, temp as u8);
        total_sum += change as i16;
    }
}

/// `a1` and `b1` are `a0` and `b0` after uniform crossover with the coin outcomes
/// `swaps`, one per index of `a0`: at each such index the two entries stay (`false`) or
/// are swapped (`true`); the entries of `b0` past the end of `a0` stay.
pub open spec fn swapped_by(a0: Seq<u8>, b0: Seq<u8>, a1: Seq<u8>, b1: Seq<u8>, swaps: Seq<bool>) -> bool {
    &&& swaps.len() == a0.len()
    &&& a1.len() == a0.len()
    &&& b1.len() == b0.len()
    &&& forall|j: int| 0 <= j < a0.len() && swaps[j] ==> #[trigger] a1[j] == b0[j] && b1[j] == a0[j]
    &&& forall|j: int| 0 <= j < a0.len() && !swaps[j] ==> #[trigger] a1[j] == a0[j] && b1[j] == b0[j]
    &&& forall|j: int| a0.len() <= j < b0.len() ==> #[trigger] b1[j] == b0[j]
}

/// `after` is `before` repaired to hold `max_cars` cars (see `repair`): as many bases, an
/// empty base stays empty, and every base only gains cars (too few cars before) or only
/// loses cars (too many).
pub open spec fn repaired(before: Seq<u8>, after: Seq<u8>, max_cars: nat) -> bool {
    &&& after.len() == before.len()
    &&& total_cars(after) == max_cars
    &&& forall|j: int| 0 <= j < before.len() && before[j] == 0 ==> #[trigger] after[j] == 0
    &&& total_cars(before) <= max_cars ==> forall|j: int| 0 <= j < before.len() ==> before[j] <= #[trigger] after[j]
    &&& total_cars(before) >= max_cars ==> forall|j: int| 0 <= j < before.len() ==> #[trigger] after[j] <= before[j]
}

/// `xa` and `xb` are a repaired uniform crossover of `pa` and `pb` (see `crossover`): for
/// some coin outcomes, the swapped entries repaired to `max_cars` cars each.
pub open spec fn crossed_from(pa: Seq<u8>, pb: Seq<u8>, xa: Seq<u8>, xb: Seq<u8>, max_cars: nat) -> bool {
    exists|swaps: Seq<bool>, a1: Seq<u8>, b1: Seq<u8>|
        #[trigger] swapped_by(pa, pb, a1, b1, swaps) && repaired(a1, xa, max_cars) && repaired(b1, xb, max_cars)
}

/// Uniform crossover of two solutions `a` and `b`: at every index of `a` a coin decides
/// whether the two entries are swapped. Both children are then repaired to hold
/// `max_cars` cars (see `crossed_from`, `swapped_by` and `repaired`).
pub fn crossover(a: &mut Solution, b: &mut Solution, max_cars: u16, rngthread: &mut ThreadRng)
    requires
        old(a)@.len() <= old(b)@.len(),
        max_cars <= 127,
        forall|j: int| 0 <= j < old(a)@.len() ==> #[trigger] old(a)@[j] <= 127,
        forall|j: int| 0 <= j < old(b)@.len() ==> #[trigger] old(b)@[j] <= 127,
        total_cars(old(a)@) + total_cars(old(b)@) <= 32767,
        max_cars == 0 || exists|j: int| 0 <= j < old(a)@.len() && #[trigger] old(a)@[j] > 0 && old(b)@[j] > 0,
    ensures
        final(a)@.len() == old(a)@.len(),
        final(b)@.len() == old(b)@.len(),
        total_cars(final(a)@) == max_cars,
        total_cars(final(b)@) == max_cars,
        forall|j: int| 0 <= j < final(a)@.len() ==> #[trigger] final(a)@[j] <= 127,
        forall|j: int| 0 <= j < final(b)@.len() ==> #[trigger] final(b)@[j] <= 127,
        forall|j: int|
            0 <= j < old(a)@.len() && old(a)@[j] == 0 && old(b)@[j] == 0 ==> #[trigger] final(a)@[j] == 0
                && final(b)@[j] == 0,
        forall|j: int| old(a)@.len() <= j < old(b)@.len() && old(b)@[j] == 0 ==> #[trigger] final(b)@[j] == 0,
        crossed_from(old(a)@, old(b)@, final(a)@, final(b)@, max_cars as nat),
{
    let ghost a0 = a@;
    let ghost b0 = b@;
    let ghost mut swaps: Seq<bool> = Seq::empty();
    let mut i: usize = 0;
    while i < a.len()
        invariant
            i <= a@.len(),
            a@.len() == a0.len(),
            b@.len() == b0.len(),
            a0.len() <= b0.len(),
            swaps.len() == i,
            forall|j: int|
                0 <= j < i ==> if swaps[j] {
                    #[trigger] a@[j] == b0[j] && b@[j] == a0[j]
                } else {
                    a@[j] == a0[j] && b@[j] == b0[j]
                },
            forall|j: int| 0 <= j < i ==> (#[trigger] a@[j] == a0[j] && b@[j] == b0[j]) || (a@[j] == b0[j] && b@[j] == a0[j]),
            forall|j: int| i <= j < a@.len() ==> #[trigger] a@[j] == a0[j] && b@[j] == b0[j],
            forall|j: int| a@.len() <= j < b@.len() ==> #[trigger] b@[j] == b0[j],
            total_cars(a@) + total_cars(b@) == total_cars(a0) + total_cars(b0),
        decreases a.len() - i,
    {
        let random_bool: bool = random_bool(rngthread);
        let ghost pa = a@;
        let ghost pb = b@;
        assert(forall|j: int| i <= j < pa.len() ==> pa[j] == a0[j] && pb[j] == b0[j]);
        assert(forall|j: int| 0 <= j < i ==> (pa[j] == a0[j] && pb[j] == b0[j]) || (pa[j] == b0[j] && pb[j] == a0[j]));
        if random_bool == true {
            let a_value: u8 = a[i];
            let b_value: u8 = b[i];
            proof {
                lemma_total_update(a@, i as int, b_value);
                lemma_total_update(b@, i as int, a_value);
            }
            a.set(i, b_value);
            b.set(i, a_value);
        }
        proof {
            assert forall|j: int| 0 <= j < a@.len() && j != i implies #[trigger] a@[j] == pa[j] && b@[j] == pb[j] by {}
            assert forall|j: int| i + 1 <= j < a@.len() implies #[trigger] a@[j] == a0[j] && b@[j] == b0[j] by {
                assert(pa[j] == a0[j] && pb[j] == b0[j]);
            }
            assert forall|j: int| 0 <= j < i + 1 implies (#[trigger] a@[j] == a0[j] && b@[j] == b0[j]) || (a@[j]
                == b0[j] && b@[j] == a0[j]) by {
                if j < i {
                    assert((pa[j] == a0[j] && pb[j] == b0[j]) || (pa[j] == b0[j] && pb[j] == a0[j]));
                } else {
                    assert(pa[j] == a0[j] && pb[j] == b0[j]);
                }
            }
            assert forall|j: int| a@.len() <= j < b@.len() implies #[trigger] b@[j] == pb[j] by {}
            let sw = swaps.push(random_bool);
            assert forall|j: int|
                0 <= j < i + 1 implies if sw[j] {
                    #[trigger] a@[j] == b0[j] && b@[j] == a0[j]
                } else {
                    a@[j] == a0[j] && b@[j] == b0[j]
                } by {
                if j < i {
                    assert(sw[j] == swaps[j]);
                    assert(a@[j] == pa[j] && b@[j] == pb[j]);
                } else {
                    assert(pa[j] == a0[j] && pb[j] == b0[j]);
                }
            }
            swaps = sw;
        }
        i += 1;
    }
    proof {
        assert forall|j: int| 0 <= j < a@.len() implies #[trigger] a@[j] <= 127 && b@[j] <= 127 by {
            assert((a@[j] == a0[j] && b@[j] == b0[j]) || (a@[j] == b0[j] && b@[j] == a0[j]));
        }
        assert forall|j: int| 0 <= j < b@.len() implies #[trigger] b@[j] <= 127 by {
            if j < a@.len() {
                assert((a@[j] == a0[j] && b@[j] == b0[j]) || (a@[j] == b0[j] && b@[j] == a0[j]));
            }
        }
        if max_cars > 0 {
            let w = choose|j: int| 0 <= j < a0.len() && #[trigger] a0[j] > 0 && b0[j] > 0;
            assert((a@[w] == a0[w] && b@[w] == b0[w]) || (a@[w] == b0[w] && b@[w] == a0[w]));
            lemma_entry_le_total(a@, w);
            lemma_entry_le_total(b@, w);
        }
    }
    let ghost a1 = a@;
    let ghost b1 = b@;
    proof {
        assert forall|j: int| 0 <= j < a0.len() && a0[j] == 0 && b0[j] == 0 implies #[trigger] a1[j] == 0 && b1[j] == 0 by {
            assert((a1[j] == a0[j] && b1[j] == b0[j]) || (a1[j] == b0[j] && b1[j] == a0[j]));
        }
    }
    proof {
        assert forall|j: int| 0 <= j < a0.len() && swaps[j] implies #[trigger] a1[j] == b0[j] && b1[j] == a0[j] by {
            assert(a1[j] == a@[j] && b1[j] == b@[j]);
        }
        assert forall|j: int| 0 <= j < a0.len() && !swaps[j] implies #[trigger] a1[j] == a0[j] && b1[j] == b0[j] by {
            assert(a1[j] == a@[j] && b1[j] == b@[j]);
        }
        assert forall|j: int| a0.len() <= j < b0.len() implies #[trigger] b1[j] == b0[j] by {
            assert(b1[j] == b@[j]);
        }
        assert(swaps.len() == a0.len());
        assert(swapped_by(a0, b0, a1, b1, swaps));
    }
    repair(a, max_cars, rngthread);
    repair(b, max_cars, rngthread);
    proof {
        assert(repaired(a1, a@, max_cars as nat));
        assert(repaired(b1, b@, max_cars as nat));
        assert(crossed_from(a0, b0, a@, b@, max_cars as nat));
        assert forall|j: int| 0 <= j < a0.len() && a0[j] == 0 && b0[j] == 0 implies #[trigger] a@[j] == 0 && b@[j] == 0 by {
            if swaps[j] {
                assert(a1[j] == b0[j] && b1[j] == a0[j]);
            } else {
                assert(a1[j] == a0[j] && b1[j] == b0[j]);
            }
        }
        assert forall|j: int| a0.len() <= j < b0.len() && b0[j] == 0 implies #[trigger] b@[j] == 0 by {
            assert(b1[j] == 0);
        }
    }
}

/// `a` is a strictly better (smaller) fitness than `b`; a missing fitness is never better
/// nor worse than another.
pub open spec fn fitness_lt(a: Option<Time>, b: Option<Time>) -> bool {
    a is Some && b is Some && a.unwrap() < b.unwrap()
}

/// Compares two fitness values as `fitness_lt` does.
pub fn fitness_less(a: Option<Time>, b: Option<Time>) -> (r: bool)
    ensures
        r == fitness_lt(a, b),
{
    match (a, b) {
        (Some(x), Some(y)) => x < y,
        _ => false,
    }
}

/// The first position at or after `i` whose fitness `fit` beats.
pub open spec fn first_beaten(fits: Seq<Option<Time>>, fit: Option<Time>, i: int) -> int
    decreases fits.len() - i,
{
    if i >= fits.len() {
        fits.len() as int
    } else if fitness_lt(fit, fits[i]) {
        i
    } else {
        first_beaten(fits, fit, i + 1)
    }
}

proof fn lemma_first_beaten(fits: Seq<Option<Time>>, fit: Option<Time>, i: int)
    requires
        0 <= i <= fits.len(),
    ensures
        i <= first_beaten(fits, fit, i) <= fits.len(),
        forall|j: int| i <= j < first_beaten(fits, fit, i) ==> !fitness_lt(fit, #[trigger] fits[j]),
        first_beaten(fits, fit, i) < fits.len() ==> fitness_lt(fit, fits[first_beaten(fits, fit, i)]),
    decreases fits.len() - i,
{
    if i < fits.len() && !fitness_lt(fit, fits[i]) {
        lemma_first_beaten(fits, fit, i + 1);
    }
}

/// Enters a solution with fitness `fit` into a ranking of at most `cap` entries, kept
/// best first: it goes in front of the first entry it beats, the last entry dropping out
/// when the ranking overflows; if it beats none it is appended while there is room.
pub open spec fn ranked_insert(
    sel: Seq<usize>,
    fits: Seq<Option<Time>>,
    choice: usize,
    fit: Option<Time>,
    cap: nat,
) -> (Seq<usize>, Seq<Option<Time>>) {
    let p = first_beaten(fits, fit, 0);
    if p < fits.len() && p < cap {
        let s2 = sel.insert(p, choice);
        let f2 = fits.insert(p, fit);
        if s2.len() > cap {
            (s2.drop_last(), f2.drop_last())
        } else {
            (s2, f2)
        }
    } else if fits.len() < cap {
        (sel.push(choice), fits.push(fit))
    } else {
        (sel, fits)
    }
}

/// No entry of the ranking beats an entry before it.
pub open spec fn ranked(fits: Seq<Option<Time>>) -> bool {
    forall|j: int, k: int| 0 <= j < k < fits.len() ==> !fitness_lt(#[trigger] fits[k], #[trigger] fits[j])
}

/// The indices are distinct and below `n`.
pub open spec fn distinct_below(sel: Seq<usize>, n: nat) -> bool {
    &&& forall|j: int| 0 <= j < sel.len() ==> #[trigger] sel[j] < n
    &&& forall|j: int, k: int| 0 <= j < k < sel.len() ==> #[trigger] sel[j] != #[trigger] sel[k]
}

proof fn lemma_ranked_insert(
    sel: Seq<usize>,
    fits: Seq<Option<Time>>,
    choice: usize,
    fit: Option<Time>,
    cap: nat,
    n: nat,
    f: spec_fn(usize) -> Option<Time>,
)
    requires
        sel.len() == fits.len() <= cap,
        ranked(fits),
        distinct_below(sel, n),
        choice < n,
        !sel.contains(choice),
        forall|j: int| 0 <= j < sel.len() ==> #[trigger] fits[j] == f(sel[j]),
        fit == f(choice),
    ensures
        ({
            let (s2, f2) = ranked_insert(sel, fits, choice, fit, cap);
            &&& s2.len() == f2.len()
            &&& s2.len() == if sel.len() < cap { sel.len() + 1 } else { cap }
            &&& ranked(f2)
            &&& distinct_below(s2, n)
            &&& forall|j: int| 0 <= j < s2.len() ==> #[trigger] f2[j] == f(s2[j])
        }),
{
    lemma_first_beaten(fits, fit, 0);
    let p = first_beaten(fits, fit, 0);
    if p < fits.len() && p < cap {
        let s2 = sel.insert(p, choice);
        let f2 = fits.insert(p, fit);
        sel.insert_ensures(p, choice);
        fits.insert_ensures(p, fit);
        assert(f2[p] == fit);
        assert forall|j: int, k: int| 0 <= j < k < f2.len() implies !fitness_lt(#[trigger] f2[k], #[trigger] f2[j]) by {
            if k < p {
                assert(f2[k] == fits[k] && f2[j] == fits[j]);
            } else if k == p {
                assert(f2[j] == fits[j]);
            } else if j < p {
                assert(f2[k] == fits[k - 1] && f2[j] == fits[j]);
            } else if j == p {
                assert(f2[k] == fits[k - 1]);
                if k - 1 > p {
                    assert(!fitness_lt(fits[k - 1], fits[p]));
                }
            } else {
                assert(f2[k] == fits[k - 1] && f2[j] == fits[j - 1]);
            }
        }
        assert forall|j: int| 0 <= j < s2.len() implies #[trigger] s2[j] < n by {
            if j < p {
                assert(s2[j] == sel[j]);
            } else if j > p {
                assert(s2[j] == sel[j - 1]);
            }
        }
        assert forall|j: int, k: int| 0 <= j < k < s2.len() implies #[trigger] s2[j] != #[trigger] s2[k] by {
            if k < p {
                assert(s2[k] == sel[k] && s2[j] == sel[j]);
            } else if k == p {
                assert(s2[j] == sel[j]);
            } else if j < p {
                assert(s2[k] == sel[k - 1] && s2[j] == sel[j]);
            } else if j == p {
                assert(s2[k] == sel[k - 1]);
            } else {
                assert(s2[k] == sel[k - 1] && s2[j] == sel[j - 1]);
            }
        }
        assert forall|j: int| 0 <= j < s2.len() implies #[trigger] f2[j] == f(s2[j]) by {
            if j < p {
                assert(s2[j] == sel[j] && f2[j] == fits[j]);
            } else if j > p {
                assert(s2[j] == sel[j - 1] && f2[j] == fits[j - 1]);
            }
        }
        if s2.len() > cap {
            let s3 = s2.drop_last();
            let f3 = f2.drop_last();
            assert forall|j: int, k: int| 0 <= j < k < f3.len() implies !fitness_lt(#[trigger] f3[k], #[trigger] f3[j]) by {
                assert(f3[k] == f2[k] && f3[j] == f2[j]);
            }
            assert forall|j: int, k: int| 0 <= j < k < s3.len() implies #[trigger] s3[j] != #[trigger] s3[k] by {
                assert(s3[k] == s2[k] && s3[j] == s2[j]);
            }
            assert forall|j: int| 0 <= j < s3.len() implies #[trigger] s3[j] < n by {
                assert(s3[j] == s2[j]);
            }
            assert forall|j: int| 0 <= j < s3.len() implies #[trigger] f3[j] == f(s3[j]) by {
                assert(s3[j] == s2[j] && f3[j] == f2[j]);
            }
        }
    } else if fits.len() < cap {
        let s2 = sel.push(choice);
        let f2 = fits.push(fit);
        assert(p == fits.len());
        assert forall|j: int, k: int| 0 <= j < k < f2.len() implies !fitness_lt(#[trigger] f2[k], #[trigger] f2[j]) by {
            assert(f2[j] == fits[j]);
            if k < fits.len() {
                assert(f2[k] == fits[k]);
            }
        }
        assert forall|j: int, k: int| 0 <= j < k < s2.len() implies #[trigger] s2[j] != #[trigger] s2[k] by {
            assert(s2[j] == sel[j]);
            if k < sel.len() {
                assert(s2[k] == sel[k]);
            } else {
                assert(sel.contains(sel[j]));
            }
        }
        assert forall|j: int| 0 <= j < s2.len() implies #[trigger] f2[j] == f(s2[j]) by {
            if j < sel.len() {
                assert(s2[j] == sel[j] && f2[j] == fits[j]);
            }
        }
    }
}

proof fn lemma_ranked_members(
    sel: Seq<usize>,
    fits: Seq<Option<Time>>,
    choice: usize,
    fit: Option<Time>,
    cap: nat,
)
    requires
        sel.len() == fits.len(),
    ensures
        forall|j: int|
            0 <= j < ranked_insert(sel, fits, choice, fit, cap).1.len() ==> #[trigger] ranked_insert(
                sel,
                fits,
                choice,
                fit,
                cap,
            ).1[j] == fit || fits.contains(ranked_insert(sel, fits, choice, fit, cap).1[j]),
{
    lemma_first_beaten(fits, fit, 0);
    let p = first_beaten(fits, fit, 0);
    let f2 = ranked_insert(sel, fits, choice, fit, cap).1;
    if p < fits.len() && p < cap {
        fits.insert_ensures(p, fit);
        let f1 = fits.insert(p, fit);
        assert forall|j: int| 0 <= j < f2.len() implies #[trigger] f2[j] == fit || fits.contains(f2[j]) by {
            assert(f2[j] == f1[j]);
            if j < p {
                assert(f1[j] == fits[j]);
            } else if j > p {
                assert(f1[j] == fits[j - 1]);
            }
        }
    } else if fits.len() < cap {
        assert forall|j: int| 0 <= j < f2.len() implies #[trigger] f2[j] == fit || fits.contains(f2[j]) by {
            if j < fits.len() {
                assert(f2[j] == fits[j]);
            }
        }
    } else {
        assert forall|j: int| 0 <= j < f2.len() implies #[trigger] f2[j] == fit || fits.contains(f2[j]) by {
            assert(f2[j] == fits[j]);
        }
    }
}

/// Enters `choice`, of fitness `fitness`, into the ranking of at most `num_to_select`
/// selected solutions (see `ranked_insert`).
fn insert_ranked(
    selected: &mut Vec<usize>,
    selected_fitness: &mut Vec<Option<Time>>,
    choice: usize,
    fitness: Option<Time>,
    num_to_select: usize,
)
    requires
        old(selected)@.len() == old(selected_fitness)@.len() <= num_to_select,
    ensures
        (final(selected)@, final(selected_fitness)@) == ranked_insert(
            old(selected)@,
            old(selected_fitness)@,
            choice,
            fitness,
            num_to_select as nat,
        ),
{
    proof {
        lemma_first_beaten(selected_fitness@, fitness, 0);
    }
    let ghost p = first_beaten(selected_fitness@, fitness, 0);
    let mut i: usize = 0;
    while i < num_to_select
        invariant
            i <= num_to_select,
            selected@ == old(selected)@,
            selected_fitness@ == old(selected_fitness)@,
            selected@.len() == selected_fitness@.len() <= num_to_select,
            i <= selected_fitness@.len(),
            i <= p,
            p == first_beaten(selected_fitness@, fitness, 0),
            0 <= p <= selected_fitness@.len(),
            p < selected_fitness@.len() ==> fitness_lt(fitness, selected_fitness@[p]),
            forall|j: int| 0 <= j < p ==> !fitness_lt(fitness, #[trigger] selected_fitness@[j]),
        decreases num_to_select - i,
    {
        if i < selected_fitness.len() {
            if fitness_less(fitness, selected_fitness[i]) {
                selected.insert(i, choice);
                selected_fitness.insert(i, fitness);
                if selected.len() > num_to_select {
                    selected.pop();
                    selected_fitness.pop();
                }
                return;
            }
        } else {
            selected.push(choice);
            selected_fitness.push(fitness);
            return;
        }
        i += 1;
    }
}

/// True if `v` holds `x`.
fn holds(v: &Vec<usize>, x: usize) -> (r: bool)
    ensures
        r == v@.contains(x),
{
    let mut i: usize = 0;
    while i < v.len()
        invariant
            i <= v@.len(),
            forall|j: int| 0 <= j < i ==> v@[j] != x,
        decreases v.len() - i,
    {
        if v[i] == x {
            return true;
        }
        i += 1;
    }
    false
}

/// How many entries of `sel` are below `c`.
spec fn count_below(sel: Seq<usize>, c: nat) -> nat
    decreases sel.len(),
{
    if sel.len() == 0 {
        0
    } else {
        count_below(sel.drop_last(), c) + if sel.last() < c { 1nat } else { 0nat }
    }
}

proof fn lemma_count_below_le(sel: Seq<usize>, c: nat)
    ensures
        count_below(sel, c) <= sel.len(),
    decreases sel.len(),
{
    if sel.len() > 0 {
        lemma_count_below_le(sel.drop_last(), c);
    }
}

proof fn lemma_count_below_zero(sel: Seq<usize>)
    ensures
        count_below(sel, 0) == 0,
    decreases sel.len(),
{
    if sel.len() > 0 {
        lemma_count_below_zero(sel.drop_last());
    }
}

proof fn lemma_count_below_step(sel: Seq<usize>, c: usize)
    requires
        forall|j: int, k: int| 0 <= j < k < sel.len() ==> #[trigger] sel[j] != #[trigger] sel[k],
    ensures
        count_below(sel, (c + 1) as nat) == count_below(sel, c as nat) + if sel.contains(c) { 1nat } else { 0nat },
    decreases sel.len(),
{
    if sel.len() > 0 {
        let d = sel.drop_last();
        assert forall|j: int, k: int| 0 <= j < k < d.len() implies #[trigger] d[j] != #[trigger] d[k] by {
            assert(d[j] == sel[j] && d[k] == sel[k]);
        }
        lemma_count_below_step(d, c);
        if sel.last() == c {
            if d.contains(c) {
                let m = choose|m: int| 0 <= m < d.len() && d[m] == c;
                assert(sel[m] == sel[sel.len() - 1]);
            }
            assert(sel.contains(c)) by {
                assert(sel[sel.len() - 1] == c);
            }
        } else {
            if sel.contains(c) {
                let m = choose|m: int| 0 <= m < sel.len() && sel[m] == c;
                if m < sel.len() - 1 {
                    assert(d[m] == sel[m]);
                }
            }
            if d.contains(c) {
                let m = choose|m: int| 0 <= m < d.len() && d[m] == c;
                assert(sel[m] == d[m]);
            }
            assert(sel.contains(c) == d.contains(c));
        }
    }
}

/// Draws, uniformly, an index below `n` that is not yet selected. Drawing an index until
/// one that is not selected turns up gives each such index the same chance; this draws
/// from those indices directly.
fn pick_unselected(n: usize, selected: &Vec<usize>, rngthread: &mut ThreadRng) -> (choice: usize)
    requires
        forall|j: int, k: int| 0 <= j < k < selected@.len() ==> #[trigger] selected@[j] != #[trigger] selected@[k],
        selected@.len() < n,
    ensures
        choice < n,
        !selected@.contains(choice),
{
    let mut free: Vec<usize> = Vec::new();
    let mut c: usize = 0;
    proof {
        lemma_count_below_zero(selected@);
    }
    while c < n
        invariant
            c <= n,
            selected@.len() < n,
            forall|j: int, k: int| 0 <= j < k < selected@.len() ==> #[trigger] selected@[j] != #[trigger] selected@[k],
            forall|j: int| 0 <= j < free@.len() ==> #[trigger] free@[j] < n && !selected@.contains(free@[j]),
            free@.len() + count_below(selected@, c as nat) == c,
        decreases n - c,
    {
        proof {
            lemma_count_below_step(selected@, c);
        }
        if !holds(selected, c) {
            free.push(c);
        }
        c += 1;
    }
    proof {
        lemma_count_below_le(selected@, n as nat);
    }
    let k: usize = sample_below(free.len(), rngthread);
    free[k]
}

/// Every solution can be evaluated: it has an entry for every base and places at most 255
/// cars there.
pub open spec fn population_evaluable(solutions: Seq<Solution>, n_bases: nat) -> bool {
    forall|k: int|
        0 <= k < solutions.len() ==> (#[trigger] solutions[k])@.len() >= n_bases && cars_at_first(
            solutions[k]@,
            n_bases,
        ) <= 255
}

/// The fitness of the `k`-th solution.
pub open spec fn fitness_of(
    solutions: Seq<Solution>,
    k: usize,
    iterations: u8,
    spawn_stack: Seq<Vec<Incident>>,
    g: Map<Location, Node>,
    bases: Seq<Location>,
    timestep: Time,
    end_time: Time,
) -> Option<Time> {
    solution_fitness(solutions[k as int]@, iterations, g, schedule(spawn_stack), bases, timestep, end_time)
}

/// The ranking that entering the drawn solutions one after the other makes, `fits`
/// holding their fitness values (see `ranked_insert`): the selected indices and their
/// fitness values, best first.
pub open spec fn ranking(drawn: Seq<usize>, fits: Seq<Option<Time>>, cap: nat) -> (Seq<usize>, Seq<Option<Time>>)
    decreases drawn.len(),
{
    if drawn.len() == 0 || fits.len() == 0 {
        (Seq::empty(), Seq::empty())
    } else {
        let (sel, sf) = ranking(drawn.drop_last(), fits.drop_last(), cap);
        ranked_insert(sel, sf, drawn.last(), fits.last(), cap)
    }
}

/// The best measured fitness among `fits`, scanning in order from `Time::MAX` (which it
/// stays when none is measured or none is below it).
pub open spec fn best_measured(fits: Seq<Option<Time>>) -> Time
    decreases fits.len(),
{
    if fits.len() == 0 {
        u64::MAX
    } else {
        let m = best_measured(fits.drop_last());
        if fitness_lt(fits.last(), Some(m)) {
            fits.last().unwrap()
        } else {
            m
        }
    }
}

/// The fitness of each drawn solution.
pub open spec fn drawn_fitness(
    solutions: Seq<Solution>,
    drawn: Seq<usize>,
    iterations: u8,
    spawn_stack: Seq<Vec<Incident>>,
    g: Map<Location, Node>,
    bases: Seq<Location>,
    timestep: Time,
    end_time: Time,
) -> Seq<Option<Time>> {
    drawn.map_values(|k: usize| fitness_of(solutions, k, iterations, spawn_stack, g, bases, timestep, end_time))
}

/// The draws of a tournament: each is a solution index below `n` that the ranking made
/// by the draws before it had not selected.
pub open spec fn fair_draws(drawn: Seq<usize>, fits: Seq<Option<Time>>, n: nat, cap: nat) -> bool {
    &&& fits.len() == drawn.len()
    &&& forall|j: int| 0 <= j < drawn.len() ==> #[trigger] drawn[j] < n
    &&& forall|j: int|
        0 <= j < drawn.len() ==> !ranking(drawn.take(j), fits.take(j), cap).0.contains(#[trigger] drawn[j])
}

/// Runs a tournament: `tournament_size` times a solution that is not yet selected is drawn
/// at random and evaluated, and enters the ranking of at most `num_to_select` selected
/// solutions, best first (see `ranked_insert`). Returns the indices of the selected
/// solutions, best first; `best_evaluated_fitness` is set to the best fitness evaluated
/// (`Time::MAX` if none could be measured).
pub fn tournament_selection(
    solutions: &Vec<Solution>,
    num_to_select: u16,
    tournament_size: u16,
    eval_iterations: u8,
    spawn_stack: &Vec<Vec<Incident>>,
    graph: &HashMap<Location, Node>,
    base_locations: &Vec<Location>,
    route_cache: &mut RouteCache,
    timestep: Time,
    end_time: Time,
    rngthread: &mut ThreadRng,
    unreachable_set: &mut HashSet<Location>,
    best_evaluated_fitness: &mut Time,
) -> (selected: Vec<usize>)
    requires
        solutions@.len() > 0,
        num_to_select < solutions@.len() || tournament_size <= solutions@.len(),
        evaluation_ready(graph@, old(route_cache)@, spawn_stack@, base_locations@, timestep, end_time),
        population_evaluable(solutions@, base_locations@.len()),
    ensures
        selected@.len() == if tournament_size < num_to_select { tournament_size } else { num_to_select },
        distinct_below(selected@, solutions@.len()),
        ranked(
            selected@.map_values(
                |k: usize|
                    fitness_of(
                        solutions@,
                        k,
                        eval_iterations,
                        spawn_stack@,
                        graph@,
                        base_locations@,
                        timestep,
                        end_time,
                    ),
            ),
        ),
        forall|j: int|
            0 <= j < selected@.len() ==> (fitness_of(
                solutions@,
                #[trigger] selected@[j],
                eval_iterations,
                spawn_stack@,
                graph@,
                base_locations@,
                timestep,
                end_time,
            ) matches Some(f) ==> *final(best_evaluated_fitness) <= f),
        *final(best_evaluated_fitness) == u64::MAX || exists|k: usize|
            k < solutions@.len() && fitness_of(
                solutions@,
                k,
                eval_iterations,
                spawn_stack@,
                graph@,
                base_locations@,
                timestep,
                end_time,
            ) == Some(*final(best_evaluated_fitness)),
        exists|drawn: Seq<usize>|
            #![trigger drawn_fitness(solutions@, drawn, eval_iterations, spawn_stack@, graph@, base_locations@, timestep, end_time)]
            {
                let fits = drawn_fitness(
                    solutions@,
                    drawn,
                    eval_iterations,
                    spawn_stack@,
                    graph@,
                    base_locations@,
                    timestep,
                    end_time,
                );
                &&& drawn.len() == tournament_size
                &&& fair_draws(drawn, fits, solutions@.len() as nat, num_to_select as nat)
                &&& selected@ == ranking(drawn, fits, num_to_select as nat).0
                &&& *final(best_evaluated_fitness) == best_measured(fits)
            },
        evaluation_ready(graph@, final(route_cache)@, spawn_stack@, base_locations@, timestep, end_time),
        old(unreachable_set)@.subset_of(final(unreachable_set)@),
{
    let ghost f = |k: usize|
        fitness_of(solutions@, k, eval_iterations, spawn_stack@, graph@, base_locations@, timestep, end_time);
    let mut selected: Vec<usize> = Vec::new();
    let mut selected_fitness: Vec<Option<Time>> = Vec::new();
    *best_evaluated_fitness = u64::MAX;
    let ghost mut drawn: Seq<usize> = Seq::empty();
    let mut t: u16 = 0;
    proof {
        assert(drawn.map_values(f) =~= Seq::<Option<Time>>::empty());
    }
    while t < tournament_size
        invariant
            drawn.len() == t,
            fair_draws(drawn, drawn.map_values(f), solutions@.len() as nat, num_to_select as nat),
            (selected@, selected_fitness@) == ranking(drawn, drawn.map_values(f), num_to_select as nat),
            *best_evaluated_fitness == best_measured(drawn.map_values(f)),
            t <= tournament_size,
            solutions@.len() > 0,
            num_to_select < solutions@.len() || tournament_size <= solutions@.len(),
            evaluation_ready(graph@, route_cache@, spawn_stack@, base_locations@, timestep, end_time),
            population_evaluable(solutions@, base_locations@.len()),
            old(unreachable_set)@.subset_of(unreachable_set@),
            selected@.len() == selected_fitness@.len(),
            selected@.len() == if t < num_to_select { t } else { num_to_select },
            distinct_below(selected@, solutions@.len()),
            ranked(selected_fitness@),
            forall|k: usize|
                #[trigger] f(k) == fitness_of(
                    solutions@,
                    k,
                    eval_iterations,
                    spawn_stack@,
                    graph@,
                    base_locations@,
                    timestep,
                    end_time,
                ),
            forall|j: int| 0 <= j < selected@.len() ==> #[trigger] selected_fitness@[j] == f(selected@[j]),
            forall|j: int|
                0 <= j < selected_fitness@.len() ==> (#[trigger] selected_fitness@[j] matches Some(v) ==> *best_evaluated_fitness <= v),
            *best_evaluated_fitness == u64::MAX || exists|k: usize| k < solutions@.len() && #[trigger] f(k) == Some(*best_evaluated_fitness),
        decreases tournament_size - t,
    {
        let choice: usize = pick_unselected(solutions.len(), &selected, rngthread);
        proof {
            assert((solutions@[choice as int])@.len() >= base_locations@.len());
        }
        let ghost pre_set = unreachable_set@;
        let fitness: Option<Time> = evaluate(
            &solutions[choice],
            eval_iterations,
            spawn_stack,
            graph,
            base_locations,
            route_cache,
            timestep,
            end_time,
            unreachable_set,
        );
        proof {
            assert(fitness == solution_fitness(
                solutions@[choice as int]@,
                eval_iterations,
                graph@,
                schedule(spawn_stack@),
                base_locations@,
                timestep,
                end_time,
            ));
            assert(fitness == fitness_of(solutions@, choice, eval_iterations, spawn_stack@, graph@, base_locations@, timestep, end_time));
            assert(fitness == f(choice));
            assert(old(unreachable_set)@.subset_of(unreachable_set@));
        }
        let ghost best_before = *best_evaluated_fitness;
        if fitness_less(fitness, Some(*best_evaluated_fitness)) {
            *best_evaluated_fitness = fitness.unwrap();
        }
        let ghost s0 = selected@;
        let ghost f0 = selected_fitness@;
        proof {
            lemma_ranked_insert(s0, f0, choice, fitness, num_to_select as nat, solutions@.len() as nat, f);
        }
        insert_ranked(&mut selected, &mut selected_fitness, choice, fitness, num_to_select as usize);
        proof {
            let d0 = drawn;
            let fs0 = d0.map_values(f);
            let d1 = d0.push(choice);
            let fs1 = d1.map_values(f);
            assert(d1.drop_last() =~= d0);
            assert(fs1.drop_last() =~= fs0);
            assert(fs1.last() == fitness);
            assert(ranking(d1, fs1, num_to_select as nat) == ranked_insert(s0, f0, choice, fitness, num_to_select as nat));
            assert(best_measured(fs1) == *best_evaluated_fitness);
            assert forall|j: int| 0 <= j < d1.len() implies !ranking(d1.take(j), fs1.take(j), num_to_select as nat).0.contains(
                #[trigger] d1[j],
            ) by {
                if j < d0.len() {
                    assert(d1.take(j) =~= d0.take(j));
                    assert(fs1.take(j) =~= fs0.take(j));
                    assert(d1[j] == d0[j]);
                } else {
                    assert(d1.take(j) =~= d0);
                    assert(fs1.take(j) =~= fs0);
                }
            }
            drawn = d1;
            let (s2, f2) = ranked_insert(s0, f0, choice, fitness, num_to_select as nat);
            lemma_ranked_members(s0, f0, choice, fitness, num_to_select as nat);
            assert forall|j: int|
                0 <= j < selected_fitness@.len() implies (#[trigger] selected_fitness@[j] matches Some(v)
                ==> *best_evaluated_fitness <= v) by {
                if selected_fitness@[j] != fitness {
                    assert(f0.contains(selected_fitness@[j]));
                    let m = choose|m: int| 0 <= m < f0.len() && f0[m] == selected_fitness@[j];
                    assert(f0[m] matches Some(v) ==> best_before <= v);
                }
            }
        }
        t += 1;
    }
    proof {
        let fits = drawn_fitness(solutions@, drawn, eval_iterations, spawn_stack@, graph@, base_locations@, timestep, end_time);
        assert(fits =~= drawn.map_values(f));
        if *best_evaluated_fitness != u64::MAX {
            let k = choose|k: usize| k < solutions@.len() && #[trigger] f(k) == Some(*best_evaluated_fitness);
            assert(fitness_of(solutions@, k, eval_iterations, spawn_stack@, graph@, base_locations@, timestep, end_time)
                == Some(*best_evaluated_fitness));
        }
        assert(selected@.map_values(f) =~= selected_fitness@);
        assert forall|j: int| 0 <= j < selected@.len() implies (fitness_of(
            solutions@,
            #[trigger] selected@[j],
            eval_iterations,
            spawn_stack@,
            graph@,
            base_locations@,
            timestep,
            end_time,
        ) matches Some(v) ==> *best_evaluated_fitness <= v) by {
            assert(selected_fitness@[j] == f(selected@[j]));
        }
    }
    selected
}

/// Every solution has `n_entries` entries and places exactly `max_cars` cars.
pub open spec fn valid_population(solutions: Seq<Solution>, n_entries: nat, max_cars: nat) -> bool {
    forall|k: int|
        0 <= k < solutions.len() ==> (#[trigger] solutions[k])@.len() == n_entries && total_cars(solutions[k]@)
            == max_cars
}

/// A population of `sol_num` random solutions, each spreading `max_cars` cars over
/// `base_number` bases (see `generate_solution`).
pub fn initial_population(sol_num: u16, base_number: u8, max_cars: u16, rngthread: &mut ThreadRng) -> (p: Vec<
    Solution,
>)
    requires
        base_number > 0,
        max_cars <= 255,
    ensures
        p@.len() == sol_num,
        valid_population(p@, base_number as nat, max_cars as nat),
{
    let mut solutions: Vec<Solution> = Vec::new();
    let mut k: u16 = 0;
    while k < sol_num
        invariant
            k <= sol_num,
            base_number > 0,
            max_cars <= 255,
            solutions@.len() == k,
            valid_population(solutions@, base_number as nat, max_cars as nat),
        decreases sol_num - k,
    {
        let s = generate_solution(base_number, max_cars, rngthread);
        solutions.push(s);
        k += 1;
    }
    solutions
}

/// Every solution places exactly `max_cars` cars.
pub open spec fn all_place(solutions: Seq<Solution>, max_cars: nat) -> bool {
    forall|k: int| 0 <= k < solutions.len() ==> total_cars((#[trigger] solutions[k])@) == max_cars
}

/// The solutions all have the same number of entries, at least one per base, and each
/// places at most 127 cars.
pub open spec fn evolvable_population(solutions: Seq<Solution>, n_bases: nat) -> bool {
    forall|k: int|
        0 <= k < solutions.len() ==> (#[trigger] solutions[k])@.len() == solutions[0]@.len() && solutions[0]@.len()
            >= n_bases && total_cars(solutions[k]@) <= 127
}

/// True if crossover of `a` and `b` is sure to be repairable: no cars are wanted, or some
/// base holds cars in both solutions (so neither child can end up without cars).
fn can_cross(a: &Solution, b: &Solution, max_cars: u16) -> (r: bool)
    requires
        a@.len() <= b@.len(),
    ensures
        r == (max_cars == 0 || exists|j: int| 0 <= j < a@.len() && #[trigger] a@[j] > 0 && b@[j] > 0),
{
    if max_cars == 0 {
        return true;
    }
    let mut j: usize = 0;
    while j < a.len()
        invariant
            j <= a@.len(),
            a@.len() <= b@.len(),
            forall|k: int| 0 <= k < j ==> !(#[trigger] a@[k] > 0 && b@[k] > 0),
        decreases a.len() - j,
    {
        if a[j] > 0 && b[j] > 0 {
            return true;
        }
        j += 1;
    }
    false
}

proof fn lemma_valid_solution_entries(s: Seq<u8>, max_cars: nat)
    requires
        total_cars(s) == max_cars,
        max_cars <= 127,
    ensures
        forall|j: int| 0 <= j < s.len() ==> #[trigger] s[j] <= 127,
{
    assert forall|j: int| 0 <= j < s.len() implies #[trigger] s[j] <= 127 by {
        lemma_entry_le_total(s, j);
    }
}

/// `after` comes from `before` by at most `m` car moves: it has as many bases and as many
/// cars, and at most `m` cars changed base.
pub open spec fn mutated_from(before: Seq<u8>, after: Seq<u8>, m: nat) -> bool {
    &&& after.len() == before.len()
    &&& total_cars(after) == total_cars(before)
    &&& cars_moved(before, after, before.len()) <= m
}

/// Some base holds cars in both `a` and `b`, or no cars are wanted: crossing them can be
/// repaired.
pub open spec fn crossable(a: Seq<u8>, b: Seq<u8>, max_cars: nat) -> bool {
    max_cars == 0 || exists|j: int| 0 <= j < a.len() && #[trigger] a[j] > 0 && b[j] > 0
}

/// `ca` and `cb` are children of `pa` and `pb`: without crossover, the parents mutated by
/// at most `m_no_xover` moves each; with crossover, a repaired crossover of the parents
/// mutated by at most `m` moves each, or, when the parents cannot be crossed, the
/// parents mutated by at most `m` moves each.
pub open spec fn children_of(
    pa: Seq<u8>,
    pb: Seq<u8>,
    ca: Seq<u8>,
    cb: Seq<u8>,
    do_crossover: bool,
    max_cars: nat,
    m: nat,
    m_no_xover: nat,
) -> bool {
    if !do_crossover {
        mutated_from(pa, ca, m_no_xover) && mutated_from(pb, cb, m_no_xover)
    } else if crossable(pa, pb, max_cars) {
        exists|xa: Seq<u8>, xb: Seq<u8>|
            #[trigger] crossed_from(pa, pb, xa, xb, max_cars) && mutated_from(xa, ca, m) && mutated_from(xb, cb, m)
    } else {
        mutated_from(pa, ca, m) && mutated_from(pb, cb, m)
    }
}

/// `new` is bred from `old` along `sel`: selected solution `i` is kept at position
/// `2i + i % 2`, and each pair of selected solutions (`2h`, `2h + 1`) has its two children
/// at positions `4h + 1` and `4h + 2`.
pub open spec fn bred_from(
    old: Seq<Solution>,
    new: Seq<Solution>,
    sel: Seq<usize>,
    do_crossover: bool,
    max_cars: nat,
    m: nat,
    m_no_xover: nat,
) -> bool {
    &&& new.len() == 2 * sel.len()
    &&& forall|i: int| 0 <= i < sel.len() ==> (#[trigger] new[2 * i + i % 2])@ == old[sel[i] as int]@
    &&& forall|h: int|
        0 <= h < sel.len() / 2 ==> #[trigger] children_of(
            old[sel[2 * h] as int]@,
            old[sel[2 * h + 1] as int]@,
            new[4 * h + 1]@,
            new[4 * h + 2]@,
            do_crossover,
            max_cars,
            m,
            m_no_xover,
        )
}

/// Breeds the next population from the selected solutions (see `bred_from`).
fn breed(
    solutions: &Vec<Solution>,
    selected_indexes: &Vec<usize>,
    max_cars: u16,
    num_of_mutations: u8,
    num_of_mutations_when_no_xover: u8,
    do_crossover: bool,
    n_bases: Ghost<nat>,
    rngthread: &mut ThreadRng,
) -> (new_solutions: Vec<Solution>)
    requires
        selected_indexes@.len() % 2 == 0,
        forall|j: int| 0 <= j < selected_indexes@.len() ==> #[trigger] selected_indexes@[j] < solutions@.len(),
        max_cars <= 127,
        n_bases@ > 0,
        solutions@.len() > 0,
        evolvable_population(solutions@, n_bases@),
    ensures
        bred_from(
            solutions@,
            new_solutions@,
            selected_indexes@,
            do_crossover,
            max_cars as nat,
            num_of_mutations as nat,
            num_of_mutations_when_no_xover as nat,
        ),
        evolvable_population(new_solutions@, n_bases@),
        new_solutions@.len() > 0 ==> new_solutions@[0]@.len() == solutions@[0]@.len(),
        all_place(solutions@, max_cars as nat) ==> all_place(new_solutions@, max_cars as nat),
{
    let ghost nb = n_bases@;
    let ghost sel = selected_indexes@;
    let ghost old_s = solutions@;
    let ghost mx = max_cars as nat;
    let ghost m = num_of_mutations as nat;
    let ghost mn = num_of_mutations_when_no_xover as nat;
    let mut new_solutions: Vec<Solution> = Vec::new();
    let ghost valid_old = all_place(solutions@, max_cars as nat);
    let mut i: usize = 0;
    while i < selected_indexes.len()
        invariant
            i <= selected_indexes@.len(),
            selected_indexes@.len() % 2 == 0,
            forall|j: int| 0 <= j < selected_indexes@.len() ==> #[trigger] selected_indexes@[j] < solutions@.len(),
            max_cars <= 127,
            nb == n_bases@,
            nb > 0,
            mx == max_cars as nat,
            m == num_of_mutations as nat,
            mn == num_of_mutations_when_no_xover as nat,
            valid_old == all_place(solutions@, max_cars as nat),
            solutions@.len() > 0,
            evolvable_population(solutions@, nb),
            forall|k: int|
                0 <= k < new_solutions@.len() ==> (#[trigger] new_solutions@[k])@.len() == solutions@[0]@.len()
                    && total_cars(new_solutions@[k]@) <= 127,
            valid_old ==> all_place(new_solutions@, max_cars as nat),
            new_solutions@.len() == 2 * i + (i % 2),
            sel == selected_indexes@,
            old_s == solutions@,
            forall|k: int| 0 <= k < i ==> (#[trigger] new_solutions@[2 * k + k % 2])@ == old_s[sel[k] as int]@,
            forall|h: int|
                0 <= h < (i + 1) / 2 ==> #[trigger] children_of(
                    old_s[sel[2 * h] as int]@,
                    old_s[sel[2 * h + 1] as int]@,
                    new_solutions@[4 * h + 1]@,
                    new_solutions@[4 * h + 2]@,
                    do_crossover,
                    mx,
                    m,
                    mn,
                ),
        decreases selected_indexes.len() - i,
    {
        let selected_index: usize = selected_indexes[i];
        let kept: Solution = solutions[selected_index].clone();
        proof {
            assert(kept@ =~= solutions@[selected_index as int]@);
            assert(solutions@[selected_index as int]@.len() == solutions@[0]@.len());
        }
        let ghost before_push = new_solutions@;
        new_solutions.push(kept);
        if i % 2 == 0 {
            let next_selected_index: usize = selected_indexes[i + 1];
            let mut a: Solution = solutions[selected_index].clone();
            let mut b: Solution = solutions[next_selected_index].clone();
            let ghost pa = a@;
            let ghost pb = b@;
            proof {
                assert(a@ =~= solutions@[selected_index as int]@);
                assert(b@ =~= solutions@[next_selected_index as int]@);
                assert(solutions@[next_selected_index as int]@.len() == solutions@[0]@.len());
                lemma_valid_solution_entries(a@, total_cars(a@));
                lemma_valid_solution_entries(b@, total_cars(b@));
            }
            if do_crossover && can_cross(&a, &b, max_cars) {
                crossover(&mut a, &mut b, max_cars, rngthread);
                let ghost xa = a@;
                let ghost xb = b@;
                mutate(&mut a, num_of_mutations, rngthread);
                mutate(&mut b, num_of_mutations, rngthread);
                proof {
                    assert(crossed_from(pa, pb, xa, xb, mx));
                    assert(children_of(pa, pb, a@, b@, do_crossover, mx, m, mn));
                }
            } else if do_crossover {
                mutate(&mut a, num_of_mutations, rngthread);
                mutate(&mut b, num_of_mutations, rngthread);
            } else {
                mutate(&mut a, num_of_mutations_when_no_xover, rngthread);
                mutate(&mut b, num_of_mutations_when_no_xover, rngthread);
            }
            let ghost ca = a@;
            let ghost cb = b@;
            proof {
                assert(children_of(pa, pb, ca, cb, do_crossover, mx, m, mn));
            }
            let ghost before_children = new_solutions@;
            new_solutions.push(a);
            new_solutions.push(b);
            proof {
                assert(new_solutions@[4 * (i / 2) + 1]@ == ca);
                assert(new_solutions@[4 * (i / 2) + 2]@ == cb);
                assert forall|h: int|
                    0 <= h < (i + 2) / 2 implies #[trigger] children_of(
                    old_s[sel[2 * h] as int]@,
                    old_s[sel[2 * h + 1] as int]@,
                    new_solutions@[4 * h + 1]@,
                    new_solutions@[4 * h + 2]@,
                    do_crossover,
                    mx,
                    m,
                    mn,
                ) by {
                    if h < i / 2 {
                        assert(new_solutions@[4 * h + 1] == before_children[4 * h + 1]);
                        assert(new_solutions@[4 * h + 2] == before_children[4 * h + 2]);
                        assert(before_children[4 * h + 1] == before_push[4 * h + 1]);
                        assert(before_children[4 * h + 2] == before_push[4 * h + 2]);
                    } else {
                        assert(h == i / 2);
                        assert(2 * h == i);
                    }
                }
            }
        } else {
            proof {
                assert forall|h: int|
                    0 <= h < (i + 2) / 2 implies #[trigger] children_of(
                    old_s[sel[2 * h] as int]@,
                    old_s[sel[2 * h + 1] as int]@,
                    new_solutions@[4 * h + 1]@,
                    new_solutions@[4 * h + 2]@,
                    do_crossover,
                    mx,
                    m,
                    mn,
                ) by {
                    assert(h < (i + 1) / 2);
                    assert(new_solutions@[4 * h + 1] == before_push[4 * h + 1]);
                    assert(new_solutions@[4 * h + 2] == before_push[4 * h + 2]);
                }
            }
        }
        proof {
            let ns = new_solutions@;
            assert forall|k: int| 0 <= k < ns.len() implies (#[trigger] ns[k])@.len() == solutions@[0]@.len() && total_cars(
                ns[k]@,
            ) <= 127 by {}
            if valid_old {
                assert forall|k: int| 0 <= k < ns.len() implies total_cars((#[trigger] ns[k])@) == max_cars by {}
            }
            assert forall|k: int| 0 <= k < i + 1 implies (#[trigger] new_solutions@[2 * k + k % 2])@ == old_s[sel[k] as int]@ by {
                if k < i {
                    assert(new_solutions@[2 * k + k % 2] == before_push[2 * k + k % 2]);
                } else {
                    assert(new_solutions@[2 * i + i % 2] == kept);
                }
            }
        }
        i += 1;
    }
    proof {
        assert forall|k: int| 0 <= k < new_solutions@.len() implies (#[trigger] new_solutions@[k])@.len()
            == new_solutions@[0]@.len() && new_solutions@[0]@.len() >= nb && total_cars(new_solutions@[k]@) <= 127 by {
            assert(new_solutions@[0]@.len() == solutions@[0]@.len());
        }
    }
    new_solutions
}

/// Evolves a population of solutions using tournament selection, crossover (and repair)
/// and mutation.
///
/// The solutions that the tournament selects are shuffled; each one is kept, and each
/// pair of them (positions 0 and 1, 2 and 3, ...) also yields two children (see
/// `bred_from` and `children_of`). With `do_crossover` the children are the repaired
/// crossover of the pair, each mutated `num_of_mutations` times; without, they are copies
/// of the pair mutated `num_of_mutations_when_no_xover` times. A pair that has no base
/// with cars in both solutions is not crossed, since its repair could fail to finish; its
/// children are copies mutated `num_of_mutations` times. Returns the best fitness
/// evaluated in the tournament.
pub fn evolve_pop(
    solutions: &mut Vec<Solution>,
    num_to_select: u16,
    tournament_size: u16,
    eval_iterations: u8,
    spawn_stack: &Vec<Vec<Incident>>,
    graph: &HashMap<Location, Node>,
    base_locations: &Vec<Location>,
    route_cache: &mut RouteCache,
    timestep: Time,
    end_time: Time,
    max_cars: u16,
    num_of_mutations: u8,
    num_of_mutations_when_no_xover: u8,
    rngthread: &mut ThreadRng,
    unreachable_set: &mut HashSet<Location>,
    do_crossover: bool,
) -> (best: Time)
    requires
        old(solutions)@.len() > 0,
        num_to_select < old(solutions)@.len() || tournament_size <= old(solutions)@.len(),
        (if tournament_size < num_to_select { tournament_size } else { num_to_select }) % 2 == 0,
        evaluation_ready(graph@, old(route_cache)@, spawn_stack@, base_locations@, timestep, end_time),
        base_locations@.len() > 0,
        max_cars <= 127,
        evolvable_population(old(solutions)@, base_locations@.len() as nat),
    ensures
        final(solutions)@.len() == 2 * (if tournament_size < num_to_select { tournament_size } else { num_to_select }),
        evolvable_population(final(solutions)@, base_locations@.len() as nat),
        forall|m: nat|
            #[trigger] valid_population(old(solutions)@, m, max_cars as nat) ==> valid_population(
                final(solutions)@,
                m,
                max_cars as nat,
            ),
        exists|sel: Seq<usize>|
            {
                &&& #[trigger] bred_from(
                    old(solutions)@,
                    final(solutions)@,
                    sel,
                    do_crossover,
                    max_cars as nat,
                    num_of_mutations as nat,
                    num_of_mutations_when_no_xover as nat,
                )
                &&& sel.len() == (if tournament_size < num_to_select { tournament_size } else { num_to_select })
                &&& forall|i: int| 0 <= i < sel.len() ==> #[trigger] sel[i] < old(solutions)@.len()
                &&& exists|drawn: Seq<usize>|
                    #![trigger drawn_fitness(old(solutions)@, drawn, eval_iterations, spawn_stack@, graph@, base_locations@, timestep, end_time)]
                    {
                        let fits = drawn_fitness(
                            old(solutions)@,
                            drawn,
                            eval_iterations,
                            spawn_stack@,
                            graph@,
                            base_locations@,
                            timestep,
                            end_time,
                        );
                        &&& drawn.len() == tournament_size
                        &&& fair_draws(drawn, fits, old(solutions)@.len() as nat, num_to_select as nat)
                        &&& sel.to_multiset() == ranking(drawn, fits, num_to_select as nat).0.to_multiset()
                        &&& best == best_measured(fits)
                    }
            },
        evaluation_ready(graph@, final(route_cache)@, spawn_stack@, base_locations@, timestep, end_time),
        old(unreachable_set)@.subset_of(final(unreachable_set)@),
{
    let mut best_evaluated_fitness: Time = u64::MAX;
    let ghost nb = base_locations@.len() as nat;
    proof {
        assert forall|k: int| 0 <= k < solutions@.len() implies (#[trigger] solutions@[k])@.len() >= nb
            && cars_at_first(solutions@[k]@, nb) <= 255 by {
            assert(solutions@[k]@.len() >= nb && total_cars(solutions@[k]@) <= 127);
            crate::simulation::lemma_cars_at_first_mono(solutions@[k]@, nb, solutions@[k]@.len());
        }
    }
    let mut selected_indexes: Vec<usize> = tournament_selection(
        solutions,
        num_to_select,
        tournament_size,
        eval_iterations,
        spawn_stack,
        graph,
        base_locations,
        route_cache,
        timestep,
        end_time,
        rngthread,
        unreachable_set,
        &mut best_evaluated_fitness,
    );
    let ghost chosen = selected_indexes@;
    shuffle_indices(&mut selected_indexes, rngthread);
    proof {
        assert forall|j: int| 0 <= j < selected_indexes@.len() implies #[trigger] selected_indexes@[j] < solutions@.len() by {
            let x = selected_indexes@[j];
            chosen.to_multiset_ensures();
            selected_indexes@.to_multiset_ensures();
            assert(selected_indexes@.contains(x));
            assert(selected_indexes@.to_multiset().count(x) > 0);
            assert(chosen.to_multiset().count(x) > 0);
            assert(chosen.contains(x));
            let m = choose|m: int| 0 <= m < chosen.len() && chosen[m] == x;
            assert(chosen[m] < solutions@.len());
        }
    }
    let new_solutions = breed(
        solutions,
        &selected_indexes,
        max_cars,
        num_of_mutations,
        num_of_mutations_when_no_xover,
        do_crossover,
        Ghost(nb),
        rngthread,
    );
    let ghost old_solutions = solutions@;
    let ghost sel = selected_indexes@;
    *solutions = new_solutions;
    proof {
        assert(bred_from(
            old_solutions,
            solutions@,
            sel,
            do_crossover,
            max_cars as nat,
            num_of_mutations as nat,
            num_of_mutations_when_no_xover as nat,
        ));
        assert forall|m: nat| #[trigger] valid_population(old_solutions, m, max_cars as nat) implies valid_population(
            solutions@,
            m,
            max_cars as nat,
        ) by {
            assert(old_solutions[0]@.len() == m);
            assert(all_place(old_solutions, max_cars as nat));
            assert forall|k: int| 0 <= k < solutions@.len() implies (#[trigger] solutions@[k])@.len() == m
                && total_cars(solutions@[k]@) == max_cars by {
                assert(solutions@[k]@.len() == solutions@[0]@.len());
            }
        }
    }
    best_evaluated_fitness
}

/// The position of the best fitness among the first `n` (at least one): scanning in order,
/// a later entry wins only if it is strictly better.
pub open spec fn best_index(fits: Seq<Option<Time>>, n: nat) -> int
    decreases n,
{
    if n <= 1 {
        0
    } else {
        let b = best_index(fits, (n - 1) as nat);
        if fitness_lt(fits[n - 1], fits[b]) {
            n - 1
        } else {
            b
        }
    }
}

/// The sum of the first `n` fitness values (`None` if one of them is missing).
pub open spec fn fitness_total(fits: Seq<Option<Time>>, n: nat) -> Option<Time>
    decreases n,
{
    if n == 0 {
        Some(0)
    } else {
        crate::simulation::add_fitness(fitness_total(fits, (n - 1) as nat), fits[n - 1])
    }
}

/// The best solution is best: among the first `n` fitness values (at least one), no value
/// beats the one at `best_index`, and every measured value before it is beaten by it (the
/// first best one wins).
pub proof fn law_best_index_is_best(fits: Seq<Option<Time>>, n: nat)
    requires
        1 <= n <= fits.len(),
    ensures
        0 <= best_index(fits, n) < n,
        forall|k: int| 0 <= k < n ==> !fitness_lt(#[trigger] fits[k], fits[best_index(fits, n)]),
        forall|k: int|
            0 <= k < best_index(fits, n) && (#[trigger] fits[k]) is Some ==> fitness_lt(fits[best_index(fits, n)], fits[k]),
    decreases n,
{
    if n > 1 {
        law_best_index_is_best(fits, (n - 1) as nat);
        let b0 = best_index(fits, (n - 1) as nat);
        let b = best_index(fits, n);
        if b != b0 {
            assert(b == n - 1);
            assert(fitness_lt(fits[n - 1], fits[b0]));
            assert forall|k: int| 0 <= k < n implies !fitness_lt(#[trigger] fits[k], fits[b]) by {
                if k < n - 1 {
                    assert(!fitness_lt(fits[k], fits[b0]));
                }
            }
            assert forall|k: int| 0 <= k < b && (#[trigger] fits[k]) is Some implies fitness_lt(fits[b], fits[k]) by {
                assert(!fitness_lt(fits[k], fits[b0]));
            }
        }
    }
}

/// The measured values among the first `n` fitness values, as plain times.
pub open spec fn measured(fits: Seq<Option<Time>>, n: nat) -> Seq<Time> {
    fits.take(n as int).map_values(|f: Option<Time>| f->0)
}

/// The total of the first `n` fitness values is missing exactly when one of them is
/// missing, and otherwise it is their sum (where that sum does not exceed `Time::MAX`,
/// beyond which the total saturates).
pub proof fn law_fitness_total_is_the_sum(fits: Seq<Option<Time>>, n: nat)
    requires
        n <= fits.len(),
    ensures
        (exists|k: int| 0 <= k < n && (#[trigger] fits[k]) is None) ==> fitness_total(fits, n) is None,
        (forall|k: int| 0 <= k < n ==> (#[trigger] fits[k]) is Some) && time_sum(measured(fits, n)) <= u64::MAX
            ==> fitness_total(fits, n) == Some(time_sum(measured(fits, n)) as Time),
        time_sum(measured(fits, n)) >= 0,
    decreases n,
{
    if n == 0 {
        assert(measured(fits, 0) =~= Seq::<Time>::empty());
    } else {
        law_fitness_total_is_the_sum(fits, (n - 1) as nat);
        let m = measured(fits, n);
        assert(m.drop_last() =~= measured(fits, (n - 1) as nat));
        assert(m.last() == fits[n - 1]->0);
        if exists|k: int| 0 <= k < n && (#[trigger] fits[k]) is None {
            let k = choose|k: int| 0 <= k < n && (#[trigger] fits[k]) is None;
            if k < n - 1 {
                assert(fitness_total(fits, (n - 1) as nat) is None);
            }
        }
    }
}

proof fn lemma_best_index_bounds(fits: Seq<Option<Time>>, n: nat)
    ensures
        n >= 1 ==> 0 <= best_index(fits, n) < n,
    decreases n,
{
    if n > 1 {
        lemma_best_index_bounds(fits, (n - 1) as nat);
    }
}

/// Evaluates a population and returns the best solution, its fitness, and the average
/// fitness of all solutions (rounded down).
pub fn avg_and_best_fitness(
    solutions: &Vec<Solution>,
    eval_iterations: u8,
    spawn_stack: &Vec<Vec<Incident>>,
    graph: &HashMap<Location, Node>,
    base_locations: &Vec<Location>,
    route_cache: &mut RouteCache,
    timestep: Time,
    end_time: Time,
    unreachable_set: &mut HashSet<Location>,
) -> (d: Data)
    requires
        solutions@.len() > 0,
        evaluation_ready(graph@, old(route_cache)@, spawn_stack@, base_locations@, timestep, end_time),
        population_evaluable(solutions@, base_locations@.len()),
    ensures
        ({
            let fits = Seq::new(
                solutions@.len(),
                |k: int|
                    fitness_of(
                        solutions@,
                        k as usize,
                        eval_iterations,
                        spawn_stack@,
                        graph@,
                        base_locations@,
                        timestep,
                        end_time,
                    ),
            );
            let b = best_index(fits, fits.len());
            &&& d@ == DataState {
                best_solution: solutions@[b]@,
                best_fitness: fits[b],
                avg_fitness: match fitness_total(fits, fits.len()) {
                    Some(t) => Some((t as int / fits.len() as int) as Time),
                    None => None,
                },
            }
            &&& forall|k: int| 0 <= k < fits.len() ==> !fitness_lt(#[trigger] fits[k], d@.best_fitness)
            &&& (exists|k: int| 0 <= k < fits.len() && fits[k] == d@.best_fitness && solutions@[k]@ == d@.best_solution)
            &&& (exists|k: int| 0 <= k < fits.len() && (#[trigger] fits[k]) is None) ==> d@.avg_fitness is None
            &&& (forall|k: int| 0 <= k < fits.len() ==> (#[trigger] fits[k]) is Some) && time_sum(
                measured(fits, fits.len()),
            ) <= u64::MAX ==> d@.avg_fitness == Some((time_sum(measured(fits, fits.len())) / (fits.len() as int)) as Time)
        }),
        evaluation_ready(graph@, final(route_cache)@, spawn_stack@, base_locations@, timestep, end_time),
        old(unreachable_set)@.subset_of(final(unreachable_set)@),
{
    let ghost fits = Seq::new(
        solutions@.len(),
        |k: int|
            fitness_of(
                solutions@,
                k as usize,
                eval_iterations,
                spawn_stack@,
                graph@,
                base_locations@,
                timestep,
                end_time,
            ),
    );
    proof {
        assert((solutions@[0])@.len() >= base_locations@.len());
    }
    let mut best: usize = 0;
    let mut best_fitness: Option<Time> = evaluate(
        &solutions[0],
        eval_iterations,
        spawn_stack,
        graph,
        base_locations,
        route_cache,
        timestep,
        end_time,
        unreachable_set,
    );
    let mut total_fitness: Option<Time> = match best_fitness {
        Some(x) => Some(x),
        None => None,
    };
    proof {
        assert(fitness_total(fits, 0) == Some(0u64));
        assert(best_fitness == fits[0]);
    }
    let mut i: usize = 1;
    while i < solutions.len()
        invariant
            1 <= i <= solutions@.len(),
            evaluation_ready(graph@, route_cache@, spawn_stack@, base_locations@, timestep, end_time),
            population_evaluable(solutions@, base_locations@.len()),
            old(unreachable_set)@.subset_of(unreachable_set@),
            fits.len() == solutions@.len(),
            forall|k: int| 0 <= k < fits.len() ==> #[trigger] fits[k] == fitness_of(
                solutions@,
                k as usize,
                eval_iterations,
                spawn_stack@,
                graph@,
                base_locations@,
                timestep,
                end_time,
            ),
            best as int == best_index(fits, i as nat),
            best_fitness == fits[best as int],
            total_fitness == fitness_total(fits, i as nat),
        decreases solutions.len() - i,
    {
        proof {
            assert((solutions@[i as int])@.len() >= base_locations@.len());
            lemma_best_index_bounds(fits, i as nat);
        }
        let fit: Option<Time> = evaluate(
            &solutions[i],
            eval_iterations,
            spawn_stack,
            graph,
            base_locations,
            route_cache,
            timestep,
            end_time,
            unreachable_set,
        );
        proof {
            assert(fit == fits[i as int]);
        }
        total_fitness = match (total_fitness, fit) {
            (Some(x), Some(y)) => Some(x.saturating_add(y)),
            _ => None,
        };
        if fitness_less(fit, best_fitness) {
            best_fitness = fit;
            best = i;
        }
        i += 1;
    }
    proof {
        lemma_best_index_bounds(fits, i as nat);
    }
    let n: usize = solutions.len();
    let avg: Option<Time> = match total_fitness {
        Some(t) => Some(t / (n as Time)),
        None => None,
    };
    let best_solution: Solution = solutions[best].clone();
    proof {
        assert(best_solution@ =~= solutions@[best as int]@);
    }
    let d = Data::new(best_solution, best_fitness, avg);
    proof {
        law_best_index_is_best(fits, fits.len());
        law_fitness_total_is_the_sum(fits, fits.len());
        assert(fits[best as int] == d@.best_fitness && solutions@[best as int]@ == d@.best_solution);
    }
    d
}

} // verus!
