//! The [Data] struct: the results of evaluating a population of solutions.
use vstd::prelude::*;

use crate::types::{Solution, Time};

verus! {

/// Used to store the results from an evaluation of a collection of solutions.
pub struct Data {
    /// The solution that had the best overall fitness.
    best_solution: Solution,
    /// The fitness value of the best solution (`None`: no fitness could be measured).
    best_fitness: Option<Time>,
    /// The average fitness of the solutions (`None`: no fitness could be measured).
    avg_fitness: Option<Time>,
}

/// The abstract state of a [Data].
pub struct DataState {
    pub best_solution: Seq<u8>,
    pub best_fitness: Option<Time>,
    pub avg_fitness: Option<Time>,
}

impl View for Data {
    type V = DataState;

    closed spec fn view(&self) -> DataState {
        DataState {
            best_solution: self.best_solution@,
            best_fitness: self.best_fitness,
            avg_fitness: self.avg_fitness,
        }
    }
}

impl Data {
    /// Returns a new data object.
    pub fn new(best_solution: Solution, best_fitness: Option<Time>, avg_fitness: Option<Time>) -> (d: Self)
        ensures
            d@ == (DataState { best_solution: best_solution@, best_fitness, avg_fitness }),
    {
        Data { best_solution, best_fitness, avg_fitness }
    }

    /// Returns a reference to the best solution.
    pub fn get_best_solution(&self) -> (s: &Solution)
        ensures
            s@ == self@.best_solution,
    {
        &self.best_solution
    }

    /// Returns the fitness of the best solution.
    pub fn get_best_fitness(&self) -> (f: Option<Time>)
        ensures
            f == self@.best_fitness,
    {
        self.best_fitness
    }

    /// Returns the average fitness.
    pub fn get_avg_fitness(&self) -> (f: Option<Time>)
        ensures
            f == self@.avg_fitness,
    {
        self.avg_fitness
    }
}

} // verus!
