# simulation

A police response simulation and a genetic algorithm that searches for a good spread of
police cars over the police bases of an area, written in Verus with its behaviour stated
in contracts and proved.

* `src/` is the verified library:
  * `types`, `node`, `vehicle`, `incident`, `data`, `dijkstra_node`: the data of the
    simulation, each with an abstract view that the contracts speak of;
  * `route`: walks through the road graph and their travel times, and the shortest travel
    time between two locations;
  * `frontier`: a binary min-heap of search entries;
  * `route_cache`: travel times already worked out, keyed by (source, target);
  * `simulation`: Dijkstra's algorithm, dispatching, the simulation run and the
    evaluation of a solution;
  * `random`: the random draws, taken from the `rand` crate;
  * `map_data`: the contents of the map data files (incident rates, police station IDs
    and names), read from their JSON text with `serde_json`;
  * `genetic`: random solutions, mutation, crossover with repair, tournament selection and
    the evolution of a population.
* `app/` is the program: reading the map data files (and the road graph, whose edge
  costs are floats), generating the incident schedule, and
  running and reporting the genetic algorithm.
* `tests/` runs the library on small examples.

All times are whole milliseconds (`Time = u64`); time arithmetic saturates at `u64::MAX`.
A fitness or a mean response time is `None` where no value could be measured (no
reachable incident, or no evaluation).
