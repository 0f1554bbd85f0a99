//! Police response simulation: vehicles, incidents and a road graph, a
//! dispatcher that sends the closest free vehicle to each incident, and a
//! genetic algorithm that searches for a good spread of vehicles over the
//! police bases.
//!
//! All times are whole milliseconds; time arithmetic saturates at
//! `Time::MAX` instead of overflowing.
pub mod types;
pub mod vehicle;
pub mod incident;
pub mod node;
pub mod dijkstra_node;
pub mod frontier;
pub mod route;
pub mod route_cache;
pub mod simulation;
pub mod random;
pub mod genetic;
pub mod data;
pub mod map_data;
