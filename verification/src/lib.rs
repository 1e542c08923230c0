//! Mazes with ice and ordered checkpoints: a route search, and an evolutionary
//! search for the walls that make the route longest.
pub mod frontier;
pub mod genetic;
pub mod grid;
pub mod journey;
pub mod moves;
pub mod path;
pub mod route;
pub mod shortest;
pub mod text;
pub mod tiles;
