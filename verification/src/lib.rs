//! A verified genetic-algorithm solver for the traveling-salesman problem.
//!
//! Cities are 2D points with fixed-point integer coordinates. A tour is a
//! permutation of city indices; its cost is the sum of the Euclidean
//! distances (rounded down to integers) between consecutive cities. The
//! simulation evolves a population of tours, preserving the permutation
//! invariant and the cost bookkeeping at every step.

pub mod city;
pub mod perm;
mod rng;
pub mod sim;
pub mod tour;

pub use city::City;
pub use city::isqrt;
pub use perm::is_perm;
pub use sim::better_of;
pub use sim::ConfigError;
pub use sim::Simulation;
pub use tour::Tour;
