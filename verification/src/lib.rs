//! A genetic-algorithm solver for the traveling-salesman problem.
//!
//! The engine works on an immutable square matrix of city-to-city
//! distances.  Candidate solutions are closed tours, kept as permutations
//! of the city indices; a population of tours is evolved generation by
//! generation through tournament selection, order-preserving crossover,
//! pairwise-swap mutation, diversity injection and elitist truncation,
//! while the mutation probability is annealed linearly towards zero.

pub mod error;
pub mod matrix;
pub mod messages;
pub mod population;
pub mod rng;
pub mod route;
pub mod tsp_solver;
