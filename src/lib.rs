//! Constraint propagation for letter-sum puzzles: every letter gets a distinct
//! value in `1..=n`, and each word's letters, weighted by how often they occur,
//! add up to the word's target.
pub mod bounds;
pub mod laws;
pub mod model;
pub mod singles;
pub mod solver;
pub mod store;
pub mod translate;
pub mod tuples;
