//! Brute-force puzzle solving, verified.
//!
//! The heart of the crate is an exhaustive optimisation engine: it enumerates
//! every ordering of a set of items, or every split of a total among them,
//! scores each candidate and keeps the best. The remaining modules are small
//! puzzle solvers, four of which drive the engine.

pub mod allocation;
pub mod circuit;
pub mod coins;
pub mod escapes;
pub mod floors;
pub mod houses;
pub mod json;
pub mod lights;
pub mod look_and_say;
pub mod nice;
pub mod optimizer;
pub mod ordering;
pub mod passwords;
pub mod pattern;
pub mod recipes;
pub mod reindeer;
pub mod roster;
pub mod routes;
pub mod scoring;
pub mod seating;
pub mod table;
pub mod text;
pub mod wrapping;
