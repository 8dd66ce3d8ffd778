//! Sliding-tile (N-puzzle) solver: grid utilities, heuristics, scoring
//! strategies and a best-first search engine, with verified contracts.

pub mod algorithm;
pub mod engine;
pub mod file;
pub mod goal;
pub mod heuristique;
pub mod node;
pub mod strategy;
pub mod utils;

pub use engine::NPuzzle;
