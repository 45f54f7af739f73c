//! A genetic-algorithm search for high-benefit packings of rectangular items
//! into a fixed rectangular container.
pub mod controller;
pub mod dataset;
pub mod engine;
pub mod operators;
pub mod permutation;
pub mod placement;
pub mod random;
pub mod reproduction;
pub mod scenario;
pub mod selection;
pub mod stats;
pub mod types;
