//! Stochastic bond-percolation clustering on a rectangular grid, driven by a
//! small deterministic generator whose state is one 32-bit word.
//!
//! `rng` holds the generator, `probability` the acceptance probability of a
//! traversal attempt, `graph` the grid and its clustering pass, and `model`
//! the pass as a mathematical function. `single` and `ieee` state
//! single-precision rounding and bit patterns over integers. `period`,
//! `uniform`, `coverage` and `extremes` prove what holds of every seed and
//! every grid.

pub mod coverage;
pub mod extremes;
pub mod graph;
pub mod ieee;
pub mod model;
pub mod period;
pub mod probability;
pub mod rng;
pub mod single;
pub mod uniform;
