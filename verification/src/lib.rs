//! A generic genetic-algorithm engine for combinatorial layout search.
//!
//! The engine evolves a population of candidate solutions through repeated
//! generation steps (mutation fan-out, deduplication by content, ranking,
//! lineage grouping, recombination, truncation) and a driver loop that
//! detects convergence of the top-ranked result set.  The representation of
//! a candidate and the problem-specific scoring, mutation and crossover
//! rules are supplied through the capability traits in [`models`].

pub mod models;
pub mod shared;
pub mod text;
pub mod pool;
pub mod algorithm;
pub mod process;
pub mod letters;
pub mod keyboard;
pub mod basic;
