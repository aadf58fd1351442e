//! A digital-logic simulation core: NAND gates composed into chips, held in an
//! index-based arena and evaluated one tick at a time with per-tick memoization.
//!
//! - `graph`: the arena of nodes and the eager and late-bound ways to build it.
//! - `eval`: memoized, cycle-safe evaluation, proved against its specification.
//! - `logic`: the logical value of a wire, and why evaluation computes it on
//!   circuits without feedback.
//! - `machine`: the driver that feeds inputs, advances the tick and reads outputs.
//! - `structured`: the mapping between flat wire sequences and named records.
//! - `gates`: chips built from NAND gates, with the logic they compute.

pub mod graph;
pub mod structured;
pub mod eval;
pub mod logic;
pub mod machine;
pub mod gates;
