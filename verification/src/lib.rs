//! A verified engine of eight independent, pure, deterministic puzzle solvers.
//!
//! Each solver takes one day's raw textual puzzle input as bytes and produces
//! a small structured result (counts, totals, strings, trees), with
//! well-defined behaviour on malformed input. Rendering, persistence and any
//! other presentation concerns live outside this crate; a caller selects a
//! solver, supplies the input text, and consumes the returned result value.

pub mod forest;
pub mod fstree;
pub mod pixel;
pub mod ranges;
pub mod rations;
pub mod rucksack;
pub mod signal;
pub mod stacks;
pub mod strategy;
pub mod text;
