//! Verified kernels for an Advent of Code 2023 toolkit.
//!
//! The heart of the crate is the hot-springs arrangement counter in
//! [`springs`]: given a row of cells that are each known-damaged,
//! known-operational or unknown, and an ordered list of required
//! damaged-run lengths, it counts the resolutions of the unknown cells
//! whose maximal damaged runs have exactly those lengths, in order. The
//! counter is memoized and proved equal to its recursive counting rules;
//! [`driver`] replicates records for the harder puzzle variant and sums
//! counts over record sets, and [`laws`] proves what the counting rules
//! mean: a count is zero exactly when no resolution satisfies the clues.
//!
//! The remaining modules hold small verified value types and helpers from
//! sibling puzzles: iterated difference sequences ([`oasis`]), camel-card
//! jokers ([`camel`]), the lens-library label hash ([`lens`]) and a few
//! board-piece enums ([`pieces`]).

pub mod camel;
pub mod driver;
pub mod laws;
pub mod lens;
pub mod oasis;
pub mod pieces;
pub mod springs;
