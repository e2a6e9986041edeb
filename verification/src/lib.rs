//! A verified engine for grid loop puzzles: given a rectangular grid whose
//! cells may carry a clue counting loop edges, find the single closed loop
//! along grid edges meeting every clue.
//!
//! The engine encodes the puzzle as boolean edge variables under clue-degree
//! and vertex-parity constraints, asks a satisfiability backend for a model,
//! decomposes the model's edges into cycles with a deterministic directional
//! walk, and blocks the smallest spurious cycle until a single all-covering
//! loop remains.

pub mod grid;
pub mod encode;
pub mod extract;
pub mod refine;
pub mod backend;
pub mod parsing;
