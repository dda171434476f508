//! Discrete eikonal distance fields over a rectangular grid, settled in
//! priority order (a generalized Dijkstra / fast marching expansion).
//!
//! Field values are the bit patterns of non-negative IEEE-754 single
//! precision numbers. On that range the unsigned order of the bits is the
//! order of the numbers, so every comparison the propagation makes is an
//! integer comparison; the arithmetic of the update rule is supplied by the
//! caller as a kernel.

pub mod field;
pub mod grid;
pub mod propagate;
pub mod queue;

pub use field::{eikonal_update, solve, val_at_point, INFINITY, ZERO};
pub use grid::{idx_to_point, point_to_idx, Grid, TEX_COLS, TEX_ROWS};
pub use propagate::{djikstra, relax_neighbors, settle_next};
pub use queue::CellQueue;
