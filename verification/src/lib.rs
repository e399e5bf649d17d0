//! Exhaustive search for placements of the eight-kite "hat" on a bounded
//! hexagonal lattice.
//!
//! The lattice is a square grid of hexagons in which odd columns sit half a
//! hexagon lower than even ones. Every hexagon is cut into six kites, and a hat
//! covers eight kites spread over three neighbouring hexagons.

pub mod grid;
pub mod hex;
pub mod render;
pub mod search;

pub use grid::{KiteColor, KiteGrid, EMPTY};
pub use hex::{all_neighbors, HexError, HexPos};
