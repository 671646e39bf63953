//! Verified engine for a two-player territory game on a fixed grid.
//!
//! Each side claims a starting cell and its color spreads outward one
//! layer per turn, a turn-gated flood fill.  The crate holds the grid
//! model, the spreading algorithm, the per-match turn coordinator and
//! the registry that keys concurrently played matches by identifier.
//! Transport, sessions and rendering live outside this crate; they hand
//! in plain values (colors, coordinates, identifiers) and get plain
//! snapshots back.

pub mod cell;
pub mod match_state;
pub mod players;
pub mod registry;
pub mod universe;
