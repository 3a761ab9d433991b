//! Conway's Game of Life on a fixed-size rectangular grid with toroidal
//! (wrap-around) topology.
//!
//! The crate has two parts: a parser for the plaintext Life format
//! ([`parse_life`]) and a simulation step under wrap-around adjacency
//! ([`step_toroidal`]). Rendering, file reading and the tick loop are left
//! to the caller.

pub mod codec;
pub mod grid;
pub mod stepper;

pub use codec::parse_life;
pub use codec::ParseError;
pub use grid::CellState;
pub use grid::Cells;
pub use grid::TableLike;
pub use stepper::step_toroidal;
