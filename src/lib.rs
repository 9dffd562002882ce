//! Brian's Brain: a three-state cellular automaton on a bounded square grid.
//!
//! The grid, its neighbour table, the generation step, the initialisers and
//! the projection to render geometry are all verified against the
//! specification functions of each module.

pub mod cell;
pub mod engine;
pub mod oscillator;
pub mod pattern;
pub mod projection;
mod random;
pub mod topology;
pub mod world;

pub use cell::CellState;
pub use projection::Vertex;
pub use topology::neighbours_of;
pub use world::{NeighbourTable, WorldError, WorldState};
