//! A falling-sand particle sandbox.
//!
//! The world is a fixed-size grid of cells that wraps at its edges. Each
//! cell is empty or holds one particle of some material. Once per tick every
//! particle is decided, from the grid as it stood before the tick: it stays,
//! moves, changes places with a lighter fluid, reacts, or is destroyed.
//! Between ticks a tool paints material onto the grid or erases it.
//!
//! The modules, from the leaves up:
//!
//! - [`error`]: the faults that operations report.
//! - [`material`]: the table of materials and their physical properties.
//! - [`particle`]: particles and the handles that name them.
//! - [`store`]: the arena of particle records.
//! - [`grid`]: the cell-addressed store of handles, and the arithmetic of
//!   wrapped coordinates.
//! - [`board`]: the mathematical picture of a grid's contents, over which
//!   the rules are stated.
//! - [`world`]: a grid and a store kept consistent with each other.
//! - [`rules`]: what one particle proposes to do in a tick.
//! - [`resolve`]: which of the conflicting proposals win.
//! - [`commit`]: how accepted actions change the world.
//! - [`engine`]: the tick as a whole.
//! - [`paint`]: the brush of the tool.
//! - [`render`]: the grid drawn into a buffer of pixels.

pub mod error;
pub mod material;
pub mod particle;
pub mod store;
pub mod grid;
pub mod board;
pub mod world;
pub mod rules;
pub mod resolve;
pub mod commit;
pub mod engine;
pub mod paint;
pub mod render;
