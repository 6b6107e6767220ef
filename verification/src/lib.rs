//! Grows an image that holds every color of a cubic palette exactly once.
//!
//! Colors are placed one at a time on a square grid that wraps around at its
//! edges. A few seed colors start at random cells with random headings;
//! every other color settles near the most similar color that is already
//! placed, in a cell chosen by how well it lies along that neighbor's
//! heading.
//!
//! The library works in whole numbers throughout. Angles belong to the
//! driver of an [`engine::Engine`]: the engine says what it needs next (a
//! cell or a direction for a seed, a verdict on a candidate move), the
//! driver replies, and the engine records the outcome. Headings and costs
//! pass through the engine as integers that it stores and compares but never
//! computes with.
//!
//! - [`palette`]: the colors and their display values
//! - [`ranking`], [`offsets`]: the ranked steps between colors and moves
//!   between cells
//! - [`torus`], [`grid`], [`index`]: cells, the grid and the record of where
//!   each color went
//! - [`search`]: the two searches of a growth step
//! - [`model`], [`invariants`], [`laws`]: the engine as mathematics, and what
//!   is proved of it
//! - [`engine`]: the engine itself
//! - [`random`], [`canvas`]: the generator and the pixel buffer

pub mod palette;
pub mod ranking;
pub mod torus;
pub mod offsets;
pub mod grid;
pub mod index;
pub mod search;
pub mod model;
pub mod invariants;
pub mod engine;
pub mod laws;
pub mod random;
pub mod canvas;
