//! Placement geometry for a block-fitting puzzle: shapes, their rotations,
//! a fixed-size board and the check that decides where a shape may be put.
//!
//! - [`shape`]: shapes, their bounding box, quarter turn and rotation class.
//! - [`pattern`]: reading a shape from its `#`/`.` pattern and rendering it back.
//! - [`grid`]: the dense container behind the board and the placement states.
//! - [`anchor`]: positions over the board as exact fractions, and the rounding rule.
//! - [`board`]: laying a shape over the board, and putting it down.
//! - [`catalog`]: the list of all shapes that a set of patterns gives.
//! - [`draw`]: drawing the next piece at random.

pub mod anchor;
pub mod board;
pub mod catalog;
pub mod color;
pub mod draw;
pub mod grid;
pub mod pattern;
pub mod shape;
pub mod text;
