//! Colour tags carried by shapes and board cells.

use vstd::prelude::*;

verus! {

/// The closed set of colour tags.
///
/// `Gray` marks "no colour yet" and is the default; `Transparent` is meant for
/// clearing overlay cells and is never stored on a board by this library.
#[derive(Clone, Copy, Debug, PartialEq, Eq, Structural)]
pub enum TileColor {
    Gray,
    Red,
    Green,
    Blue,
    Transparent,
}

impl Default for TileColor {
    fn default() -> (color: Self)
        ensures
            color == TileColor::Gray,
    {
        TileColor::Gray
    }
}

} // verus!
