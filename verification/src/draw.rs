//! Drawing the next piece: a shape of the catalog, chosen at random, in a
//! colour chosen at random among the playable ones.

use vstd::prelude::*;
use crate::color::TileColor;
use crate::shape::{Shape, ShapeModel};

verus! {

/// The colours that a piece can be drawn in, in the order of their rolls.
pub open spec fn playable_colors() -> Seq<TileColor> {
    seq![TileColor::Red, TileColor::Green, TileColor::Blue]
}

/// The shape of the catalog at `index`, in the colour of `roll`.
pub open spec fn picked(catalog: Seq<Shape>, index: int, roll: int) -> ShapeModel {
    ShapeModel { color: playable_colors()[roll], cells: catalog[index]@.cells }
}

/// Calls `rand::Rng::gen_range` on `rand::thread_rng()` with the range
/// `0..bound`. The range is not empty, so the call returns, and what it
/// returns lies in the range. Which index comes is left open: two calls may differ.
#[verifier::external_body]
fn random_below(bound: usize) -> (roll: usize)
    requires
        bound > 0,
    ensures
        roll < bound,
{
    rand::Rng::gen_range(&mut rand::thread_rng(), 0..bound)
}

/// The playable colour of a roll: 0 is red, 1 is green, 2 is blue.
pub fn color_of_roll(roll: usize) -> (color: TileColor)
    requires
        roll < 3,
    ensures
        color == playable_colors()[roll as int],
{
    if roll == 0 {
        TileColor::Red
    } else if roll == 1 {
        TileColor::Green
    } else {
        TileColor::Blue
    }
}

/// The piece for a given outcome of the two draws: the mask of the catalog's
/// shape at `index`, in the colour of `roll`.
pub fn pick(catalog: &[Shape], index: usize, roll: usize) -> (piece: Shape)
    requires
        index < catalog.len(),
        roll < 3,
    ensures
        piece@ == picked(catalog@, index as int, roll as int),
{
    let mut piece = catalog[index];
    piece.color = color_of_roll(roll);
    assert(piece@.cells =~= catalog@[index as int]@.cells);
    piece
}

/// A playable colour chosen at random.
pub fn random_color() -> (color: TileColor)
    ensures
        playable_colors().contains(color),
{
    let roll = random_below(3);
    let color = color_of_roll(roll);
    assert(playable_colors()[roll as int] == color);
    color
}

/// The next piece: a shape of the catalog chosen at random, in a playable
/// colour chosen at random. The catalog must hold a shape to choose from.
pub fn draw(catalog: &[Shape]) -> (piece: Shape)
    requires
        catalog.len() > 0,
    ensures
        exists|index: int, roll: int|
            0 <= index < catalog.len() && 0 <= roll < 3 && piece@ == #[trigger] picked(
                catalog@,
                index,
                roll,
            ),
{
    let index = random_below(catalog.len());
    let roll = random_below(3);
    let piece = pick(catalog, index, roll);
    assert(piece@ == picked(catalog@, index as int, roll as int));
    piece
}

} // verus!
