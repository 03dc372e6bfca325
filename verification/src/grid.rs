//! A dense two-dimensional container whose width and height are fixed by its
//! type: `H` rows of `W` cells each, addressed by `(row, column)`.

use vstd::prelude::*;

verus! {

/// `H` rows of `W` cells. The cell at `(row, col)` is `self.0[row][col]`.
pub struct Grid<T, const W: usize, const H: usize>(pub [[T; W]; H]);

/// A cell address outside the grid that it was used on.
#[derive(Clone, Copy, Debug, PartialEq, Eq, Structural)]
pub struct OutOfBounds {
    pub row: usize,
    pub col: usize,
}

/// The model of a grid in which every cell holds `value`.
pub open spec fn uniform<T>(width: nat, height: nat, value: T) -> Seq<Seq<T>> {
    Seq::new(height, |row: int| Seq::new(width, |col: int| value))
}

impl<T, const W: usize, const H: usize> View for Grid<T, W, H> {
    type V = Seq<Seq<T>>;

    /// The rows of the grid, each a sequence of `W` cells.
    open spec fn view(&self) -> Seq<Seq<T>> {
        Seq::new(H as nat, |row: int| self.0[row]@)
    }
}

impl<T, const W: usize, const H: usize> Grid<T, W, H> {
    /// `(row, col)` addresses a cell of a grid of this type.
    pub open spec fn in_bounds(row: int, col: int) -> bool {
        0 <= row < H && 0 <= col < W
    }

    /// The model has `H` rows of `W` cells.
    pub proof fn lemma_view_dimensions(self)
        ensures
            self@.len() == H,
            forall|row: int| 0 <= row < H ==> (#[trigger] self@[row]).len() == W,
    {
    }

    /// A grid with `value` in every cell.
    pub fn filled(value: T) -> (grid: Self) where T: Copy
        ensures
            grid@ == uniform(W as nat, H as nat, value),
    {
        let row = [value;W];
        let grid = Grid([row;H]);
        assert(grid@ =~~= uniform(W as nat, H as nat, value));
        grid
    }

    /// The number of cells in a row.
    pub fn width(&self) -> (width: usize)
        ensures
            width == W,
    {
        W
    }

    /// The number of rows.
    pub fn height(&self) -> (height: usize)
        ensures
            height == H,
    {
        H
    }

    /// The cell at `(row, col)`, or the address itself if it lies outside the grid.
    pub fn get(&self, row: usize, col: usize) -> (cell: Result<&T, OutOfBounds>)
        ensures
            match cell {
                Ok(value) => Self::in_bounds(row as int, col as int) && *value == self@[row as int][col as int],
                Err(address) => !Self::in_bounds(row as int, col as int) && address == (OutOfBounds {
                    row,
                    col,
                }),
            },
    {
        if row < H && col < W {
            Ok(&self.0[row][col])
        } else {
            Err(OutOfBounds { row, col })
        }
    }

    /// Writes `value` to the cell at `(row, col)` and leaves every other cell
    /// as it was. An address outside the grid changes nothing and is handed back.
    pub fn set(&mut self, row: usize, col: usize, value: T) -> (written: Result<(), OutOfBounds>)
        ensures
            match written {
                Ok(()) => Self::in_bounds(row as int, col as int) && final(self)@ == old(self)@.update(
                    row as int,
                    old(self)@[row as int].update(col as int, value),
                ),
                Err(address) => !Self::in_bounds(row as int, col as int) && *final(self) == *old(
                    self,
                ) && address == (OutOfBounds { row, col }),
            },
    {
        if row < H && col < W {
            self.0[row][col] = value;
            assert(self@ =~~= old(self)@.update(
                row as int,
                old(self)@[row as int].update(col as int, value),
            ));
            Ok(())
        } else {
            Err(OutOfBounds { row, col })
        }
    }
}

impl<T: Default + Copy, const W: usize, const H: usize> Default for Grid<T, W, H> {
    /// A grid with the element type's default value in every cell.
    fn default() -> (grid: Self)
        ensures
            exists|value: T|
                call_ensures(T::default, (), value) && grid@ == uniform(W as nat, H as nat, value),
    {
        Grid::filled(T::default())
    }
}

impl<T: Clone, const W: usize, const H: usize> Clone for Grid<T, W, H> {
    /// A grid whose cells are clones of this grid's cells.
    fn clone(&self) -> (copy: Self)
        ensures
            forall|row: int, col: int|
                Self::in_bounds(row, col) ==> cloned::<T>(
                    self@[row][col],
                    #[trigger] copy@[row][col],
                ),
    {
        Grid(self.0.clone())
    }
}

impl<T: Copy, const W: usize, const H: usize> Copy for Grid<T, W, H> {

}

} // verus!
