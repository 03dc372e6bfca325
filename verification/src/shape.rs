//! Shapes: a colour tag and an occupancy mask of at most 8 by 8 cells, with
//! the bounding box, the quarter turn and the rotation class of a shape.

use vstd::prelude::*;
use vstd::set_lib::{lemma_int_range, lemma_len_subset, lemma_map_size_bound, set_int_range};
use vstd::std_specs::cmp::PartialEqSpecImpl;
use crate::color::TileColor;

verus! {

/// Side length of the square mask that every shape is stored in.
pub const MASK_SIZE: usize = 8;

/// A shape as mathematics sees it: a colour and the set of occupied cells,
/// each cell written `(row, column)`.
#[verifier::ext_equal]
pub struct ShapeModel {
    pub color: TileColor,
    pub cells: Set<(int, int)>,
}

impl ShapeModel {
    /// Every occupied cell lies inside the mask.
    pub open spec fn wf(self) -> bool {
        forall|row: int, col: int| #[trigger]
            self.cells.contains((row, col)) ==> 0 <= row < MASK_SIZE && 0 <= col < MASK_SIZE
    }

    /// The cell at `(row, col)` is occupied.
    pub open spec fn occupied(self, row: int, col: int) -> bool {
        self.cells.contains((row, col))
    }

    /// Some cell of row `row` is occupied.
    pub open spec fn row_used(self, row: int) -> bool {
        exists|col: int| self.occupied(row, col)
    }

    /// Some cell of column `col` is occupied.
    pub open spec fn col_used(self, col: int) -> bool {
        exists|row: int| self.occupied(row, col)
    }

    /// One more than the largest used column below `limit`, or 0 if there is none.
    pub open spec fn width_below(self, limit: nat) -> nat
        decreases limit,
    {
        if limit == 0 {
            0
        } else if self.col_used(limit - 1) {
            limit
        } else {
            self.width_below((limit - 1) as nat)
        }
    }

    /// One more than the largest used row below `limit`, or 0 if there is none.
    pub open spec fn height_below(self, limit: nat) -> nat
        decreases limit,
    {
        if limit == 0 {
            0
        } else if self.row_used(limit - 1) {
            limit
        } else {
            self.height_below((limit - 1) as nat)
        }
    }

    /// Width of the tight bounding box, measured from column 0.
    pub open spec fn width(self) -> nat {
        self.width_below(MASK_SIZE as nat)
    }

    /// Height of the tight bounding box, measured from row 0.
    pub open spec fn height(self) -> nat {
        self.height_below(MASK_SIZE as nat)
    }

    /// `extent` is the tight horizontal extent: no occupied cell at or beyond
    /// it, and, unless it is 0, an occupied cell in the column just before it.
    pub open spec fn is_tight_width(self, extent: int) -> bool {
        &&& 0 <= extent <= MASK_SIZE
        &&& forall|row: int, col: int| #[trigger] self.occupied(row, col) ==> col < extent
        &&& extent > 0 ==> self.col_used(extent - 1)
    }

    /// The vertical counterpart of [`ShapeModel::is_tight_width`].
    pub open spec fn is_tight_height(self, extent: int) -> bool {
        &&& 0 <= extent <= MASK_SIZE
        &&& forall|row: int, col: int| #[trigger] self.occupied(row, col) ==> row < extent
        &&& extent > 0 ==> self.row_used(extent - 1)
    }

    /// The shape turned by a quarter turn inside its bounding box: the cell at
    /// `(row, col)` moves to `(col, height - 1 - row)`.
    pub open spec fn rotated(self) -> ShapeModel {
        ShapeModel {
            color: self.color,
            cells: Set::new(
                |cell: (int, int)|
                    0 <= cell.0 < MASK_SIZE && 0 <= cell.1 < MASK_SIZE && self.occupied(
                        self.height() - 1 - cell.1,
                        cell.0,
                    ),
            ),
        }
    }

    /// An occupied cell of row `row`, where the row is used.
    spec fn witness_in_row(self, row: int) -> (int, int) {
        (row, choose|col: int| self.occupied(row, col))
    }

    /// An occupied cell of column `col`, where the column is used.
    spec fn witness_in_col(self, col: int) -> (int, int) {
        (choose|row: int| self.occupied(row, col), col)
    }

    /// The shape is empty, or it touches both row 0 and column 0.
    pub open spec fn anchored(self) -> bool {
        self.cells =~= Set::empty() || (self.row_used(0) && self.col_used(0))
    }

    /// The rotation class of the shape: the shape itself, then its quarter,
    /// half and three-quarter turns, each kept only if no earlier entry equals it.
    pub open spec fn equivalents(self) -> Seq<ShapeModel> {
        let quarter = self.rotated();
        let half = quarter.rotated();
        let three_quarters = half.rotated();
        with_distinct(with_distinct(with_distinct(seq![self], quarter), half), three_quarters)
    }
}

/// `list` with `model` appended, unless `list` holds it already.
pub open spec fn with_distinct(list: Seq<ShapeModel>, model: ShapeModel) -> Seq<ShapeModel> {
    if list.contains(model) {
        list
    } else {
        list.push(model)
    }
}

/// The models of a sequence of shapes, in order.
pub open spec fn models(shapes: Seq<Shape>) -> Seq<ShapeModel> {
    shapes.map_values(|shape: Shape| shape@)
}

/// No two entries of `list` are equal.
pub open spec fn distinct(list: Seq<ShapeModel>) -> bool {
    forall|i: int, j: int| 0 <= i < j < list.len() ==> list[i] != list[j]
}

/// A polyomino-like piece: a colour tag and a mask of occupied cells, indexed
/// `fields[row][column]`.
#[derive(Clone, Copy, Debug)]
pub struct Shape {
    pub color: TileColor,
    pub fields: [[bool; MASK_SIZE]; MASK_SIZE],
}

impl View for Shape {
    type V = ShapeModel;

    open spec fn view(&self) -> ShapeModel {
        ShapeModel {
            color: self.color,
            cells: Set::new(
                |cell: (int, int)|
                    0 <= cell.0 < MASK_SIZE && 0 <= cell.1 < MASK_SIZE
                        && self.fields[cell.0][cell.1],
            ),
        }
    }
}

/// Below `limit` the recursive width is the tight extent of the columns below `limit`.
proof fn lemma_width_below(m: ShapeModel, limit: nat)
    ensures
        m.width_below(limit) <= limit,
        forall|col: int| m.width_below(limit) <= col < limit ==> !m.col_used(col),
        m.width_below(limit) > 0 ==> m.col_used(m.width_below(limit) - 1),
    decreases limit,
{
    if limit > 0 && !m.col_used(limit - 1) {
        lemma_width_below(m, (limit - 1) as nat);
    }
}

/// The vertical counterpart of `lemma_width_below`.
proof fn lemma_height_below(m: ShapeModel, limit: nat)
    ensures
        m.height_below(limit) <= limit,
        forall|row: int| m.height_below(limit) <= row < limit ==> !m.row_used(row),
        m.height_below(limit) > 0 ==> m.row_used(m.height_below(limit) - 1),
    decreases limit,
{
    if limit > 0 && !m.row_used(limit - 1) {
        lemma_height_below(m, (limit - 1) as nat);
    }
}

/// The bounding box is tight, and it is the only tight one: `width()` and
/// `height()` are the least extents that hold every occupied cell.
pub proof fn lemma_bounds_tight(m: ShapeModel)
    requires
        m.wf(),
    ensures
        m.is_tight_width(m.width() as int),
        m.is_tight_height(m.height() as int),
        forall|extent: int| m.is_tight_width(extent) ==> extent == m.width(),
        forall|extent: int| m.is_tight_height(extent) ==> extent == m.height(),
        m.width() == 0 <==> m.cells =~= Set::empty(),
        m.height() == 0 <==> m.cells =~= Set::empty(),
{
    lemma_width_below(m, MASK_SIZE as nat);
    lemma_height_below(m, MASK_SIZE as nat);
    assert forall|row: int, col: int| #[trigger] m.occupied(row, col) implies col < m.width()
        && row < m.height() by {
        assert(m.col_used(col));
        assert(m.row_used(row));
    }
    assert forall|extent: int| m.is_tight_width(extent) implies extent == m.width() by {
        if extent > 0 {
            let (row, col) = m.witness_in_col(extent - 1);
            assert(m.occupied(row, col));
        }
        if m.width() > 0 {
            let (row, col) = m.witness_in_col(m.width() - 1);
            assert(m.occupied(row, col));
        }
    }
    assert forall|extent: int| m.is_tight_height(extent) implies extent == m.height() by {
        if extent > 0 {
            let (row, col) = m.witness_in_row(extent - 1);
            assert(m.occupied(row, col));
        }
        if m.height() > 0 {
            let (row, col) = m.witness_in_row(m.height() - 1);
            assert(m.occupied(row, col));
        }
    }
    if m.width() == 0 || m.height() == 0 {
        assert forall|cell: (int, int)| !m.cells.contains(cell) by {
            if m.cells.contains(cell) {
                assert(m.occupied(cell.0, cell.1));
            }
        }
    }
    if m.cells =~= Set::empty() {
        if m.width() > 0 {
            let (row, col) = m.witness_in_col(m.width() - 1);
            assert(m.cells.contains((row, col)));
        }
        if m.height() > 0 {
            let (row, col) = m.witness_in_row(m.height() - 1);
            assert(m.cells.contains((row, col)));
        }
    }
}

impl Shape {
    /// The model of a shape never leaves the mask.
    pub proof fn lemma_view_wf(self)
        ensures
            self@.wf(),
    {
    }

    /// The tight bounding box `(width, height)` of the occupied cells,
    /// measured from the mask's origin; `(0, 0)` for an empty mask.
    pub fn bounds(&self) -> (extent: (usize, usize))
        ensures
            extent.0 == self@.width(),
            extent.1 == self@.height(),
            self@.is_tight_width(extent.0 as int),
            self@.is_tight_height(extent.1 as int),
    {
        let mut width: usize = 0;
        let mut height: usize = 0;
        for row in 0..MASK_SIZE
            invariant
                width <= MASK_SIZE,
                height <= row,
                forall|r: int, c: int| #[trigger]
                    self@.occupied(r, c) && r < row ==> c < width && r < height,
                width > 0 ==> self@.col_used(width - 1),
                height > 0 ==> self@.row_used(height - 1),
        {
            for col in 0..MASK_SIZE
                invariant
                    row < MASK_SIZE,
                    width <= MASK_SIZE,
                    height <= row + 1,
                    forall|r: int, c: int| #[trigger]
                        self@.occupied(r, c) && (r < row || (r == row && c < col)) ==> c < width
                            && r < height,
                    width > 0 ==> self@.col_used(width - 1),
                    height > 0 ==> self@.row_used(height - 1),
            {
                if self.fields[row][col] {
                    assert(self@.occupied(row as int, col as int));
                    if col + 1 > width {
                        width = col + 1;
                    }
                    height = row + 1;
                }
            }
        }
        proof {
            lemma_bounds_tight(self@);
            assert(self@.is_tight_width(width as int));
            assert(self@.is_tight_height(height as int));
        }
        (width, height)
    }

    /// The shape turned by a quarter turn inside its bounding box, with the
    /// same colour. The receiver is left as it was.
    pub fn rotate_90(&self) -> (turned: Shape)
        ensures
            turned@ == self@.rotated(),
    {
        let (width, height) = self.bounds();
        let mut fields = [[false; MASK_SIZE]; MASK_SIZE];
        for i in 0..height
            invariant
                width == self@.width(),
                height == self@.height(),
                width <= MASK_SIZE,
                height <= MASK_SIZE,
                forall|r: int, c: int|
                    0 <= r < MASK_SIZE && 0 <= c < MASK_SIZE ==> #[trigger] fields[r][c] == (0
                        <= height - 1 - c < i && r < width && self.fields[height - 1 - c][r]),
        {
            for j in 0..width
                invariant
                    i < height,
                    width <= MASK_SIZE,
                    height <= MASK_SIZE,
                    forall|r: int, c: int|
                        0 <= r < MASK_SIZE && 0 <= c < MASK_SIZE ==> #[trigger] fields[r][c] == (
                        r < width && ((0 <= height - 1 - c < i) || (height - 1 - c == i && r < j))
                            && self.fields[height - 1 - c][r]),
            {
                fields[j][height - i - 1] = self.fields[i][j];
            }
        }
        let turned = Shape { color: self.color, fields };
        proof {
            assert forall|cell: (int, int)|
                turned@.cells.contains(cell) == self@.rotated().cells.contains(cell) by {
                let (r, c) = cell;
                if 0 <= r < MASK_SIZE && 0 <= c < MASK_SIZE {
                    assert(turned@.cells.contains(cell) == fields[r][c]);
                    if self@.occupied(height - 1 - c, r) {
                        assert(r < width && height - 1 - c < height);
                    }
                }
            }
            assert(turned@.cells =~= self@.rotated().cells);
        }
        turned
    }

    /// Two shapes with the same model are the same shape.
    pub proof fn lemma_view_injective(self, other: Shape)
        ensures
            self@ == other@ <==> self == other,
    {
        if self@ == other@ {
            assert forall|r: int| 0 <= r < MASK_SIZE implies self.fields[r] == other.fields[r] by {
                assert forall|c: int| 0 <= c < MASK_SIZE implies self.fields[r][c]
                    == other.fields[r][c] by {
                    assert(self@.cells.contains((r, c)) == self.fields[r][c]);
                    assert(other@.cells.contains((r, c)) == other.fields[r][c]);
                }
                assert(self.fields[r] =~= other.fields[r]);
            }
            assert(self.fields =~= other.fields);
        }
    }

    /// The rotation class of the shape, in the order in which the turns are
    /// made: the shape, then each further quarter turn that differs from every
    /// shape already listed.
    pub fn equivalents(&self) -> (shapes: Vec<Shape>)
        ensures
            models(shapes@) == self@.equivalents(),
            1 <= shapes.len() <= 4,
            shapes[0] == *self,
            distinct(models(shapes@)),
    {
        let mut shapes: Vec<Shape> = Vec::new();
        shapes.push(*self);
        assert(models(shapes@) =~= seq![self@]);
        let quarter = self.rotate_90();
        push_distinct(&mut shapes, quarter);
        let half = quarter.rotate_90();
        push_distinct(&mut shapes, half);
        let three_quarters = half.rotate_90();
        push_distinct(&mut shapes, three_quarters);
        shapes
    }
}

impl PartialEq for Shape {
    /// Same colour and same mask, cell by cell.
    fn eq(&self, other: &Self) -> (equal: bool) {
        if self.color != other.color {
            return false;
        }
        for row in 0..MASK_SIZE
            invariant
                self.color == other.color,
                forall|r: int, c: int|
                    0 <= r < row && 0 <= c < MASK_SIZE ==> self.fields[r][c] == other.fields[r][c],
        {
            for col in 0..MASK_SIZE
                invariant
                    row < MASK_SIZE,
                    self.color == other.color,
                    forall|r: int, c: int|
                        0 <= r < row && 0 <= c < MASK_SIZE ==> self.fields[r][c]
                            == other.fields[r][c],
                    forall|c: int| 0 <= c < col ==> self.fields[row as int][c] == other.fields[row as int][c],
            {
                if self.fields[row][col] != other.fields[row][col] {
                    assert(self@.cells.contains((row as int, col as int))
                        != other@.cells.contains((row as int, col as int)));
                    return false;
                }
            }
        }
        assert(self@.cells =~= other@.cells);
        true
    }
}

impl Eq for Shape {

}

impl PartialEqSpecImpl for Shape {
    open spec fn obeys_eq_spec() -> bool {
        true
    }

    open spec fn eq_spec(&self, other: &Self) -> bool {
        self@ == other@
    }
}

/// Whether `shapes` holds a shape equal to `shape`.
fn holds(shapes: &Vec<Shape>, shape: &Shape) -> (found: bool)
    ensures
        found == models(shapes@).contains(shape@),
{
    for i in 0..shapes.len()
        invariant
            forall|k: int| 0 <= k < i ==> models(shapes@)[k] != shape@,
    {
        if shapes[i] == *shape {
            assert(models(shapes@)[i as int] == shape@);
            return true;
        }
    }
    false
}

/// Appends `shape` to `shapes` unless an equal shape is there already.
pub(crate) fn push_distinct(shapes: &mut Vec<Shape>, shape: Shape)
    ensures
        models(final(shapes)@) == with_distinct(models(old(shapes)@), shape@),
        final(shapes)@ == old(shapes)@ || final(shapes)@ == old(shapes)@.push(shape),
        distinct(models(old(shapes)@)) ==> distinct(models(final(shapes)@)),
{
    if !holds(shapes, &shape) {
        shapes.push(shape);
        assert(models(shapes@) =~= models(old(shapes)@).push(shape@));
    }
}

/// A quarter turn keeps a shape inside the mask.
pub proof fn lemma_rotated_wf(m: ShapeModel)
    ensures
        m.rotated().wf(),
{
}

/// A quarter turn of an anchored shape swaps width and height, and the
/// turned shape is anchored again.
pub proof fn lemma_rotated_bounds(m: ShapeModel)
    requires
        m.wf(),
        m.anchored(),
    ensures
        m.rotated().width() == m.height(),
        m.rotated().height() == m.width(),
        m.rotated().anchored(),
{
    let t = m.rotated();
    let w = m.width() as int;
    let h = m.height() as int;
    lemma_bounds_tight(m);
    lemma_bounds_tight(t);
    if m.cells =~= Set::empty() {
        assert(t.cells =~= Set::empty());
    } else {
        let (top_row, top_col) = m.witness_in_row(0);
        let (left_row, left_col) = m.witness_in_col(0);
        let (bottom_row, bottom_col) = m.witness_in_row(h - 1);
        let (right_row, right_col) = m.witness_in_col(w - 1);
        assert(m.occupied(top_row, top_col));
        assert(m.occupied(left_row, left_col));
        assert(m.occupied(bottom_row, bottom_col));
        assert(m.occupied(right_row, right_col));
        // the top row becomes the last column, the left column the first row
        assert(t.occupied(top_col, h - 1));
        assert(t.occupied(0, h - 1 - left_row));
        assert(t.occupied(bottom_col, 0));
        assert(t.occupied(w - 1, h - 1 - right_row));
        assert(t.col_used(h - 1));
        assert(t.row_used(0));
        assert(t.col_used(0));
        assert(t.row_used(w - 1));
        assert(t.is_tight_width(h));
        assert(t.is_tight_height(w));
    }
}

/// Four quarter turns bring an anchored shape back to itself, cell for cell.
///
/// A shape that touches neither row 0 nor column 0 is moved towards the
/// origin by its first turn, so the law is stated for anchored shapes.
pub proof fn lemma_four_quarter_turns(m: ShapeModel)
    requires
        m.wf(),
        m.anchored(),
    ensures
        m.rotated().rotated().rotated().rotated() == m,
{
    let m1 = m.rotated();
    let m2 = m1.rotated();
    let m3 = m2.rotated();
    let m4 = m3.rotated();
    let w = m.width() as int;
    let h = m.height() as int;
    lemma_bounds_tight(m);
    lemma_rotated_bounds(m);
    lemma_rotated_bounds(m1);
    lemma_rotated_bounds(m2);
    assert forall|cell: (int, int)| m4.cells.contains(cell) == m.cells.contains(cell) by {
        let (r, c) = cell;
        if m.cells.contains(cell) {
            assert(m.occupied(r, c));
            assert(m1.occupied(c, h - 1 - r));
            assert(m2.occupied(h - 1 - r, w - 1 - c));
            assert(m3.occupied(w - 1 - c, r));
            assert(m4.occupied(r, c));
        }
        if m4.cells.contains(cell) {
            assert(m3.occupied(w - 1 - c, r));
            assert(m2.occupied(h - 1 - r, w - 1 - c));
            assert(m1.occupied(c, h - 1 - r));
            assert(m.occupied(r, c));
        }
    }
    assert(m4.cells =~= m.cells);
}

/// A rotation class has between one and four members, starts with the shape
/// itself and lists no shape twice.
pub proof fn lemma_equivalents_shape(m: ShapeModel)
    ensures
        1 <= m.equivalents().len() <= 4,
        m.equivalents()[0] == m,
        distinct(m.equivalents()),
{
    let l0 = seq![m];
    let l1 = with_distinct(l0, m.rotated());
    let l2 = with_distinct(l1, m.rotated().rotated());
    let l3 = with_distinct(l2, m.rotated().rotated().rotated());
    assert(distinct(l0));
    assert(distinct(l1));
    assert(distinct(l2));
    assert(distinct(l3));
}

/// A rotation class has one member exactly when a quarter turn leaves the
/// shape as it is, and four members exactly when the shape and its three
/// turns are all different.
pub proof fn lemma_equivalents_count(m: ShapeModel)
    ensures
        m.equivalents().len() == 1 <==> m.rotated() == m,
        m.equivalents().len() == 4 <==> {
            let quarter = m.rotated();
            let half = quarter.rotated();
            let three_quarters = half.rotated();
            &&& m != quarter
            &&& m != half
            &&& m != three_quarters
            &&& quarter != half
            &&& quarter != three_quarters
            &&& half != three_quarters
        },
{
    let quarter = m.rotated();
    let half = quarter.rotated();
    let three_quarters = half.rotated();
    let l0 = seq![m];
    let l1 = with_distinct(l0, quarter);
    let l2 = with_distinct(l1, half);
    let l3 = with_distinct(l2, three_quarters);
    assert(l0[0] == m);
    if quarter == m {
        assert(l1 == l0);
        assert(l2 == l0);
        assert(l3 == l0);
    } else {
        assert(l1 =~= seq![m, quarter]);
        assert(l1[0] == m && l1[1] == quarter);
        if l2.len() == 3 {
            assert(l2 =~= seq![m, quarter, half]);
            assert(l2[0] == m && l2[1] == quarter && l2[2] == half);
        }
    }
}

/// A shape has finitely many cells, and no more than the mask has room for.
pub proof fn lemma_cells_finite(m: ShapeModel)
    requires
        m.wf(),
    ensures
        m.cells.finite(),
        m.cells.len() <= MASK_SIZE * MASK_SIZE,
{
    let indices = set_int_range(0, 64);
    let cell_of = |i: int| (i / 8, i % 8);
    let mask = indices.map(cell_of);
    lemma_int_range(0, 64);
    lemma_map_size_bound(indices, mask, cell_of);
    assert forall|cell: (int, int)| m.cells.contains(cell) implies mask.contains(cell) by {
        let i = cell.0 * 8 + cell.1;
        assert(indices.contains(i) && cell_of(i) == cell);
    }
    lemma_len_subset(m.cells, mask);
}

} // verus!
