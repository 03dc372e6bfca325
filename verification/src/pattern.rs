//! The textual notation of shapes: a row-major string of `#` (occupied) and
//! `.` (empty) with a declared width and height, and the rendering of a shape
//! back into rows of the same alphabet.

use vstd::prelude::*;
use crate::color::TileColor;
use crate::shape::{Shape, ShapeModel, MASK_SIZE};
use crate::text::{
    join_lines, lemma_join_lines_push, lemma_without_breaks_join_push, unbroken, without_breaks,
};

verus! {

/// Why a pattern was rejected.
#[derive(Clone, Copy, Debug, PartialEq, Eq, Structural)]
pub enum PatternError {
    /// The pattern does not hold exactly `width * height` characters.
    LengthMismatch,
    /// The declared width or height is larger than the mask.
    OutOfBounds,
    /// The pattern holds a character other than `#` and `.`; this is the
    /// first such character.
    InvalidCharacter(char),
}

/// `c` belongs to the alphabet of patterns.
pub open spec fn is_pattern_char(c: char) -> bool {
    c == '#' || c == '.'
}

/// `at` is the position of the first character of `pat` outside the alphabet.
pub open spec fn is_first_invalid(pat: Seq<char>, at: int) -> bool {
    &&& 0 <= at < pat.len()
    &&& !is_pattern_char(pat[at])
    &&& forall|before: int| 0 <= before < at ==> is_pattern_char(#[trigger] pat[before])
}

/// Every character of `pat` is `#` or `.`.
pub open spec fn all_pattern_chars(pat: Seq<char>) -> bool {
    forall|at: int| 0 <= at < pat.len() ==> is_pattern_char(#[trigger] pat[at])
}

/// The position of the first character outside the alphabet, where there is one.
pub open spec fn first_invalid(pat: Seq<char>) -> int {
    choose|at: int| is_first_invalid(pat, at)
}

/// The fault of a pattern, if it has one. A wrong length is reported before
/// an oversize declaration, and that before a character outside the alphabet.
pub open spec fn pattern_fault(width: int, height: int, pat: Seq<char>) -> Option<PatternError> {
    if pat.len() != width * height {
        Some(PatternError::LengthMismatch)
    } else if width > MASK_SIZE || height > MASK_SIZE {
        Some(PatternError::OutOfBounds)
    } else if !all_pattern_chars(pat) {
        Some(PatternError::InvalidCharacter(pat[first_invalid(pat)]))
    } else {
        None
    }
}

/// The shape that a pattern denotes: the cell at `(row, col)` is occupied
/// where the character at `row * width + col` is `#`. The colour is the default one.
pub open spec fn pattern_model(width: int, height: int, pat: Seq<char>) -> ShapeModel {
    ShapeModel {
        color: TileColor::Gray,
        cells: Set::new(
            |cell: (int, int)|
                0 <= cell.0 < height && 0 <= cell.1 < width && pat[cell.0 * width + cell.1]
                    == '#',
        ),
    }
}

/// Row `row` of a pattern.
pub open spec fn pattern_row(width: int, pat: Seq<char>, row: int) -> Seq<char> {
    pat.subrange(row * width, row * width + width)
}

/// The rows of a pattern of `height` rows.
pub open spec fn pattern_rows(width: int, height: int, pat: Seq<char>) -> Seq<Seq<char>> {
    Seq::new(height as nat, |row: int| pattern_row(width, pat, row))
}

impl ShapeModel {
    /// Row `row` of the bounding box, `#` for an occupied cell and `.` for an empty one.
    pub open spec fn row_text(self, row: int) -> Seq<char> {
        Seq::new(
            self.width(),
            |col: int|
                if self.occupied(row, col) {
                    '#'
                } else {
                    '.'
                },
        )
    }

    /// The first `rows` rows of the bounding box.
    pub open spec fn rows_text(self, rows: nat) -> Seq<Seq<char>> {
        Seq::new(rows, |row: int| self.row_text(row))
    }

    /// The rendering of the shape: the rows of its bounding box, separated by
    /// single line breaks, with no break after the last row.
    pub open spec fn text(self) -> Seq<char> {
        join_lines(self.rows_text(self.height()))
    }
}

/// Positions in a row-major layout are ordered by row, then by column.
proof fn lemma_row_major_order(width: int, row: int, col: int, y: int, x: int)
    requires
        0 <= col < width,
        0 <= x < width,
    ensures
        row * width + col < y * width + x <==> (row < y || (row == y && col < x)),
        row * width + col == y * width + x <==> (row == y && col == x),
{
    if row < y {
        assert((row + 1) * width <= y * width) by (nonlinear_arith)
            requires
                row + 1 <= y,
                width > 0,
        ;
        assert((row + 1) * width == row * width + width) by (nonlinear_arith);
    } else if row > y {
        assert((y + 1) * width <= row * width) by (nonlinear_arith)
            requires
                y + 1 <= row,
                width > 0,
        ;
        assert((y + 1) * width == y * width + width) by (nonlinear_arith);
    }
}

impl Shape {
    /// Reads a shape from its pattern. The shape gets the default colour.
    ///
    /// The pattern is rejected when its length is not `width * height`, when
    /// `width` or `height` exceeds the mask, or when it holds a character
    /// other than `#` and `.`.
    pub fn from_pattern(width: usize, height: usize, pat: &str) -> (parsed: Result<
        Shape,
        PatternError,
    >)
        ensures
            match parsed {
                Ok(shape) => pattern_fault(width as int, height as int, pat@) is None && shape@
                    == pattern_model(width as int, height as int, pat@),
                Err(fault) => pattern_fault(width as int, height as int, pat@) == Some(fault),
            },
    {
        let len = pat.unicode_len();
        match width.checked_mul(height) {
            Some(area) => {
                if area != len {
                    return Err(PatternError::LengthMismatch);
                }
            },
            None => {
                return Err(PatternError::LengthMismatch);
            },
        }
        if width > MASK_SIZE || height > MASK_SIZE {
            return Err(PatternError::OutOfBounds);
        }
        let mut fields = [[false; MASK_SIZE]; MASK_SIZE];
        let mut x: usize = 0;
        let mut y: usize = 0;
        proof {
            assert(width * height > 0 ==> width > 0 && height > 0) by (nonlinear_arith);
            assert(width * height == 0 && width > 0 ==> height == 0) by (nonlinear_arith);
        }
        for c in it: pat.chars()
            invariant
                it.seq() == pat@,
                pat@.len() == width * height,
                width <= MASK_SIZE,
                height <= MASK_SIZE,
                it.index() == y * width + x,
                it.index() < pat@.len() ==> x < width && y < height,
                it.index() == pat@.len() && width > 0 ==> x == 0 && y == height,
                forall|before: int| 0 <= before < it.index() ==> is_pattern_char(#[trigger] pat@[before]),
                forall|row: int, col: int|
                    0 <= row < MASK_SIZE && 0 <= col < MASK_SIZE ==> #[trigger] fields[row][col]
                        == ((row < y || (row == y && col < x)) && col < width && pat@[row * width
                        + col] == '#'),
        {
            let ghost at = it.index() as int;
            let ghost x0 = x as int;
            let ghost y0 = y as int;
            let ghost fields0 = fields;
            assert(c == pat@[at]);
            if c == '#' {
                fields[y][x] = true;
            } else if c != '.' {
                assert(is_first_invalid(pat@, at));
                assert(forall|other: int| is_first_invalid(pat@, other) ==> other == at);
                assert(first_invalid(pat@) == at);
                return Err(PatternError::InvalidCharacter(c));
            }
            x += 1;
            if x == width {
                x = 0;
                y += 1;
            }
            proof {
                assert((y0 + 1) * width == y0 * width + width) by (nonlinear_arith);
                if x0 + 1 == width && at + 1 < pat@.len() {
                    assert(y0 + 1 < height) by (nonlinear_arith)
                        requires
                            (y0 + 1) * width < width * height,
                            width > 0,
                    ;
                }
                if x0 + 1 == width && at + 1 == pat@.len() {
                    assert(y0 + 1 == height) by (nonlinear_arith)
                        requires
                            (y0 + 1) * width == width * height,
                            width > 0,
                    ;
                }
                if x0 + 1 < width && at + 1 == pat@.len() {
                    assert(false) by (nonlinear_arith)
                        requires
                            y0 * width + x0 + 1 == width * height,
                            0 < x0 + 1 < width,
                    ;
                }
                assert forall|row: int, col: int|
                    0 <= row < MASK_SIZE && 0 <= col < MASK_SIZE implies #[trigger] fields[row][col]
                    == ((row < y || (row == y && col < x)) && col < width && pat@[row * width + col]
                    == '#') by {
                    assert(fields[row][col] == if row == y0 && col == x0 {
                        c == '#'
                    } else {
                        fields0[row][col]
                    });
                    if col < width {
                        lemma_row_major_order(width as int, row, col, y0, x0);
                    }
                }
            }
        }
        let shape = Shape { color: TileColor::Gray, fields };
        proof {
            let model = pattern_model(width as int, height as int, pat@);
            assert forall|cell: (int, int)| shape@.cells.contains(cell) == model.cells.contains(
                cell,
            ) by {
                let (row, col) = cell;
                if 0 <= row < MASK_SIZE && 0 <= col < MASK_SIZE {
                    assert(shape@.cells.contains(cell) == fields[row][col]);
                }
            }
            assert(shape@.cells =~= model.cells);
        }
        Ok(shape)
    }

    /// The rendering of the shape within its bounding box: one line per row,
    /// `#` for an occupied cell and `.` for an empty one, the lines separated
    /// by single line breaks.
    pub fn to_string(&self) -> (text: String)
        ensures
            text@ == self@.text(),
    {
        let (width, height) = self.bounds();
        let mut text = String::new();
        proof {
            reveal_strlit("#");
            reveal_strlit(".");
            reveal_strlit("\n");
        }
        for i in 0..height
            invariant
                width == self@.width(),
                height == self@.height(),
                width <= MASK_SIZE,
                height <= MASK_SIZE,
                "#"@ == seq!['#'],
                "."@ == seq!['.'],
                "\n"@ == seq!['\n'],
                text@ == join_lines(self@.rows_text(i as nat)),
        {
            if i > 0 {
                text.append("\n");
            }
            let ghost before = text@;
            for j in 0..width
                invariant
                    i < height,
                    width == self@.width(),
                    width <= MASK_SIZE,
                    height <= MASK_SIZE,
                    "#"@ == seq!['#'],
                    "."@ == seq!['.'],
                    text@ == before + self@.row_text(i as int).take(j as int),
            {
                if self.fields[i][j] {
                    text.append("#");
                } else {
                    text.append(".");
                }
                assert(self@.occupied(i as int, j as int) == self.fields[i as int][j as int]);
                assert(self@.row_text(i as int).take(j + 1) =~= self@.row_text(i as int).take(
                    j as int,
                ).push(self@.row_text(i as int)[j as int]));
            }
            proof {
                assert(self@.row_text(i as int).take(width as int) =~= self@.row_text(i as int));
                assert(self@.rows_text(i as nat).push(self@.row_text(i as int))
                    =~= self@.rows_text((i + 1) as nat));
                lemma_join_lines_push(self@.rows_text(i as nat), self@.row_text(i as int));
            }
        }
        text
    }
}

/// Within the declared box, the rendered row of a parsed pattern is the
/// pattern's own row.
proof fn lemma_row_round_trip(width: int, height: int, pat: Seq<char>, row: int)
    requires
        pattern_fault(width, height, pat) is None,
        pattern_model(width, height, pat).width() == width,
        0 <= row < height,
    ensures
        pattern_model(width, height, pat).row_text(row) == pattern_row(width, pat, row),
{
    let model = pattern_model(width, height, pat);
    assert(row * width + width <= height * width) by (nonlinear_arith)
        requires
            row + 1 <= height,
            width >= 0,
    ;
    assert(row * width >= 0) by (nonlinear_arith)
        requires
            row >= 0,
            width >= 0,
    ;
    assert forall|col: int| 0 <= col < width implies model.row_text(row)[col] == pattern_row(
        width,
        pat,
        row,
    )[col] by {
        assert(model.cells.contains((row, col)) == (pat[row * width + col] == '#'));
        assert(is_pattern_char(pat[row * width + col]));
    }
    assert(model.row_text(row) =~= pattern_row(width, pat, row));
}

/// Rendering gives back what was parsed: for a pattern over `#` and `.` whose
/// occupied cells fill the declared width and height, the rendering of the parsed
/// shape is the pattern's rows, separated by single line breaks.
///
/// A pattern of at most one row therefore comes back unchanged. One of several
/// rows comes back with a line break between its rows, which the pattern
/// itself cannot hold.
pub proof fn lemma_render_round_trip(width: int, height: int, pat: Seq<char>)
    requires
        pattern_fault(width, height, pat) is None,
        pattern_model(width, height, pat).width() == width,
        pattern_model(width, height, pat).height() == height,
    ensures
        pattern_model(width, height, pat).text() == join_lines(pattern_rows(width, height, pat)),
        height <= 1 ==> pattern_model(width, height, pat).text() == pat,
{
    let model = pattern_model(width, height, pat);
    assert forall|row: int| 0 <= row < height implies model.row_text(row) == pattern_row(
        width,
        pat,
        row,
    ) by {
        lemma_row_round_trip(width, height, pat, row);
    }
    assert(model.rows_text(height as nat) =~= pattern_rows(width, height, pat));
    if height == 1 {
        assert(pattern_row(width, pat, 0) =~= pat);
    } else if height == 0 {
        assert(pat =~= Seq::empty());
    }
}

/// With the line breaks taken out, the first `rows` rows of a pattern,
/// joined, are the pattern up to the end of those rows.
proof fn lemma_rows_without_breaks(width: int, pat: Seq<char>, rows: nat)
    requires
        width >= 0,
        rows * width <= pat.len(),
        all_pattern_chars(pat),
    ensures
        without_breaks(join_lines(pattern_rows(width, rows as int, pat))) == pat.take(
            rows * width,
        ),
    decreases rows,
{
    if rows == 0 {
        reveal(Seq::filter);
        assert(rows * width == 0) by (nonlinear_arith)
            requires
                rows == 0,
        ;
        assert(pattern_rows(width, 0, pat) =~= Seq::<Seq<char>>::empty());
        assert(without_breaks(Seq::<char>::empty()) =~= pat.take(0));
    } else {
        let before = (rows - 1) as nat;
        let line = pattern_row(width, pat, before as int);
        assert(before * width + width == rows * width) by (nonlinear_arith)
            requires
                before + 1 == rows,
        ;
        assert(before * width >= 0) by (nonlinear_arith)
            requires
                before >= 0,
                width >= 0,
        ;
        lemma_rows_without_breaks(width, pat, before);
        assert(unbroken(line)) by {
            assert forall|i: int| 0 <= i < line.len() implies #[trigger] line[i] != '\n' by {
                assert(is_pattern_char(pat[before * width + i]));
            }
        }
        assert(pattern_rows(width, before as int, pat).push(line) =~= pattern_rows(
            width,
            rows as int,
            pat,
        ));
        lemma_without_breaks_join_push(pattern_rows(width, before as int, pat), line);
        assert(pat.take(before * width) + line =~= pat.take(rows * width));
    }
}

/// Rendering and taking the line breaks out gives back the pattern, character
/// for character: for a pattern over `#` and `.` whose occupied cells fill
/// the declared width and height.
pub proof fn lemma_render_without_breaks(width: int, height: int, pat: Seq<char>)
    requires
        pattern_fault(width, height, pat) is None,
        pattern_model(width, height, pat).width() == width,
        pattern_model(width, height, pat).height() == height,
    ensures
        without_breaks(pattern_model(width, height, pat).text()) == pat,
{
    lemma_render_round_trip(width, height, pat);
    assert(height * width == width * height) by (nonlinear_arith);
    lemma_rows_without_breaks(width, pat, height as nat);
    assert(pat.take(height * width) =~= pat);
}

} // verus!
