//! The board, and the check that lays a shape over it: which board cells the
//! shape would take at an anchor, which of them are free, and whether the
//! shape may be put there.

use vstd::prelude::*;
use vstd::set_lib::lemma_map_size;
use crate::anchor::{lemma_placed_strictly_monotone, placed, Anchor};
use crate::color::TileColor;
use crate::grid::Grid;
use crate::shape::{lemma_cells_finite, Shape, ShapeModel, MASK_SIZE};
use crate::text::{join_lines, lemma_join_lines_push};

verus! {

pub const BOARD_WIDTH: usize = 20;

pub const BOARD_HEIGHT: usize = 20;

/// The play surface: `None` is a free cell, `Some(color)` a cell taken by a
/// piece of that colour.
pub type Board = Grid<Option<TileColor>, BOARD_WIDTH, BOARD_HEIGHT>;

/// What laying a shape over the board means for one board cell.
#[derive(Clone, Copy, Debug, PartialEq, Eq, Structural)]
pub enum SuperimpositionState {
    /// A cell of the shape lies here and the board cell is free.
    Fits,
    /// A cell of the shape lies here and the board cell is taken.
    Intersects,
    /// No cell of the shape lies here.
    Blank,
}

/// The outcome of laying a shape over the board: the state of every board
/// cell, and whether the shape may be put down.
#[derive(Clone, Copy)]
pub struct Superimposition {
    pub fields: Grid<SuperimpositionState, BOARD_WIDTH, BOARD_HEIGHT>,
    pub success: bool,
}

/// The model of a board or of a grid of states: rows of cells.
pub type Cells<T> = Seq<Seq<T>>;

/// `(row, col)` addresses a cell of the board.
pub open spec fn on_board(row: int, col: int) -> bool {
    0 <= row < BOARD_HEIGHT && 0 <= col < BOARD_WIDTH
}

/// The board column that column `col` of the shape comes to lie on.
pub open spec fn board_col(shape: ShapeModel, anchor: Anchor, col: int) -> int {
    placed(col, shape.width() as int, BOARD_WIDTH as int, anchor.x.num(), anchor.x.den())
}

/// The board row that row `row` of the shape comes to lie on.
pub open spec fn board_row(shape: ShapeModel, anchor: Anchor, row: int) -> int {
    placed(row, shape.height() as int, BOARD_HEIGHT as int, anchor.y.num(), anchor.y.den())
}

/// The shape's cell `(y, x)` is occupied and comes to lie on the board's cell `(row, col)`.
pub open spec fn lands_on(
    shape: ShapeModel,
    anchor: Anchor,
    y: int,
    x: int,
    row: int,
    col: int,
) -> bool {
    shape.occupied(y, x) && board_row(shape, anchor, y) == row && board_col(shape, anchor, x)
        == col
}

/// Some occupied cell of the shape comes to lie on the board's cell `(row, col)`.
pub open spec fn covers(shape: ShapeModel, anchor: Anchor, row: int, col: int) -> bool {
    exists|y: int, x: int| lands_on(shape, anchor, y, x, row, col)
}

/// The board has a cell at `(row, col)` and it is free.
pub open spec fn is_free(board: Cells<Option<TileColor>>, row: int, col: int) -> bool {
    on_board(row, col) && board[row][col] is None
}

/// The state of the board's cell `(row, col)` under the shape.
pub open spec fn placement_state(
    board: Cells<Option<TileColor>>,
    shape: ShapeModel,
    anchor: Anchor,
    row: int,
    col: int,
) -> SuperimpositionState {
    if !covers(shape, anchor, row, col) {
        SuperimpositionState::Blank
    } else if board[row][col] is Some {
        SuperimpositionState::Intersects
    } else {
        SuperimpositionState::Fits
    }
}

/// Every occupied cell of the shape comes to lie on a free cell of the board.
pub open spec fn placement_fits(
    board: Cells<Option<TileColor>>,
    shape: ShapeModel,
    anchor: Anchor,
) -> bool {
    forall|y: int, x: int| #[trigger]
        shape.occupied(y, x) ==> is_free(
            board,
            board_row(shape, anchor, y),
            board_col(shape, anchor, x),
        )
}

/// The states of all board cells under the shape.
pub open spec fn placement_states(
    board: Cells<Option<TileColor>>,
    shape: ShapeModel,
    anchor: Anchor,
) -> Cells<SuperimpositionState> {
    Seq::new(
        BOARD_HEIGHT as nat,
        |row: int|
            Seq::new(
                BOARD_WIDTH as nat,
                |col: int| placement_state(board, shape, anchor, row, col),
            ),
    )
}

/// The board after the cells in state `Fits` have been given `color`.
pub open spec fn committed(
    board: Cells<Option<TileColor>>,
    states: Cells<SuperimpositionState>,
    color: TileColor,
) -> Cells<Option<TileColor>> {
    Seq::new(
        BOARD_HEIGHT as nat,
        |row: int|
            Seq::new(
                BOARD_WIDTH as nat,
                |col: int|
                    if states[row][col] == SuperimpositionState::Fits {
                        Some(color)
                    } else {
                        board[row][col]
                    },
            ),
    )
}

/// Row `row` of the board as text: `#` for a taken cell, `.` for a free one.
pub open spec fn board_row_text(board: Cells<Option<TileColor>>, row: int) -> Seq<char> {
    Seq::new(
        BOARD_WIDTH as nat,
        |col: int|
            if board[row][col] is Some {
                '#'
            } else {
                '.'
            },
    )
}

/// The first `rows` rows of the board as text.
pub open spec fn board_rows_text(board: Cells<Option<TileColor>>, rows: nat) -> Seq<Seq<char>> {
    Seq::new(rows, |row: int| board_row_text(board, row))
}

/// The board cells that are marked `Fits` under the shape.
pub open spec fn fits_cells(
    board: Cells<Option<TileColor>>,
    shape: ShapeModel,
    anchor: Anchor,
) -> Set<(int, int)> {
    Set::new(
        |cell: (int, int)|
            on_board(cell.0, cell.1) && placement_state(board, shape, anchor, cell.0, cell.1)
                == SuperimpositionState::Fits,
    )
}

/// The shape's cell `(y, x)` comes before `(y_end, x_end)` in row-major order.
spec fn scanned(y: int, x: int, y_end: int, x_end: int) -> bool {
    y < y_end || (y == y_end && x < x_end)
}

/// `covers`, with only the cells of the shape before `(y_end, x_end)`.
spec fn covers_scanned(
    shape: ShapeModel,
    anchor: Anchor,
    row: int,
    col: int,
    y_end: int,
    x_end: int,
) -> bool {
    exists|y: int, x: int|
        scanned(y, x, y_end, x_end) && lands_on(shape, anchor, y, x, row, col)
}

/// `placement_fits`, with only the cells of the shape before `(y_end, x_end)`.
spec fn fits_scanned(
    board: Cells<Option<TileColor>>,
    shape: ShapeModel,
    anchor: Anchor,
    y_end: int,
    x_end: int,
) -> bool {
    forall|y: int, x: int| #[trigger]
        shape.occupied(y, x) && scanned(y, x, y_end, x_end) ==> is_free(
            board,
            board_row(shape, anchor, y),
            board_col(shape, anchor, x),
        )
}

/// `placement_state`, with only the cells of the shape before `(y_end, x_end)`.
spec fn state_scanned(
    board: Cells<Option<TileColor>>,
    shape: ShapeModel,
    anchor: Anchor,
    row: int,
    col: int,
    y_end: int,
    x_end: int,
) -> SuperimpositionState {
    if !covers_scanned(shape, anchor, row, col, y_end, x_end) {
        SuperimpositionState::Blank
    } else if board[row][col] is Some {
        SuperimpositionState::Intersects
    } else {
        SuperimpositionState::Fits
    }
}

/// Scanning one more cell of the shape: what is covered and what fits after
/// the cell `(y, x)` has been looked at.
proof fn lemma_scan_cell(
    board: Cells<Option<TileColor>>,
    shape: ShapeModel,
    anchor: Anchor,
    y: int,
    x: int,
)
    ensures
        forall|row: int, col: int|
            #![trigger covers_scanned(shape, anchor, row, col, y, x + 1)]
            covers_scanned(shape, anchor, row, col, y, x + 1) <==> covers_scanned(
                shape,
                anchor,
                row,
                col,
                y,
                x,
            ) || lands_on(shape, anchor, y, x, row, col),
        fits_scanned(board, shape, anchor, y, x + 1) <==> fits_scanned(board, shape, anchor, y, x)
            && (shape.occupied(y, x) ==> is_free(
            board,
            board_row(shape, anchor, y),
            board_col(shape, anchor, x),
        )),
{
    assert forall|row: int, col: int|
        #![trigger covers_scanned(shape, anchor, row, col, y, x + 1)]
        covers_scanned(shape, anchor, row, col, y, x + 1) <==> covers_scanned(
            shape,
            anchor,
            row,
            col,
            y,
            x,
        ) || lands_on(shape, anchor, y, x, row, col) by {
        if covers_scanned(shape, anchor, row, col, y, x + 1) {
            let (cy, cx) = choose|cy: int, cx: int|
                scanned(cy, cx, y, x + 1) && lands_on(shape, anchor, cy, cx, row, col);
            if !(cy == y && cx == x) {
                assert(scanned(cy, cx, y, x) && lands_on(shape, anchor, cy, cx, row, col));
            }
        }
        if covers_scanned(shape, anchor, row, col, y, x) {
            let (cy, cx) = choose|cy: int, cx: int|
                scanned(cy, cx, y, x) && lands_on(shape, anchor, cy, cx, row, col);
            assert(scanned(cy, cx, y, x + 1) && lands_on(shape, anchor, cy, cx, row, col));
        }
        if lands_on(shape, anchor, y, x, row, col) {
            assert(scanned(y, x, y, x + 1) && lands_on(shape, anchor, y, x, row, col));
        }
    }
    if fits_scanned(board, shape, anchor, y, x + 1) {
        assert(fits_scanned(board, shape, anchor, y, x)) by {
            assert forall|cy: int, cx: int| #[trigger]
                shape.occupied(cy, cx) && scanned(cy, cx, y, x) implies is_free(
                board,
                board_row(shape, anchor, cy),
                board_col(shape, anchor, cx),
            ) by {
                assert(scanned(cy, cx, y, x + 1));
            }
        }
        if shape.occupied(y, x) {
            assert(scanned(y, x, y, x + 1));
        }
    }
}

/// The end of a row of the shape is the start of the next one.
proof fn lemma_scan_next_row(
    board: Cells<Option<TileColor>>,
    shape: ShapeModel,
    anchor: Anchor,
    y: int,
)
    requires
        shape.wf(),
    ensures
        forall|row: int, col: int|
            #![trigger covers_scanned(shape, anchor, row, col, y + 1, 0)]
            covers_scanned(shape, anchor, row, col, y + 1, 0) <==> covers_scanned(
                shape,
                anchor,
                row,
                col,
                y,
                MASK_SIZE as int,
            ),
        fits_scanned(board, shape, anchor, y + 1, 0) <==> fits_scanned(
            board,
            shape,
            anchor,
            y,
            MASK_SIZE as int,
        ),
{
    assert forall|cy: int, cx: int| #[trigger] shape.occupied(cy, cx) implies (scanned(
        cy,
        cx,
        y + 1,
        0,
    ) <==> scanned(cy, cx, y, MASK_SIZE as int)) by {}
    assert forall|row: int, col: int|
        #![trigger covers_scanned(shape, anchor, row, col, y + 1, 0)]
        covers_scanned(shape, anchor, row, col, y + 1, 0) <==> covers_scanned(
            shape,
            anchor,
            row,
            col,
            y,
            MASK_SIZE as int,
        ) by {
        if covers_scanned(shape, anchor, row, col, y + 1, 0) {
            let (cy, cx) = choose|cy: int, cx: int|
                scanned(cy, cx, y + 1, 0) && lands_on(shape, anchor, cy, cx, row, col);
            assert(scanned(cy, cx, y, MASK_SIZE as int) && lands_on(
                shape,
                anchor,
                cy,
                cx,
                row,
                col,
            ));
        }
        if covers_scanned(shape, anchor, row, col, y, MASK_SIZE as int) {
            let (cy, cx) = choose|cy: int, cx: int|
                scanned(cy, cx, y, MASK_SIZE as int) && lands_on(shape, anchor, cy, cx, row, col);
            assert(scanned(cy, cx, y + 1, 0) && lands_on(shape, anchor, cy, cx, row, col));
        }
    }
}

/// Once the whole mask has been scanned, the scanned notions are the full ones.
proof fn lemma_scan_done(board: Cells<Option<TileColor>>, shape: ShapeModel, anchor: Anchor)
    requires
        shape.wf(),
    ensures
        forall|row: int, col: int|
            #![trigger covers(shape, anchor, row, col)]
            covers(shape, anchor, row, col) <==> covers_scanned(
                shape,
                anchor,
                row,
                col,
                MASK_SIZE as int,
                0,
            ),
        placement_fits(board, shape, anchor) <==> fits_scanned(
            board,
            shape,
            anchor,
            MASK_SIZE as int,
            0,
        ),
{
    assert forall|cy: int, cx: int| #[trigger] shape.occupied(cy, cx) implies scanned(
        cy,
        cx,
        MASK_SIZE as int,
        0,
    ) by {}
    assert forall|row: int, col: int|
        #![trigger covers(shape, anchor, row, col)]
        covers(shape, anchor, row, col) <==> covers_scanned(
            shape,
            anchor,
            row,
            col,
            MASK_SIZE as int,
            0,
        ) by {
        if covers(shape, anchor, row, col) {
            let (cy, cx) = choose|cy: int, cx: int| lands_on(shape, anchor, cy, cx, row, col);
            assert(scanned(cy, cx, MASK_SIZE as int, 0) && lands_on(
                shape,
                anchor,
                cy,
                cx,
                row,
                col,
            ));
        }
        if covers_scanned(shape, anchor, row, col, MASK_SIZE as int, 0) {
            let (cy, cx) = choose|cy: int, cx: int|
                scanned(cy, cx, MASK_SIZE as int, 0) && lands_on(shape, anchor, cy, cx, row, col);
            assert(lands_on(shape, anchor, cy, cx, row, col));
        }
    }
}

impl Board {
    /// Lays `shape` over the board with the middle of its bounding box at
    /// `anchor`, and reports for every board cell whether a cell of the shape
    /// lies on it and whether it is free. The board is not changed.
    ///
    /// The placement succeeds when every occupied cell of the shape lies on
    /// a free cell of the board. A cell of the shape that falls outside the
    /// board marks no board cell.
    pub fn superimpose(&self, shape: &Shape, anchor: Anchor) -> (result: Superimposition)
        ensures
            result.success == placement_fits(self@, shape@, anchor),
            result.fields@ == placement_states(self@, shape@, anchor),
    {
        let (span_x, span_y) = shape.bounds();
        let mut fields = Grid::<SuperimpositionState, BOARD_WIDTH, BOARD_HEIGHT>::filled(
            SuperimpositionState::Blank,
        );
        let mut success = true;
        assert forall|row: int, col: int| on_board(row, col) implies #[trigger] fields.0[row][col]
            == state_scanned(self@, shape@, anchor, row, col, 0, 0) by {
            assert(fields.0[row][col] == fields@[row][col]);
        }
        for y in 0..MASK_SIZE
            invariant
                span_x == shape@.width(),
                span_y == shape@.height(),
                span_x <= MASK_SIZE,
                span_y <= MASK_SIZE,
                success == fits_scanned(self@, shape@, anchor, y as int, 0),
                forall|row: int, col: int|
                    on_board(row, col) ==> #[trigger] fields.0[row][col] == state_scanned(
                        self@,
                        shape@,
                        anchor,
                        row,
                        col,
                        y as int,
                        0,
                    ),
        {
            for x in 0..MASK_SIZE
                invariant
                    y < MASK_SIZE,
                    span_x == shape@.width(),
                    span_y == shape@.height(),
                    span_x <= MASK_SIZE,
                    span_y <= MASK_SIZE,
                    success == fits_scanned(self@, shape@, anchor, y as int, x as int),
                    forall|row: int, col: int|
                        on_board(row, col) ==> #[trigger] fields.0[row][col] == state_scanned(
                            self@,
                            shape@,
                            anchor,
                            row,
                            col,
                            y as int,
                            x as int,
                        ),
            {
                proof {
                    lemma_scan_cell(self@, shape@, anchor, y as int, x as int);
                    assert(shape@.occupied(y as int, x as int) == shape.fields[y as int][x as int]);
                }
                if shape.fields[y][x] {
                    let board_x = anchor.x.place(x, span_x, BOARD_WIDTH);
                    let board_y = anchor.y.place(y, span_y, BOARD_HEIGHT);
                    assert(board_x == board_col(shape@, anchor, x as int));
                    assert(board_y == board_row(shape@, anchor, y as int));
                    if board_x < 0 || board_x >= BOARD_WIDTH as i64 || board_y < 0 || board_y
                        >= BOARD_HEIGHT as i64 {
                        success = false;
                    } else if self.0[board_y as usize][board_x as usize].is_some() {
                        assert(self@[board_y as int][board_x as int] is Some);
                        fields.0[board_y as usize][board_x as usize] =
                            SuperimpositionState::Intersects;
                        success = false;
                    } else {
                        assert(self@[board_y as int][board_x as int] is None);
                        fields.0[board_y as usize][board_x as usize] = SuperimpositionState::Fits;
                    }
                }
            }
            proof {
                lemma_scan_next_row(self@, shape@, anchor, y as int);
            }
        }
        proof {
            lemma_scan_done(self@, shape@, anchor);
            assert forall|row: int, col: int| on_board(row, col) implies #[trigger] fields@[row][col]
                == placement_state(self@, shape@, anchor, row, col) by {
                assert(fields.0[row][col] == fields@[row][col]);
            }
            assert(fields@ =~~= placement_states(self@, shape@, anchor));
        }
        Superimposition { fields, success }
    }

    /// Puts a shape down: every cell that `result` marks `Fits` becomes
    /// `Some(color)`, and every other cell stays as it is.
    ///
    /// To be called for a successful placement only, once per accepted placement.
    pub fn commit(&mut self, result: &Superimposition, color: TileColor)
        requires
            result.success,
        ensures
            final(self)@ == committed(old(self)@, result.fields@, color),
    {
        for row in 0..BOARD_HEIGHT
            invariant
                forall|r: int, c: int|
                    on_board(r, c) ==> #[trigger] self.0[r][c] == if r < row
                        && result.fields.0[r][c] == SuperimpositionState::Fits {
                        Some(color)
                    } else {
                        old(self).0[r][c]
                    },
        {
            for col in 0..BOARD_WIDTH
                invariant
                    row < BOARD_HEIGHT,
                    forall|r: int, c: int|
                        on_board(r, c) ==> #[trigger] self.0[r][c] == if (r < row || (r == row && c
                            < col)) && result.fields.0[r][c] == SuperimpositionState::Fits {
                            Some(color)
                        } else {
                            old(self).0[r][c]
                        },
            {
                if result.fields.0[row][col] == SuperimpositionState::Fits {
                    self.0[row][col] = Some(color);
                }
            }
        }
        proof {
            let after = committed(old(self)@, result.fields@, color);
            assert forall|r: int, c: int| on_board(r, c) implies #[trigger] self@[r][c]
                == after[r][c] by {
                assert(self@[r][c] == self.0[r][c]);
                assert(old(self)@[r][c] == old(self).0[r][c]);
                assert(result.fields@[r][c] == result.fields.0[r][c]);
            }
            assert(self@ =~~= after);
        }
    }

    /// The board as text: one line per row, `#` for a taken cell and `.` for
    /// a free one, the lines separated by single line breaks.
    pub fn to_string(&self) -> (text: String)
        ensures
            text@ == join_lines(board_rows_text(self@, BOARD_HEIGHT as nat)),
    {
        let mut text = String::new();
        proof {
            reveal_strlit("#");
            reveal_strlit(".");
            reveal_strlit("\n");
        }
        for i in 0..BOARD_HEIGHT
            invariant
                "#"@ == seq!['#'],
                "."@ == seq!['.'],
                "\n"@ == seq!['\n'],
                text@ == join_lines(board_rows_text(self@, i as nat)),
        {
            if i > 0 {
                text.append("\n");
            }
            let ghost before = text@;
            for j in 0..BOARD_WIDTH
                invariant
                    i < BOARD_HEIGHT,
                    "#"@ == seq!['#'],
                    "."@ == seq!['.'],
                    text@ == before + board_row_text(self@, i as int).take(j as int),
            {
                if self.0[i][j].is_some() {
                    text.append("#");
                } else {
                    text.append(".");
                }
                assert(self@[i as int][j as int] == self.0[i as int][j as int]);
                assert(board_row_text(self@, i as int).take(j + 1) =~= board_row_text(
                    self@,
                    i as int,
                ).take(j as int).push(board_row_text(self@, i as int)[j as int]));
            }
            proof {
                let line = board_row_text(self@, i as int);
                assert(line.take(BOARD_WIDTH as int) =~= line);
                assert(board_rows_text(self@, i as nat).push(line) =~= board_rows_text(
                    self@,
                    (i + 1) as nat,
                ));
                lemma_join_lines_push(board_rows_text(self@, i as nat), line);
            }
        }
        text
    }
}

/// A cell of the shape that falls outside the board makes the placement
/// fail, and no cell of the board is marked on its account.
pub proof fn lemma_cell_off_board_fails(
    board: Cells<Option<TileColor>>,
    shape: ShapeModel,
    anchor: Anchor,
    y: int,
    x: int,
)
    requires
        shape.occupied(y, x),
        !on_board(board_row(shape, anchor, y), board_col(shape, anchor, x)),
    ensures
        !placement_fits(board, shape, anchor),
        forall|row: int, col: int| on_board(row, col) ==> !lands_on(shape, anchor, y, x, row, col),
{
}

/// A cell of the shape that comes to lie on a taken cell of the board marks
/// it `Intersects` and makes the placement fail, whatever the other cells do.
pub proof fn lemma_cell_on_taken_intersects(
    board: Cells<Option<TileColor>>,
    shape: ShapeModel,
    anchor: Anchor,
    y: int,
    x: int,
)
    requires
        shape.occupied(y, x),
        on_board(board_row(shape, anchor, y), board_col(shape, anchor, x)),
        board[board_row(shape, anchor, y)][board_col(shape, anchor, x)] is Some,
    ensures
        placement_state(
            board,
            shape,
            anchor,
            board_row(shape, anchor, y),
            board_col(shape, anchor, x),
        ) == SuperimpositionState::Intersects,
        !placement_fits(board, shape, anchor),
{
    let row = board_row(shape, anchor, y);
    let col = board_col(shape, anchor, x);
    assert(lands_on(shape, anchor, y, x, row, col));
}

/// No cell is ever marked `Fits` unless it is a free cell of the board that a
/// cell of the shape lies on; and in a placement that succeeds, every cell of
/// the shape marks its board cell `Fits` and no cell is marked `Intersects`.
pub proof fn lemma_fits_cells(
    board: Cells<Option<TileColor>>,
    shape: ShapeModel,
    anchor: Anchor,
)
    ensures
        forall|row: int, col: int|
            on_board(row, col) && #[trigger] placement_state(board, shape, anchor, row, col)
                == SuperimpositionState::Fits ==> is_free(board, row, col) && covers(
                shape,
                anchor,
                row,
                col,
            ),
        placement_fits(board, shape, anchor) ==> forall|y: int, x: int| #[trigger]
            shape.occupied(y, x) ==> placement_state(
                board,
                shape,
                anchor,
                board_row(shape, anchor, y),
                board_col(shape, anchor, x),
            ) == SuperimpositionState::Fits,
        placement_fits(board, shape, anchor) ==> forall|row: int, col: int|
            on_board(row, col) ==> #[trigger] placement_state(board, shape, anchor, row, col)
                != SuperimpositionState::Intersects,
{
    if placement_fits(board, shape, anchor) {
        assert forall|y: int, x: int| #[trigger] shape.occupied(y, x) implies placement_state(
            board,
            shape,
            anchor,
            board_row(shape, anchor, y),
            board_col(shape, anchor, x),
        ) == SuperimpositionState::Fits by {
            assert(lands_on(
                shape,
                anchor,
                y,
                x,
                board_row(shape, anchor, y),
                board_col(shape, anchor, x),
            ));
        }
        assert forall|row: int, col: int| on_board(row, col) implies #[trigger] placement_state(
            board,
            shape,
            anchor,
            row,
            col,
        ) != SuperimpositionState::Intersects by {
            if covers(shape, anchor, row, col) {
                let (y, x) = choose|y: int, x: int| lands_on(shape, anchor, y, x, row, col);
                assert(shape.occupied(y, x));
            }
        }
    }
}

/// Two different cells of a shape never come to lie on the same cell of the board.
pub proof fn lemma_lands_apart(
    shape: ShapeModel,
    anchor: Anchor,
    y1: int,
    x1: int,
    y2: int,
    x2: int,
    row: int,
    col: int,
)
    requires
        anchor.valid(),
        lands_on(shape, anchor, y1, x1, row, col),
        lands_on(shape, anchor, y2, x2, row, col),
    ensures
        y1 == y2,
        x1 == x2,
{
    let w = shape.width() as int;
    let h = shape.height() as int;
    if y1 < y2 {
        lemma_placed_strictly_monotone(y1, y2, h, BOARD_HEIGHT as int, anchor.y.num(), anchor.y.den());
    }
    if y2 < y1 {
        lemma_placed_strictly_monotone(y2, y1, h, BOARD_HEIGHT as int, anchor.y.num(), anchor.y.den());
    }
    if x1 < x2 {
        lemma_placed_strictly_monotone(x1, x2, w, BOARD_WIDTH as int, anchor.x.num(), anchor.x.den());
    }
    if x2 < x1 {
        lemma_placed_strictly_monotone(x2, x1, w, BOARD_WIDTH as int, anchor.x.num(), anchor.x.den());
    }
}

/// Putting a shape down changes the cells marked `Fits` and no others: a cell
/// marked `Intersects` or `Blank` holds afterwards what it held before.
pub proof fn lemma_commit_changes_fits_only(
    board: Cells<Option<TileColor>>,
    states: Cells<SuperimpositionState>,
    color: TileColor,
    row: int,
    col: int,
)
    requires
        on_board(row, col),
    ensures
        states[row][col] == SuperimpositionState::Fits ==> committed(board, states, color)[row][col]
            == Some(color),
        states[row][col] != SuperimpositionState::Fits ==> committed(board, states, color)[row][col]
            == board[row][col],
{
}

/// After a shape has been put down, the same shape at the same anchor no
/// longer fits: every board cell that it took is now marked `Intersects`, and
/// unless the shape is empty the placement fails.
pub proof fn lemma_second_placement_intersects(
    board: Cells<Option<TileColor>>,
    shape: ShapeModel,
    anchor: Anchor,
    color: TileColor,
)
    requires
        placement_fits(board, shape, anchor),
    ensures
        ({
            let after = committed(board, placement_states(board, shape, anchor), color);
            &&& forall|y: int, x: int| #[trigger]
                shape.occupied(y, x) ==> placement_state(
                    after,
                    shape,
                    anchor,
                    board_row(shape, anchor, y),
                    board_col(shape, anchor, x),
                ) == SuperimpositionState::Intersects
            &&& placement_fits(after, shape, anchor) <==> shape.cells =~= Set::empty()
        }),
{
    let states = placement_states(board, shape, anchor);
    let after = committed(board, states, color);
    lemma_fits_cells(board, shape, anchor);
    assert forall|y: int, x: int| #[trigger] shape.occupied(y, x) implies placement_state(
        after,
        shape,
        anchor,
        board_row(shape, anchor, y),
        board_col(shape, anchor, x),
    ) == SuperimpositionState::Intersects && !is_free(
        after,
        board_row(shape, anchor, y),
        board_col(shape, anchor, x),
    ) by {
        let row = board_row(shape, anchor, y);
        let col = board_col(shape, anchor, x);
        assert(lands_on(shape, anchor, y, x, row, col));
        assert(is_free(board, row, col));
        assert(states[row][col] == placement_state(board, shape, anchor, row, col));
        assert(after[row][col] == Some(color));
    }
    if placement_fits(after, shape, anchor) {
        assert forall|cell: (int, int)| !shape.cells.contains(cell) by {
            if shape.cells.contains(cell) {
                assert(shape.occupied(cell.0, cell.1));
            }
        }
    }
}

/// A placement that succeeds marks as many board cells `Fits` as the shape
/// has cells: one board cell for each cell of the shape.
pub proof fn lemma_fits_count(board: Cells<Option<TileColor>>, shape: ShapeModel, anchor: Anchor)
    requires
        shape.wf(),
        anchor.valid(),
        placement_fits(board, shape, anchor),
    ensures
        fits_cells(board, shape, anchor).finite(),
        fits_cells(board, shape, anchor).len() == shape.cells.len(),
{
    let target = |cell: (int, int)|
        (board_row(shape, anchor, cell.0), board_col(shape, anchor, cell.1));
    let marked = fits_cells(board, shape, anchor);
    lemma_cells_finite(shape);
    lemma_fits_cells(board, shape, anchor);
    assert forall|a: (int, int), b: (int, int)|
        shape.cells.contains(a) && shape.cells.contains(b) && #[trigger] target(a)
            == #[trigger] target(b) implies a == b by {
        let (row, col) = target(a);
        assert(lands_on(shape, anchor, a.0, a.1, row, col));
        assert(lands_on(shape, anchor, b.0, b.1, row, col));
        lemma_lands_apart(shape, anchor, a.0, a.1, b.0, b.1, row, col);
    }
    assert forall|cell: (int, int)| shape.cells.map(target).contains(cell) == marked.contains(
        cell,
    ) by {
        if shape.cells.map(target).contains(cell) {
            let from = choose|from: (int, int)| shape.cells.contains(from) && cell == target(from);
            assert(shape.occupied(from.0, from.1));
        }
        if marked.contains(cell) {
            let (y, x) = choose|y: int, x: int| lands_on(shape, anchor, y, x, cell.0, cell.1);
            assert(shape.cells.contains((y, x)) && cell == target((y, x)));
        }
    }
    assert(shape.cells.map(target) =~= marked);
    lemma_map_size(shape.cells, marked, target);
}

} // verus!
