use blockfit::anchor::{Anchor, Fraction};
use blockfit::board::{Board, Superimposition, SuperimpositionState, BOARD_HEIGHT, BOARD_WIDTH};
use blockfit::color::TileColor;
use blockfit::grid::{Grid, OutOfBounds};
use blockfit::shape::Shape;

fn anchor(x: (i32, u32), y: (i32, u32)) -> Anchor {
    Anchor { x: Fraction::new(x.0, x.1).unwrap(), y: Fraction::new(y.0, y.1).unwrap() }
}

fn square() -> Shape {
    Shape::from_pattern(2, 2, "####").unwrap()
}

fn marked(result: &Superimposition, state: SuperimpositionState) -> Vec<(usize, usize)> {
    let mut found = Vec::new();
    for row in 0..BOARD_HEIGHT {
        for col in 0..BOARD_WIDTH {
            if result.fields.0[row][col] == state {
                found.push((row, col));
            }
        }
    }
    found
}

fn taken(board: &Board) -> Vec<(usize, usize)> {
    let mut found = Vec::new();
    for row in 0..BOARD_HEIGHT {
        for col in 0..BOARD_WIDTH {
            if board.0[row][col].is_some() {
                found.push((row, col));
            }
        }
    }
    found
}

#[test]
fn default_board_is_empty() {
    let board = Board::default();
    assert!(taken(&board).is_empty());
    assert_eq!(board.width(), 20);
    assert_eq!(board.height(), 20);
}

#[test]
fn square_at_center_of_empty_board_fits_on_four_cells() {
    let board = Board::default();
    let result = board.superimpose(&square(), anchor((1, 2), (1, 2)));
    assert!(result.success);
    assert_eq!(
        marked(&result, SuperimpositionState::Fits),
        vec![(9, 9), (9, 10), (10, 9), (10, 10)]
    );
    assert!(marked(&result, SuperimpositionState::Intersects).is_empty());
    assert_eq!(marked(&result, SuperimpositionState::Blank).len(), 396);
}

#[test]
fn superimpose_does_not_change_the_board() {
    let mut board = Board::default();
    board.0[3][4] = Some(TileColor::Green);
    let before = board;
    let _ = board.superimpose(&square(), anchor((1, 5), (1, 5)));
    assert_eq!(taken(&board), taken(&before));
    assert_eq!(board.0[3][4], Some(TileColor::Green));
}

#[test]
fn anchor_x_runs_along_columns_and_y_along_rows() {
    let board = Board::default();
    let line = Shape::from_pattern(3, 1, "###").unwrap();
    // cursor (5, 10), centre (1.5, 0.5): columns 3.5, 4.5, 5.5 round to 4, 5, 6; row 9.5 to 10
    let result = board.superimpose(&line, anchor((1, 4), (1, 2)));
    assert!(result.success);
    assert_eq!(marked(&result, SuperimpositionState::Fits), vec![(10, 4), (10, 5), (10, 6)]);
}

#[test]
fn cell_outside_the_board_fails_and_marks_nothing() {
    let board = Board::default();
    // cursor (0, 0), centre (1, 1): cells at -1 and 0 on both axes
    let result = board.superimpose(&square(), anchor((0, 1), (0, 1)));
    assert!(!result.success);
    assert_eq!(marked(&result, SuperimpositionState::Fits), vec![(0, 0)]);
    assert!(marked(&result, SuperimpositionState::Intersects).is_empty());
}

#[test]
fn cell_beyond_the_far_edge_fails() {
    let board = Board::default();
    // cursor (20, 20): cells at 19 and 20
    let result = board.superimpose(&square(), anchor((1, 1), (1, 1)));
    assert!(!result.success);
    assert_eq!(marked(&result, SuperimpositionState::Fits), vec![(19, 19)]);
}

#[test]
fn anchor_far_off_the_board_marks_no_cell() {
    let board = Board::default();
    for far in [anchor((5, 1), (1, 2)), anchor((-5, 1), (1, 2)), anchor((i32::MAX, 1), (i32::MIN, 1))] {
        let result = board.superimpose(&square(), far);
        assert!(!result.success);
        assert_eq!(marked(&result, SuperimpositionState::Blank).len(), 400);
    }
}

#[test]
fn empty_shape_fits_anywhere_and_marks_nothing() {
    let board = Board::default();
    let empty = Shape::from_pattern(0, 0, "").unwrap();
    let result = board.superimpose(&empty, anchor((7, 1), (1, 2)));
    assert!(result.success);
    assert_eq!(marked(&result, SuperimpositionState::Blank).len(), 400);
}

#[test]
fn taken_cell_is_marked_intersects_and_fails() {
    let mut board = Board::default();
    board.0[9][10] = Some(TileColor::Red);
    let result = board.superimpose(&square(), anchor((1, 2), (1, 2)));
    assert!(!result.success);
    assert_eq!(marked(&result, SuperimpositionState::Intersects), vec![(9, 10)]);
    assert_eq!(marked(&result, SuperimpositionState::Fits), vec![(9, 9), (10, 9), (10, 10)]);
}

#[test]
fn taken_cell_next_to_the_shape_does_not_matter() {
    let mut board = Board::default();
    board.0[8][9] = Some(TileColor::Red);
    board.0[11][11] = Some(TileColor::Blue);
    let result = board.superimpose(&square(), anchor((1, 2), (1, 2)));
    assert!(result.success);
    assert_eq!(marked(&result, SuperimpositionState::Fits).len(), 4);
}

#[test]
fn half_way_positions_round_away_from_zero() {
    let fortieth = Fraction::new(1, 40).unwrap();
    // 20 / 40 = 0.5 across; a span of 2 puts cell 0 at -0.5 and cell 1 at 0.5
    assert_eq!(fortieth.place(0, 2, 20), -1);
    assert_eq!(fortieth.place(1, 2, 20), 1);
    // a span of 1 puts cell 0 at exactly 0
    assert_eq!(fortieth.place(0, 1, 20), 0);
    // 2.5 and -2.5
    let eighth = Fraction::new(1, 8).unwrap();
    assert_eq!(eighth.place(0, 0, 20), 3);
    let minus_eighth = Fraction::new(-1, 8).unwrap();
    assert_eq!(minus_eighth.place(0, 0, 20), -3);
}

#[test]
fn positions_round_to_the_nearest_cell() {
    // 20 * 3 / 50 = 1.2, 20 * 4 / 50 = 1.6
    assert_eq!(Fraction::new(3, 50).unwrap().place(0, 0, 20), 1);
    assert_eq!(Fraction::new(4, 50).unwrap().place(0, 0, 20), 2);
    assert_eq!(Fraction::new(-3, 50).unwrap().place(0, 0, 20), -1);
    assert_eq!(Fraction::new(-4, 50).unwrap().place(0, 0, 20), -2);
    // 1.2 + 5 - 3 / 2 = 4.7
    assert_eq!(Fraction::new(3, 50).unwrap().place(5, 3, 20), 5);
}

#[test]
fn place_stays_exact_at_the_limits() {
    let most = Fraction::new(i32::MAX, 1).unwrap();
    assert_eq!(most.place(0, 0, 20), 20 * (i32::MAX as i64));
    let least = Fraction::new(i32::MIN, 1).unwrap();
    // 65535 * -2^31 + 65535 - 32767.5 ends in .5 below zero and rounds away from it
    assert_eq!(least.place(0xffff, 0xffff, 0xffff), 0xffff * (i32::MIN as i64) + 0xffff - 0x8000);
    let fine = Fraction::new(1, u32::MAX).unwrap();
    assert_eq!(fine.place(7, 8, 20), 3);
}

#[test]
fn fraction_needs_a_positive_denominator() {
    assert!(Fraction::new(1, 0).is_none());
    assert!(Fraction::new(0, 0).is_none());
    let half = Fraction::new(1, 2).unwrap();
    assert_eq!(half.numerator(), 1);
    assert_eq!(half.denominator(), 2);
    let kept = Fraction::new(-4, 8).unwrap();
    assert_eq!((kept.numerator(), kept.denominator()), (-4, 8));
}

#[test]
fn commit_colors_the_cells_that_fit() {
    let mut board = Board::default();
    let result = board.superimpose(&square(), anchor((1, 2), (1, 2)));
    assert!(result.success);
    board.commit(&result, TileColor::Blue);
    assert_eq!(taken(&board), vec![(9, 9), (9, 10), (10, 9), (10, 10)]);
    assert_eq!(board.0[9][9], Some(TileColor::Blue));
    assert_eq!(board.0[10][10], Some(TileColor::Blue));
}

#[test]
fn commit_leaves_other_cells_as_they_were() {
    let mut board = Board::default();
    board.0[0][0] = Some(TileColor::Red);
    board.0[19][19] = Some(TileColor::Green);
    board.0[9][8] = Some(TileColor::Green);
    let before = board;
    let result = board.superimpose(&square(), anchor((1, 2), (1, 2)));
    assert!(result.success);
    board.commit(&result, TileColor::Blue);
    for row in 0..BOARD_HEIGHT {
        for col in 0..BOARD_WIDTH {
            if result.fields.0[row][col] == SuperimpositionState::Fits {
                assert_eq!(board.0[row][col], Some(TileColor::Blue));
            } else {
                assert_eq!(board.0[row][col], before.0[row][col]);
            }
        }
    }
}

#[test]
fn second_placement_at_the_same_anchor_intersects() {
    let mut board = Board::default();
    let piece = square();
    let at = anchor((1, 10), (1, 10));
    let first = board.superimpose(&piece, at);
    assert!(first.success);
    assert_eq!(marked(&first, SuperimpositionState::Fits), vec![(1, 1), (1, 2), (2, 1), (2, 2)]);
    board.commit(&first, TileColor::Red);
    let second = board.superimpose(&piece, at);
    assert!(!second.success);
    assert_eq!(
        marked(&second, SuperimpositionState::Intersects),
        vec![(1, 1), (1, 2), (2, 1), (2, 2)]
    );
    assert!(marked(&second, SuperimpositionState::Fits).is_empty());
}

#[test]
fn neighbouring_placement_still_fits_after_commit() {
    let mut board = Board::default();
    let piece = square();
    let first = board.superimpose(&piece, anchor((1, 10), (1, 10)));
    board.commit(&first, TileColor::Red);
    let beside = board.superimpose(&piece, anchor((2, 10), (1, 10)));
    assert!(beside.success);
    assert_eq!(marked(&beside, SuperimpositionState::Fits), vec![(1, 3), (1, 4), (2, 3), (2, 4)]);
}

#[test]
fn board_renders_taken_cells_as_hashes() {
    let mut board = Board::default();
    let empty_row = ".".repeat(20);
    let text = board.to_string();
    assert_eq!(text, vec![empty_row.as_str(); 20].join("\n"));
    board.0[0][1] = Some(TileColor::Red);
    board.0[19][19] = Some(TileColor::Transparent);
    let text = board.to_string();
    let rows: Vec<&str> = text.split('\n').collect();
    assert_eq!(rows.len(), 20);
    assert_eq!(rows[0], ".#..................");
    assert_eq!(rows[1], empty_row);
    assert_eq!(rows[19], "...................#");
}

#[test]
fn grid_filled_holds_the_value_everywhere() {
    let grid: Grid<u8, 3, 2> = Grid::filled(7);
    assert_eq!(grid.0, [[7, 7, 7], [7, 7, 7]]);
    assert_eq!((grid.width(), grid.height()), (3, 2));
}

#[test]
fn grid_default_holds_the_default_everywhere() {
    let grid: Grid<i32, 2, 2> = Grid::default();
    assert_eq!(grid.0, [[0, 0], [0, 0]]);
}

#[test]
fn grid_get_and_set_address_row_then_column() {
    let mut grid: Grid<u8, 3, 2> = Grid::filled(0);
    assert_eq!(grid.set(1, 2, 9), Ok(()));
    assert_eq!(grid.0, [[0, 0, 0], [0, 0, 9]]);
    assert_eq!(grid.get(1, 2), Ok(&9));
    assert_eq!(grid.get(0, 2), Ok(&0));
}

#[test]
fn grid_rejects_addresses_outside() {
    let mut grid: Grid<u8, 3, 2> = Grid::filled(1);
    assert_eq!(grid.get(2, 0), Err(OutOfBounds { row: 2, col: 0 }));
    assert_eq!(grid.get(0, 3), Err(OutOfBounds { row: 0, col: 3 }));
    assert_eq!(grid.set(2, 2, 5), Err(OutOfBounds { row: 2, col: 2 }));
    assert_eq!(grid.set(usize::MAX, 0, 5), Err(OutOfBounds { row: usize::MAX, col: 0 }));
    assert_eq!(grid.0, [[1, 1, 1], [1, 1, 1]]);
}

#[test]
fn grid_clone_copies_every_cell() {
    let mut grid: Grid<String, 2, 1> = Grid([[String::from("a"), String::from("b")]]);
    let copy = grid.clone();
    grid.0[0][0].push('x');
    assert_eq!(copy.0, [[String::from("a"), String::from("b")]]);
}
