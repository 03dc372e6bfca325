use blockfit::color::TileColor;
use blockfit::pattern::PatternError;
use blockfit::shape::{Shape, MASK_SIZE};

fn shape(width: usize, height: usize, pattern: &str) -> Shape {
    Shape::from_pattern(width, height, pattern).unwrap()
}

fn cells(shape: &Shape) -> Vec<(usize, usize)> {
    let mut found = Vec::new();
    for row in 0..MASK_SIZE {
        for col in 0..MASK_SIZE {
            if shape.fields[row][col] {
                found.push((row, col));
            }
        }
    }
    found
}

#[test]
fn bounds_of_empty_mask_are_zero() {
    let empty = Shape { color: TileColor::Gray, fields: [[false; MASK_SIZE]; MASK_SIZE] };
    assert_eq!(empty.bounds(), (0, 0));
}

#[test]
fn bounds_of_solid_square_are_two_by_two() {
    assert_eq!(shape(2, 2, "####").bounds(), (2, 2));
}

#[test]
fn bounds_are_width_then_height() {
    assert_eq!(shape(4, 1, "####").bounds(), (4, 1));
    assert_eq!(shape(1, 3, "###").bounds(), (1, 3));
    assert_eq!(shape(3, 2, "###..#").bounds(), (3, 2));
}

#[test]
fn bounds_ignore_trailing_empty_rows_and_columns() {
    assert_eq!(shape(3, 3, "#...#....").bounds(), (2, 2));
    assert_eq!(shape(8, 8, &".".repeat(64)).bounds(), (0, 0));
}

#[test]
fn bounds_reach_the_last_cell_of_the_mask() {
    let mut pattern = ".".repeat(63);
    pattern.push('#');
    assert_eq!(shape(8, 8, &pattern).bounds(), (8, 8));
}

#[test]
fn rotate_moves_each_cell_to_its_column_and_mirrored_row() {
    // ###      .#
    // ..#  ->  .#
    //          ##   (cell (i, j) goes to (j, height - 1 - i))
    let turned = shape(3, 2, "###..#").rotate_90();
    assert_eq!(cells(&turned), vec![(0, 1), (1, 1), (2, 0), (2, 1)]);
    assert_eq!(turned.bounds(), (2, 3));
}

#[test]
fn rotate_keeps_the_color_and_the_receiver() {
    let mut piece = shape(3, 2, "###..#");
    piece.color = TileColor::Blue;
    let before = piece;
    let turned = piece.rotate_90();
    assert_eq!(turned.color, TileColor::Blue);
    assert_eq!(piece, before);
}

#[test]
fn rotate_of_empty_shape_is_empty() {
    let empty = shape(0, 0, "");
    assert_eq!(empty.rotate_90(), empty);
}

#[test]
fn four_rotations_restore_the_shape() {
    for (w, h, pattern) in [
        (2, 2, "####"),
        (4, 1, "####"),
        (2, 2, "##.#"),
        (3, 2, "###..#"),
        (3, 2, "###.#."),
        (3, 2, "##..##"),
        (1, 1, "#"),
        (0, 0, ""),
    ] {
        let base = shape(w, h, pattern);
        let back = base.rotate_90().rotate_90().rotate_90().rotate_90();
        assert_eq!(back, base);
        assert_eq!(back.fields, base.fields);
    }
}

#[test]
fn four_rotations_pull_an_unanchored_shape_to_the_origin() {
    // a single cell in row 1: the first turn already moves it to row 0
    let low = shape(1, 2, ".#");
    let back = low.rotate_90().rotate_90().rotate_90().rotate_90();
    assert_eq!(cells(&low), vec![(1, 0)]);
    assert_eq!(cells(&back), vec![(0, 0)]);
}

#[test]
fn equivalents_of_symmetric_square_is_one_shape() {
    let square = shape(2, 2, "####");
    let class = square.equivalents();
    assert_eq!(class.len(), 1);
    assert_eq!(class[0], square);
}

#[test]
fn equivalents_of_l_tromino_are_four_shapes() {
    let tromino = shape(2, 2, "##.#");
    let class = tromino.equivalents();
    assert_eq!(class.len(), 4);
    assert_eq!(class[0], tromino);
    assert_eq!(class[1], tromino.rotate_90());
    assert_eq!(class[2], tromino.rotate_90().rotate_90());
    assert_eq!(class[3], tromino.rotate_90().rotate_90().rotate_90());
    for i in 0..4 {
        for j in (i + 1)..4 {
            assert_ne!(class[i], class[j]);
        }
    }
}

#[test]
fn equivalents_of_line_are_two_shapes() {
    let line = shape(4, 1, "####");
    let class = line.equivalents();
    assert_eq!(class.len(), 2);
    assert_eq!(class[0].bounds(), (4, 1));
    assert_eq!(class[1].bounds(), (1, 4));
}

#[test]
fn equivalents_of_s_piece_are_two_shapes() {
    assert_eq!(shape(3, 2, "##..##").equivalents().len(), 2);
}

#[test]
fn equivalents_length_is_between_one_and_four() {
    for (w, h, pattern) in [
        (2, 2, "####"),
        (4, 1, "####"),
        (3, 1, "###"),
        (2, 2, "##.#"),
        (3, 2, "###..#"),
        (1, 1, "#"),
        (1, 2, "##"),
        (3, 3, "#########"),
        (2, 3, "######"),
        (3, 2, "###.#."),
        (3, 2, "##..##"),
        (1, 2, ".#"),
        (0, 0, ""),
    ] {
        let n = shape(w, h, pattern).equivalents().len();
        assert!((1..=4).contains(&n));
    }
}

#[test]
fn equivalents_compare_against_all_earlier_turns() {
    // the half turn of a line equals the line itself, not the quarter turn before it
    let line = shape(3, 1, "###");
    let class = line.equivalents();
    assert_eq!(class.len(), 2);
    assert_eq!(line.rotate_90().rotate_90(), line);
}

#[test]
fn shapes_are_equal_by_color_and_mask() {
    let a = shape(2, 2, "##.#");
    let mut b = a;
    assert!(a == b);
    b.color = TileColor::Red;
    assert!(a != b);
    let c = shape(2, 2, "###.");
    assert!(a != c);
}

#[test]
fn from_pattern_fills_the_mask_row_by_row() {
    let piece = shape(3, 2, "#.#.#.");
    assert_eq!(cells(&piece), vec![(0, 0), (0, 2), (1, 1)]);
    assert_eq!(piece.color, TileColor::Gray);
    assert_eq!(TileColor::default(), TileColor::Gray);
}

#[test]
fn from_pattern_rejects_wrong_length() {
    assert_eq!(Shape::from_pattern(2, 2, "###"), Err(PatternError::LengthMismatch));
    assert_eq!(Shape::from_pattern(2, 2, "#####"), Err(PatternError::LengthMismatch));
    assert_eq!(Shape::from_pattern(0, 3, "#"), Err(PatternError::LengthMismatch));
    assert_eq!(Shape::from_pattern(usize::MAX, 2, "##"), Err(PatternError::LengthMismatch));
}

#[test]
fn from_pattern_rejects_oversize_dimensions() {
    assert_eq!(Shape::from_pattern(9, 1, "#########"), Err(PatternError::OutOfBounds));
    assert_eq!(Shape::from_pattern(1, 9, "#########"), Err(PatternError::OutOfBounds));
    assert_eq!(Shape::from_pattern(9, 0, ""), Err(PatternError::OutOfBounds));
}

#[test]
fn from_pattern_rejects_foreign_characters() {
    assert_eq!(Shape::from_pattern(2, 2, "#x.y"), Err(PatternError::InvalidCharacter('x')));
    assert_eq!(Shape::from_pattern(2, 1, "#\n"), Err(PatternError::InvalidCharacter('\n')));
    assert_eq!(Shape::from_pattern(1, 1, "é"), Err(PatternError::InvalidCharacter('é')));
}

#[test]
fn from_pattern_reports_length_before_size_before_characters() {
    assert_eq!(Shape::from_pattern(9, 1, "x"), Err(PatternError::LengthMismatch));
    assert_eq!(Shape::from_pattern(9, 1, "x########"), Err(PatternError::OutOfBounds));
}

#[test]
fn from_pattern_accepts_the_full_mask() {
    let full = shape(8, 8, &"#".repeat(64));
    assert_eq!(cells(&full).len(), 64);
}

#[test]
fn rendering_puts_one_row_on_each_line() {
    assert_eq!(shape(2, 2, "####").to_string(), "##\n##");
    assert_eq!(shape(3, 2, "###..#").to_string(), "###\n..#");
    assert_eq!(shape(2, 2, "##.#").rotate_90().to_string(), ".#\n##");
}

#[test]
fn rendering_of_empty_shape_is_empty() {
    assert_eq!(shape(0, 0, "").to_string(), "");
    assert_eq!(shape(2, 2, "....").to_string(), "");
}

#[test]
fn rendering_stops_at_the_bounding_box() {
    assert_eq!(shape(3, 3, "#...#....").to_string(), "#.\n.#");
}

#[test]
fn single_row_pattern_round_trips() {
    for pattern in ["#", "##", "###", "####", "#.#", "#..#.#.#"] {
        let piece = shape(pattern.len(), 1, pattern);
        assert_eq!(piece.to_string(), pattern);
    }
}

#[test]
fn pattern_round_trips_row_by_row() {
    for (w, h, pattern) in [(2, 2, "##.#"), (3, 2, "###.#."), (3, 3, "#.#.#.#.#"), (2, 3, ".##.##")] {
        let text = shape(w, h, pattern).to_string();
        let rows: Vec<&str> = text.split('\n').collect();
        assert_eq!(rows.len(), h);
        assert_eq!(rows.concat(), pattern);
        let again = shape(w, h, &rows.concat());
        assert_eq!(again.to_string(), text);
    }
}
