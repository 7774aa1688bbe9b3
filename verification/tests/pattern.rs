use lifewall::collections::Cell;
use lifewall::pattern::{centre_cells, centre_cells_checked, load_pattern_checked, load_pattern_from_str};
use rustc_hash::FxHashSet;

fn set(cells: &[(i32, i32)]) -> FxHashSet<Cell> {
    cells.iter().copied().collect()
}

#[test]
fn parses_rle_glider() {
    let rle = "x = 3, y = 3, rule = B3/S23\nbob$2bo$3o!";
    let cells = load_pattern_from_str(rle);
    assert_eq!(cells, set(&[(1, 0), (2, 1), (0, 2), (1, 2), (2, 2)]));
}

#[test]
fn rle_header_and_comment_lines_are_ignored() {
    let rle = "#C A comment about the pattern\nx = 2, y = 1, rule = B3/S23\n2o!";
    let cells = load_pattern_from_str(rle);
    assert_eq!(cells, set(&[(0, 0), (1, 0)]));
}

#[test]
fn rle_without_trailing_bang_does_not_panic() {
    let rle = "x = 1, y = 1\n3o";
    let cells = load_pattern_from_str(rle);
    assert_eq!(cells, set(&[(0, 0), (1, 0), (2, 0)]));
}

#[test]
fn rle_unrecognized_characters_are_ignored_not_fatal() {
    let rle = "x = 1, y = 1\nzzz3o!";
    let cells = load_pattern_from_str(rle);
    assert_eq!(cells, set(&[(0, 0), (1, 0), (2, 0)]));
}

#[test]
fn parses_plaintext_blinker_no_comment_line() {
    let plaintext = ".O.\n.O.\n.O.";
    let cells = load_pattern_from_str(plaintext);
    assert_eq!(cells, set(&[(1, 0), (1, 1), (1, 2)]));
}

#[test]
fn plaintext_accepts_star_as_well_as_o() {
    let plaintext = "*.\n.*";
    let cells = load_pattern_from_str(plaintext);
    assert_eq!(cells, set(&[(0, 0), (1, 1)]));
}

#[test]
fn plaintext_blank_lines_are_skipped_not_counted_as_rows() {
    let plaintext = "O.\n\n.O";
    let cells = load_pattern_from_str(plaintext);
    assert_eq!(cells, set(&[(0, 0), (1, 1)]));
}

#[test]
fn empty_input_produces_no_cells() {
    assert_eq!(load_pattern_from_str(""), FxHashSet::default());
}

#[test]
fn whitespace_only_input_produces_no_cells() {
    assert_eq!(load_pattern_from_str("   \n  \n"), FxHashSet::default());
}

#[test]
fn centre_cells_empty_set_stays_empty() {
    let empty: FxHashSet<Cell> = FxHashSet::default();
    assert_eq!(centre_cells(&empty), empty);
}

#[test]
fn centre_cells_single_cell_moves_to_origin() {
    let cells = set(&[(5, 5)]);
    assert_eq!(centre_cells(&cells), set(&[(0, 0)]));
}

#[test]
fn centre_cells_odd_width_and_height_centers_symmetrically() {
    let cells = set(&[(0, 0), (2, 0), (0, 2), (2, 2)]);
    let centred = centre_cells(&cells);
    assert_eq!(centred, set(&[(-1, -1), (1, -1), (-1, 1), (1, 1)]));
}

#[test]
fn centre_cells_even_width_and_height_rounds_toward_zero() {
    let cells = set(&[(0, 0), (1, 0), (0, 1), (1, 1)]);
    assert_eq!(centre_cells(&cells), cells);
}

#[test]
fn rle_run_counts_apply_to_rows_and_dead_cells() {
    let rle = "x = 4, y = 3\n2bo$$o3bo!";
    assert_eq!(load_pattern_from_str(rle), set(&[(2, 0), (0, 2), (4, 2)]));
}

#[test]
fn rle_stops_at_bang() {
    let rle = "x = 1, y = 1\no!3o";
    assert_eq!(load_pattern_from_str(rle), set(&[(0, 0)]));
}

#[test]
fn rle_zero_count_places_nothing() {
    let rle = "x = 1, y = 1\n0o2o!";
    assert_eq!(load_pattern_from_str(rle), set(&[(0, 0), (1, 0)]));
}

#[test]
fn rle_count_too_large_for_i32_counts_as_one() {
    let rle = "x = 1, y = 1\n99999999999o!";
    assert_eq!(load_pattern_from_str(rle), set(&[(0, 0)]));
}

#[test]
fn rle_data_lines_are_trimmed_and_joined() {
    let rle = "x = 3, y = 1\n  o \r\n  b  \n o!";
    assert_eq!(load_pattern_from_str(rle), set(&[(0, 0), (2, 0)]));
}

#[test]
fn rle_overflowing_column_is_reported() {
    let rle = "x = 1, y = 1\n2147483647bo!";
    assert!(load_pattern_checked(rle).is_none());
    let rle = "x = 1, y = 1\n2147483646bo!";
    assert_eq!(load_pattern_checked(rle), Some(set(&[(2147483646, 0)])));
}

#[test]
fn plaintext_crlf_line_endings() {
    let plaintext = "...\r\n.O.\r\n..O\r\n";
    assert_eq!(load_pattern_from_str(plaintext), set(&[(1, 1), (2, 2)]));
}

#[test]
fn text_with_bang_is_read_as_rle() {
    let with_comment = "!Name: x\nO";
    assert_eq!(load_pattern_from_str(with_comment), set(&[]));
}

#[test]
fn plaintext_rows_are_trimmed() {
    let plaintext = "  O.O  \n\t.O";
    assert_eq!(load_pattern_from_str(plaintext), set(&[(0, 0), (2, 0), (1, 1)]));
}

#[test]
fn centre_cells_negative_odd_span_rounds_toward_zero() {
    let cells = set(&[(-3, -3), (-2, -2)]);
    assert_eq!(centre_cells(&cells), set(&[(-1, -1), (0, 0)]));
}

#[test]
fn centring_twice_changes_nothing() {
    let cells = set(&[(3, 7), (10, 9), (4, 20)]);
    let once = centre_cells(&cells);
    assert_eq!(centre_cells(&once), once);
}

#[test]
fn centring_overflow_is_reported() {
    let cells = set(&[(i32::MAX, 0), (i32::MAX - 1, 0)]);
    assert!(centre_cells_checked(&cells).is_none());
}
