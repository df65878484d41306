use sudoku_solver::sudoku_table::{Format, SudokuTable, EMPTY_NUM};

const SOLVED: &str = "534678912672195348198342567859761423426853791713924856961537284287419635345286179";

fn board(text: &str) -> SudokuTable {
    let mut t = SudokuTable::default();
    assert!(t.try_parse(text));
    t
}

#[test]
fn default_board_is_empty() {
    let t = SudokuTable::default();
    for pos in 0..81 {
        assert_eq!(t.get(pos), EMPTY_NUM);
    }
    assert!(t.is_in_range());
}

#[test]
fn reset_empties_every_cell() {
    let mut t = board(SOLVED);
    t.reset();
    for pos in 0..81 {
        assert_eq!(t.get(pos), 0);
    }
}

#[test]
fn parse_empty_then_compact_is_all_dots() {
    let dots = ".".repeat(81);
    let t = board(&dots);
    assert_eq!(t.to_string(Format::Compact), dots);
    let spaced = ". . .\n. . .\t.\r\n . .";
    let t = board(spaced);
    assert_eq!(t.to_string(Format::Compact), dots);
}

#[test]
fn compact_round_trip() {
    let t = board(SOLVED);
    assert_eq!(t.to_string(Format::Compact), SOLVED);
    let again = board(&t.to_string(Format::Compact));
    for pos in 0..81 {
        assert_eq!(again.get(pos), t.get(pos));
    }
}

#[test]
fn parse_short_input_leaves_rest_empty() {
    let t = board("12 3");
    assert_eq!(t.get(0), 1);
    assert_eq!(t.get(1), 2);
    assert_eq!(t.get(2), 3);
    for pos in 3..81 {
        assert_eq!(t.get(pos), 0);
    }
    let t = board("");
    assert_eq!(t.to_string(Format::Compact), ".".repeat(81));
}

#[test]
fn parse_ignores_what_follows_the_last_cell() {
    let text = format!("{}xyz", SOLVED);
    let t = board(&text);
    assert_eq!(t.to_string(Format::Compact), SOLVED);
    let text = format!("{}123", ".".repeat(81));
    let t = board(&text);
    assert_eq!(t.to_string(Format::Compact), ".".repeat(81));
}

#[test]
fn parse_rejects_other_characters() {
    let mut t = board(SOLVED);
    assert!(!t.try_parse("1 2 x 4"));
    for pos in 0..81 {
        assert_eq!(t.get(pos), 0);
    }
    assert!(!t.try_parse("12,3"));
    assert!(!t.try_parse("1\u{b}2"));
    let text = format!("{}x", ".".repeat(80));
    assert!(!t.try_parse(&text));
}

#[test]
fn parse_rejects_zero() {
    let mut t = SudokuTable::default();
    assert!(!t.try_parse("102"));
    for pos in 0..81 {
        assert_eq!(t.get(pos), 0);
    }
}

#[test]
fn parse_reads_each_digit() {
    let t = board(".123456789");
    for pos in 0..10 {
        assert_eq!(t.get(pos), pos as u32);
    }
}

#[test]
fn parse_skips_ascii_whitespace() {
    let t = board(" \t\n\u{c}\r7");
    assert_eq!(t.get(0), 7);
    assert_eq!(t.get(1), 0);
}

#[test]
fn indent_format_of_solved_board() {
    let t = board(SOLVED);
    let expected = "5 3 4  6 7 8  9 1 2 \n\
                    6 7 2  1 9 5  3 4 8 \n\
                    1 9 8  3 4 2  5 6 7 \n\n\
                    8 5 9  7 6 1  4 2 3 \n\
                    4 2 6  8 5 3  7 9 1 \n\
                    7 1 3  9 2 4  8 5 6 \n\n\
                    9 6 1  5 3 7  2 8 4 \n\
                    2 8 7  4 1 9  6 3 5 \n\
                    3 4 5  2 8 6  1 7 9 \n\n";
    assert_eq!(t.to_string(Format::Indent), expected);
}

#[test]
fn indent_format_of_empty_board() {
    let t = SudokuTable::default();
    let line = ". . .  . . .  . . . \n";
    let band = format!("{}{}{}\n", line, line, line);
    assert_eq!(t.to_string(Format::Indent), format!("{}{}{}", band, band, band));
}

#[test]
fn indent_format_is_read_back() {
    let t = board(SOLVED);
    let again = board(&t.to_string(Format::Indent));
    assert_eq!(again.to_string(Format::Compact), SOLVED);
}

#[test]
fn is_legal_looks_at_row_column_and_box() {
    let mut t = SudokuTable::default();
    t.set(0, 5);
    assert!(t.is_legal(0, 5));
    assert!(!t.is_legal(8, 5));
    assert!(!t.is_legal(72, 5));
    assert!(!t.is_legal(20, 5));
    assert!(t.is_legal(30, 5));
    assert!(t.is_legal(8, 4));
    assert!(t.is_legal(8, 0));
}

#[test]
fn unit_checks_leave_out_the_cell_itself() {
    let mut t = SudokuTable::default();
    t.set(4 * 9 + 4, 7);
    assert!(t.is_row_ok(4, 4, 7));
    assert!(!t.is_row_ok(4, 0, 7));
    assert!(t.is_row_ok(3, 0, 7));
    assert!(t.is_col_ok(4, 4, 7));
    assert!(!t.is_col_ok(0, 4, 7));
    assert!(t.is_col_ok(0, 5, 7));
    assert!(t.is_sqr_ok(4, 4, 7));
    assert!(!t.is_sqr_ok(3, 3, 7));
    assert!(!t.is_sqr_ok(5, 5, 7));
    assert!(t.is_sqr_ok(2, 2, 7));
    assert!(t.is_sqr_ok(3, 3, 6));
}

#[test]
fn try_set_writes_only_what_is_legal() {
    let mut t = SudokuTable::default();
    assert!(t.try_set(0, 5));
    assert_eq!(t.get(0), 5);
    assert!(!t.try_set(1, 5));
    assert_eq!(t.get(1), 0);
    assert!(!t.try_set(9, 5));
    assert!(!t.try_set(10, 5));
    assert!(t.try_set(12, 5));
    assert_eq!(t.get(12), 5);
    assert!(t.try_set(0, 5));
}

#[test]
fn duplicate_breaks_a_solved_board() {
    let t = board(SOLVED);
    assert!(t.verify_all());
    for pos in 0..81usize {
        assert!(t.is_legal(pos, t.get(pos)));
    }
    let (row, col) = (4usize, 4usize);
    let pos = row * 9 + col;
    let peers = [row * 9, col, 3 * 9 + 3];
    for peer in peers {
        let mut broken = t.clone();
        broken.set(pos, t.get(peer));
        assert!(!broken.is_legal(pos, broken.get(pos)));
        assert!(!broken.verify_all());
    }
}

#[test]
fn no_empty_cell_on_a_solved_board() {
    let t = board(SOLVED);
    let rows = t.get_sorted_rows_indexes();
    assert_eq!(rows, [0, 1, 2, 3, 4, 5, 6, 7, 8]);
    for start in 0..81 {
        assert_eq!(t.get_empty_cell(start, &rows), None);
    }
}

#[test]
fn empty_cell_search_skips_cells_before_the_start() {
    let mut t = board(SOLVED);
    t.set(2 * 9 + 1, 0);
    let rows = t.get_sorted_rows_indexes();
    assert_eq!(rows, [0, 1, 3, 4, 5, 6, 7, 8, 2]);
    assert_eq!(t.get_empty_cell(2 * 9 + 1, &rows), Some(19));
    assert_eq!(t.get_empty_cell(2 * 9, &rows), Some(19));
    assert_eq!(t.get_empty_cell(2 * 9 + 2, &rows), None);
    assert_eq!(t.get_empty_cell(0, &rows), Some(19));
}

#[test]
fn empty_cell_search_walks_a_short_order_in_a_circle() {
    let mut t = board(SOLVED);
    t.set(5 * 9 + 3, 0);
    assert_eq!(t.get_empty_cell(0, &vec![0, 5]), Some(48));
    assert_eq!(t.get_empty_cell(0, &vec![5, 1, 0]), Some(48));
    assert_eq!(t.get_empty_cell(0, &vec![0, 1]), None);
    assert_eq!(t.get_empty_cell(0, &vec![0]), None);
}

#[test]
fn range_check_sees_a_value_over_nine() {
    let mut t = SudokuTable::default();
    assert!(t.is_in_range());
    t.set(80, 10);
    assert!(!t.is_in_range());
    t.set(80, 9);
    assert!(t.is_in_range());
}
