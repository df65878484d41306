use sudoku_solver::handlers::{create_error, respond};
use sudoku_solver::protocol::{Request, Response};
use sudoku_solver::recursive_solver::{gen_candidates, RecursiveSolver, SolveError};
use sudoku_solver::sudoku_table::{Format, SudokuTable};

const PUZZLE: &str = "
    5 3 .  . 7 .  . . .
    6 . .  1 9 5  . . .
    . 9 8  . . .  . 6 .

    8 . .  . 6 .  . . 3
    4 . .  8 . 3  . . 1
    7 . .  . 2 .  . . 6

    . 6 .  . . .  2 8 .
    . . .  4 1 9  . . 5
    . . .  . 8 .  . 7 9
    ";

const PUZZLE_SOLVED: &str = "534678912672195348198342567859761423426853791713924856961537284287419635345286179";

const PUZZLE_SOLVED_INDENT: &str = "5 3 4  6 7 8  9 1 2 \n\
                                    6 7 2  1 9 5  3 4 8 \n\
                                    1 9 8  3 4 2  5 6 7 \n\n\
                                    8 5 9  7 6 1  4 2 3 \n\
                                    4 2 6  8 5 3  7 9 1 \n\
                                    7 1 3  9 2 4  8 5 6 \n\n\
                                    9 6 1  5 3 7  2 8 4 \n\
                                    2 8 7  4 1 9  6 3 5 \n\
                                    3 4 5  2 8 6  1 7 9 \n\n";

const ROW_CLASH: &str = "
    5 5 .  . . .  . . .
    . . .  . . .  . . .
    . . .  . . .  . . .
    . . .  . . .  . . .
    . . .  . . .  . . .
    . . .  . . .  . . .
    . . .  . . .  . . .
    . . .  . . .  . . .
    . . .  . . .  . . .
    ";

const NO_DIGIT_LEFT: &str = "
    1 2 3  4 5 6  7 8 .
    . . .  . . .  . . 9
    . . .  . . .  . . .
    . . .  . . .  . . .
    . . .  . . .  . . .
    . . .  . . .  . . .
    . . .  . . .  . . .
    . . .  . . .  . . .
    . . .  . . .  . . .
    ";

fn is_complete_and_legal(t: &SudokuTable) -> bool {
    (0..81).all(|pos| (1..=9).contains(&t.get(pos))) && t.verify_all()
}

#[test]
fn candidates_are_the_nine_digits() {
    for _ in 0..20 {
        let mut c = gen_candidates();
        assert_eq!(c.len(), 9);
        c.sort();
        assert_eq!(c, vec![1, 2, 3, 4, 5, 6, 7, 8, 9]);
    }
}

#[test]
fn candidates_come_in_changing_order() {
    let in_order = vec![1, 2, 3, 4, 5, 6, 7, 8, 9];
    assert!((0..64).any(|_| gen_candidates() != in_order));
}

#[test]
fn solve_str_finds_the_solution() {
    let mut s = RecursiveSolver::default();
    let solved = s.solve_str(PUZZLE).unwrap();
    assert_eq!(solved.to_string(Format::Compact), PUZZLE_SOLVED);
    assert_eq!(solved.to_string(Format::Indent), PUZZLE_SOLVED_INDENT);
}

#[test]
fn repeated_solves_agree() {
    for _ in 0..10 {
        let mut s = RecursiveSolver::default();
        let solved = s.solve_str(PUZZLE).unwrap();
        assert_eq!(solved.to_string(Format::Compact), PUZZLE_SOLVED);
    }
}

#[test]
fn solve_after_set_table() {
    let mut t = SudokuTable::default();
    assert!(t.try_parse(PUZZLE));
    let mut s = RecursiveSolver::default();
    s.set_table(t);
    let solved = s.solve().unwrap();
    assert_eq!(solved.to_string(Format::Compact), PUZZLE_SOLVED);
    let again = s.solve().unwrap();
    assert_eq!(again.to_string(Format::Compact), PUZZLE_SOLVED);
}

#[test]
fn solve_keeps_the_given_digits() {
    let mut given = SudokuTable::default();
    assert!(given.try_parse(PUZZLE));
    let mut s = RecursiveSolver::default();
    let solved = s.solve_str(PUZZLE).unwrap();
    assert!(is_complete_and_legal(&solved));
    for pos in 0..81 {
        if given.get(pos) != 0 {
            assert_eq!(solved.get(pos), given.get(pos));
        }
    }
}

#[test]
fn solve_fills_an_empty_board() {
    let mut s = RecursiveSolver::default();
    s.set_table(SudokuTable::default());
    let solved = s.solve().unwrap();
    assert!(is_complete_and_legal(&solved));
}

#[test]
fn solve_of_a_solved_board_is_that_board() {
    let mut s = RecursiveSolver::default();
    let solved = s.solve_str(PUZZLE_SOLVED).unwrap();
    assert_eq!(solved.to_string(Format::Compact), PUZZLE_SOLVED);
}

#[test]
fn solve_str_rejects_a_letter() {
    let mut s = RecursiveSolver::default();
    let text = PUZZLE.replacen('.', "x", 1);
    assert_eq!(s.solve_str(&text).unwrap_err(), SolveError::Parse);
}

#[test]
fn solve_str_finds_a_clash_in_a_row() {
    let mut s = RecursiveSolver::default();
    assert_eq!(s.solve_str(ROW_CLASH).unwrap_err(), SolveError::NoSolution);
}

#[test]
fn solve_gives_up_after_an_exhausted_search() {
    let mut t = SudokuTable::default();
    assert!(t.try_parse(NO_DIGIT_LEFT));
    assert!(t.verify_all());
    let mut s = RecursiveSolver::default();
    s.set_table(t);
    assert_eq!(s.solve().unwrap_err(), SolveError::NoSolution);
}

#[test]
fn errors_in_words() {
    assert_eq!(SolveError::Parse.to_string(), "ParseError: invalid syntax");
    assert_eq!(SolveError::NoSolution.to_string(), "No solution");
    assert_ne!(SolveError::Parse.to_string(), SolveError::NoSolution.to_string());
}

#[test]
fn respond_with_the_solution() {
    let request = Request { table: PUZZLE.to_string(), output_format: Format::Indent };
    match respond(&request) {
        Response::Solved { table } => assert_eq!(table, PUZZLE_SOLVED_INDENT),
        Response::Error { msg } => panic!("{}", msg),
    }
    let request = Request { table: PUZZLE.to_string(), output_format: Format::Compact };
    match respond(&request) {
        Response::Solved { table } => assert_eq!(table, PUZZLE_SOLVED),
        Response::Error { msg } => panic!("{}", msg),
    }
}

#[test]
fn respond_to_bad_text() {
    let request = Request { table: "1 2 x".to_string(), output_format: Format::Compact };
    match respond(&request) {
        Response::Solved { table } => panic!("{}", table),
        Response::Error { msg } => assert_eq!(msg, "Cannot parse input table"),
    }
}

#[test]
fn respond_to_a_puzzle_without_solution() {
    let request = Request { table: ROW_CLASH.to_string(), output_format: Format::Compact };
    match respond(&request) {
        Response::Solved { table } => panic!("{}", table),
        Response::Error { msg } => assert_eq!(msg, "No solution"),
    }
}

#[test]
fn create_error_carries_the_message() {
    match create_error("why".to_string()) {
        Response::Error { msg } => assert_eq!(msg, "why"),
        Response::Solved { table } => panic!("{}", table),
    }
}
