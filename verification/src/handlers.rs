//! From a request to its response.

use crate::notation::{parsed, parses, text_of};
use crate::protocol::{Request, Response};
use crate::recursive_solver::{is_solution, solvable, RecursiveSolver, SolveError};
use crate::sudoku_table::SudokuTable;
use vstd::prelude::*;

verus! {

/// What a request is told when its text is no board.
pub open spec fn parse_failure() -> Seq<char> {
    "Cannot parse input table"@
}

/// `response` answers a request for `text` in `format`: a completion of the
/// board that the text is read as, written in that format; or the reason why
/// there is none.
pub open spec fn answers(text: Seq<char>, format: crate::sudoku_table::Format, response: Response) -> bool {
    match response {
        Response::Solved { table } => parses(text) && exists|s: Seq<u32>|
            is_solution(parsed(text), s) && table@ == text_of(s, format),
        Response::Error { msg } => if parses(text) {
            !solvable(parsed(text)) && msg@ == SolveError::NoSolution.message()
        } else {
            msg@ == parse_failure()
        },
    }
}

/// The error response with the message `msg`.
pub fn create_error(msg: String) -> (response: Response)
    ensures
        response == (Response::Error { msg }),
{
    Response::Error { msg }
}

/// Solves the puzzle of `request` and writes the solution in the format that
/// it asks for.
pub fn respond(request: &Request) -> (response: Response)
    ensures
        answers(request.table@, request.output_format, response),
{
    let mut t = SudokuTable::default();
    if !t.try_parse(request.table.as_str()) {
        return create_error("Cannot parse input table".to_owned());
    }
    let mut s = RecursiveSolver::default();
    s.set_table(t);
    match s.solve() {
        Ok(solved_table) => {
            let text = solved_table.to_string(request.output_format);
            assert(is_solution(parsed(request.table@), solved_table@));
            Response::Solved { table: text }
        },
        Err(e) => create_error(e.to_string()),
    }
}

} // verus!
