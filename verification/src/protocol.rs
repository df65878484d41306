//! What a caller asks of the solver, and what it is told.

use crate::sudoku_table::Format;
use vstd::prelude::*;

verus! {

/// A puzzle as text, and the form in which its solution is wanted.
pub struct Request {
    pub table: String,
    pub output_format: Format,
}

/// The solved board as text, or the reason why there is none.
pub enum Response {
    Solved { table: String },
    Error { msg: String },
}

} // verus!
