//! Backtracking search for a completion of a board.

use crate::notation::{parsed, parses};
use crate::rules::{
    at, cell_allows, consistent, full, in_range, legal_at, lemma_legal_keeps_consistent, related,
};
use crate::search_order::{
    covers_rows, filled_before, is_row_order, lemma_next_empty, lemma_none_means_full,
};
use crate::sudoku_table::{SudokuTable, EMPTY_NUM};
use vstd::prelude::*;

verus! {

/// Why no solved board was returned.
#[derive(Debug, Clone, Copy, PartialEq, Eq)]
pub enum SolveError {
    /// The text is not a board.
    Parse,
    /// The board has no completion.
    NoSolution,
}

impl SolveError {
    /// The words for the error.
    pub open spec fn message(self) -> Seq<char> {
        match self {
            SolveError::Parse => "ParseError: invalid syntax"@,
            SolveError::NoSolution => "No solution"@,
        }
    }

    /// The error in words.
    pub fn to_string(&self) -> (text: String)
        ensures
            text@ == self.message(),
    {
        match self {
            SolveError::Parse => "ParseError: invalid syntax".to_owned(),
            SolveError::NoSolution => "No solution".to_owned(),
        }
    }
}

/// `s` completes `puzzle`: it is full and consistent, keeps every digit of
/// `puzzle`, and holds a digit from 1 to 9 wherever `puzzle` is empty.
pub open spec fn is_solution(puzzle: Seq<u32>, s: Seq<u32>) -> bool {
    &&& s.len() == 81
    &&& full(s)
    &&& consistent(s)
    &&& forall|p: int| 0 <= p < 81 && puzzle[p] != EMPTY_NUM ==> #[trigger] s[p] == puzzle[p]
    &&& forall|p: int| 0 <= p < 81 && puzzle[p] == EMPTY_NUM ==> 1 <= #[trigger] s[p] <= 9
}

/// `puzzle` has a completion.
pub open spec fn solvable(puzzle: Seq<u32>) -> bool {
    exists|s: Seq<u32>| is_solution(puzzle, s)
}

/// What a solve of `puzzle` may return: a completion, or `NoSolution` where
/// there is none.
pub open spec fn solve_outcome(puzzle: Seq<u32>, res: Result<Seq<u32>, SolveError>) -> bool {
    match res {
        Ok(s) => is_solution(puzzle, s),
        Err(e) => e == SolveError::NoSolution && !solvable(puzzle),
    }
}

/// What a solve of `text` may return: `Parse` where the text is no board,
/// else an outcome of solving the board that it is read as.
pub open spec fn solve_text_outcome(text: Seq<char>, res: Result<Seq<u32>, SolveError>) -> bool {
    if parses(text) {
        solve_outcome(parsed(text), res)
    } else {
        res == Err::<Seq<u32>, SolveError>(SolveError::Parse)
    }
}

/// The cells of the board that a solve returned.
pub open spec fn cells_of(res: Result<SudokuTable, SolveError>) -> Result<Seq<u32>, SolveError> {
    match res {
        Ok(t) => Ok(t@),
        Err(e) => Err(e),
    }
}

/// The digits 1 to 9 in order.
pub open spec fn digits() -> Seq<u32> {
    seq![1u32, 2u32, 3u32, 4u32, 5u32, 6u32, 7u32, 8u32, 9u32]
}

/// How many of the first `n` cells of `g` are empty.
pub open spec fn empties_in(g: Seq<u32>, n: int) -> int
    decreases n,
{
    if n <= 0 {
        0
    } else {
        empties_in(g, n - 1) + if g[n - 1] == EMPTY_NUM {
            1int
        } else {
            0int
        }
    }
}

/// Filling an empty cell leaves one empty cell fewer.
pub proof fn lemma_fill_lowers_empties(g: Seq<u32>, cell: int, val: u32, n: int)
    requires
        0 <= cell < g.len(),
        0 <= n <= g.len(),
        g[cell] == EMPTY_NUM,
        val != EMPTY_NUM,
    ensures
        empties_in(g.update(cell, val), n) >= 0,
        empties_in(g.update(cell, val), n) == empties_in(g, n) - if cell < n {
            1int
        } else {
            0int
        },
    decreases n,
{
    if n > 0 {
        lemma_fill_lowers_empties(g, cell, val, n - 1);
    }
}

/// No completion holds at `cell` a digit that is illegal there.
pub proof fn lemma_illegal_in_no_solution(g: Seq<u32>, cell: int, val: u32, s: Seq<u32>)
    requires
        g.len() == 81,
        0 <= cell < 81,
        !legal_at(g, cell, val),
        is_solution(g, s),
    ensures
        s[cell] != val,
{
    let q = choose|q: int| 0 <= q < 81 && q != cell && related(cell, q) && !cell_allows(g[q], val);
    assert(s[q] == g[q]);
    if s[cell] == val {
        assert(legal_at(s, cell, s[cell]));
        assert(cell_allows(s[q], val));
    }
}

/// A board on which some digit is illegal where it stands has no completion.
pub proof fn lemma_inconsistent_unsolvable(g: Seq<u32>)
    requires
        g.len() == 81,
        !consistent(g),
    ensures
        !solvable(g),
{
    let p = choose|p: int| 0 <= p < 81 && g[p] != EMPTY_NUM && !legal_at(g, p, #[trigger] g[p]);
    assert forall|s: Seq<u32>| !is_solution(g, s) by {
        if is_solution(g, s) {
            assert(s[p] == g[p]);
            lemma_illegal_in_no_solution(g, p, g[p], s);
        }
    }
}

/// A completion of the board with one more legal digit completes the board.
pub proof fn lemma_solution_of_filled(g: Seq<u32>, cell: int, val: u32, s: Seq<u32>)
    requires
        g.len() == 81,
        0 <= cell < 81,
        g[cell] == EMPTY_NUM,
        1 <= val <= 9,
        is_solution(g.update(cell, val), s),
    ensures
        is_solution(g, s),
{
    let h = g.update(cell, val);
    assert forall|p: int| 0 <= p < 81 && g[p] != EMPTY_NUM implies #[trigger] s[p] == g[p] by {
        assert(h[p] == g[p]);
    }
    assert forall|p: int| 0 <= p < 81 && g[p] == EMPTY_NUM implies 1 <= #[trigger] s[p] <= 9 by {
        if p == cell {
            assert(h[p] == val);
        } else {
            assert(h[p] == g[p]);
        }
    }
}

/// A completion of the board that holds `val` at `cell` completes the board
/// with `val` written there.
pub proof fn lemma_solution_with_digit(g: Seq<u32>, cell: int, val: u32, s: Seq<u32>)
    requires
        g.len() == 81,
        0 <= cell < 81,
        is_solution(g, s),
        s[cell] == val,
    ensures
        is_solution(g.update(cell, val), s),
{
    let h = g.update(cell, val);
    assert forall|p: int| 0 <= p < 81 && h[p] != EMPTY_NUM implies #[trigger] s[p] == h[p] by {
        if p != cell {
            assert(h[p] == g[p]);
        }
    }
    assert forall|p: int| 0 <= p < 81 && h[p] == EMPTY_NUM implies 1 <= #[trigger] s[p] <= 9 by {
        if p != cell {
            assert(h[p] == g[p]);
        } else {
            assert(s[p] != EMPTY_NUM);
        }
    }
}

/// A sequence with the digits' multiset holds each digit, and digits only.
pub proof fn lemma_shuffled_digits(c: Seq<u32>)
    requires
        c.to_multiset() == digits().to_multiset(),
    ensures
        c.len() == 9,
        forall|i: int| 0 <= i < c.len() ==> 1 <= #[trigger] c[i] <= 9,
        forall|v: u32| 1 <= v <= 9 ==> #[trigger] c.contains(v),
{
    c.to_multiset_ensures();
    digits().to_multiset_ensures();
    assert forall|i: int| 0 <= i < c.len() implies 1 <= #[trigger] c[i] <= 9 by {
        assert(c.contains(c[i]));
        assert(c.to_multiset().count(c[i]) > 0);
        assert(digits().to_multiset().count(c[i]) > 0);
        assert(digits().contains(c[i]));
    }
    assert forall|v: u32| 1 <= v <= 9 implies #[trigger] c.contains(v) by {
        assert(digits()[v - 1] == v);
        assert(digits().contains(v));
        assert(digits().to_multiset().count(v) > 0);
        assert(c.to_multiset().count(v) > 0);
    }
    assert(c.len() == c.to_multiset().len());
    assert(digits().len() == digits().to_multiset().len());
}

/// A puzzle with one completion has one outcome: that completion.
pub proof fn lemma_unique_solution_is_the_outcome(
    puzzle: Seq<u32>,
    s: Seq<u32>,
    first: Result<Seq<u32>, SolveError>,
    second: Result<Seq<u32>, SolveError>,
)
    requires
        is_solution(puzzle, s),
        forall|t: Seq<u32>| is_solution(puzzle, t) ==> t == s,
        solve_outcome(puzzle, first),
        solve_outcome(puzzle, second),
    ensures
        first == Ok::<Seq<u32>, SolveError>(s),
        second == first,
{
}

/// `rand::seq::SliceRandom::shuffle` on the elements of `v`, with the
/// generator that `rand::thread_rng` hands out. The shuffle only swaps
/// elements, so `v` holds afterwards what it held before, in some order;
/// nothing is claimed of the order. (`thread_rng` panics on a system that
/// gives it no seed.)
#[verifier::external_body]
fn shuffle(v: &mut Vec<u32>)
    ensures
        final(v)@.to_multiset() == old(v)@.to_multiset(),
{
    rand::seq::SliceRandom::shuffle(v.as_mut_slice(), &mut rand::thread_rng());
}

/// The digits 1 to 9 in a random order.
pub fn gen_candidates() -> (c: Vec<u32>)
    ensures
        c@.to_multiset() == digits().to_multiset(),
{
    let mut ret: Vec<u32> = Vec::new();
    let mut d: u32 = 1;
    while d <= 9
        invariant
            1 <= d <= 10,
            ret@.len() == d - 1,
            forall|i: int| 0 <= i < d - 1 ==> ret@[i] == i + 1,
        decreases 10 - d,
    {
        ret.push(d);
        d += 1;
    }
    assert(ret@ =~= digits());
    shuffle(&mut ret);
    ret
}

/// A solver: the board it works on, and the order in which it visits the rows.
pub struct RecursiveSolver {
    m_table: SudokuTable,
    m_rows_indexes: Vec<usize>,
}

impl Default for RecursiveSolver {
    /// A solver with an empty board and no row order yet.
    fn default() -> (s: Self)
        ensures
            s.table() == Seq::new(81, |p: int| EMPTY_NUM),
            s.rows() == Seq::<usize>::empty(),
    {
        Self { m_table: SudokuTable::default(), m_rows_indexes: Vec::new() }
    }
}

impl RecursiveSolver {
    /// The cells of the solver's board.
    pub closed spec fn table(&self) -> Seq<u32> {
        self.m_table@
    }

    /// The order in which the solver visits the rows.
    pub closed spec fn rows(&self) -> Seq<usize> {
        self.m_rows_indexes@
    }

    /// The solver has a row order that lists each row once.
    pub open spec fn wf(&self) -> bool {
        covers_rows(self.rows())
    }

    /// Takes `t` as the board to solve and ranks its rows.
    pub fn set_table(&mut self, t: SudokuTable)
        ensures
            final(self).table() == t@,
            is_row_order(t@, final(self).rows()),
            final(self).wf(),
    {
        self.m_table = t;
        self.m_rows_indexes = self.m_table.get_sorted_rows_indexes();
    }

    /// Reads `s` as a board, takes it as the board to solve, and solves it.
    /// Where `s` is no board the solver stays as it was.
    pub fn solve_str(&mut self, s: &str) -> (res: Result<SudokuTable, SolveError>)
        ensures
            solve_text_outcome(s@, cells_of(res)),
            match res {
                Ok(t) => final(self).table() == t@ && t.wf(),
                Err(e) => final(self).table() == if parses(s@) {
                    parsed(s@)
                } else {
                    old(self).table()
                },
            },
            parses(s@) ==> is_row_order(parsed(s@), final(self).rows()),
            !parses(s@) ==> final(self).rows() == old(self).rows(),
    {
        let mut t = SudokuTable::default();
        if !t.try_parse(s) {
            return Err(SolveError::Parse);
        }
        self.set_table(t);
        self.solve()
    }

    /// Completes the solver's board, or says that it has no completion.
    pub fn solve(&mut self) -> (res: Result<SudokuTable, SolveError>)
        requires
            old(self).wf(),
        ensures
            final(self).rows() == old(self).rows(),
            solve_outcome(old(self).table(), cells_of(res)),
            res is Ok <==> solvable(old(self).table()),
            match res {
                Ok(t) => is_solution(old(self).table(), t@) && final(self).table() == t@ && (
                in_range(old(self).table()) ==> t.wf()),
                Err(e) => e == SolveError::NoSolution && !solvable(old(self).table())
                    && final(self).table() == old(self).table(),
            },
    {
        proof {
            self.m_table.lemma_len();
        }
        if !self.m_table.verify_all() {
            proof {
                lemma_inconsistent_unsolvable(self.m_table@);
            }
            return Err(SolveError::NoSolution);
        }
        let start: usize = self.m_rows_indexes[0] * 9;
        if self.solve_impl(start) {
            Ok(self.m_table.clone())
        } else {
            Err(SolveError::NoSolution)
        }
    }

    /// One step of the search: finds the next empty cell after `start_cell`
    /// and tries the digits there in a random order.
    fn solve_impl(&mut self, start_cell: usize) -> (solved: bool)
        requires
            start_cell < 81,
            covers_rows(old(self).m_rows_indexes@),
            consistent(old(self).m_table@),
            filled_before(old(self).m_table@, start_cell as int),
        ensures
            final(self).m_rows_indexes@ == old(self).m_rows_indexes@,
            solved ==> is_solution(old(self).m_table@, final(self).m_table@),
            !solved ==> final(self).m_table@ == old(self).m_table@ && !solvable(
                old(self).m_table@,
            ),
        decreases empties_in(old(self).m_table@, 81), 1int,
    {
        let ghost g = self.m_table@;
        let ghost rows = self.m_rows_indexes@;
        proof {
            self.m_table.lemma_len();
            assert(rows.contains(start_cell / 9));
            lemma_next_empty(g, start_cell as int, rows);
        }
        let empty_cell = self.m_table.get_empty_cell(start_cell, &self.m_rows_indexes);
        let cell: usize = match empty_cell {
            None => {
                proof {
                    lemma_none_means_full(g, start_cell as int, rows);
                }
                return true;
            },
            Some(cell) => cell,
        };
        let candidates = gen_candidates();
        proof {
            lemma_shuffled_digits(candidates@);
        }
        let solved = self.try_candidates(cell, &candidates);
        proof {
            if !solved {
                assert forall|s: Seq<u32>| !is_solution(g, s) by {
                    if is_solution(g, s) {
                        let v = s[cell as int];
                        assert(1 <= v <= 9);
                        assert(candidates@.contains(v));
                    }
                }
            }
        }
        solved
    }

    /// Writes each of `candidates` in turn to the empty cell `cell`, where it
    /// is legal there, and searches on from that cell; takes the digit back
    /// where the search fails. Says whether a digit led to a full board.
    fn try_candidates(&mut self, cell: usize, candidates: &Vec<u32>) -> (solved: bool)
        requires
            cell < 81,
            old(self).m_table@[cell as int] == EMPTY_NUM,
            covers_rows(old(self).m_rows_indexes@),
            consistent(old(self).m_table@),
            filled_before(old(self).m_table@, cell as int),
            forall|i: int| 0 <= i < candidates@.len() ==> 1 <= #[trigger] candidates@[i] <= 9,
        ensures
            final(self).m_rows_indexes@ == old(self).m_rows_indexes@,
            solved ==> is_solution(old(self).m_table@, final(self).m_table@),
            !solved ==> final(self).m_table@ == old(self).m_table@,
            !solved ==> forall|s: Seq<u32>| #[trigger]
                is_solution(old(self).m_table@, s) ==> !candidates@.contains(s[cell as int]),
        decreases empties_in(old(self).m_table@, 81), 0int,
    {
        let ghost g = self.m_table@;
        let ghost rows = self.m_rows_indexes@;
        proof {
            self.m_table.lemma_len();
        }
        let mut k: usize = 0;
        while k < candidates.len()
            invariant
                k <= candidates@.len(),
                cell < 81,
                g.len() == 81,
                self.m_table@ == g,
                self.m_rows_indexes@ == rows,
                g == old(self).m_table@,
                rows == old(self).m_rows_indexes@,
                g[cell as int] == EMPTY_NUM,
                consistent(g),
                filled_before(g, cell as int),
                covers_rows(rows),
                forall|i: int| 0 <= i < candidates@.len() ==> 1 <= #[trigger] candidates@[i] <= 9,
                forall|j: int, s: Seq<u32>|
                    0 <= j < k && #[trigger] is_solution(g, s) ==> s[cell as int]
                        != #[trigger] candidates@[j],
            decreases candidates@.len() - k,
        {
            let val: u32 = candidates[k];
            if self.m_table.try_set(cell, val) {
                proof {
                    lemma_legal_keeps_consistent(g, cell as int, val);
                    lemma_fill_lowers_empties(g, cell as int, val, 81);
                    let h = g.update(cell as int, val);
                    let row = cell as int / 9;
                    assert forall|c: int| 0 <= c < cell as int % 9 implies #[trigger] at(h, row, c)
                        != EMPTY_NUM by {
                        assert(at(g, row, c) != EMPTY_NUM);
                    }
                }
                if self.solve_impl(cell) {
                    proof {
                        lemma_solution_of_filled(g, cell as int, val, self.m_table@);
                    }
                    return true;
                } else {
                    self.m_table.set(cell, EMPTY_NUM);
                    proof {
                        let h = g.update(cell as int, val);
                        assert(self.m_table@ =~= g);
                        assert forall|s: Seq<u32>| is_solution(g, s) implies s[cell as int]
                            != val by {
                            if s[cell as int] == val {
                                lemma_solution_with_digit(g, cell as int, val, s);
                                assert(is_solution(h, s));
                            }
                        }
                    }
                }
            } else {
                proof {
                    assert forall|s: Seq<u32>| is_solution(g, s) implies s[cell as int] != val by {
                        lemma_illegal_in_no_solution(g, cell as int, val, s);
                    }
                }
            }
            k += 1;
        }
        proof {
            assert forall|s: Seq<u32>| #[trigger] is_solution(g, s) implies !candidates@.contains(
                s[cell as int],
            ) by {
                if candidates@.contains(s[cell as int]) {
                    let j = choose|j: int|
                        0 <= j < candidates@.len() && candidates@[j] == s[cell as int];
                    assert(s[cell as int] != candidates@[j]);
                }
            }
        }
        false
    }
}

} // verus!
