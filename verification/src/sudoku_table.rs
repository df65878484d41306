//! The board and its operations.

use crate::notation::{
    compact_text, indent_text, is_cell_symbol, lemma_symbols_prefix, lemma_symbols_step, parsed,
    parsed_cell, parses, push_char, separator, symbol_of, symbol_value, symbols, text_of,
};
use crate::rules::{
    at, box_allows, cell_allows, col_allows, consistent, full, in_range, legal_at,
    lemma_legal_by_units, row_allows,
};
use crate::search_order::{
    empties_upto, first_empty_col, is_row_order, lemma_next_empty, lemma_position_of, next_empty,
    position_of, row_before, row_empties, scan_rows,
};
use vstd::prelude::*;
use vstd::std_specs::iter::IteratorSpec;

verus! {

/// The value of a cell that holds no digit.
pub const EMPTY_NUM: u32 = 0;

/// The two text layouts of a board.
#[derive(Debug, Clone, Copy, PartialEq, Eq)]
pub enum Format {
    Compact,
    Indent,
}

/// The nine values of `row`, by column.
pub open spec fn row_of(g: Seq<u32>, row: int) -> Seq<u32> {
    g.subrange(row * 9, row * 9 + 9)
}

/// The nine values of column `col`, by row.
pub open spec fn col_of(g: Seq<u32>, col: int) -> Seq<u32> {
    Seq::new(9, |j: int| at(g, j, col))
}

/// A Sudoku board.
#[derive(Debug)]
pub struct SudokuTable {
    m_grid: [u32; 81],
}

impl View for SudokuTable {
    type V = Seq<u32>;

    closed spec fn view(&self) -> Seq<u32> {
        self.m_grid@
    }
}

impl Default for SudokuTable {
    /// The board with every cell empty.
    fn default() -> (t: Self)
        ensures
            t@ == Seq::new(81, |p: int| EMPTY_NUM),
    {
        let t = Self { m_grid: [EMPTY_NUM;81] };
        assert(t@ =~= Seq::new(81, |p: int| EMPTY_NUM));
        t
    }
}

impl Clone for SudokuTable {
    fn clone(&self) -> (t: Self)
        ensures
            t@ == self@,
    {
        Self { m_grid: self.m_grid }
    }
}

/// The character that stands for a cell that holds `val`.
fn symbol(val: u32) -> (c: char)
    ensures
        c == symbol_of(val),
{
    if val == 1 {
        '1'
    } else if val == 2 {
        '2'
    } else if val == 3 {
        '3'
    } else if val == 4 {
        '4'
    } else if val == 5 {
        '5'
    } else if val == 6 {
        '6'
    } else if val == 7 {
        '7'
    } else if val == 8 {
        '8'
    } else if val == 9 {
        '9'
    } else {
        '.'
    }
}

impl SudokuTable {
    /// A board has 81 cells.
    pub proof fn lemma_len(&self)
        ensures
            self@.len() == 81,
    {
    }

    /// Every cell holds a digit or is empty.
    pub open spec fn wf(&self) -> bool {
        in_range(self@)
    }

    /// Empties every cell.
    pub fn reset(&mut self)
        ensures
            final(self)@ == Seq::new(81, |p: int| EMPTY_NUM),
    {
        let mut i: usize = 0;
        while i < 81
            invariant
                i <= 81,
                forall|p: int| 0 <= p < i ==> self.m_grid@[p] == EMPTY_NUM,
            decreases 81 - i,
        {
            self.m_grid[i] = EMPTY_NUM;
            i += 1;
        }
        assert(self@ =~= Seq::new(81, |p: int| EMPTY_NUM));
    }

    /// The value of the cell at `pos`.
    pub fn get(&self, pos: usize) -> (val: u32)
        requires
            pos < 81,
        ensures
            val == self@[pos as int],
    {
        self.m_grid[pos]
    }

    /// Writes `val` to the cell at `pos`, whatever the other cells hold.
    pub fn set(&mut self, pos: usize, val: u32)
        requires
            pos < 81,
        ensures
            final(self)@ == old(self)@.update(pos as int, val),
    {
        self.m_grid[pos] = val;
        assert(self@ =~= old(self)@.update(pos as int, val));
    }

    /// Whether no other cell of `row` holds `val`; `col` is the column left out.
    pub fn is_row_ok(&self, row: usize, col: usize, val: u32) -> (ok: bool)
        requires
            row < 9,
        ensures
            ok == row_allows(self@, row as int, col as int, val),
    {
        let mut i: usize = 0;
        while i < 9
            invariant
                i <= 9,
                row < 9,
                forall|k: int|
                    0 <= k < i && k != col ==> cell_allows(
                        #[trigger] at(self@, row as int, k),
                        val,
                    ),
            decreases 9 - i,
        {
            let held: u32 = self.m_grid[row * 9 + i];
            if i != col && held == val && held != EMPTY_NUM {
                assert(!cell_allows(at(self@, row as int, i as int), val));
                return false;
            }
            i += 1;
        }
        true
    }

    /// Whether no other cell of column `col` holds `val`; `row` is the row left out.
    pub fn is_col_ok(&self, row: usize, col: usize, val: u32) -> (ok: bool)
        requires
            col < 9,
        ensures
            ok == col_allows(self@, row as int, col as int, val),
    {
        let mut j: usize = 0;
        while j < 9
            invariant
                j <= 9,
                col < 9,
                forall|k: int|
                    0 <= k < j && k != row ==> cell_allows(
                        #[trigger] at(self@, k, col as int),
                        val,
                    ),
            decreases 9 - j,
        {
            let held: u32 = self.m_grid[j * 9 + col];
            if j != row && held == val && held != EMPTY_NUM {
                assert(!cell_allows(at(self@, j as int, col as int), val));
                return false;
            }
            j += 1;
        }
        true
    }

    /// Whether no other cell of the 3×3 box around (`row`, `col`) holds `val`.
    pub fn is_sqr_ok(&self, row: usize, col: usize, val: u32) -> (ok: bool)
        requires
            row < 9,
            col < 9,
        ensures
            ok == box_allows(self@, row as int, col as int, val),
    {
        let row_corner: usize = row / 3 * 3;
        let col_corner: usize = col / 3 * 3;
        let mut i: usize = row_corner;
        while i < row_corner + 3
            invariant
                row < 9,
                col < 9,
                row_corner == row / 3 * 3,
                col_corner == col / 3 * 3,
                row_corner <= i <= row_corner + 3,
                forall|a: int, b: int|
                    row_corner <= a < i && col_corner <= b < col_corner + 3 && (a != row || b
                        != col) ==> cell_allows(#[trigger] at(self@, a, b), val),
            decreases row_corner + 3 - i,
        {
            let mut j: usize = col_corner;
            while j < col_corner + 3
                invariant
                    row < 9,
                    col < 9,
                    row_corner == row / 3 * 3,
                    col_corner == col / 3 * 3,
                    row_corner <= i < row_corner + 3,
                    col_corner <= j <= col_corner + 3,
                    forall|a: int, b: int|
                        row_corner <= a < i && col_corner <= b < col_corner + 3 && (a != row || b
                            != col) ==> cell_allows(#[trigger] at(self@, a, b), val),
                    forall|b: int|
                        col_corner <= b < j && (i != row || b != col) ==> cell_allows(
                            #[trigger] at(self@, i as int, b),
                            val,
                        ),
                decreases col_corner + 3 - j,
            {
                let held: u32 = self.m_grid[i * 9 + j];
                if (i != row || j != col) && held == val && held != EMPTY_NUM {
                    assert(!cell_allows(at(self@, i as int, j as int), val));
                    return false;
                }
                j += 1;
            }
            i += 1;
        }
        true
    }

    /// Whether `val` at `pos` would repeat no digit of its row, column or box.
    pub fn is_legal(&self, pos: usize, val: u32) -> (ok: bool)
        requires
            pos < 81,
        ensures
            ok == legal_at(self@, pos as int, val),
    {
        let row: usize = pos / 9;
        let col: usize = pos % 9;
        proof {
            lemma_legal_by_units(self@, pos as int, val);
        }
        self.is_row_ok(row, col, val) && self.is_col_ok(row, col, val) && self.is_sqr_ok(
            row,
            col,
            val,
        )
    }

    /// Writes `val` at `pos` if that is legal, and says whether it did.
    pub fn try_set(&mut self, pos: usize, val: u32) -> (done: bool)
        requires
            pos < 81,
        ensures
            done == legal_at(old(self)@, pos as int, val),
            done ==> final(self)@ == old(self)@.update(pos as int, val),
            !done ==> final(self)@ == old(self)@,
    {
        if self.is_legal(pos, val) {
            self.set(pos, val);
            true
        } else {
            false
        }
    }

    /// Whether every digit on the board is legal where it stands.
    pub fn verify_all(&self) -> (ok: bool)
        ensures
            ok == consistent(self@),
    {
        let mut pos: usize = 0;
        while pos < 81
            invariant
                pos <= 81,
                forall|p: int|
                    0 <= p < pos && self@[p] != EMPTY_NUM ==> legal_at(self@, p, #[trigger] self@[p]),
            decreases 81 - pos,
        {
            let val: u32 = self.m_grid[pos];
            if val != EMPTY_NUM && !self.is_legal(pos, val) {
                assert(!legal_at(self@, pos as int, self@[pos as int]));
                return false;
            }
            pos += 1;
        }
        true
    }

    /// The nine values of row `i`, by column.
    pub fn row_slice(&self, i: usize) -> (r: &[u32])
        requires
            i < 9,
        ensures
            r@ == row_of(self@, i as int),
    {
        let row_start: usize = i * 9;
        &self.m_grid[row_start..row_start + 9]
    }

    /// The nine values of row `i`, by column.
    pub fn row(&self, i: usize) -> (r: Vec<u32>)
        requires
            i < 9,
        ensures
            r@ == row_of(self@, i as int),
    {
        let mut r: Vec<u32> = Vec::new();
        let mut j: usize = 0;
        while j < 9
            invariant
                i < 9,
                j <= 9,
                r@ == self@.subrange(i * 9, i * 9 + j),
            decreases 9 - j,
        {
            r.push(self.m_grid[i * 9 + j]);
            assert(r@ =~= self@.subrange(i * 9, i * 9 + j + 1));
            j += 1;
        }
        r
    }

    /// The nine values of column `j`, by row.
    pub fn col(&self, j: usize) -> (r: Vec<u32>)
        requires
            j < 9,
        ensures
            r@ == col_of(self@, j as int),
    {
        let mut r: Vec<u32> = Vec::new();
        let mut i: usize = 0;
        while i < 9
            invariant
                j < 9,
                i <= 9,
                r@.len() == i,
                forall|k: int| 0 <= k < i ==> r@[k] == at(self@, k, j as int),
            decreases 9 - i,
        {
            r.push(self.m_grid[i * 9 + j]);
            i += 1;
        }
        assert(r@ =~= col_of(self@, j as int));
        r
    }

    /// How many cells of `row` are empty.
    fn count_empty(&self, row: usize) -> (n: usize)
        requires
            row < 9,
        ensures
            n == row_empties(self@, row as int),
            n <= 9,
    {
        let mut n: usize = 0;
        let mut j: usize = 0;
        while j < 9
            invariant
                row < 9,
                j <= 9,
                n <= j,
                n == empties_upto(self@, row as int, j as int),
            decreases 9 - j,
        {
            if self.m_grid[row * 9 + j] == EMPTY_NUM {
                n += 1;
            }
            j += 1;
        }
        n
    }

    /// The rows ranked by how few empty cells they have, equal rows by index.
    pub fn get_sorted_rows_indexes(&self) -> (rows: Vec<usize>)
        ensures
            is_row_order(self@, rows@),
    {
        let mut rows: Vec<usize> = Vec::new();
        let mut r: usize = 0;
        while r < 9
            invariant
                r <= 9,
                rows@.len() == r,
                forall|i: int| 0 <= i < r ==> #[trigger] rows@[i] < r,
                forall|i: int, j: int|
                    0 <= i < j < r ==> row_before(
                        self@,
                        #[trigger] rows@[i] as int,
                        #[trigger] rows@[j] as int,
                    ),
                forall|x: usize| x < r ==> #[trigger] rows@.contains(x),
            decreases 9 - r,
        {
            let n: usize = self.count_empty(r);
            let mut place: usize = 0;
            while place < rows.len() && self.count_empty(rows[place]) <= n
                invariant
                    r < 9,
                    place <= rows@.len(),
                    rows@.len() == r,
                    forall|i: int| 0 <= i < r ==> #[trigger] rows@[i] < r,
                    forall|i: int|
                        0 <= i < place ==> row_empties(self@, #[trigger] rows@[i] as int) <= n,
                decreases rows@.len() - place,
            {
                place += 1;
            }
            let ghost before = rows@;
            rows.insert(place, r);
            proof {
                let after = rows@;
                assert forall|i: int| 0 <= i < r + 1 implies #[trigger] after[i] < r + 1 by {
                    if i < place {
                        assert(after[i] == before[i]);
                    } else if i > place {
                        assert(after[i] == before[i - 1]);
                    }
                }
                assert forall|i: int, j: int| 0 <= i < j < r + 1 implies row_before(
                    self@,
                    #[trigger] after[i] as int,
                    #[trigger] after[j] as int,
                ) by {
                    let a = if i < place {
                        before[i]
                    } else if i == place {
                        r
                    } else {
                        before[i - 1]
                    };
                    let b = if j < place {
                        before[j]
                    } else if j == place {
                        r
                    } else {
                        before[j - 1]
                    };
                    assert(after[i] == a && after[j] == b);
                    if i == place {
                        assert(row_empties(self@, before[place as int] as int) > n);
                        if j - 1 > place {
                            assert(row_before(
                                self@,
                                before[place as int] as int,
                                before[j - 1] as int,
                            ));
                        }
                    }
                }
                assert forall|x: usize| x < r + 1 implies #[trigger] after.contains(x) by {
                    if x == r {
                        assert(after[place as int] == x);
                    } else {
                        assert(before.contains(x));
                        let k = choose|k: int| 0 <= k < before.len() && before[k] == x;
                        if k < place {
                            assert(after[k] == x);
                        } else {
                            assert(after[k + 1] == x);
                        }
                    }
                }
            }
            r += 1;
        }
        rows
    }

    /// The lowest column from `col` on whose cell in `row` is empty; 9 if
    /// there is none.
    fn first_empty_in_row(&self, row: usize, col: usize) -> (c: usize)
        requires
            row < 9,
            col <= 9,
        ensures
            c == first_empty_col(self@, row as int, col as int),
            c <= 9,
    {
        let mut c: usize = col;
        while c < 9 && self.m_grid[row * 9 + c] != EMPTY_NUM
            invariant
                row < 9,
                col <= c <= 9,
                first_empty_col(self@, row as int, col as int) == first_empty_col(
                    self@,
                    row as int,
                    c as int,
                ),
            decreases 9 - c,
        {
            c += 1;
        }
        c
    }

    /// The next empty cell for a search that stands at `start_elem`: the first
    /// one in the rest of that cell's row; else the first one of the first row
    /// with an empty cell among the eight entries that follow that row in
    /// `rows_indexes`, walked in a circle.
    pub fn get_empty_cell(&self, start_elem: usize, rows_indexes: &Vec<usize>) -> (found: Option<
        usize,
    >)
        requires
            start_elem < 81,
            rows_indexes@.contains(start_elem / 9),
            forall|i: int| 0 <= i < rows_indexes@.len() ==> #[trigger] rows_indexes@[i] < 9,
        ensures
            found == next_empty(self@, start_elem as int, rows_indexes@),
            match found {
                Some(p) => p < 81 && self@[p as int] == EMPTY_NUM,
                None => true,
            },
            full(self@) ==> found is None,
    {
        proof {
            lemma_next_empty(self@, start_elem as int, rows_indexes@);
        }
        let start_row: usize = start_elem / 9;
        let start_col: usize = start_elem % 9;
        let col: usize = self.first_empty_in_row(start_row, start_col);
        if col < 9 {
            return Some(start_row * 9 + col);
        }
        let len: usize = rows_indexes.len();
        let mut idx: usize = 0;
        proof {
            lemma_position_of(rows_indexes@, start_row, 0);
            let w = choose|i: int| 0 <= i < rows_indexes@.len() && rows_indexes@[i] == start_row;
            assert(position_of(rows_indexes@, start_row, 0) <= w);
        }
        while rows_indexes[idx] != start_row
            invariant
                len == rows_indexes@.len(),
                idx <= position_of(rows_indexes@, start_row, 0) < len,
                position_of(rows_indexes@, start_row, 0) == position_of(
                    rows_indexes@,
                    start_row,
                    idx as int,
                ),
            decreases len - idx,
        {
            proof {
                lemma_position_of(rows_indexes@, start_row, idx + 1);
            }
            idx += 1;
        }
        let mut left: usize = 8;
        while left > 0
            invariant
                left <= 8,
                len == rows_indexes@.len(),
                idx < len,
                forall|i: int| 0 <= i < rows_indexes@.len() ==> #[trigger] rows_indexes@[i] < 9,
                next_empty(self@, start_elem as int, rows_indexes@) == scan_rows(
                    self@,
                    rows_indexes@,
                    idx as int,
                    left as nat,
                ),
                match next_empty(self@, start_elem as int, rows_indexes@) {
                    Some(p) => p < 81 && self@[p as int] == EMPTY_NUM,
                    None => true,
                },
            decreases left,
        {
            idx = if idx + 1 >= len {
                0
            } else {
                idx + 1
            };
            let row: usize = rows_indexes[idx];
            let col: usize = self.first_empty_in_row(row, 0);
            if col < 9 {
                return Some(row * 9 + col);
            }
            left -= 1;
        }
        None
    }

    /// Whether every cell holds a digit or is empty.
    pub fn is_in_range(&self) -> (ok: bool)
        ensures
            ok == self.wf(),
    {
        let mut pos: usize = 0;
        while pos < 81
            invariant
                pos <= 81,
                forall|p: int| 0 <= p < pos ==> #[trigger] self@[p] <= 9,
            decreases 81 - pos,
        {
            if self.m_grid[pos] > 9 {
                return false;
            }
            pos += 1;
        }
        true
    }

    /// Reads `s` as a board. Whitespace is skipped; `.` is an empty cell and
    /// each of `1` to `9` is that digit. After 81 cells the rest of `s` is not
    /// looked at; cells that `s` does not reach stay empty. Any other
    /// character before that makes the reading fail, and the board is then
    /// empty.
    pub fn try_parse(&mut self, s: &str) -> (ok: bool)
        ensures
            ok == parses(s@),
            ok ==> final(self)@ == parsed(s@),
            !ok ==> final(self)@ == Seq::new(81, |p: int| EMPTY_NUM),
            final(self).wf(),
    {
        self.reset();
        let mut chars = s.chars();
        let ghost mut k: int = 0;
        let mut i: usize = 0;
        let mut at_end: bool = false;
        assert(s@.skip(0) =~= s@);
        while i < 81 && !at_end
            invariant
                0 <= k <= s@.len(),
                i <= 81,
                chars.remaining() == s@.skip(k),
                at_end ==> k == s@.len(),
                i == symbols(s@.take(k)).len(),
                forall|j: int|
                    0 <= j < i ==> is_cell_symbol(#[trigger] symbols(s@.take(k))[j]) && self@[j]
                        == symbol_value(symbols(s@.take(k))[j]),
                forall|j: int| i <= j < 81 ==> self@[j] == EMPTY_NUM,
            decreases
                    s@.len() - k + if at_end {
                        0int
                    } else {
                        1int
                    },
        {
            let ghost before = symbols(s@.take(k));
            let ghost cells = self@;
            let ghost at_cell = i as int;
            match chars.next() {
                None => {
                    at_end = true;
                },
                Some(c) => {
                    assert(c == s@[k]);
                    assert(s@.skip(k).drop_first() =~= s@.skip(k + 1));
                    proof {
                        lemma_symbols_step(s@, k);
                    }
                    if c == ' ' || c == '\t' || c == '\n' || c == '\x0C' || c == '\r' {
                    } else if c == '.' {
                        self.m_grid[i] = EMPTY_NUM;
                        i += 1;
                    } else if 49 <= c as u32 && c as u32 <= 57 {
                        self.m_grid[i] = c as u32 - 48;
                        i += 1;
                    } else {
                        proof {
                            lemma_symbols_prefix(s@, k + 1);
                            let now = symbols(s@.take(k + 1));
                            assert(now[i as int] == c);
                            assert(symbols(s@)[i as int] == c);
                        }
                        self.reset();
                        return false;
                    }
                    proof {
                        let now = symbols(s@.take(k + 1));
                        assert(forall|j: int|
                            0 <= j < 81 && j != at_cell ==> self@[j] == cells[j]);
                        assert forall|j: int| 0 <= j < i implies is_cell_symbol(#[trigger] now[j])
                            && self@[j] == symbol_value(now[j]) by {
                            if j < before.len() {
                                assert(now[j] == before[j]);
                            }
                        }
                        k = k + 1;
                    }
                },
            }
        }
        proof {
            lemma_symbols_prefix(s@, k);
            let seen = symbols(s@.take(k));
            if at_end {
                assert(s@.take(k) =~= s@);
            }
            assert forall|j: int| 0 <= j < symbols(s@).len() && j < 81 implies is_cell_symbol(
                #[trigger] symbols(s@)[j],
            ) by {
                assert(j < i);
                assert(seen[j] == symbols(s@)[j]);
            }
            assert forall|p: int| 0 <= p < 81 implies self@[p] == parsed_cell(s@, p) by {
                if p < i {
                    assert(seen[p] == symbols(s@)[p]);
                }
            }
            assert(self@ =~= parsed(s@));
            assert forall|p: int| 0 <= p < 81 implies #[trigger] self@[p] <= 9 by {
                if p < i {
                    assert(is_cell_symbol(seen[p]));
                }
            }
        }
        true
    }

    /// The board as text in `format`.
    pub fn to_string(&self, format: Format) -> (text: String)
        requires
            self.wf(),
        ensures
            text@ == text_of(self@, format),
    {
        let mut ret = String::new();
        let mut i: usize = 0;
        match format {
            Format::Compact => {
                while i < 81
                    invariant
                        i <= 81,
                        ret@.len() == i,
                        forall|j: int| 0 <= j < i ==> ret@[j] == symbol_of(self@[j]),
                    decreases 81 - i,
                {
                    push_char(&mut ret, symbol(self.m_grid[i]));
                    i += 1;
                }
                assert(ret@ =~= compact_text(self@));
            },
            Format::Indent => {
                while i < 81
                    invariant
                        i <= 81,
                        ret@ == indent_text(self@, i as int),
                    decreases 81 - i,
                {
                    let ghost before = ret@;
                    push_char(&mut ret, symbol(self.m_grid[i]));
                    push_char(&mut ret, ' ');
                    if (i + 1) % 27 == 0 {
                        push_char(&mut ret, '\n');
                        push_char(&mut ret, '\n');
                    } else if (i + 1) % 9 == 0 {
                        push_char(&mut ret, '\n');
                    } else if (i + 1) % 3 == 0 {
                        push_char(&mut ret, ' ');
                    }
                    assert(ret@ =~= before + seq![symbol_of(self@[i as int]), ' '] + separator(
                        i as int,
                    ));
                    i += 1;
                }
            },
        }
        ret
    }
}

} // verus!
