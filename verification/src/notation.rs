//! The text forms of a board: what is read, and what is written.

use crate::rules::in_range;
use crate::sudoku_table::{Format, EMPTY_NUM};
use vstd::prelude::*;

verus! {

/// ASCII whitespace: space, tab, line feed, form feed, carriage return.
pub open spec fn is_space(c: char) -> bool {
    c == ' ' || c == '\t' || c == '\n' || c == '\x0C' || c == '\r'
}

/// One of the characters `1` to `9`.
pub open spec fn is_digit(c: char) -> bool {
    49 <= c as u32 <= 57
}

/// A character that stands for a cell: `.` or a digit.
pub open spec fn is_cell_symbol(c: char) -> bool {
    c == '.' || is_digit(c)
}

/// The value of the cell that `c` stands for: its digit, and 0 for `.`.
pub open spec fn symbol_value(c: char) -> u32 {
    if is_digit(c) {
        (c as u32 - 48) as u32
    } else {
        EMPTY_NUM
    }
}

/// The characters of `text` that are not whitespace, in order.
pub open spec fn symbols(text: Seq<char>) -> Seq<char>
    decreases text.len(),
{
    if text.len() == 0 {
        Seq::empty()
    } else if is_space(text.last()) {
        symbols(text.drop_last())
    } else {
        symbols(text.drop_last()).push(text.last())
    }
}

/// `text` can be read as a board: each of its first 81 characters that are
/// not whitespace stands for a cell.
pub open spec fn parses(text: Seq<char>) -> bool {
    forall|i: int| 0 <= i < symbols(text).len() && i < 81 ==> is_cell_symbol(#[trigger] symbols(text)[i])
}

/// The value that `text` gives to cell `p`: that of its symbol number `p`,
/// and 0 where the text has fewer symbols.
pub open spec fn parsed_cell(text: Seq<char>, p: int) -> u32 {
    if p < symbols(text).len() {
        symbol_value(symbols(text)[p])
    } else {
        EMPTY_NUM
    }
}

/// The board that `text` is read as.
pub open spec fn parsed(text: Seq<char>) -> Seq<u32> {
    Seq::new(81, |p: int| parsed_cell(text, p))
}

/// The character that stands for a cell that holds `val`.
pub open spec fn symbol_of(val: u32) -> char {
    if val == 1 {
        '1'
    } else if val == 2 {
        '2'
    } else if val == 3 {
        '3'
    } else if val == 4 {
        '4'
    } else if val == 5 {
        '5'
    } else if val == 6 {
        '6'
    } else if val == 7 {
        '7'
    } else if val == 8 {
        '8'
    } else if val == 9 {
        '9'
    } else {
        '.'
    }
}

/// What the indented form writes after the symbol and space of cell `i`: two
/// line feeds at the end of a band of three rows, one at the end of any other
/// row, one more space at the end of a box within a row.
pub open spec fn separator(i: int) -> Seq<char> {
    if (i + 1) % 27 == 0 {
        seq!['\n', '\n']
    } else if (i + 1) % 9 == 0 {
        seq!['\n']
    } else if (i + 1) % 3 == 0 {
        seq![' ']
    } else {
        Seq::empty()
    }
}

/// The indented form of the first `n` cells of `g`.
pub open spec fn indent_text(g: Seq<u32>, n: int) -> Seq<char>
    decreases n,
{
    if n <= 0 {
        Seq::empty()
    } else {
        indent_text(g, n - 1) + seq![symbol_of(g[n - 1]), ' '] + separator(n - 1)
    }
}

/// The compact form of `g`: one symbol for each cell.
pub open spec fn compact_text(g: Seq<u32>) -> Seq<char> {
    Seq::new(81, |i: int| symbol_of(g[i]))
}

/// The text of `g` in `format`.
pub open spec fn text_of(g: Seq<u32>, format: Format) -> Seq<char> {
    match format {
        Format::Compact => compact_text(g),
        Format::Indent => indent_text(g, 81),
    }
}

/// The symbols of a prefix of a text are a prefix of the text's symbols.
pub proof fn lemma_symbols_prefix(text: Seq<char>, k: int)
    requires
        0 <= k <= text.len(),
    ensures
        symbols(text.take(k)).len() <= symbols(text).len(),
        forall|i: int|
            0 <= i < symbols(text.take(k)).len() ==> #[trigger] symbols(text.take(k))[i]
                == symbols(text)[i],
    decreases text.len(),
{
    if k == text.len() {
        assert(text.take(k) =~= text);
    } else {
        assert(text.drop_last().take(k) =~= text.take(k));
        lemma_symbols_prefix(text.drop_last(), k);
    }
}

/// Reading one more character adds its symbol, unless it is whitespace.
pub proof fn lemma_symbols_step(text: Seq<char>, k: int)
    requires
        0 <= k < text.len(),
    ensures
        symbols(text.take(k + 1)) == if is_space(text[k]) {
            symbols(text.take(k))
        } else {
            symbols(text.take(k)).push(text[k])
        },
{
    assert(text.take(k + 1).drop_last() =~= text.take(k));
}

/// A text whose symbols are all `.` is read as a board and written back in
/// the compact form as 81 `.`.
pub proof fn lemma_empty_board_round_trip(text: Seq<char>)
    requires
        forall|i: int| 0 <= i < symbols(text).len() ==> #[trigger] symbols(text)[i] == '.',
    ensures
        parses(text),
        text_of(parsed(text), Format::Compact) == Seq::new(81, |i: int| '.'),
{
    assert(compact_text(parsed(text)) =~= Seq::new(81, |i: int| '.'));
}

/// The compact form of a board of digits and empty cells is read back as
/// that board.
pub proof fn lemma_compact_round_trip(g: Seq<u32>)
    requires
        g.len() == 81,
        in_range(g),
    ensures
        parses(compact_text(g)),
        parsed(compact_text(g)) == g,
{
    let t = compact_text(g);
    lemma_symbols_of_compact(t, 81);
    assert(t.take(81) =~= t);
    assert forall|p: int| 0 <= p < 81 implies symbol_value(#[trigger] t[p]) == g[p] by {
        assert(g[p] <= 9);
    }
    assert(parsed(t) =~= g);
}

/// A text without whitespace in its first `k` characters has those
/// characters as the symbols of that prefix.
pub proof fn lemma_symbols_of_compact(t: Seq<char>, k: int)
    requires
        0 <= k <= t.len(),
        forall|i: int| 0 <= i < k ==> !is_space(#[trigger] t[i]),
    ensures
        symbols(t.take(k)) == t.take(k),
    decreases k,
{
    if k > 0 {
        lemma_symbols_of_compact(t, k - 1);
        lemma_symbols_step(t, k - 1);
        assert(t.take(k - 1).push(t[k - 1]) =~= t.take(k));
    } else {
        assert(t.take(0) =~= Seq::<char>::empty());
    }
}

/// `String::push`: the string gains the one character at its end.
#[verifier::external_body]
pub(crate) fn push_char(s: &mut String, c: char)
    ensures
        final(s)@ == old(s)@.push(c),
{
    s.push(c);
}

} // verus!
