//! The order in which a search visits the rows, and the empty cell it finds next.

use crate::rules::{at, full};
use crate::sudoku_table::EMPTY_NUM;
use vstd::prelude::*;

verus! {

/// How many of the first `n` cells of `row` are empty.
pub open spec fn empties_upto(g: Seq<u32>, row: int, n: int) -> int
    decreases n,
{
    if n <= 0 {
        0
    } else {
        empties_upto(g, row, n - 1) + if at(g, row, n - 1) == EMPTY_NUM {
            1int
        } else {
            0int
        }
    }
}

/// How many cells of `row` are empty.
pub open spec fn row_empties(g: Seq<u32>, row: int) -> int {
    empties_upto(g, row, 9)
}

/// Row `a` comes before row `b`: it has fewer empty cells, or as many and the
/// lower index.
pub open spec fn row_before(g: Seq<u32>, a: int, b: int) -> bool {
    row_empties(g, a) < row_empties(g, b) || (row_empties(g, a) == row_empties(g, b) && a < b)
}

/// `rows` lists the nine rows of `g`, each once, fullest first, rows with
/// equally many empty cells by index.
pub open spec fn is_row_order(g: Seq<u32>, rows: Seq<usize>) -> bool {
    &&& rows.len() == 9
    &&& forall|i: int| 0 <= i < 9 ==> #[trigger] rows[i] < 9
    &&& forall|i: int, j: int|
        0 <= i < j < 9 ==> row_before(g, #[trigger] rows[i] as int, #[trigger] rows[j] as int)
    &&& forall|r: usize| r < 9 ==> #[trigger] rows.contains(r)
}

/// `rows` lists each of the nine rows once.
pub open spec fn covers_rows(rows: Seq<usize>) -> bool {
    &&& rows.len() == 9
    &&& forall|i: int| 0 <= i < 9 ==> #[trigger] rows[i] < 9
    &&& forall|r: usize| r < 9 ==> #[trigger] rows.contains(r)
}

/// The lowest column from `col` on whose cell in `row` is empty; 9 if there
/// is none.
pub open spec fn first_empty_col(g: Seq<u32>, row: int, col: int) -> int
    decreases 9 - col,
{
    if col >= 9 {
        9
    } else if at(g, row, col) == EMPTY_NUM {
        col
    } else {
        first_empty_col(g, row, col + 1)
    }
}

/// The lowest index from `from` on at which `rows` holds `row`; the length of
/// `rows` if there is none.
pub open spec fn position_of(rows: Seq<usize>, row: usize, from: int) -> int
    decreases rows.len() - from,
{
    if from >= rows.len() {
        rows.len() as int
    } else if rows[from] == row {
        from
    } else {
        position_of(rows, row, from + 1)
    }
}

/// The index that follows `idx` when `rows` is walked in a circle.
pub open spec fn next_index(rows: Seq<usize>, idx: int) -> int {
    if idx + 1 >= rows.len() {
        0
    } else {
        idx + 1
    }
}

/// Walks `rows` in a circle from the entry after `idx`, over `left` entries,
/// and gives the first empty cell of the first row that has one.
pub open spec fn scan_rows(g: Seq<u32>, rows: Seq<usize>, idx: int, left: nat) -> Option<usize>
    decreases left,
{
    if left == 0 {
        None
    } else {
        let next = next_index(rows, idx);
        let row = rows[next] as int;
        let col = first_empty_col(g, row, 0);
        if col < 9 {
            Some((row * 9 + col) as usize)
        } else {
            scan_rows(g, rows, next, (left - 1) as nat)
        }
    }
}

/// The empty cell that a search from `start` finds: the first one in the rest
/// of the row of `start`; else the first one of the first row with an empty
/// cell among the eight entries that follow that row in `rows`, walked in a
/// circle.
pub open spec fn next_empty(g: Seq<u32>, start: int, rows: Seq<usize>) -> Option<usize> {
    let row = start / 9;
    let col = first_empty_col(g, row, start % 9);
    if col < 9 {
        Some((row * 9 + col) as usize)
    } else {
        scan_rows(g, rows, position_of(rows, row as usize, 0), 8)
    }
}

/// The cells of the row of `pos` that stand before `pos` are filled.
pub open spec fn filled_before(g: Seq<u32>, pos: int) -> bool {
    forall|c: int| 0 <= c < pos % 9 ==> #[trigger] at(g, pos / 9, c) != EMPTY_NUM
}

/// The row that a walk over `rows` reaches `step` entries after `idx`.
pub open spec fn row_after(rows: Seq<usize>, idx: int, step: int) -> int {
    rows[(idx + step) % 9] as int
}

/// What `first_empty_col` finds is empty, and nothing between `col` and it is.
pub proof fn lemma_first_empty_col(g: Seq<u32>, row: int, col: int)
    requires
        0 <= col <= 9,
    ensures
        col <= first_empty_col(g, row, col) <= 9,
        first_empty_col(g, row, col) < 9 ==> at(g, row, first_empty_col(g, row, col))
            == EMPTY_NUM,
        forall|x: int|
            col <= x < first_empty_col(g, row, col) ==> #[trigger] at(g, row, x) != EMPTY_NUM,
    decreases 9 - col,
{
    if col < 9 && at(g, row, col) != EMPTY_NUM {
        lemma_first_empty_col(g, row, col + 1);
    }
}

/// Where `rows` holds `row`, `position_of` finds its first place.
pub proof fn lemma_position_of(rows: Seq<usize>, row: usize, from: int)
    requires
        0 <= from <= rows.len(),
    ensures
        from <= position_of(rows, row, from) <= rows.len(),
        position_of(rows, row, from) < rows.len() ==> rows[position_of(rows, row, from)] == row,
        forall|i: int| from <= i < position_of(rows, row, from) ==> #[trigger] rows[i] != row,
    decreases rows.len() - from,
{
    if from < rows.len() && rows[from] != row {
        lemma_position_of(rows, row, from + 1);
    }
}

/// A cell that the walk over `rows` finds is empty and the first empty one of
/// its row.
pub proof fn lemma_scan_rows_found(g: Seq<u32>, rows: Seq<usize>, idx: int, left: nat)
    requires
        g.len() == 81,
        rows.len() > 0,
        0 <= idx < rows.len(),
        forall|i: int| 0 <= i < rows.len() ==> #[trigger] rows[i] < 9,
    ensures
        match scan_rows(g, rows, idx, left) {
            Some(p) => p < 81 && g[p as int] == EMPTY_NUM && filled_before(g, p as int),
            None => true,
        },
    decreases left,
{
    if left > 0 {
        let next = next_index(rows, idx);
        let row = rows[next] as int;
        lemma_first_empty_col(g, row, 0);
        let col = first_empty_col(g, row, 0);
        if col < 9 {
            let p = row * 9 + col;
            assert(g[p] == at(g, row, col));
            assert(p / 9 == row && p % 9 == col);
        } else {
            lemma_scan_rows_found(g, rows, next, (left - 1) as nat);
        }
    }
}

/// On a full board the walk over `rows` finds nothing.
pub proof fn lemma_scan_rows_full(g: Seq<u32>, rows: Seq<usize>, idx: int, left: nat)
    requires
        g.len() == 81,
        full(g),
        rows.len() > 0,
        0 <= idx < rows.len(),
        forall|i: int| 0 <= i < rows.len() ==> #[trigger] rows[i] < 9,
    ensures
        scan_rows(g, rows, idx, left) is None,
    decreases left,
{
    if left > 0 {
        let next = next_index(rows, idx);
        let row = rows[next] as int;
        lemma_first_empty_col(g, row, 0);
        let col = first_empty_col(g, row, 0);
        if col < 9 {
            assert(g[row * 9 + col] == at(g, row, col));
        }
        lemma_scan_rows_full(g, rows, next, (left - 1) as nat);
    }
}

/// A search finds an empty cell or none; on a full board it finds none.
pub proof fn lemma_next_empty(g: Seq<u32>, start: int, rows: Seq<usize>)
    requires
        g.len() == 81,
        0 <= start < 81,
        rows.contains((start / 9) as usize),
        forall|i: int| 0 <= i < rows.len() ==> #[trigger] rows[i] < 9,
    ensures
        match next_empty(g, start, rows) {
            Some(p) => p < 81 && g[p as int] == EMPTY_NUM && (filled_before(g, start)
                ==> filled_before(g, p as int)),
            None => true,
        },
        full(g) ==> next_empty(g, start, rows) is None,
{
    let row = start / 9;
    lemma_first_empty_col(g, row, start % 9);
    let col = first_empty_col(g, row, start % 9);
    lemma_position_of(rows, row as usize, 0);
    let k = position_of(rows, row as usize, 0);
    let w = choose|i: int| 0 <= i < rows.len() && rows[i] == row as usize;
    assert(k < rows.len()) by {
        if k >= rows.len() {
            assert(rows[w] != row as usize);
        }
    }
    if col < 9 {
        let p = row * 9 + col;
        assert(g[p] == at(g, row, col));
        assert(p / 9 == row && p % 9 == col);
    } else {
        lemma_scan_rows_found(g, rows, k, 8);
        if full(g) {
            lemma_scan_rows_full(g, rows, k, 8);
        }
    }
}

/// A walk over nine rows that finds nothing has passed full rows only.
pub proof fn lemma_scan_rows_none(g: Seq<u32>, rows: Seq<usize>, idx: int, left: nat)
    requires
        rows.len() == 9,
        0 <= idx < 9,
        scan_rows(g, rows, idx, left) is None,
    ensures
        forall|step: int|
            1 <= step <= left ==> first_empty_col(g, #[trigger] row_after(rows, idx, step), 0) >= 9,
    decreases left,
{
    if left > 0 {
        let next = next_index(rows, idx);
        lemma_scan_rows_none(g, rows, next, (left - 1) as nat);
        assert forall|step: int| 1 <= step <= left implies first_empty_col(
            g,
            #[trigger] row_after(rows, idx, step),
            0,
        ) >= 9 by {
            if step == 1 {
                assert(row_after(rows, idx, step) == rows[next] as int);
            } else {
                assert(row_after(rows, idx, step) == row_after(rows, next, step - 1));
            }
        }
    }
}

/// Where a search finds nothing, the rows are each listed, and the row of
/// `start` is filled before `start`, the board is full.
pub proof fn lemma_none_means_full(g: Seq<u32>, start: int, rows: Seq<usize>)
    requires
        g.len() == 81,
        0 <= start < 81,
        covers_rows(rows),
        filled_before(g, start),
        next_empty(g, start, rows) is None,
    ensures
        full(g),
{
    let start_row = start / 9;
    assert(rows.contains(start_row as usize));
    lemma_first_empty_col(g, start_row, start % 9);
    lemma_position_of(rows, start_row as usize, 0);
    let k = position_of(rows, start_row as usize, 0);
    let w0 = choose|i: int| 0 <= i < rows.len() && rows[i] == start_row as usize;
    assert(k < 9) by {
        if k >= 9 {
            assert(rows[w0] != start_row as usize);
        }
    }
    lemma_scan_rows_none(g, rows, k, 8);
    assert forall|p: int| 0 <= p < 81 implies #[trigger] g[p] != EMPTY_NUM by {
        let r = p / 9;
        let c = p % 9;
        assert(g[p] == at(g, r, c));
        if r == start_row {
            if c < start % 9 {
                assert(at(g, start / 9, c) != EMPTY_NUM);
            } else {
                assert(at(g, start_row, c) != EMPTY_NUM);
            }
        } else {
            assert(rows.contains(r as usize));
            let w = choose|i: int| 0 <= i < rows.len() && rows[i] == r as usize;
            let step = (w - k + 9) % 9;
            assert(1 <= step <= 8);
            assert((k + step) % 9 == w);
            assert(row_after(rows, k, step) == r);
            lemma_first_empty_col(g, r, 0);
            assert(at(g, r, c) != EMPTY_NUM);
        }
    }
}

/// A board has one row order.
pub proof fn lemma_row_order_unique(g: Seq<u32>, a: Seq<usize>, b: Seq<usize>)
    requires
        is_row_order(g, a),
        is_row_order(g, b),
    ensures
        a == b,
{
    lemma_row_orders_agree(g, a, b, 9);
    assert(a =~= b);
}

/// Two row orders of a board agree on their first `n` entries.
proof fn lemma_row_orders_agree(g: Seq<u32>, a: Seq<usize>, b: Seq<usize>, n: int)
    requires
        is_row_order(g, a),
        is_row_order(g, b),
        0 <= n <= 9,
    ensures
        forall|i: int| 0 <= i < n ==> a[i] == b[i],
    decreases n,
{
    if n > 0 {
        lemma_row_orders_agree(g, a, b, n - 1);
        let m = n - 1;
        assert(a[m] < 9 && b[m] < 9);
        assert(b.contains(a[m]));
        assert(a.contains(b[m]));
        let j = choose|j: int| 0 <= j < b.len() && b[j] == a[m];
        let k = choose|k: int| 0 <= k < a.len() && a[k] == b[m];
        if j < m {
            assert(row_before(g, a[j] as int, a[m] as int));
        } else if k < m {
            assert(row_before(g, b[k] as int, b[m] as int));
        } else if j > m && k > m {
            assert(row_before(g, b[m] as int, b[j] as int));
            assert(row_before(g, a[m] as int, a[k] as int));
        }
    }
}

} // verus!
