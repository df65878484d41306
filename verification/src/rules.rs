//! The rules of Sudoku on a board of 81 cells in row-major order.

use crate::sudoku_table::EMPTY_NUM;
use vstd::prelude::*;

verus! {

/// The cell of `g` at `row` and `col`.
pub open spec fn at(g: Seq<u32>, row: int, col: int) -> u32 {
    g[row * 9 + col]
}

/// Two cell indices lie in one row.
pub open spec fn same_row(p: int, q: int) -> bool {
    p / 9 == q / 9
}

/// Two cell indices lie in one column.
pub open spec fn same_col(p: int, q: int) -> bool {
    p % 9 == q % 9
}

/// Two cell indices lie in one 3×3 box.
pub open spec fn same_box(p: int, q: int) -> bool {
    p / 9 / 3 == q / 9 / 3 && p % 9 / 3 == q % 9 / 3
}

/// Two cell indices share a row, a column or a 3×3 box.
pub open spec fn related(p: int, q: int) -> bool {
    same_row(p, q) || same_col(p, q) || same_box(p, q)
}

/// A cell that holds `held` does not forbid `val` elsewhere in its unit.
pub open spec fn cell_allows(held: u32, val: u32) -> bool {
    held != val || held == EMPTY_NUM
}

/// No cell of `row` other than the one in column `col` holds `val`.
pub open spec fn row_allows(g: Seq<u32>, row: int, col: int, val: u32) -> bool {
    forall|i: int| 0 <= i < 9 && i != col ==> cell_allows(#[trigger] at(g, row, i), val)
}

/// No cell of column `col` other than the one in `row` holds `val`.
pub open spec fn col_allows(g: Seq<u32>, row: int, col: int, val: u32) -> bool {
    forall|j: int| 0 <= j < 9 && j != row ==> cell_allows(#[trigger] at(g, j, col), val)
}

/// No cell of the box around (`row`, `col`) other than that cell holds `val`.
pub open spec fn box_allows(g: Seq<u32>, row: int, col: int, val: u32) -> bool {
    forall|i: int, j: int|
        row / 3 * 3 <= i < row / 3 * 3 + 3 && col / 3 * 3 <= j < col / 3 * 3 + 3 && (i != row || j
            != col) ==> cell_allows(#[trigger] at(g, i, j), val)
}

/// Writing `val` at `pos` repeats no digit of another cell in the row, column
/// or box of `pos`.
pub open spec fn legal_at(g: Seq<u32>, pos: int, val: u32) -> bool {
    forall|q: int| 0 <= q < 81 && q != pos && related(pos, q) ==> cell_allows(#[trigger] g[q], val)
}

/// Every digit on the board is legal where it stands.
pub open spec fn consistent(g: Seq<u32>) -> bool {
    forall|p: int| 0 <= p < 81 && g[p] != EMPTY_NUM ==> legal_at(g, p, #[trigger] g[p])
}

/// Every cell holds a digit or is empty.
pub open spec fn in_range(g: Seq<u32>) -> bool {
    forall|p: int| 0 <= p < g.len() ==> #[trigger] g[p] <= 9
}

/// No cell of the board is empty.
pub open spec fn full(g: Seq<u32>) -> bool {
    forall|p: int| 0 <= p < 81 ==> #[trigger] g[p] != EMPTY_NUM
}

/// The row check looks at the cells that share the row of `pos`.
pub proof fn lemma_row_allows(g: Seq<u32>, pos: int, val: u32)
    requires
        g.len() == 81,
        0 <= pos < 81,
    ensures
        row_allows(g, pos / 9, pos % 9, val) <==> forall|q: int|
            0 <= q < 81 && q != pos && same_row(pos, q) ==> cell_allows(#[trigger] g[q], val),
{
    let row = pos / 9;
    let col = pos % 9;
    if row_allows(g, row, col, val) {
        assert forall|q: int| 0 <= q < 81 && q != pos && same_row(pos, q) implies cell_allows(
            #[trigger] g[q],
            val,
        ) by {
            let i = q % 9;
            assert(q == row * 9 + i);
            assert(cell_allows(at(g, row, i), val));
        }
    }
    if forall|q: int|
        0 <= q < 81 && q != pos && same_row(pos, q) ==> cell_allows(#[trigger] g[q], val) {
        assert forall|i: int| 0 <= i < 9 && i != col implies cell_allows(
            #[trigger] at(g, row, i),
            val,
        ) by {
            let q = row * 9 + i;
            assert(q / 9 == row && q % 9 == i);
            assert(cell_allows(g[q], val));
        }
    }
}

/// The column check looks at the cells that share the column of `pos`.
pub proof fn lemma_col_allows(g: Seq<u32>, pos: int, val: u32)
    requires
        g.len() == 81,
        0 <= pos < 81,
    ensures
        col_allows(g, pos / 9, pos % 9, val) <==> forall|q: int|
            0 <= q < 81 && q != pos && same_col(pos, q) ==> cell_allows(#[trigger] g[q], val),
{
    let row = pos / 9;
    let col = pos % 9;
    if col_allows(g, row, col, val) {
        assert forall|q: int| 0 <= q < 81 && q != pos && same_col(pos, q) implies cell_allows(
            #[trigger] g[q],
            val,
        ) by {
            let j = q / 9;
            assert(q == j * 9 + col);
            assert(cell_allows(at(g, j, col), val));
        }
    }
    if forall|q: int|
        0 <= q < 81 && q != pos && same_col(pos, q) ==> cell_allows(#[trigger] g[q], val) {
        assert forall|j: int| 0 <= j < 9 && j != row implies cell_allows(
            #[trigger] at(g, j, col),
            val,
        ) by {
            let q = j * 9 + col;
            assert(q / 9 == j && q % 9 == col);
            assert(cell_allows(g[q], val));
        }
    }
}

/// The box check looks at the cells that share the box of `pos`.
pub proof fn lemma_box_allows(g: Seq<u32>, pos: int, val: u32)
    requires
        g.len() == 81,
        0 <= pos < 81,
    ensures
        box_allows(g, pos / 9, pos % 9, val) <==> forall|q: int|
            0 <= q < 81 && q != pos && same_box(pos, q) ==> cell_allows(#[trigger] g[q], val),
{
    let row = pos / 9;
    let col = pos % 9;
    if box_allows(g, row, col, val) {
        assert forall|q: int| 0 <= q < 81 && q != pos && same_box(pos, q) implies cell_allows(
            #[trigger] g[q],
            val,
        ) by {
            let i = q / 9;
            let j = q % 9;
            assert(q == i * 9 + j);
            assert(row / 3 * 3 <= i < row / 3 * 3 + 3);
            assert(col / 3 * 3 <= j < col / 3 * 3 + 3);
            assert(cell_allows(at(g, i, j), val));
        }
    }
    if forall|q: int|
        0 <= q < 81 && q != pos && same_box(pos, q) ==> cell_allows(#[trigger] g[q], val) {
        assert forall|i: int, j: int|
            row / 3 * 3 <= i < row / 3 * 3 + 3 && col / 3 * 3 <= j < col / 3 * 3 + 3 && (i != row
                || j != col) implies cell_allows(#[trigger] at(g, i, j), val) by {
            let q = i * 9 + j;
            assert(q / 9 == i && q % 9 == j);
            assert(i / 3 == row / 3 && j / 3 == col / 3);
            assert(cell_allows(g[q], val));
        }
    }
}

/// The three unit checks together are the legality of a placement.
pub proof fn lemma_legal_by_units(g: Seq<u32>, pos: int, val: u32)
    requires
        g.len() == 81,
        0 <= pos < 81,
    ensures
        legal_at(g, pos, val) <==> row_allows(g, pos / 9, pos % 9, val) && col_allows(
            g,
            pos / 9,
            pos % 9,
            val,
        ) && box_allows(g, pos / 9, pos % 9, val),
{
    lemma_row_allows(g, pos, val);
    lemma_col_allows(g, pos, val);
    lemma_box_allows(g, pos, val);
}

/// A legal digit on a consistent board leaves the board consistent.
pub proof fn lemma_legal_keeps_consistent(g: Seq<u32>, cell: int, val: u32)
    requires
        g.len() == 81,
        0 <= cell < 81,
        consistent(g),
        legal_at(g, cell, val),
    ensures
        consistent(g.update(cell, val)),
{
    let h = g.update(cell, val);
    assert forall|p: int| 0 <= p < 81 && h[p] != EMPTY_NUM implies legal_at(
        h,
        p,
        #[trigger] h[p],
    ) by {
        assert forall|q: int| 0 <= q < 81 && q != p && related(p, q) implies cell_allows(
            #[trigger] h[q],
            h[p],
        ) by {
            if p == cell {
                assert(cell_allows(g[q], val));
            } else if q == cell {
                assert(related(cell, p));
                assert(cell_allows(g[p], val));
            } else {
                assert(legal_at(g, p, g[p]));
                assert(cell_allows(g[q], g[p]));
            }
        }
    }
}

/// No two related cells hold the same digit.
pub open spec fn no_repeat(g: Seq<u32>) -> bool {
    forall|p: int, q: int|
        0 <= p < 81 && 0 <= q < 81 && p != q && related(p, q) && g[p] != EMPTY_NUM ==> #[trigger] g[p]
            != #[trigger] g[q]
}

/// A board is consistent where no row, column or box holds a digit twice,
/// and only there.
pub proof fn lemma_consistent_iff_no_repeat(g: Seq<u32>)
    requires
        g.len() == 81,
    ensures
        consistent(g) <==> no_repeat(g),
{
    if consistent(g) {
        assert forall|p: int, q: int|
            0 <= p < 81 && 0 <= q < 81 && p != q && related(p, q) && g[p]
                != EMPTY_NUM implies #[trigger] g[p] != #[trigger] g[q] by {
            assert(legal_at(g, p, g[p]));
            assert(cell_allows(g[q], g[p]));
        }
    }
    if no_repeat(g) {
        assert forall|p: int| 0 <= p < 81 && g[p] != EMPTY_NUM implies legal_at(
            g,
            p,
            #[trigger] g[p],
        ) by {
            assert forall|q: int| 0 <= q < 81 && q != p && related(p, q) implies cell_allows(
                #[trigger] g[q],
                g[p],
            ) by {
                assert(g[p] != g[q]);
            }
        }
    }
}

/// A cell that takes the digit of a related cell holds an illegal digit, and
/// the board is no longer consistent.
pub proof fn lemma_duplicate_breaks_board(g: Seq<u32>, pos: int, peer: int)
    requires
        g.len() == 81,
        0 <= pos < 81,
        0 <= peer < 81,
        peer != pos,
        related(pos, peer),
        g[peer] != EMPTY_NUM,
    ensures
        !legal_at(g.update(pos, g[peer]), pos, g[peer]),
        !consistent(g.update(pos, g[peer])),
{
    let h = g.update(pos, g[peer]);
    assert(!cell_allows(h[peer], g[peer]));
    assert(h[pos] == g[peer]);
}

} // verus!
