//! Flat tables over the cells of a plane: every cell has `depth` slots, and
//! the slots are numbered row by row.

use vstd::prelude::*;
use vstd::arithmetic::div_mod::lemma_fundamental_div_mod_converse;

verus! {

/// The number of slot `k` of the cell (`row`, `col`) on a plane of `cols`
/// columns.
pub open spec fn slot(cols: int, depth: int, row: int, col: int, k: int) -> int {
    (row * cols + col) * depth + k
}

/// The slot of a cell on the plane has a number below `rows * cols * depth`,
/// and the number tells the cell and the slot.
pub proof fn lemma_slot(rows: int, cols: int, depth: int, row: int, col: int, k: int)
    requires
        0 <= row < rows,
        0 <= col < cols,
        0 <= k < depth,
    ensures
        0 <= slot(cols, depth, row, col, k) < rows * cols * depth,
        0 <= row * cols + col < rows * cols,
        slot(cols, depth, row, col, k) % depth == k,
        slot(cols, depth, row, col, k) / depth == row * cols + col,
        (row * cols + col) / cols == row,
        (row * cols + col) % cols == col,
{
    let cell = row * cols + col;
    assert(0 <= cell < rows * cols) by (nonlinear_arith)
        requires
            0 <= row < rows,
            0 <= col < cols,
            cell == row * cols + col,
    ;
    assert(0 <= cell * depth + k < rows * cols * depth) by (nonlinear_arith)
        requires
            0 <= cell < rows * cols,
            0 <= k < depth,
    ;
    lemma_fundamental_div_mod_converse(slot(cols, depth, row, col, k), depth, cell, k);
    lemma_fundamental_div_mod_converse(cell, cols, row, col);
}

/// The number of slot `k` of the cell (`row`, `col`).
pub fn slot_of(rows: usize, cols: usize, depth: usize, row: usize, col: usize, k: usize) -> (at: usize)
    requires
        row < rows,
        col < cols,
        k < depth,
        rows * cols * depth <= usize::MAX,
    ensures
        at == slot(cols as int, depth as int, row as int, col as int, k as int),
        at < rows * cols * depth,
{
    proof {
        lemma_slot(rows as int, cols as int, depth as int, row as int, col as int, k as int);
        assert(rows * cols <= rows * cols * depth) by (nonlinear_arith)
            requires
                rows * cols >= 0,
                depth >= 1,
        ;
        assert(0 <= row * cols <= row * cols + col) by (nonlinear_arith)
            requires
                0 <= row,
                0 <= col,
                0 <= cols,
        ;
        assert((row * cols + col) * depth <= (row * cols + col) * depth + k);
        assert(0 <= (row * cols + col) * depth) by (nonlinear_arith)
            requires
                0 <= row * cols + col,
                0 <= depth,
        ;
    }
    (row * cols + col) * depth + k
}

/// `rows * cols * depth`, if that is no more than `usize::MAX`.
pub fn slot_count(rows: usize, cols: usize, depth: usize) -> (count: Option<usize>)
    ensures
        match count {
            Some(n) => n == rows * cols * depth,
            None => rows * cols * depth > usize::MAX,
        },
{
    proof {
        assert(rows * cols * depth >= 0) by (nonlinear_arith)
            requires
                rows >= 0,
                cols >= 0,
                depth >= 0,
        ;
    }
    match rows.checked_mul(cols) {
        None => {
            if depth == 0 {
                proof {
                    assert(rows * cols * depth == 0) by (nonlinear_arith)
                        requires
                            depth == 0,
                    ;
                }
                Some(0)
            } else {
                proof {
                    assert(rows * cols * depth >= rows * cols) by (nonlinear_arith)
                        requires
                            rows * cols >= 0,
                            depth >= 1,
                    ;
                }
                None
            }
        },
        Some(cells) => match cells.checked_mul(depth) {
            None => None,
            Some(n) => Some(n),
        },
    }
}

} // verus!
