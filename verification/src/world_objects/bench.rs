//! Layouts of the benchmark scenes.

use vstd::prelude::*;

verus! {

/// The cell `(column, row)` of the `i`-th body in a grid `cols` wide.
pub open spec fn grid_cell(i: int, cols: int) -> (u32, u32) {
    ((i % cols) as u32, (i / cols) as u32)
}

/// Cells of `count` bodies laid row by row in a grid `cols` wide (falling
/// spheres and the grid of chains).
pub fn grid_cells(count: u32, cols: u32) -> (r: Vec<(u32, u32)>)
    requires
        cols > 0 || count == 0,
    ensures
        r@.len() == count,
        forall|i: int| 0 <= i < count ==> #[trigger] r@[i] == grid_cell(i, cols as int),
{
    let mut out: Vec<(u32, u32)> = Vec::new();
    let mut i: u32 = 0;
    while i < count
        invariant
            i <= count,
            cols > 0 || count == 0,
            out@.len() == i,
            forall|q: int| 0 <= q < i ==> #[trigger] out@[q] == grid_cell(q, cols as int),
        decreases count - i,
    {
        out.push((i % cols, i / cols));
        i += 1;
    }
    out
}

/// The slot `(row, column, level)` of the `i`-th box: boxes fill a cube
/// `cols` wide level by level within a column, column by column within a row.
pub open spec fn stack_slot(i: int, cols: int) -> (u32, u32, u32) {
    ((i / cols / cols) as u32, ((i / cols) % cols) as u32, (i % cols) as u32)
}

/// How many boxes a cube `cols` wide takes of `count`.
pub open spec fn stacked_count(count: int, cols: int) -> int {
    if count < cols * cols * cols {
        count
    } else {
        cols * cols * cols
    }
}

/// The slots of the stacked boxes scene: at most `count` boxes, in a cube
/// `cols` wide.
pub fn stacked_box_slots(count: u32, cols: u32) -> (r: Vec<(u32, u32, u32)>)
    ensures
        r@.len() == stacked_count(count as int, cols as int),
        forall|i: int| 0 <= i < r@.len() ==> #[trigger] r@[i] == stack_slot(i, cols as int),
{
    let mut out: Vec<(u32, u32, u32)> = Vec::new();
    let mut spawned: u32 = 0;
    let mut row: u32 = 0;
    let ghost c = cols as int;
    while row < cols && spawned < count
        invariant
            row <= cols,
            c == cols as int,
            out@.len() == spawned,
            spawned <= count,
            spawned <= row * c * c,
            spawned == row * c * c || spawned == count,
            forall|q: int| 0 <= q < out@.len() ==> #[trigger] out@[q] == stack_slot(q, c),
        decreases cols - row,
    {
        let mut col: u32 = 0;
        while col < cols && spawned < count
            invariant
                row < cols,
                col <= cols,
                c == cols as int,
                out@.len() == spawned,
                spawned <= count,
                spawned <= row * c * c + col * c,
                spawned == row * c * c + col * c || spawned == count,
                forall|q: int| 0 <= q < out@.len() ==> #[trigger] out@[q] == stack_slot(q, c),
            decreases cols - col,
        {
            let mut stack: u32 = 0;
            while stack < cols && spawned < count
                invariant
                    row < cols,
                    col < cols,
                    stack <= cols,
                    c == cols as int,
                    out@.len() == spawned,
                    spawned <= count,
                    spawned <= row * c * c + col * c + stack,
                    spawned == row * c * c + col * c + stack || spawned == count,
                    forall|q: int| 0 <= q < out@.len() ==> #[trigger] out@[q] == stack_slot(q, c),
                decreases cols - stack,
            {
                proof {
                    lemma_stack_slot(row as int, col as int, stack as int, c);
                }
                out.push((row, col, stack));
                spawned += 1;
                stack += 1;
            }
            proof {
                assert(row * c * c + col * c + c == row * c * c + (col + 1) * c) by (nonlinear_arith);
                assert(row * c * c + col * c + stack <= row * c * c + (col + 1) * c) by (nonlinear_arith)
                    requires
                        stack <= c,
                ;
            }
            col += 1;
        }
        proof {
            assert(row * c * c + c * c == (row + 1) * c * c) by (nonlinear_arith);
            assert(row * c * c + col * c <= (row + 1) * c * c) by (nonlinear_arith)
                requires
                    col <= c,
                    0 <= c,
            ;
        }
        row += 1;
    }
    proof {
        if spawned as int == row * c * c && row == cols {
            assert(row * c * c == c * c * c);
        } else {
            assert(spawned == count);
            assert(row * c * c <= c * c * c) by (nonlinear_arith)
                requires
                    row <= c,
                    0 <= c,
            ;
        }
    }
    out
}

proof fn lemma_stack_slot(row: int, col: int, stack: int, c: int)
    requires
        0 <= row < c,
        0 <= col < c,
        0 <= stack < c,
    ensures
        stack_slot(row * c * c + col * c + stack, c) == (row as u32, col as u32, stack as u32),
{
    let i = row * c * c + col * c + stack;
    let q = row * c + col;
    assert(i == q * c + stack) by (nonlinear_arith)
        requires
            i == row * c * c + col * c + stack,
            q == row * c + col,
    ;
    vstd::arithmetic::div_mod::lemma_fundamental_div_mod_converse(i, c, q, stack);
    vstd::arithmetic::div_mod::lemma_fundamental_div_mod_converse(q, c, row, col);
}

} // verus!
