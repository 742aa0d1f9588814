//! Index arithmetic of row-major grids.

use vstd::arithmetic::div_mod::lemma_fundamental_div_mod;
use vstd::arithmetic::div_mod::lemma_fundamental_div_mod_converse;
use vstd::prelude::*;

verus! {

/// The position of the cell in column `x` of row `y`.
pub open spec fn cell(width: int, x: int, y: int) -> int {
    y * width + x
}

/// A cell inside the grid has a position inside its row-major storage, from
/// which column and row can be read back.
pub proof fn lemma_cell(width: int, height: int, x: int, y: int)
    requires
        0 <= x < width,
        0 <= y < height,
    ensures
        0 <= cell(width, x, y) < width * height,
        cell(width, x, y) == y * width + x,
        cell(width, x, y) % width == x,
        cell(width, x, y) / width == y,
{
    assert(0 <= y * width) by (nonlinear_arith)
        requires
            0 <= y,
            0 < width,
    ;
    assert((y + 1) * width <= height * width) by (nonlinear_arith)
        requires
            y + 1 <= height,
            0 < width,
    ;
    assert((y + 1) * width == y * width + width) by (nonlinear_arith);
    assert(height * width == width * height) by (nonlinear_arith);
    lemma_fundamental_div_mod_converse(y * width + x, width, y, x);
}

/// A position inside the storage is the position of a cell inside the grid.
pub proof fn lemma_split(width: int, height: int, i: int)
    requires
        0 < width,
        0 <= i < width * height,
    ensures
        0 <= i % width < width,
        0 <= i / width < height,
        i == cell(width, i % width, i / width),
        i == (i / width) * width + i % width,
{
    lemma_fundamental_div_mod(i, width);
    let q = i / width;
    let r = i % width;
    assert(0 <= r < width);
    assert(width * q == q * width) by (nonlinear_arith);
    assert(q >= 0) by (nonlinear_arith)
        requires
            q * width + r >= 0,
            r < width,
            0 < width,
    ;
    assert(q < height) by (nonlinear_arith)
        requires
            q * width + r < width * height,
            0 <= r,
            0 < width,
    ;
}

/// Stepping one row down adds the width to the position.
pub proof fn lemma_row_below(width: int, x: int, y: int)
    ensures
        cell(width, x, y + 1) == cell(width, x, y) + width,
        cell(width, x, y - 1) == cell(width, x, y) - width,
{
    assert((y + 1) * width == y * width + width) by (nonlinear_arith);
    assert((y - 1) * width == y * width - width) by (nonlinear_arith);
}

} // verus!
