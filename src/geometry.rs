//! Index arithmetic of the 9x9 grid: rows, columns and 3x3 blocks.
use vstd::prelude::*;

verus! {

/// Block index of a position, blocks numbered row-major from the top left.
pub open spec fn block_of(r: int, c: int) -> int {
    3 * (r / 3) + c / 3
}

/// Top-left corner of block `b`.
pub fn block_to_board(b: usize) -> (r: (usize, usize))
    requires
        b < 9,
    ensures
        r.0 == 3 * (b / 3),
        r.1 == 3 * (b % 3),
        r.0 < 9 && r.1 < 9,
        block_of(r.0 as int, r.1 as int) == b,
{
    let r_conv = b / 3;
    let c_conv = b - r_conv * 3;
    let row = r_conv * 3;
    let col = c_conv * 3;
    (row, col)
}

/// Block index of the cell at row `r`, column `c`.
pub fn board_to_block(r: usize, c: usize) -> (b: usize)
    requires
        r < 9,
        c < 9,
    ensures
        b == block_of(r as int, c as int),
        b < 9,
{
    let r_conv = r / 3;
    let c_conv = c / 3;
    3 * r_conv + c_conv
}

} // verus!
