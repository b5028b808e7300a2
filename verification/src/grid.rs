//! Where the cell of a column and a row lies in a buffer that holds a grid
//! row after row.
use vstd::prelude::*;

verus! {

/// The place of column `x` of row `y` in a grid `width` wide.
pub open spec fn offset(x: int, y: int, width: int) -> int {
    y * width + x
}

/// Every cell of the grid has a place in the buffer.
pub proof fn lemma_offset_in_range(x: int, y: int, width: int, height: int)
    by (nonlinear_arith)
    requires
        0 <= x < width,
        0 <= y < height,
    ensures
        0 <= offset(x, y, width) < width * height,
        0 <= y * width <= offset(x, y, width),
{
}

/// Two different cells have different places.
pub proof fn lemma_offset_distinct(x1: int, y1: int, x2: int, y2: int, width: int)
    by (nonlinear_arith)
    requires
        0 <= x1 < width,
        0 <= x2 < width,
        0 <= y1,
        0 <= y2,
        x1 != x2 || y1 != y2,
    ensures
        offset(x1, y1, width) != offset(x2, y2, width),
{
}

} // verus!
