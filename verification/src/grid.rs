use vstd::prelude::*;

verus! {

/// Index of cell `(x, y)` in a row-major grid with rows `pitch` cells apart.
pub open spec fn cell_index(x: int, y: int, pitch: int) -> int {
    y * pitch + x
}

/// A cell of an earlier row lies before the start of a later row.
pub proof fn lemma_row_before(yy: int, y: int, xx: int, pitch: int)
    requires
        0 <= yy < y,
        0 <= xx < pitch,
    ensures
        yy * pitch + xx < y * pitch,
{
    assert(yy * pitch + pitch <= y * pitch) by (nonlinear_arith)
        requires
            yy < y,
            pitch > 0,
    ;
}

/// The last cell of the last row lies inside the grid.
pub proof fn lemma_grid_bound(x: int, y: int, w: int, h: int)
    requires
        0 <= x < w,
        0 <= y < h,
    ensures
        y * w + x < w * h,
        (y + 1) * w == y * w + w,
        y * w + w <= w * h,
{
    assert(y * w + w <= w * h) by (nonlinear_arith)
        requires
            y < h,
            0 <= x < w,
    ;
    assert((y + 1) * w == y * w + w) by (nonlinear_arith);
}

} // verus!
