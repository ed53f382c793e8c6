use vstd::prelude::*;

verus! {

/// The character at row `row` and column `col` of an empty chart `h` rows
/// high: the vertical axis down the first column, the horizontal axis along
/// the last row, and their corner.
pub open spec fn frame_cell(h: int, row: int, col: int) -> char {
    if row == h - 1 && col == 0 {
        '└'
    } else if row == h - 1 {
        '─'
    } else if col == 0 {
        '│'
    } else {
        ' '
    }
}

/// An empty chart of `w` columns and `h` rows, row after row.
pub fn chart_frame(w: usize, h: usize) -> (r: Vec<char>)
    requires
        w >= 1,
        h >= 1,
        w * h <= usize::MAX,
    ensures
        r@.len() == w * h,
        forall|row: int, col: int|
            0 <= row < h && 0 <= col < w ==> #[trigger] r@[row * w + col] == frame_cell(h as int, row, col),
{
    let mut r: Vec<char> = Vec::new();
    let mut row: usize = 0;
    while row < h
        invariant
            row <= h,
            w * h <= usize::MAX,
            r@.len() == row * w,
            forall|i: int, j: int|
                0 <= i < row && 0 <= j < w ==> #[trigger] r@[i * w + j] == frame_cell(h as int, i, j),
        decreases h - row,
    {
        let mut col: usize = 0;
        let ghost start = r@;
        while col < w
            invariant
                row < h,
                col <= w,
                r@.len() == row * w + col,
                r@.subrange(0, row * w) == start.subrange(0, row * w),
                start.len() == row * w,
                forall|j: int| 0 <= j < col ==> #[trigger] r@[row * w + j] == frame_cell(h as int, row as int, j),
            decreases w - col,
        {
            let c = if row == h - 1 && col == 0 {
                '└'
            } else if row == h - 1 {
                '─'
            } else if col == 0 {
                '│'
            } else {
                ' '
            };
            r.push(c);
            col = col + 1;
        }
        proof {
            assert forall|i: int, j: int| 0 <= i <= row && 0 <= j < w implies #[trigger] r@[i * w + j]
                == frame_cell(h as int, i, j) by {
                if i < row {
                    assert(i * w + j < row * w) by (nonlinear_arith)
                        requires
                            0 <= i < row,
                            0 <= j < w,
                    ;
                    assert(r@[i * w + j] == r@.subrange(0, row * w)[i * w + j]);
                    assert(start[i * w + j] == start.subrange(0, row * w)[i * w + j]);
                }
            }
            assert((row + 1) * w == row * w + w) by (nonlinear_arith);
        }
        row = row + 1;
    }
    assert(r@.len() == w * h) by (nonlinear_arith)
        requires
            r@.len() == row * w,
            row == h,
    ;
    r
}

} // verus!
