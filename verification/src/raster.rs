//! Packed pixels, and how their rows and columns are shared out among the cells of a smaller
//! image.

use vstd::prelude::*;

verus! {

/// The smaller of two numbers.
pub open spec fn smaller(a: int, b: int) -> int {
    if a < b {
        a
    } else {
        b
    }
}

/// The larger of two numbers.
pub open spec fn larger(a: int, b: int) -> int {
    if a < b {
        b
    } else {
        a
    }
}

/// Packed RGB pixels.
pub struct Pixels {
    /// Bytes.
    pub data: Seq<u8>,
    /// Pixels per row.
    pub width: int,
    /// Rows.
    pub height: int,
    /// Bytes from row to row.
    pub stride: int,
}

impl Pixels {
    /// Every pixel is there.
    pub open spec fn complete(self) -> bool {
        &&& self.width > 0
        &&& self.height > 0
        &&& self.stride >= 0
        &&& (self.height - 1) * self.stride + 3 * self.width <= self.data.len()
    }
}

/// First line of cell `i` when `extent` lines are shared out among `cells`.
pub open spec fn cell_from(i: int, extent: int, cells: int) -> int {
    (i * extent) / cells
}

/// End of the lines of cell `i`: at least one line.
pub open spec fn cell_to(i: int, extent: int, cells: int) -> int {
    smaller(larger(((i + 1) * extent) / cells, cell_from(i, extent, cells) + 1), extent)
}

/// How many of the lines from `a` to `b` are sampled.
pub open spec fn steps(a: int, b: int, step: int) -> int
    decreases larger(b - a, 0),
{
    if a >= b || step < 1 {
        0
    } else {
        1 + steps(a + step, b, step)
    }
}

/// The sum of channel `c` of the sampled pixels of a row that starts at byte `at`.
pub open spec fn row_sum(data: Seq<u8>, at: int, x: int, to: int, step: int, c: int) -> int
    decreases larger(to - x, 0),
{
    if x >= to || step < 1 {
        0
    } else {
        data[at + 3 * x + c] + row_sum(data, at, x + step, to, step, c)
    }
}

/// A sum of samples is at most all white.
pub proof fn lemma_row_sum(data: Seq<u8>, at: int, x: int, to: int, step: int, c: int)
    ensures
        0 <= row_sum(data, at, x, to, step, c) <= 255 * steps(x, to, step),
    decreases larger(to - x, 0),
{
    if x < to && step >= 1 {
        lemma_row_sum(data, at, x + step, to, step, c);
    }
}

/// The cells of an extent follow each other from its start to its end; each holds a pixel at
/// least, and where there are no more cells than pixels each starts where the one before it ends.
pub proof fn law_cells_share_out_the_extent(i: int, extent: int, cells: int)
    requires
        0 <= i < cells,
        extent > 0,
    ensures
        0 <= cell_from(i, extent, cells) < cell_to(i, extent, cells) <= extent,
        cell_from(0, extent, cells) == 0,
        cell_to(cells - 1, extent, cells) == extent,
        cells <= extent && i + 1 < cells ==> cell_to(i, extent, cells) == cell_from(
            i + 1,
            extent,
            cells,
        ),
{
    let a = (i * extent) / cells;
    let b = ((i + 1) * extent) / cells;
    assert(0 <= a < extent) by (nonlinear_arith)
        requires
            0 <= i < cells,
            extent > 0,
            a == (i * extent) / cells,
    {
        assert(0 <= i * extent < cells * extent);
    }
    assert(0 <= b <= extent) by (nonlinear_arith)
        requires
            0 <= i < cells,
            extent > 0,
            b == ((i + 1) * extent) / cells,
    {
        assert(0 <= (i + 1) * extent <= cells * extent);
    }
    assert((0 * extent) / cells == 0) by (nonlinear_arith)
        requires
            cells > 0,
    ;
    assert(((cells - 1 + 1) * extent) / cells == extent) by (nonlinear_arith)
        requires
            cells > 0,
    ;
    let last = ((cells - 1) * extent) / cells;
    assert(0 <= last < extent) by (nonlinear_arith)
        requires
            cells > 0,
            extent > 0,
            last == ((cells - 1) * extent) / cells,
    {
        assert(0 <= (cells - 1) * extent < cells * extent);
    }
    if cells <= extent && i + 1 < cells {
        assert(b >= a + 1) by (nonlinear_arith)
            requires
                0 <= i,
                0 < cells <= extent,
                a == (i * extent) / cells,
                b == ((i + 1) * extent) / cells,
        {
            assert((i + 1) * extent == i * extent + extent);
            assert((i * extent + cells) / cells == a + 1);
            assert((i * extent + extent) / cells >= (i * extent + cells) / cells);
        }
    }
}

/// The pixels of a row are added up one by one: every step takes the next, until the end.
pub proof fn law_rows_add_up(data: Seq<u8>, at: int, x: int, to: int, step: int, c: int, v: int)
    requires
        step >= 1,
        forall|k: int| x <= k < to ==> #[trigger] data[at + 3 * k + c] == v,
    ensures
        row_sum(data, at, x, to, step, c) == v * steps(x, to, step),
        x <= to && step == 1 ==> steps(x, to, step) == to - x,
        x < to ==> (steps(x, to, step) - 1) * step < to - x <= steps(x, to, step) * step,
        x < to ==> steps(x, to, step) >= 1,
    decreases larger(to - x, 0),
{
    if x < to {
        law_rows_add_up(data, at, x + step, to, step, c, v);
        assert(data[at + 3 * x + c] == v);
        let r = steps(x + step, to, step);
        assert(v * (1 + r) == v + v * r) by (nonlinear_arith);
        assert((1 + r) * step == step + r * step && (r - 1) * step + step == r * step)
            by (nonlinear_arith);
        if x + step >= to {
            assert(r == 0);
            assert(0 * step == 0);
        }
    } else {
        assert(v * 0 == 0);
    }
}

} // verus!
