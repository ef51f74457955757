//! Shot boundaries: colour histograms and edge maps of sampled frames, how far two frames are
//! apart, and a detector whose threshold follows the recent distances, so that slow motion does
//! not count as a cut while hard cuts do. A cut between two samples is placed at the second.
//!
//! Distances are whole billionths. Grey levels are exact multiples of one 36000th of a level:
//! a cell averages at most nine pixels, and the weights of the channels are thousandths.

use std::collections::VecDeque;

use vstd::prelude::*;

use crate::big::Big;
use crate::frame::{FrameBuffer, PixelFormat};
use crate::model::{Segment, SegmentLevel};
use crate::raster;
use crate::timestamp::Timestamp;
use crate::timestamp;

verus! {

/// Hue bins.
pub const H_BINS: usize = 8;

/// Saturation bins.
pub const S_BINS: usize = 4;

/// Value bins.
pub const V_BINS: usize = 4;

/// Histogram length.
pub const HIST_LEN: usize = 128;

/// Widest edge map.
pub const EDGE_W: usize = 96;

/// Highest edge map.
pub const EDGE_H_MAX: usize = 96;

/// One, as a distance.
pub const ONE: u64 = 1_000_000_000;

impl raster::Pixels {
    /// Width of the edge map.
    pub open spec fn cols(self) -> int {
        raster::larger(raster::smaller(96, self.width), 1)
    }

    /// Height of the edge map: the aspect ratio is kept up to a cap.
    pub open spec fn rows(self) -> int {
        raster::larger(raster::smaller((self.height * self.cols()) / self.width, 96), 1)
    }
}

/// The distance between sampled lines of a cell.
pub open spec fn cell_step(i: int, extent: int, cells: int) -> int {
    raster::larger((raster::cell_to(i, extent, cells) - raster::cell_from(i, extent, cells)) / 2, 1)
}

/// The sum of channel `c` over the sampled rows from `y` on of the cell in column `gx`.
pub open spec fn rows_sum(p: raster::Pixels, gx: int, y: int, to: int, step: int, c: int) -> int
    decreases raster::larger(to - y, 0),
{
    if y >= to || step < 1 {
        0
    } else {
        raster::row_sum(
            p.data,
            y * p.stride,
            raster::cell_from(gx, p.width, p.cols()),
            raster::cell_to(gx, p.width, p.cols()),
            cell_step(gx, p.width, p.cols()),
            c,
        ) + rows_sum(p, gx, y + step, to, step, c)
    }
}

/// The sum of channel `c` of the sampled pixels of a cell.
pub open spec fn cell_sum(p: raster::Pixels, gx: int, gy: int, c: int) -> int {
    rows_sum(
        p,
        gx,
        raster::cell_from(gy, p.height, p.rows()),
        raster::cell_to(gy, p.height, p.rows()),
        cell_step(gy, p.height, p.rows()),
        c,
    )
}

/// How many pixels of a cell are sampled.
pub open spec fn cell_count(p: raster::Pixels, gx: int, gy: int) -> int {
    raster::steps(
        raster::cell_from(gy, p.height, p.rows()),
        raster::cell_to(gy, p.height, p.rows()),
        cell_step(gy, p.height, p.rows()),
    ) * raster::steps(
        raster::cell_from(gx, p.width, p.cols()),
        raster::cell_to(gx, p.width, p.cols()),
        cell_step(gx, p.width, p.cols()),
    )
}

/// The grey level of a cell.
pub open spec fn cell_gray(p: raster::Pixels, i: int) -> int {
    let (gx, gy) = (i % p.cols(), i / p.cols());
    ((299 * cell_sum(p, gx, gy, 0) + 587 * cell_sum(p, gx, gy, 1) + 114 * cell_sum(p, gx, gy, 2))
        * 36) / cell_count(p, gx, gy)
}

/// Hue, saturation and value of a colour, without division: the hue is `60 * sextants / delta`
/// degrees, the saturation `delta / max` and the value `max`. Without `delta` the hue is zero.
#[derive(Clone, Copy, Debug, PartialEq, Eq, Structural)]
pub struct Hsv {
    /// Hue in sextants, times `delta`.
    pub sextants: u64,
    /// How far the strongest channel is above the weakest.
    pub delta: u64,
    /// The strongest channel.
    pub max: u64,
}

/// The hue, saturation and value of a colour.
pub open spec fn hsv_of(r: int, g: int, b: int) -> (int, int, int) {
    let max = raster::larger(raster::larger(r, g), b);
    let delta = max - raster::smaller(raster::smaller(r, g), b);
    let sextants = if delta == 0 {
        0
    } else if max == r {
        if g < b {
            g - b + 6 * delta
        } else {
            g - b
        }
    } else if max == g {
        b - r + 2 * delta
    } else {
        r - g + 4 * delta
    };
    (sextants, delta, max)
}

/// RGB to HSV, on any common scale of the channels.
pub fn rgb_to_hsv(r: u32, g: u32, b: u32) -> (h: Hsv)
    ensures
        (h.sextants as int, h.delta as int, h.max as int) == hsv_of(r as int, g as int, b as int),
{
    let mut max: u32 = r;
    if max < g {
        max = g;
    }
    if max < b {
        max = b;
    }
    let mut min: u32 = r;
    if g < min {
        min = g;
    }
    if b < min {
        min = b;
    }
    let delta: u64 = (max - min) as u64;
    let sextants: u64 = if delta == 0 {
        0
    } else if max == r {
        if g < b {
            g as u64 + 6 * delta - b as u64
        } else {
            (g - b) as u64
        }
    } else if max == g {
        b as u64 + 2 * delta - r as u64
    } else {
        r as u64 + 4 * delta - g as u64
    };
    Hsv { sextants, delta, max: max as u64 }
}

/// The histogram bin of a colour whose channels are sums over `count` pixels.
pub open spec fn bin_of(r: int, g: int, b: int, count: int) -> int {
    let (sextants, delta, max) = hsv_of(r, g, b);
    let hi = if delta == 0 {
        0
    } else {
        ((4 * sextants) / (3 * delta)) % 8
    };
    let si = if max == 0 {
        0
    } else {
        raster::smaller((4 * delta) / max, 3)
    };
    let vi = raster::smaller((4 * max) / (255 * count), 3);
    (hi * 4 + si) * 4 + vi
}

/// The bin of a cell.
pub open spec fn cell_bin(p: raster::Pixels, i: int) -> int {
    let (gx, gy) = (i % p.cols(), i / p.cols());
    bin_of(
        cell_sum(p, gx, gy, 0),
        cell_sum(p, gx, gy, 1),
        cell_sum(p, gx, gy, 2),
        cell_count(p, gx, gy),
    )
}

/// How many of the first `n` cells are in bin `k`.
pub open spec fn binned(p: raster::Pixels, n: int, k: int) -> int
    decreases n,
{
    if n <= 0 {
        0
    } else {
        binned(p, n - 1, k) + if cell_bin(p, n - 1) == k {
            1int
        } else {
            0int
        }
    }
}

/// The square of an edge's least gradient: 40 levels over four weights.
pub open spec fn edge_square() -> int {
    33_177_600_000_000
}

/// The gradient of a grey image from left to right.
pub open spec fn gradient_x(g: Seq<int>, w: int, i: int) -> int {
    g[i - w + 1] + 2 * g[i + 1] + g[i + w + 1] - g[i - w - 1] - 2 * g[i - 1] - g[i + w - 1]
}

/// The gradient of a grey image from top to bottom.
pub open spec fn gradient_y(g: Seq<int>, w: int, i: int) -> int {
    g[i + w - 1] + 2 * g[i + w] + g[i + w + 1] - g[i - w - 1] - 2 * g[i - w] - g[i - w + 1]
}

/// Whether a cell has neighbours on all sides.
pub open spec fn interior(w: int, h: int, i: int) -> bool {
    1 <= i % w < w - 1 && 1 <= i / w < h - 1
}

/// Whether a cell of a grey image is an edge.
pub open spec fn is_edge(g: Seq<int>, w: int, h: int, i: int) -> bool {
    interior(w, h, i) && gradient_x(g, w, i) * gradient_x(g, w, i) + gradient_y(g, w, i)
        * gradient_y(g, w, i) >= edge_square()
}

/// The grey image of a frame.
pub open spec fn gray_image(p: raster::Pixels) -> Seq<int> {
    Seq::new((p.cols() * p.rows()) as nat, |i: int| cell_gray(p, i))
}

/// The edge map of a frame.
pub open spec fn edge_map(p: raster::Pixels) -> Seq<bool> {
    Seq::new(
        (p.cols() * p.rows()) as nat,
        |i: int| is_edge(gray_image(p), p.cols(), p.rows(), i),
    )
}

/// How many of the first `n` marks are set.
pub open spec fn marks(e: Seq<bool>, n: int) -> int
    decreases n,
{
    if n <= 0 {
        0
    } else {
        marks(e, n - 1) + if e[n - 1] {
            1int
        } else {
            0int
        }
    }
}

/// What one frame contributes to the comparison.
#[derive(Debug)]
pub struct FrameSignature {
    /// How many cells are in each bin of the HSV histogram.
    pub hist: Vec<u32>,
    /// Edge map, row by row.
    pub edges: Vec<bool>,
    /// Edge map width.
    pub edge_w: usize,
    /// Edge map height.
    pub edge_h: usize,
    /// Number of edge cells.
    pub edge_count: usize,
}

/// A signature as mathematics.
#[verifier::ext_equal]
pub struct Signature {
    /// Histogram.
    pub hist: Seq<int>,
    /// Edge map.
    pub edges: Seq<bool>,
    /// Width.
    pub w: int,
    /// Height.
    pub h: int,
}

impl View for FrameSignature {
    type V = Signature;

    open spec fn view(&self) -> Signature {
        Signature {
            hist: self.hist@.map_values(|c: u32| c as int),
            edges: self.edges@,
            w: self.edge_w as int,
            h: self.edge_h as int,
        }
    }
}

/// The total of the first `n` bins.
pub open spec fn total(h: Seq<int>, n: int) -> int
    decreases n,
{
    if n <= 0 {
        0
    } else {
        total(h, n - 1) + h[n - 1]
    }
}

impl Signature {
    /// Sizes fit and every cell is in one bin.
    pub open spec fn wf(self) -> bool {
        &&& 1 <= self.w <= 96
        &&& 1 <= self.h <= 96
        &&& self.hist.len() == 128
        &&& forall|k: int| 0 <= k < 128 ==> 0 <= #[trigger] self.hist[k]
        &&& total(self.hist, 128) == self.w * self.h
        &&& self.edges.len() == self.w * self.h
    }
}

impl FrameSignature {
    /// The signature is whole, and the edges are counted.
    pub open spec fn wf(self) -> bool {
        &&& self@.wf()
        &&& self.edge_count == marks(self.edges@, self.edges@.len() as int)
    }
}

/// The signature of a frame.
pub open spec fn signature_of(p: raster::Pixels) -> Signature {
    Signature {
        hist: Seq::new(128, |k: int| binned(p, p.cols() * p.rows(), k)),
        edges: edge_map(p),
        w: p.cols(),
        h: p.rows(),
    }
}


proof fn lemma_cell(i: int, extent: int, cells: int)
    requires
        0 <= i < cells,
        extent > 0,
    ensures
        0 <= raster::cell_from(i, extent, cells) < raster::cell_to(i, extent, cells) <= extent,
        1 <= raster::steps(
            raster::cell_from(i, extent, cells),
            raster::cell_to(i, extent, cells),
            cell_step(i, extent, cells),
        ) <= 3,
{
    assert(0 <= (i * extent) / cells < extent) by (nonlinear_arith)
        requires
            0 <= i < cells,
            extent > 0,
    ;
    reveal_with_fuel(raster::steps, 5);
}

proof fn lemma_shape(p: raster::Pixels)
    requires
        p.complete(),
    ensures
        1 <= p.cols() <= 96,
        1 <= p.rows() <= 96,
        1 <= p.cols() * p.rows() <= 9216,
{
    let (w, h) = (p.cols(), p.rows());
    assert(1 <= w * h <= 9216) by (nonlinear_arith)
        requires
            1 <= w <= 96,
            1 <= h <= 96,
    ;
}

fn cell_bounds(i: usize, extent: usize, cells: usize) -> (r: (usize, usize, usize))
    requires
        i < cells <= 96,
        extent > 0,
        extent * 96 <= usize::MAX,
    ensures
        r.0 == raster::cell_from(i as int, extent as int, cells as int),
        r.1 == raster::cell_to(i as int, extent as int, cells as int),
        r.2 == cell_step(i as int, extent as int, cells as int),
        r.0 < r.1 <= extent,
        r.2 >= 1,
        1 <= raster::steps(r.0 as int, r.1 as int, r.2 as int) <= 3,
{
    proof {
        lemma_cell(i as int, extent as int, cells as int);
        assert(i * extent <= extent * 96) by (nonlinear_arith)
            requires
                0 <= i <= 96,
                0 <= extent,
        ;
        assert((i + 1) * extent <= extent * 96) by (nonlinear_arith)
            requires
                0 <= i < 96,
                0 <= extent,
        ;
        assert(0 <= ((i + 1) * extent) / cells as int) by (nonlinear_arith)
            requires
                0 <= i,
                0 <= extent,
                0 < cells,
        ;
    }
    let from: usize = (i * extent) / cells;
    let mut to: usize = ((i + 1) * extent) / cells;
    if to < from + 1 {
        to = from + 1;
    }
    if extent < to {
        to = extent;
    }
    let mut step: usize = (to - from) / 2;
    if step < 1 {
        step = 1;
    }
    (from, to, step)
}

fn sum_row(data: &[u8], at: usize, from: usize, to: usize, step: usize) -> (r: (u32, u32, u32))
    requires
        from <= to,
        step >= 1,
        at + 3 * to <= data@.len(),
        raster::steps(from as int, to as int, step as int) <= 3,
    ensures
        r.0 == raster::row_sum(data@, at as int, from as int, to as int, step as int, 0),
        r.1 == raster::row_sum(data@, at as int, from as int, to as int, step as int, 1),
        r.2 == raster::row_sum(data@, at as int, from as int, to as int, step as int, 2),
        r.0 <= 765,
        r.1 <= 765,
        r.2 <= 765,
{
    let n: usize = data.len();
    let mut red: u32 = 0;
    let mut green: u32 = 0;
    let mut blue: u32 = 0;
    let mut x: usize = from;
    proof {
        raster::lemma_row_sum(data@, at as int, from as int, to as int, step as int, 0);
        raster::lemma_row_sum(data@, at as int, from as int, to as int, step as int, 1);
        raster::lemma_row_sum(data@, at as int, from as int, to as int, step as int, 2);
    }
    while x < to
        invariant
            n == data@.len(),
            step >= 1,
            at + 3 * to <= data@.len(),
            red + raster::row_sum(data@, at as int, x as int, to as int, step as int, 0) == raster::row_sum(
                data@,
                at as int,
                from as int,
                to as int,
                step as int,
                0,
            ) <= 765,
            green + raster::row_sum(data@, at as int, x as int, to as int, step as int, 1) == raster::row_sum(
                data@,
                at as int,
                from as int,
                to as int,
                step as int,
                1,
            ) <= 765,
            blue + raster::row_sum(data@, at as int, x as int, to as int, step as int, 2) == raster::row_sum(
                data@,
                at as int,
                from as int,
                to as int,
                step as int,
                2,
            ) <= 765,
        decreases to - x,
    {
        proof {
            raster::lemma_row_sum(data@, at as int, x + step, to as int, step as int, 0);
            raster::lemma_row_sum(data@, at as int, x + step, to as int, step as int, 1);
            raster::lemma_row_sum(data@, at as int, x + step, to as int, step as int, 2);
        }
        red = red + data[at + 3 * x] as u32;
        green = green + data[at + 3 * x + 1] as u32;
        blue = blue + data[at + 3 * x + 2] as u32;
        if step < to - x {
            x = x + step;
        } else {
            proof {
                assert(raster::row_sum(data@, at as int, x + step, to as int, step as int, 0) == 0);
                assert(raster::row_sum(data@, at as int, x + step, to as int, step as int, 1) == 0);
                assert(raster::row_sum(data@, at as int, x + step, to as int, step as int, 2) == 0);
            }
            x = to;
        }
    }
    (red, green, blue)
}

fn count_steps(a: usize, b: usize, step: usize) -> (r: u32)
    requires
        a <= b,
        step >= 1,
        raster::steps(a as int, b as int, step as int) <= 3,
    ensures
        r == raster::steps(a as int, b as int, step as int),
{
    let mut n: u32 = 0;
    let mut x: usize = a;
    proof {
        lemma_steps(a as int, b as int, step as int);
    }
    while x < b
        invariant
            step >= 1,
            n + raster::steps(x as int, b as int, step as int) == raster::steps(a as int, b as int, step as int)
                <= 3,
        decreases b - x,
    {
        proof {
            lemma_steps(x + step, b as int, step as int);
        }
        n = n + 1;
        if step < b - x {
            x = x + step;
        } else {
            x = b;
        }
    }
    n
}

proof fn lemma_steps(a: int, b: int, step: int)
    ensures
        raster::steps(a, b, step) >= 0,
    decreases raster::larger(b - a, 0),
{
    if a < b && step >= 1 {
        lemma_steps(a + step, b, step);
    }
}

proof fn lemma_rows_sum(p: raster::Pixels, gx: int, y: int, to: int, step: int, c: int)
    requires
        raster::steps(
            raster::cell_from(gx, p.width, p.cols()),
            raster::cell_to(gx, p.width, p.cols()),
            cell_step(gx, p.width, p.cols()),
        ) <= 3,
    ensures
        0 <= rows_sum(p, gx, y, to, step, c) <= 765 * raster::steps(y, to, step),
    decreases raster::larger(to - y, 0),
{
    if y < to && step >= 1 {
        lemma_rows_sum(p, gx, y + step, to, step, c);
        raster::lemma_row_sum(
            p.data,
            y * p.stride,
            raster::cell_from(gx, p.width, p.cols()),
            raster::cell_to(gx, p.width, p.cols()),
            cell_step(gx, p.width, p.cols()),
            c,
        );
    }
}

/// What is read of one cell: the channels' sums and the number of pixels.
struct Cell {
    r: u32,
    g: u32,
    b: u32,
    count: u32,
}

/// A cell that was read.
spec fn is_cell(c: Cell, p: raster::Pixels, gx: int, gy: int) -> bool {
    &&& c.r == cell_sum(p, gx, gy, 0)
    &&& c.g == cell_sum(p, gx, gy, 1)
    &&& c.b == cell_sum(p, gx, gy, 2)
    &&& c.count == cell_count(p, gx, gy)
    &&& c.r <= 2295
    &&& c.g <= 2295
    &&& c.b <= 2295
    &&& 1 <= c.count <= 9
}

fn read_cell(
    data: &[u8],
    stride: usize,
    xs: (usize, usize, usize),
    ys: (usize, usize, usize),
    Ghost(p): Ghost<raster::Pixels>,
    Ghost(gx): Ghost<int>,
    Ghost(gy): Ghost<int>,
) -> (c: Cell)
    requires
        p.complete(),
        p.data == data@,
        p.stride == stride,
        0 <= gx < p.cols(),
        0 <= gy < p.rows(),
        xs.0 == raster::cell_from(gx, p.width, p.cols()),
        xs.1 == raster::cell_to(gx, p.width, p.cols()),
        xs.2 == cell_step(gx, p.width, p.cols()),
        ys.0 == raster::cell_from(gy, p.height, p.rows()),
        ys.1 == raster::cell_to(gy, p.height, p.rows()),
        ys.2 == cell_step(gy, p.height, p.rows()),
    ensures
        is_cell(c, p, gx, gy),
{
    proof {
        lemma_cell(gx, p.width, p.cols());
        lemma_cell(gy, p.height, p.rows());
        lemma_rows_sum(p, gx, ys.0 as int, ys.1 as int, ys.2 as int, 0);
        lemma_rows_sum(p, gx, ys.0 as int, ys.1 as int, ys.2 as int, 1);
        lemma_rows_sum(p, gx, ys.0 as int, ys.1 as int, ys.2 as int, 2);
    }
    let mut r: u32 = 0;
    let mut g: u32 = 0;
    let mut b: u32 = 0;
    let mut y: usize = ys.0;
    let n: usize = data.len();
    while y < ys.1
        invariant
            n == data@.len(),
            p.complete(),
            p.data == data@,
            p.stride == stride,
            0 <= gx < p.cols(),
            xs.0 == raster::cell_from(gx, p.width, p.cols()),
            xs.1 == raster::cell_to(gx, p.width, p.cols()),
            xs.2 == cell_step(gx, p.width, p.cols()),
            xs.0 < xs.1 <= p.width,
            raster::steps(xs.0 as int, xs.1 as int, xs.2 as int) <= 3,
            ys.0 <= y <= ys.1 <= p.height,
            ys.2 >= 1,
            r + rows_sum(p, gx, y as int, ys.1 as int, ys.2 as int, 0) == rows_sum(
                p,
                gx,
                ys.0 as int,
                ys.1 as int,
                ys.2 as int,
                0,
            ) <= 2295,
            g + rows_sum(p, gx, y as int, ys.1 as int, ys.2 as int, 1) == rows_sum(
                p,
                gx,
                ys.0 as int,
                ys.1 as int,
                ys.2 as int,
                1,
            ) <= 2295,
            b + rows_sum(p, gx, y as int, ys.1 as int, ys.2 as int, 2) == rows_sum(
                p,
                gx,
                ys.0 as int,
                ys.1 as int,
                ys.2 as int,
                2,
            ) <= 2295,
        decreases ys.1 - y,
    {
        proof {
            let h = p.height;
            assert(0 <= y * stride <= (h - 1) * stride) by (nonlinear_arith)
                requires
                    0 <= y <= h - 1,
                    0 <= stride,
            ;
            lemma_rows_sum(p, gx, y + ys.2, ys.1 as int, ys.2 as int, 0);
            lemma_rows_sum(p, gx, y + ys.2, ys.1 as int, ys.2 as int, 1);
            lemma_rows_sum(p, gx, y + ys.2, ys.1 as int, ys.2 as int, 2);
        }
        let s = sum_row(data, y * stride, xs.0, xs.1, xs.2);
        r = r + s.0;
        g = g + s.1;
        b = b + s.2;
        if ys.2 < ys.1 - y {
            y = y + ys.2;
        } else {
            y = ys.1;
        }
    }
    let rows: u32 = count_steps(ys.0, ys.1, ys.2);
    let cols: u32 = count_steps(xs.0, xs.1, xs.2);
    proof {
        assert(1 <= rows * cols <= 9) by (nonlinear_arith)
            requires
                1 <= rows <= 3,
                1 <= cols <= 3,
        ;
    }
    Cell { r, g, b, count: rows * cols }
}

proof fn lemma_bin(r: int, g: int, b: int, count: int)
    requires
        0 <= r,
        0 <= g,
        0 <= b,
        count > 0,
    ensures
        0 <= bin_of(r, g, b, count) < 128,
{
    let (sextants, delta, max) = hsv_of(r, g, b);
    if max > 0 {
        assert(0 <= (4 * delta) / max) by (nonlinear_arith)
            requires
                0 <= delta,
                0 < max,
        ;
    }
    assert(0 <= (4 * max) / (255 * count)) by (nonlinear_arith)
        requires
            0 <= max,
            0 < count,
    ;
}

fn find_bin(c: &Cell) -> (k: usize)
    requires
        c.r <= 2295,
        c.g <= 2295,
        c.b <= 2295,
        1 <= c.count <= 9,
    ensures
        k == bin_of(c.r as int, c.g as int, c.b as int, c.count as int),
        k < 128,
{
    proof {
        lemma_bin(c.r as int, c.g as int, c.b as int, c.count as int);
    }
    let hsv = rgb_to_hsv(c.r, c.g, c.b);
    let hi: u64 = if hsv.delta == 0 {
        0
    } else {
        ((4 * hsv.sextants) / (3 * hsv.delta)) % 8
    };
    let mut si: u64 = 0;
    if hsv.max > 0 {
        si = (4 * hsv.delta) / hsv.max;
        if si > 3 {
            si = 3;
        }
    }
    let mut vi: u64 = (4 * hsv.max) / (255 * (c.count as u64));
    if vi > 3 {
        vi = 3;
    }
    ((hi * 4 + si) * 4 + vi) as usize
}

proof fn lemma_place(i: int, w: int, h: int)
    requires
        0 <= i < w * h,
        w > 0,
    ensures
        0 <= i % w < w,
        0 <= i / w < h,
        i == (i / w) * w + i % w,
{
    assert(0 <= i / w < h && i == (i / w) * w + i % w && 0 <= i % w < w) by (nonlinear_arith)
        requires
            0 <= i < w * h,
            w > 0,
    ;
}

proof fn lemma_interior(i: int, w: int, h: int)
    requires
        0 <= i < w * h,
        w > 0,
        interior(w, h, i),
    ensures
        i - w - 1 >= 0,
        i + w + 1 < w * h,
{
    lemma_place(i, w, h);
    let (x, y) = (i % w, i / w);
    assert((y - 1) * w + (x - 1) >= 0) by (nonlinear_arith)
        requires
            1 <= x,
            1 <= y,
            0 < w,
    ;
    assert((y - 1) * w == y * w - w) by (nonlinear_arith);
    assert((y + 1) * w + (x + 1) < w * h) by (nonlinear_arith)
        requires
            x < w - 1,
            y < h - 1,
            0 < w,
            0 <= x,
    ;
    assert((y + 1) * w == y * w + w) by (nonlinear_arith);
}

fn find_edges(gray: &Vec<i64>, w: usize, h: usize) -> (r: (Vec<bool>, usize))
    requires
        1 <= w <= 96,
        1 <= h <= 96,
        gray@.len() == w * h,
        forall|i: int| 0 <= i < gray@.len() ==> 0 <= #[trigger] gray@[i] <= 82_620_000,
    ensures
        r.0@ == Seq::new(
            (w * h) as nat,
            |i: int| is_edge(gray@.map_values(|g: i64| g as int), w as int, h as int, i),
        ),
        r.1 == marks(r.0@, r.0@.len() as int),
{
    let ghost g = gray@.map_values(|g: i64| g as int);
    let n: usize = gray.len();
    let mut edges: Vec<bool> = Vec::new();
    let mut count: usize = 0;
    let mut i: usize = 0;
    while i < n
        invariant
            1 <= w <= 96,
            1 <= h <= 96,
            i <= n == gray@.len() == w * h,
            g == gray@.map_values(|g: i64| g as int),
            forall|i: int| 0 <= i < gray@.len() ==> 0 <= #[trigger] gray@[i] <= 82_620_000,
            edges@.len() == i,
            forall|j: int| 0 <= j < i ==> edges@[j] == #[trigger] is_edge(g, w as int, h as int, j),
            count == marks(edges@, i as int),
            count <= i,
        decreases n - i,
    {
        let x: usize = i % w;
        let y: usize = i / w;
        let mut edge: bool = false;
        proof {
            lemma_place(i as int, w as int, h as int);
        }
        if x >= 1 && x < w - 1 && y >= 1 && y < h - 1 {
            proof {
                lemma_interior(i as int, w as int, h as int);
            }
            let nw: i64 = gray[i - w - 1];
            let no: i64 = gray[i - w];
            let ne: i64 = gray[i - w + 1];
            let we: i64 = gray[i - 1];
            let ea: i64 = gray[i + 1];
            let sw: i64 = gray[i + w - 1];
            let so: i64 = gray[i + w];
            let se: i64 = gray[i + w + 1];
            let gx: i64 = ne + 2 * ea + se - nw - 2 * we - sw;
            let gy: i64 = sw + 2 * so + se - nw - 2 * no - ne;
            proof {
                assert(gx == gradient_x(g, w as int, i as int));
                assert(gy == gradient_y(g, w as int, i as int));
                assert(0 <= gx * gx <= 330_480_000 * 330_480_000) by (nonlinear_arith)
                    requires
                        -330_480_000 <= gx <= 330_480_000,
                ;
                assert(0 <= gy * gy <= 330_480_000 * 330_480_000) by (nonlinear_arith)
                    requires
                        -330_480_000 <= gy <= 330_480_000,
                ;
            }
            edge = gx * gx + gy * gy >= 33_177_600_000_000;
        }
        let ghost before = edges@;
        edges.push(edge);
        proof {
            lemma_marks_of(before, edges@, i as int);
        }
        if edge {
            count = count + 1;
        }
        i = i + 1;
    }
    proof {
        assert(edges@ =~= Seq::new(
            (w * h) as nat,
            |i: int| is_edge(gray@.map_values(|g: i64| g as int), w as int, h as int, i),
        ));
    }
    (edges, count)
}

proof fn lemma_marks_of(a: Seq<bool>, b: Seq<bool>, n: int)
    requires
        n <= a.len(),
        n <= b.len(),
        forall|i: int| 0 <= i < n ==> a[i] == b[i],
    ensures
        marks(a, n) == marks(b, n),
    decreases n,
{
    if n > 0 {
        lemma_marks_of(a, b, n - 1);
    }
}

proof fn lemma_binned(p: raster::Pixels, n: int, m: int)
    requires
        0 <= n <= p.cols() * p.rows(),
        p.complete(),
        0 <= m <= 128,
    ensures
        forall|k: int| 0 <= #[trigger] binned(p, n, k) <= n,
        total(Seq::new(128, |k: int| binned(p, n, k)), m) <= n,
        m == 128 ==> total(Seq::new(128, |k: int| binned(p, n, k)), m) == n,
    decreases n,
{
    if n > 0 {
        lemma_binned(p, n - 1, m);
        let i = n - 1;
        lemma_place(i, p.cols(), p.rows());
        lemma_cell_sums(p, i % p.cols(), i / p.cols());
        lemma_bin(
            cell_sum(p, i % p.cols(), i / p.cols(), 0),
            cell_sum(p, i % p.cols(), i / p.cols(), 1),
            cell_sum(p, i % p.cols(), i / p.cols(), 2),
            cell_count(p, i % p.cols(), i / p.cols()),
        );
        lemma_total_step(p, n, m);
        assert forall|k: int| 0 <= #[trigger] binned(p, n, k) <= n by {
            assert(0 <= binned(p, n - 1, k) <= n - 1);
        }
    } else {
        lemma_total_zero(p, m);
    }
}

proof fn lemma_total_zero(p: raster::Pixels, m: int)
    requires
        0 <= m <= 128,
    ensures
        total(Seq::new(128, |k: int| binned(p, 0, k)), m) == 0,
    decreases m,
{
    if m > 0 {
        lemma_total_zero(p, m - 1);
    }
}

proof fn lemma_total_step(p: raster::Pixels, n: int, m: int)
    requires
        n > 0,
        0 <= m <= 128,
    ensures
        total(Seq::new(128, |k: int| binned(p, n, k)), m) == total(
            Seq::new(128, |k: int| binned(p, n - 1, k)),
            m,
        ) + if 0 <= cell_bin(p, n - 1) < m {
            1int
        } else {
            0int
        },
    decreases m,
{
    if m > 0 {
        lemma_total_step(p, n, m - 1);
    }
}

proof fn lemma_cell_sums(p: raster::Pixels, gx: int, gy: int)
    requires
        p.complete(),
        0 <= gx < p.cols(),
        0 <= gy < p.rows(),
    ensures
        0 <= cell_sum(p, gx, gy, 0) <= 2295,
        0 <= cell_sum(p, gx, gy, 1) <= 2295,
        0 <= cell_sum(p, gx, gy, 2) <= 2295,
        1 <= cell_count(p, gx, gy) <= 9,
{
    lemma_cell(gx, p.width, p.cols());
    lemma_cell(gy, p.height, p.rows());
    let (y, to, step) = (
        raster::cell_from(gy, p.height, p.rows()),
        raster::cell_to(gy, p.height, p.rows()),
        cell_step(gy, p.height, p.rows()),
    );
    lemma_rows_sum(p, gx, y, to, step, 0);
    lemma_rows_sum(p, gx, y, to, step, 1);
    lemma_rows_sum(p, gx, y, to, step, 2);
    let a = raster::steps(y, to, step);
    let b = raster::steps(
        raster::cell_from(gx, p.width, p.cols()),
        raster::cell_to(gx, p.width, p.cols()),
        cell_step(gx, p.width, p.cols()),
    );
    assert(1 <= a * b <= 9) by (nonlinear_arith)
        requires
            1 <= a <= 3,
            1 <= b <= 3,
    ;
}

impl FrameSignature {
    /// Signature of packed RGB pixels.
    pub fn from_rgb(data: &[u8], width: usize, height: usize, stride: usize) -> (r: FrameSignature)
        requires
            width > 0,
            height > 0,
            (height - 1) * stride + 3 * width <= data@.len(),
            width * 96 <= usize::MAX,
            height * 96 <= usize::MAX,
        ensures
            r.wf(),
            r@ == signature_of(
                raster::Pixels {
                    data: data@,
                    width: width as int,
                    height: height as int,
                    stride: stride as int,
                },
            ),
    {
        let ghost p = raster::Pixels {
            data: data@,
            width: width as int,
            height: height as int,
            stride: stride as int,
        };
        proof {
            lemma_shape(p);
        }
        let w: usize = if width < 96 {
            width
        } else {
            96
        };
        proof {
            assert(height * w <= height * 96) by (nonlinear_arith)
                requires
                    0 <= w <= 96,
                    0 <= height,
            ;
        }
        let mut h: usize = (height * w) / width;
        if h > 96 {
            h = 96;
        }
        if h < 1 {
            h = 1;
        }
        proof {
            assert(w == p.cols() && h == p.rows());
        }
        let n: usize = w * h;
        let mut hist: Vec<u32> = Vec::new();
        while hist.len() < 128
            invariant
                hist@.len() <= 128,
                forall|k: int| 0 <= k < hist@.len() ==> #[trigger] hist@[k] == binned(p, 0, k),
            decreases 128 - hist@.len(),
        {
            hist.push(0);
        }
        let mut gray: Vec<i64> = Vec::new();
        let mut i: usize = 0;
        while i < n
            invariant
                p == (raster::Pixels {
                    data: data@,
                    width: width as int,
                    height: height as int,
                    stride: stride as int,
                }),
                p.complete(),
                width * 96 <= usize::MAX,
                height * 96 <= usize::MAX,
                w == p.cols(),
                h == p.rows(),
                1 <= w <= 96,
                1 <= h <= 96,
                i <= n == w * h,
                n <= 9216,
                hist@.len() == 128,
                gray@.len() == i,
                forall|j: int|
                    0 <= j < i ==> #[trigger] gray@[j] == cell_gray(p, j) && 0 <= gray@[j]
                        <= 82_620_000,
                forall|k: int|
                    0 <= k < 128 ==> #[trigger] hist@[k] == binned(p, i as int, k) && hist@[k]
                        <= i,
            decreases n - i,
        {
            proof {
                lemma_place(i as int, w as int, h as int);
            }
            let gx: usize = i % w;
            let gy: usize = i / w;
            let xs = cell_bounds(gx, width, w);
            let ys = cell_bounds(gy, height, h);
            let c = read_cell(data, stride, xs, ys, Ghost(p), Ghost(gx as int), Ghost(gy as int));
            let luma: i64 = (299 * (c.r as i64) + 587 * (c.g as i64) + 114 * (c.b as i64)) * 36;
            let level: i64 = luma / (c.count as i64);
            proof {
                let (l, k) = (luma as int, c.count as int);
                assert(0 <= l / k <= l) by (nonlinear_arith)
                    requires
                        0 <= l,
                        1 <= k,
                ;
                assert(level == cell_gray(p, i as int));
            }
            gray.push(level);
            let k: usize = find_bin(&c);
            proof {
                assert(k == cell_bin(p, i as int));
            }
            let ghost before = hist@;
            let old_count: u32 = hist[k];
            hist.set(k, old_count + 1);
            proof {
                assert forall|j: int| 0 <= j < 128 implies #[trigger] hist@[j] == binned(
                    p,
                    i + 1,
                    j,
                ) && hist@[j] <= i + 1 by {
                    assert(before[j] == binned(p, i as int, j));
                }
            }
            i = i + 1;
        }
        let (edges, edge_count) = find_edges(&gray, w, h);
        proof {
            assert(gray@.map_values(|g: i64| g as int) =~= gray_image(p));
            lemma_binned(p, n as int, 128);
        }
        let r = FrameSignature { hist, edges, edge_w: w, edge_h: h, edge_count };
        proof {
            assert(r@.edges =~= edge_map(p));
            assert(r@.hist =~= signature_of(p).hist);
            assert(r@.hist =~= Seq::new(128, |k: int| binned(p, n as int, k)));
            assert(r@ =~= signature_of(p));
        }
        r
    }

    /// Signature of an RGB24 frame; none for other formats or empty frames.
    pub fn from_frame(frame: &FrameBuffer) -> (r: Option<FrameSignature>)
        requires
            frame.wf(),
            frame.spec_meta().width * 96 <= usize::MAX,
            frame.spec_meta().height * 96 <= usize::MAX,
        ensures
            r is Some <==> frame.spec_meta().format == PixelFormat::Rgb24
                && frame.spec_meta().width > 0 && frame.spec_meta().height > 0,
            r matches Some(s) ==> s.wf() && s@ == signature_of(
                raster::Pixels {
                    data: frame.spec_data(),
                    width: frame.spec_meta().width as int,
                    height: frame.spec_meta().height as int,
                    stride: frame.spec_meta().stride as int,
                },
            ),
    {
        let m = frame.meta();
        if m.format != PixelFormat::Rgb24 || m.width == 0 || m.height == 0 {
            return None;
        }
        proof {
            let (h, stride) = (m.height as int, m.stride as int);
            assert((h - 1) * stride + stride == stride * h) by (nonlinear_arith);
        }
        Some(
            FrameSignature::from_rgb(frame.data(), m.width as usize, m.height as usize, m.stride),
        )
    }
}

/// What two histograms share, over the common denominator `n * m` of cells.
pub open spec fn shared(a: Seq<int>, n: int, b: Seq<int>, m: int, k: int) -> int
    decreases k,
{
    if k <= 0 {
        0
    } else {
        shared(a, n, b, m, k - 1) + raster::smaller(a[k - 1] * m, b[k - 1] * n)
    }
}

/// One minus the histogram intersection.
pub open spec fn hist_gap(a: Signature, b: Signature) -> int {
    let (n, m) = (a.w * a.h, b.w * b.h);
    ((n * m - shared(a.hist, n, b.hist, m, 128)) * 1_000_000_000) / (n * m)
}

/// Whether there is an edge at a place; not outside the map.
pub open spec fn edge_at(e: Seq<bool>, w: int, h: int, x: int, y: int) -> bool {
    0 <= x < w && 0 <= y < h && e[y * w + x]
}

/// Whether there is an edge within one cell of a place.
pub open spec fn near(e: Seq<bool>, w: int, h: int, x: int, y: int) -> bool {
    ||| edge_at(e, w, h, x - 1, y - 1)
    ||| edge_at(e, w, h, x, y - 1)
    ||| edge_at(e, w, h, x + 1, y - 1)
    ||| edge_at(e, w, h, x - 1, y)
    ||| edge_at(e, w, h, x, y)
    ||| edge_at(e, w, h, x + 1, y)
    ||| edge_at(e, w, h, x - 1, y + 1)
    ||| edge_at(e, w, h, x, y + 1)
    ||| edge_at(e, w, h, x + 1, y + 1)
}

/// How many of the first `n` cells are edges of `a` with none of `b` near.
pub open spec fn lost(a: Signature, b: Signature, n: int) -> int
    decreases n,
{
    if n <= 0 {
        0
    } else {
        lost(a, b, n - 1) + if a.edges[n - 1] && !near(
            b.edges,
            a.w,
            a.h,
            (n - 1) % a.w,
            (n - 1) / a.w,
        ) {
            1int
        } else {
            0int
        }
    }
}

/// The fraction of the edges of `a` that have none of `b` near; all where there are none.
pub open spec fn lost_share(a: Signature, b: Signature) -> int {
    let n = a.edges.len() as int;
    if marks(a.edges, n) == 0 {
        1_000_000_000
    } else {
        (lost(a, b, n) * 1_000_000_000) / marks(a.edges, n)
    }
}

/// Fewer edges than this are almost none: one cell in two hundred, and at least one.
pub open spec fn few_edges(w: int, h: int) -> int {
    raster::larger((w * h) / 200, 1)
}

/// The larger of the share of edges that went and the share that came; maps of different size
/// have nothing in common, and frames with almost no edges do not differ.
pub open spec fn edge_gap(a: Signature, b: Signature) -> int {
    if a.w != b.w || a.h != b.h {
        1_000_000_000
    } else if marks(a.edges, a.edges.len() as int) < few_edges(a.w, a.h) && marks(
        b.edges,
        b.edges.len() as int,
    ) < few_edges(a.w, a.h) {
        0
    } else {
        raster::larger(lost_share(a, b), lost_share(b, a))
    }
}

/// How far two frames are apart.
pub open spec fn gap(a: Signature, b: Signature) -> int {
    (hist_gap(a, b) + edge_gap(a, b)) / 2
}

proof fn lemma_shared(a: Seq<int>, n: int, b: Seq<int>, m: int, k: int)
    requires
        0 <= k <= a.len(),
        k <= b.len(),
        0 <= n,
        0 <= m,
        forall|i: int| 0 <= i < a.len() ==> 0 <= #[trigger] a[i],
        forall|i: int| 0 <= i < b.len() ==> 0 <= #[trigger] b[i],
    ensures
        0 <= shared(a, n, b, m, k) <= total(a, k) * m,
        shared(a, n, b, m, k) == shared(b, m, a, n, k),
    decreases k,
{
    if k > 0 {
        lemma_shared(a, n, b, m, k - 1);
        let (x, y) = (a[k - 1], b[k - 1]);
        assert(0 <= x * m && 0 <= y * n) by (nonlinear_arith)
            requires
                0 <= x,
                0 <= y,
                0 <= m,
                0 <= n,
        ;
        let t = total(a, k - 1);
        assert((t + x) * m == t * m + x * m) by (nonlinear_arith);
    } else {
        assert(total(a, k) * m == 0) by (nonlinear_arith)
            requires
                total(a, k) == 0,
        ;
    }
}

proof fn lemma_marks(e: Seq<bool>, n: int)
    requires
        0 <= n <= e.len(),
    ensures
        0 <= marks(e, n) <= n,
        marks(e, n) == 0 ==> forall|i: int| 0 <= i < n ==> !#[trigger] e[i],
    decreases n,
{
    if n > 0 {
        lemma_marks(e, n - 1);
    }
}

proof fn lemma_lost(a: Signature, b: Signature, n: int)
    requires
        0 <= n <= a.edges.len(),
    ensures
        0 <= lost(a, b, n) <= marks(a.edges, n),
    decreases n,
{
    if n > 0 {
        lemma_lost(a, b, n - 1);
    }
}

proof fn lemma_share(x: int, n: int)
    requires
        0 <= x <= n,
        0 < n,
    ensures
        0 <= (x * 1_000_000_000) / n <= 1_000_000_000,
{
    assert(0 <= (x * 1_000_000_000) / n <= 1_000_000_000) by (nonlinear_arith)
        requires
            0 <= x <= n,
            0 < n,
    ;
}

proof fn lemma_cells(s: Signature)
    requires
        s.wf(),
    ensures
        1 <= s.w * s.h <= 9216,
{
    let (w, h) = (s.w, s.h);
    assert(1 <= w * h <= 9216) by (nonlinear_arith)
        requires
            1 <= w <= 96,
            1 <= h <= 96,
    ;
}

proof fn lemma_hist_gap(a: Signature, b: Signature)
    requires
        a.wf(),
        b.wf(),
    ensures
        0 <= hist_gap(a, b) <= 1_000_000_000,
        hist_gap(a, b) == hist_gap(b, a),
        0 <= shared(a.hist, a.w * a.h, b.hist, b.w * b.h, 128) <= (a.w * a.h) * (b.w * b.h),
        1 <= (a.w * a.h) * (b.w * b.h) <= 84_934_656,
{
    lemma_cells(a);
    lemma_cells(b);
    let (n, m) = (a.w * a.h, b.w * b.h);
    lemma_shared(a.hist, n, b.hist, m, 128);
    assert(1 <= n * m <= 84_934_656 && n * m == m * n) by (nonlinear_arith)
        requires
            1 <= n <= 9216,
            1 <= m <= 9216,
    ;
    lemma_share(n * m - shared(a.hist, n, b.hist, m, 128), n * m);
}

proof fn lemma_edge_gap(a: Signature, b: Signature)
    requires
        a.wf(),
        b.wf(),
    ensures
        0 <= edge_gap(a, b) <= 1_000_000_000,
        edge_gap(a, b) == edge_gap(b, a),
{
    let (n, m) = (a.edges.len() as int, b.edges.len() as int);
    lemma_marks(a.edges, n);
    lemma_marks(b.edges, m);
    lemma_lost(a, b, n);
    lemma_lost(b, a, m);
    if marks(a.edges, n) > 0 {
        lemma_share(lost(a, b, n), marks(a.edges, n));
    }
    if marks(b.edges, m) > 0 {
        lemma_share(lost(b, a, m), marks(b.edges, m));
    }
}

/// The distance of two frames lies between zero and one and is the same both ways.
pub proof fn law_distance_is_symmetric(a: Signature, b: Signature)
    requires
        a.wf(),
        b.wf(),
    ensures
        0 <= gap(a, b) <= 1_000_000_000,
        gap(a, b) == gap(b, a),
{
    lemma_hist_gap(a, b);
    lemma_edge_gap(a, b);
}

proof fn lemma_shared_self(h: Seq<int>, n: int, k: int)
    requires
        0 <= k <= h.len(),
    ensures
        shared(h, n, h, n, k) == total(h, k) * n,
    decreases k,
{
    if k > 0 {
        lemma_shared_self(h, n, k - 1);
        let (t, x) = (total(h, k - 1), h[k - 1]);
        assert((t + x) * n == t * n + x * n) by (nonlinear_arith);
    } else {
        assert(total(h, k) * n == 0) by (nonlinear_arith)
            requires
                total(h, k) == 0,
        ;
    }
}

proof fn lemma_lost_self(s: Signature, n: int)
    requires
        s.wf(),
        0 <= n <= s.edges.len(),
    ensures
        lost(s, s, n) == 0,
    decreases n,
{
    if n > 0 {
        lemma_lost_self(s, n - 1);
        lemma_place(n - 1, s.w, s.h);
        assert(s.edges[n - 1] ==> edge_at(s.edges, s.w, s.h, (n - 1) % s.w, (n - 1) / s.w));
    }
}

/// A frame is at distance zero from itself.
pub proof fn law_same_frame_is_near(s: Signature)
    requires
        s.wf(),
    ensures
        hist_gap(s, s) == 0,
        edge_gap(s, s) == 0,
        gap(s, s) == 0,
{
    lemma_cells(s);
    let n = s.w * s.h;
    lemma_shared_self(s.hist, n, 128);
    lemma_lost_self(s, s.edges.len() as int);
    lemma_marks(s.edges, s.edges.len() as int);
    assert(0 <= n * n && n * n > 0) by (nonlinear_arith)
        requires
            n >= 1,
    ;
    let d = n * n;
    assert(0int / d == 0) by (nonlinear_arith)
        requires
            d > 0,
    ;
    let m = marks(s.edges, s.edges.len() as int);
    if m > 0 {
        assert(0int / m == 0) by (nonlinear_arith)
            requires
                m > 0,
        ;
    }
}

fn has_edge(e: &Vec<bool>, w: usize, h: usize, x: usize, y: usize, dx: i32, dy: i32) -> (r: bool)
    requires
        1 <= w <= 96,
        1 <= h <= 96,
        e@.len() == w * h,
        x < w,
        y < h,
        -1 <= dx <= 1,
        -1 <= dy <= 1,
    ensures
        r == edge_at(e@, w as int, h as int, x + dx, y + dy),
{
    let nx: i32 = x as i32 + dx;
    let ny: i32 = y as i32 + dy;
    if nx < 0 || ny < 0 || nx >= w as i32 || ny >= h as i32 {
        return false;
    }
    proof {
        assert(0 <= ny * w + nx < w * h) by (nonlinear_arith)
            requires
                0 <= nx < w,
                0 <= ny < h,
        ;
        assert(ny * w <= 9216) by (nonlinear_arith)
            requires
                0 <= ny <= 96,
                0 <= w <= 96,
        ;
    }
    e[ny as usize * w + nx as usize]
}

fn has_near(e: &Vec<bool>, w: usize, h: usize, x: usize, y: usize) -> (r: bool)
    requires
        1 <= w <= 96,
        1 <= h <= 96,
        e@.len() == w * h,
        x < w,
        y < h,
    ensures
        r == near(e@, w as int, h as int, x as int, y as int),
{
    has_edge(e, w, h, x, y, -1, -1) || has_edge(e, w, h, x, y, 0, -1) || has_edge(
        e,
        w,
        h,
        x,
        y,
        1,
        -1,
    ) || has_edge(e, w, h, x, y, -1, 0) || has_edge(e, w, h, x, y, 0, 0) || has_edge(
        e,
        w,
        h,
        x,
        y,
        1,
        0,
    ) || has_edge(e, w, h, x, y, -1, 1) || has_edge(e, w, h, x, y, 0, 1) || has_edge(
        e,
        w,
        h,
        x,
        y,
        1,
        1,
    )
}

impl FrameSignature {
    /// Histogram distance: one minus the histogram intersection.
    pub fn hist_distance(&self, other: &FrameSignature) -> (d: u64)
        requires
            self.wf(),
            other.wf(),
        ensures
            d == hist_gap(self@, other@),
            d <= ONE,
    {
        proof {
            lemma_hist_gap(self@, other@);
            lemma_cells(self@);
            lemma_cells(other@);
        }
        let n: u64 = (self.edge_w * self.edge_h) as u64;
        let m: u64 = (other.edge_w * other.edge_h) as u64;
        let mut inter: u64 = 0;
        let mut k: usize = 0;
        while k < 128
            invariant
                k <= 128,
                n == self@.w * self@.h,
                m == other@.w * other@.h,
                1 <= n <= 9216,
                1 <= m <= 9216,
                self@.wf(),
                other@.wf(),
                self.hist@.len() == 128,
                other.hist@.len() == 128,
                inter == shared(self@.hist, n as int, other@.hist, m as int, k as int),
                inter <= k * 40_000_000_000_000,
            decreases 128 - k,
        {
            let a: u64 = self.hist[k] as u64;
            let b: u64 = other.hist[k] as u64;
            proof {
                assert(self@.hist[k as int] == a && other@.hist[k as int] == b);
                assert(0 <= a * m <= 0xffff_ffff * 9216) by (nonlinear_arith)
                    requires
                        a <= 0xffff_ffff,
                        m <= 9216,
                ;
                assert(0 <= b * n <= 0xffff_ffff * 9216) by (nonlinear_arith)
                    requires
                        b <= 0xffff_ffff,
                        n <= 9216,
                ;
            }
            let x: u64 = a * m;
            let y: u64 = b * n;
            if x < y {
                inter = inter + x;
            } else {
                inter = inter + y;
            }
            k = k + 1;
        }
        ((n * m - inter) * 1_000_000_000) / (n * m)
    }

    fn lost_edges(&self, other: &FrameSignature) -> (d: u64)
        requires
            self.wf(),
            other.wf(),
            self.edge_w == other.edge_w,
            self.edge_h == other.edge_h,
        ensures
            d == lost_share(self@, other@),
    {
        proof {
            lemma_cells(self@);
            lemma_marks(self.edges@, self.edges@.len() as int);
            lemma_lost(self@, other@, self.edges@.len() as int);
        }
        if self.edge_count == 0 {
            return ONE;
        }
        let w: usize = self.edge_w;
        let h: usize = self.edge_h;
        let n: usize = self.edges.len();
        let mut exited: u64 = 0;
        let mut i: usize = 0;
        while i < n
            invariant
                i <= n == self.edges@.len(),
                n == w * h,
                n <= 9216,
                w == self@.w,
                h == self@.h,
                1 <= w <= 96,
                1 <= h <= 96,
                other.edges@.len() == n,
                exited == lost(self@, other@, i as int),
                exited <= i,
            decreases n - i,
        {
            proof {
                lemma_place(i as int, w as int, h as int);
            }
            if self.edges[i] && !has_near(&other.edges, w, h, i % w, i / w) {
                exited = exited + 1;
            }
            i = i + 1;
        }
        (exited * 1_000_000_000) / (self.edge_count as u64)
    }

    /// Edge change ratio: the larger of the fraction of edges that appeared and the fraction
    /// that disappeared, with one cell of tolerance for motion. Frames with almost no edges
    /// compare as zero.
    pub fn edge_change_ratio(&self, other: &FrameSignature) -> (d: u64)
        requires
            self.wf(),
            other.wf(),
        ensures
            d == edge_gap(self@, other@),
            d <= ONE,
    {
        proof {
            lemma_edge_gap(self@, other@);
            lemma_cells(self@);
        }
        if self.edge_w != other.edge_w || self.edge_h != other.edge_h {
            return ONE;
        }
        let share: usize = (self.edge_w * self.edge_h) / 200;
        let min_edges: usize = if share < 1 {
            1
        } else {
            share
        };
        if self.edge_count < min_edges && other.edge_count < min_edges {
            return 0;
        }
        let gone: u64 = self.lost_edges(other);
        let come: u64 = other.lost_edges(self);
        if gone < come {
            come
        } else {
            gone
        }
    }

    /// Combined distance used for cut detection.
    pub fn distance(&self, other: &FrameSignature) -> (d: u64)
        requires
            self.wf(),
            other.wf(),
        ensures
            d == gap(self@, other@),
            d <= ONE,
    {
        (self.hist_distance(other) + self.edge_change_ratio(other)) / 2
    }
}

/// Adaptive-threshold parameters: distances in billionths, factors in thousandths.
#[derive(Clone, Copy, Debug, PartialEq, Eq, Structural)]
pub struct ShotParams {
    /// A distance below this is never a cut.
    pub min_distance: u64,
    /// A distance at or above this is always a cut.
    pub hard_distance: u64,
    /// Between those, a cut is this many standard deviations above the mean of the recent
    /// distances, and by `ratio` above the mean.
    pub k_std: u64,
    /// Ratio to the recent mean distance.
    pub ratio: u64,
    /// Recent distances remembered.
    pub window: usize,
    /// Minimum samples per shot (cuts closer than this are ignored).
    pub min_shot_samples: usize,
}

impl Default for ShotParams {
    fn default() -> (p: ShotParams)
        ensures
            p == (ShotParams {
                min_distance: 250_000_000,
                hard_distance: 700_000_000,
                k_std: 3000,
                ratio: 2500,
                window: 20,
                min_shot_samples: 2,
            }),
    {
        ShotParams {
            min_distance: 250_000_000,
            hard_distance: 700_000_000,
            k_std: 3000,
            ratio: 2500,
            window: 20,
            min_shot_samples: 2,
        }
    }
}

/// The sum of distances.
pub open spec fn sum_of(s: Seq<int>) -> int
    decreases s.len(),
{
    if s.len() == 0 {
        0
    } else {
        sum_of(s.drop_last()) + s.last()
    }
}

/// The sum of the squares of distances.
pub open spec fn squares_of(s: Seq<int>) -> int
    decreases s.len(),
{
    if s.len() == 0 {
        0
    } else {
        squares_of(s.drop_last()) + s.last() * s.last()
    }
}

/// A distance is more than `k` standard deviations above the mean of the recent ones: the
/// comparison is multiplied out, so that nothing is rounded.
pub open spec fn stands_out(recent: Seq<int>, d: int, k: int) -> bool {
    let n = recent.len() as int;
    let above = n * d - sum_of(recent);
    above > 0 && (above * above) * 1_000_000 > (k * k) * (n * squares_of(recent) - sum_of(recent)
        * sum_of(recent))
}

/// A distance is more than `ratio` times the mean of the recent ones, which counts as two
/// hundredths at least.
pub open spec fn outgrows(recent: Seq<int>, d: int, ratio: int) -> bool {
    let n = recent.len() as int;
    (n * d) * 1000 > ratio * raster::larger(sum_of(recent), n * 20_000_000)
}

/// A distance that the recent ones do not explain; with little history, one in the upper half
/// of the band.
pub open spec fn unexplained(recent: Seq<int>, d: int, p: ShotParams) -> bool {
    if recent.len() >= 3 {
        stands_out(recent, d, p.k_std as int) && outgrows(recent, d, p.ratio as int)
    } else {
        2 * d >= p.min_distance + p.hard_distance
    }
}

/// A cut at a distance `d`, where the shot before would have `since - 1` samples.
pub open spec fn cuts_here(recent: Seq<int>, d: int, since: int, p: ShotParams) -> bool {
    d >= p.min_distance && (d >= p.hard_distance || unexplained(recent, d, p)) && since
        > p.min_shot_samples
}

/// What a detector knows.
#[verifier::ext_equal]
pub struct Detection {
    /// Last signature.
    pub prev: Option<Signature>,
    /// Recent distances.
    pub recent: Seq<int>,
    /// Samples of the shot so far.
    pub since: int,
    /// Samples at which a shot starts.
    pub cuts: Seq<int>,
    /// Distance at each sample.
    pub distances: Seq<int>,
}

/// The last `n` of a sequence.
pub open spec fn tail(s: Seq<int>, n: int) -> Seq<int> {
    if s.len() <= n {
        s
    } else {
        s.skip(s.len() - n)
    }
}

/// A detector after one more sample.
pub open spec fn detected(s: Detection, p: ShotParams, sig: Signature) -> Detection {
    match s.prev {
        None => Detection {
            prev: Some(sig),
            since: s.since + 1,
            distances: s.distances.push(0),
            ..s
        },
        Some(prev) => {
            let d = gap(prev, sig);
            if cuts_here(s.recent, d, s.since + 1, p) {
                Detection {
                    prev: Some(sig),
                    recent: Seq::empty(),
                    since: 1,
                    cuts: s.cuts.push(s.distances.len() as int),
                    distances: s.distances.push(d),
                }
            } else {
                Detection {
                    prev: Some(sig),
                    recent: tail(s.recent.push(d), p.window as int),
                    since: s.since + 1,
                    cuts: s.cuts,
                    distances: s.distances.push(d),
                }
            }
        },
    }
}

/// Whether the square of `whole - sum`, a million times, exceeds the square of `k` times the
/// spread `n * squares - sum * sum`.
fn spread_exceeded(n: u128, whole: u128, sum: u128, squares: u128, k: u64) -> (b: bool)
    ensures
        b == (((whole - sum) * (whole - sum)) * 1_000_000 > (k * k) * (n * squares - sum * sum)),
{
    let w = Big::of(whole);
    let s = Big::of(sum);
    let million = Big::of(1_000_000);
    let f = Big::of(k as u128);
    let kk = f.times(&f);
    let ss = s.times(&s);
    let above = w.times(&w).plus(&ss).times(&million).plus(&kk.times(&ss));
    let ws = w.times(&s);
    let below = kk.times(&Big::of(n).times(&Big::of(squares))).plus(
        &ws.plus(&ws).times(&million),
    );
    proof {
        let (x, y, z, q, c) = (
            whole as int,
            sum as int,
            (k * k) as int,
            (n * squares) as int,
            1_000_000int,
        );
        assert(above@ == (x * x + y * y) * c + z * (y * y));
        assert(below@ == z * q + (x * y + x * y) * c);
        assert(((x - y) * (x - y)) * c == (x * x + y * y) * c - (x * y + x * y) * c)
            by (nonlinear_arith);
        assert(z * (q - y * y) == z * q - z * (y * y)) by (nonlinear_arith);
    }
    above.exceeds(&below)
}

/// Streaming detector over sampled frames in time order.
#[derive(Debug)]
pub struct ShotDetector {
    params: ShotParams,
    prev: Option<FrameSignature>,
    recent: VecDeque<u64>,
    since_cut: usize,
    cuts: Vec<usize>,
    distances: Vec<u64>,
}

impl View for ShotDetector {
    type V = Detection;

    closed spec fn view(&self) -> Detection {
        Detection {
            prev: match self.prev {
                Some(s) => Some(s@),
                None => None,
            },
            recent: self.recent@.map_values(|d: u64| d as int),
            since: self.since_cut as int,
            cuts: self.cuts@.map_values(|c: usize| c as int),
            distances: self.distances@.map_values(|d: u64| d as int),
        }
    }
}

impl Detection {
    /// Shots start in order, none by a cut at the first sample, and each has `min` samples at
    /// least before the next starts.
    pub open spec fn spaced(self, min: int) -> bool {
        &&& self.since == self.distances.len() - (if self.cuts.len() == 0 {
            0
        } else {
            self.cuts.last()
        })
        &&& self.since >= 0
        &&& forall|i: int|
            0 <= i < self.cuts.len() ==> min <= (#[trigger] self.cuts[i]) < self.distances.len()
                && self.cuts[i] > 0
        &&& forall|i: int, j: int|
            0 <= i < j < self.cuts.len() ==> (#[trigger] self.cuts[i]) + min <= (
            #[trigger] self.cuts[j]) && self.cuts[i] < self.cuts[j]
        &&& self.prev is None <==> self.distances.len() == 0
    }
}

/// However samples come, shots stay in order, and none is shorter than the minimum but the last.
pub proof fn law_shots_are_apart(s: Detection, p: ShotParams, sig: Signature)
    requires
        s.spaced(p.min_shot_samples as int),
    ensures
        detected(s, p, sig).spaced(p.min_shot_samples as int),
{
    let r = detected(s, p, sig);
    let min = p.min_shot_samples as int;
    assert forall|i: int, j: int| 0 <= i < j < r.cuts.len() implies (#[trigger] r.cuts[i]) + min
        <= (#[trigger] r.cuts[j]) && r.cuts[i] < r.cuts[j] by {
        if j < s.cuts.len() {
            assert(r.cuts[i] == s.cuts[i] && r.cuts[j] == s.cuts[j]);
        } else {
            assert(r.cuts[i] == s.cuts[i]);
            if i < s.cuts.len() - 1 {
                assert(s.cuts[i] < s.cuts[s.cuts.len() - 1]);
            }
        }
    }
    assert forall|i: int| 0 <= i < r.cuts.len() implies min <= (#[trigger] r.cuts[i])
        < r.distances.len() && r.cuts[i] > 0 by {
        if i < s.cuts.len() {
            assert(r.cuts[i] == s.cuts[i]);
        } else if s.cuts.len() > 0 {
            assert(s.cuts[s.cuts.len() - 1] == s.cuts.last());
        }
    }
}

/// The first sample never starts a shot by a cut, a distance below the smallest never is a cut,
/// and one at or above the hard distance always is, unless the last cut is too near.
pub proof fn law_distances_decide(s: Detection, p: ShotParams, prev: Signature, sig: Signature)
    requires
        s.prev == Some(prev),
    ensures
        detected(Detection { prev: None, ..s }, p, sig).cuts == s.cuts,
        gap(prev, sig) < p.min_distance ==> detected(s, p, sig).cuts == s.cuts,
        gap(prev, sig) >= p.min_distance && gap(prev, sig) >= p.hard_distance && s.since + 1
            > p.min_shot_samples ==> detected(s, p, sig).cuts == s.cuts.push(
            s.distances.len() as int,
        ),
{
}

impl ShotDetector {
    /// Parameters.
    pub closed spec fn spec_params(self) -> ShotParams {
        self.params
    }

    /// What was seen is whole.
    pub closed spec fn wf(self) -> bool {
        &&& self.prev matches Some(s) ==> s.wf()
        &&& self.recent@.len() <= self.params.window
        &&& forall|i: int| 0 <= i < self.recent@.len() ==> #[trigger] self.recent@[i] <= ONE
        &&& self@.spaced(self.params.min_shot_samples as int)
    }

    /// New detector.
    pub fn new(params: ShotParams) -> (d: ShotDetector)
        ensures
            d.wf(),
            d.spec_params() == params,
            d@ == (Detection {
                prev: None,
                recent: Seq::empty(),
                since: 0,
                cuts: Seq::empty(),
                distances: Seq::empty(),
            }),
    {
        let d = ShotDetector {
            params,
            prev: None,
            recent: VecDeque::new(),
            since_cut: 0,
            cuts: Vec::new(),
            distances: Vec::new(),
        };
        proof {
            assert(d@ =~= Detection {
                prev: None,
                recent: Seq::empty(),
                since: 0,
                cuts: Seq::empty(),
                distances: Seq::empty(),
            });
        }
        d
    }

    fn is_unexplained(&self, d: u64) -> (b: bool)
        requires
            forall|i: int| 0 <= i < self.recent@.len() ==> #[trigger] self.recent@[i] <= ONE,
            d <= ONE,
        ensures
            b == unexplained(self@.recent, d as int, self.params),
    {
        let n: usize = self.recent.len();
        if n < 3 {
            return 2 * (d as u128) >= self.params.min_distance as u128
                + self.params.hard_distance as u128;
        }
        let ghost all = self@.recent;
        let mut sum: u128 = 0;
        let mut squares: u128 = 0;
        let mut i: usize = 0;
        proof {
            assert(all.take(0) =~= Seq::<int>::empty());
        }
        while i < n
            invariant
                i <= n == self.recent@.len(),
                all == self.recent@.map_values(|d: u64| d as int),
                forall|i: int| 0 <= i < self.recent@.len() ==> #[trigger] self.recent@[i] <= ONE,
                sum == sum_of(all.take(i as int)),
                squares == squares_of(all.take(i as int)),
                0 <= sum <= i * 1_000_000_000,
                0 <= squares <= i * 1_000_000_000_000_000_000,
            decreases n - i,
        {
            let x: u64 = self.recent[i];
            proof {
                assert(all.take(i + 1).drop_last() =~= all.take(i as int));
                assert(all.take(i + 1).last() == x);
                assert(0 <= x * x <= 1_000_000_000_000_000_000) by (nonlinear_arith)
                    requires
                        0 <= x <= 1_000_000_000,
                ;
            }
            sum = sum + x as u128;
            squares = squares + (x as u128) * (x as u128);
            i = i + 1;
        }
        proof {
            assert(all.take(n as int) =~= all);
            assert(0 <= n * d <= 0xffff_ffff_ffff_ffff * 1_000_000_000) by (nonlinear_arith)
                requires
                    0 <= n <= 0xffff_ffff_ffff_ffff,
                    0 <= d <= 1_000_000_000,
            ;
        }
        let whole: u128 = n as u128 * d as u128;
        let floor: u128 = n as u128 * 20_000_000;
        let base: u128 = if sum < floor {
            floor
        } else {
            sum
        };
        whole > sum && spread_exceeded(n as u128, whole, sum, squares, self.params.k_std)
            && Big::of(whole * 1000).exceeds(
            &Big::of(self.params.ratio as u128).times(&Big::of(base)),
        )
    }

    /// Feeds the next sample's signature. True when a new shot starts at this sample.
    pub fn push(&mut self, sig: FrameSignature) -> (cut: bool)
        requires
            old(self).wf(),
            sig.wf(),
            old(self)@.distances.len() < usize::MAX,
        ensures
            final(self).wf(),
            final(self).spec_params() == old(self).spec_params(),
            final(self)@ == detected(old(self)@, old(self).spec_params(), sig@),
            cut == (final(self)@.cuts.len() > old(self)@.cuts.len()),
    {
        let ghost start = self@;
        let ghost params = self.params;
        proof {
            law_shots_are_apart(start, params, sig@);
        }
        let idx: usize = self.distances.len();
        self.since_cut = self.since_cut + 1;
        let d: u64 = match &self.prev {
            None => {
                self.distances.push(0);
                self.prev = Some(sig);
                proof {
                    assert(self@ =~= detected(start, params, sig@));
                }
                return false;
            },
            Some(prev) => prev.distance(&sig),
        };
        proof {
            assert(self@.recent == start.recent);
        }
        let is_cut: bool = d >= self.params.min_distance && (d >= self.params.hard_distance
            || self.is_unexplained(d)) && self.since_cut
            > self.params.min_shot_samples;
        self.distances.push(d);
        if is_cut {
            self.cuts.push(idx);
            self.since_cut = 1;
            self.recent.clear();
        } else {
            self.recent.push_back(d);
            if self.recent.len() > self.params.window {
                let _ = self.recent.pop_front();
            }
        }
        self.prev = Some(sig);
        proof {
            if !is_cut {
                assert(self@.recent =~= tail(start.recent.push(d as int), params.window as int));
            }
            assert(self@.distances =~= start.distances.push(d as int));
            assert(self@ =~= detected(start, params, sig@));
        }
        is_cut
    }

    /// Samples at which new shots start (never the first).
    pub fn cuts(&self) -> (r: &Vec<usize>)
        ensures
            r@.map_values(|c: usize| c as int) == self@.cuts,
    {
        &self.cuts
    }

    /// Distances per sample, for diagnostics.
    pub fn distances(&self) -> (r: &Vec<u64>)
        ensures
            r@.map_values(|d: u64| d as int) == self@.distances,
    {
        &self.distances
    }

    /// Samples seen.
    pub fn samples(&self) -> (n: usize)
        ensures
            n == self@.distances.len(),
    {
        self.distances.len()
    }
}

/// A sampled frame: its time and its id.
#[derive(Clone, Copy, Debug, PartialEq, Eq, Structural)]
pub struct Sampled {
    /// Time.
    pub t: Timestamp,
    /// Id.
    pub id: u128,
}

/// The sample at which shot `i` starts.
pub open spec fn shot_sample(cuts: Seq<int>, i: int) -> int {
    if i == 0 {
        0
    } else {
        cuts[i - 1]
    }
}

/// When shot `i` starts: the first reaches back to time zero.
pub open spec fn shot_start(samples: Seq<Sampled>, cuts: Seq<int>, i: int) -> Timestamp {
    if i == 0 {
        Timestamp { num: 0, den: 1 }
    } else {
        samples[cuts[i - 1]].t
    }
}

/// When shot `i` ends: the last reaches on to the end of the video.
pub open spec fn shot_end(
    samples: Seq<Sampled>,
    cuts: Seq<int>,
    duration: Timestamp,
    i: int,
) -> Timestamp {
    if i < cuts.len() {
        samples[cuts[i]].t
    } else if timestamp::le_time(duration, samples.last().t) {
        samples.last().t
    } else {
        duration
    }
}

/// The first `k` shots that are not empty.
pub open spec fn shots_kept(
    samples: Seq<Sampled>,
    cuts: Seq<int>,
    duration: Timestamp,
    k: int,
) -> Seq<int>
    decreases k,
{
    if k <= 0 {
        Seq::empty()
    } else {
        let rest = shots_kept(samples, cuts, duration, k - 1);
        if timestamp::le_time(
            shot_end(samples, cuts, duration, k - 1),
            shot_start(samples, cuts, k - 1),
        ) {
            rest
        } else {
            rest.push(k - 1)
        }
    }
}

/// The row of shot `i`.
pub open spec fn is_shot(
    r: Segment,
    samples: Seq<Sampled>,
    cuts: Seq<int>,
    duration: Timestamp,
    i: int,
    video: u128,
    id: u128,
    prov: u128,
) -> bool {
    &&& r.id == id
    &&& r.video_id == video
    &&& r.level == SegmentLevel::Shot
    &&& r.parent_id is None
    &&& r.t0 == shot_start(samples, cuts, i)
    &&& r.t1 == shot_end(samples, cuts, duration, i)
    &&& r.keyframe_sample_id == Some(samples[shot_sample(cuts, i)].id)
    &&& r.title is None
    &&& r.summary is None
    &&& r.provenance_id == prov
}

/// The rows of the shots that start at the given cuts; none without samples.
pub fn shot_rows(
    samples: &Vec<Sampled>,
    cuts: &Vec<usize>,
    duration: Timestamp,
    video: u128,
    ids: &Vec<u128>,
    prov: u128,
) -> (r: Vec<Segment>)
    requires
        forall|k: int| 0 <= k < cuts@.len() ==> #[trigger] cuts@[k] < samples@.len(),
        ids@.len() > cuts@.len(),
    ensures
        samples@.len() == 0 ==> r@.len() == 0,
        samples@.len() > 0 ==> ({
            let c = cuts@.map_values(|c: usize| c as int);
            let kept = shots_kept(samples@, c, duration, cuts@.len() as int + 1);
            &&& r@.len() == kept.len()
            &&& forall|k: int|
                0 <= k < r@.len() ==> is_shot(
                    #[trigger] r@[k],
                    samples@,
                    c,
                    duration,
                    kept[k],
                    video,
                    ids@[kept[k]],
                    prov,
                )
        }),
{
    let mut out: Vec<Segment> = Vec::new();
    let n: usize = samples.len();
    if n == 0 {
        return out;
    }
    let m: usize = cuts.len();
    let count: usize = ids.len();
    let ghost c = cuts@.map_values(|c: usize| c as int);
    let last = samples[n - 1].t;
    let mut i: usize = 0;
    while i <= m
        invariant
            i <= m + 1,
            m == cuts@.len() < count,
            count == ids@.len(),
            n == samples@.len() > 0,
            last == samples@.last().t,
            c == cuts@.map_values(|c: usize| c as int),
            forall|k: int| 0 <= k < cuts@.len() ==> #[trigger] cuts@[k] < samples@.len(),
            out@.len() == shots_kept(samples@, c, duration, i as int).len(),
            forall|k: int|
                0 <= k < out@.len() ==> is_shot(
                    #[trigger] out@[k],
                    samples@,
                    c,
                    duration,
                    shots_kept(samples@, c, duration, i as int)[k],
                    video,
                    ids@[shots_kept(samples@, c, duration, i as int)[k]],
                    prov,
                ),
        decreases m + 1 - i,
    {
        let s: usize = if i == 0 {
            0
        } else {
            cuts[i - 1]
        };
        let t0 = if i == 0 {
            Timestamp::zero()
        } else {
            samples[s].t
        };
        let t1 = if i < m {
            samples[cuts[i]].t
        } else {
            duration.max(last)
        };
        let ghost before = shots_kept(samples@, c, duration, i as int);
        let ghost had = out@;
        proof {
            assert(t0 == shot_start(samples@, c, i as int));
            assert(t1 == shot_end(samples@, c, duration, i as int));
        }
        if !t1.le(&t0) {
            out.push(
                Segment {
                    id: ids[i],
                    video_id: video,
                    level: SegmentLevel::Shot,
                    parent_id: None,
                    t0,
                    t1,
                    keyframe_sample_id: Some(samples[s].id),
                    title: None,
                    summary: None,
                    provenance_id: prov,
                },
            );
            proof {
                let now = shots_kept(samples@, c, duration, i + 1);
                assert(now == before.push(i as int));
                assert forall|k: int| 0 <= k < out@.len() implies is_shot(
                    #[trigger] out@[k],
                    samples@,
                    c,
                    duration,
                    now[k],
                    video,
                    ids@[now[k]],
                    prov,
                ) by {
                    if k < had.len() {
                        assert(out@[k] == had[k]);
                    }
                }
            }
        }
        i = i + 1;
    }
    out
}

proof fn lemma_all_kept(samples: Seq<Sampled>, cuts: Seq<int>, duration: Timestamp, k: int)
    requires
        0 <= k,
        forall|i: int|
            0 <= i < k ==> !#[trigger] timestamp::le_time(
                shot_end(samples, cuts, duration, i),
                shot_start(samples, cuts, i),
            ),
    ensures
        shots_kept(samples, cuts, duration, k) == Seq::new(k as nat, |i: int| i),
    decreases k,
{
    if k > 0 {
        lemma_all_kept(samples, cuts, duration, k - 1);
        assert(shots_kept(samples, cuts, duration, k) =~= Seq::new(k as nat, |i: int| i));
    } else {
        assert(shots_kept(samples, cuts, duration, k) =~= Seq::new(k as nat, |i: int| i));
    }
}

/// Shots cover the whole video with no gaps: where time passes within each, the first starts at
/// zero, each starts where the one before ends, and the last ends no earlier than the video.
pub proof fn law_shots_leave_no_gap(samples: Seq<Sampled>, cuts: Seq<int>, duration: Timestamp)
    requires
        samples.len() > 0,
        duration.wf(),
        samples.last().t.wf(),
        forall|i: int|
            0 <= i <= cuts.len() ==> !#[trigger] timestamp::le_time(
                shot_end(samples, cuts, duration, i),
                shot_start(samples, cuts, i),
            ),
    ensures
        shots_kept(samples, cuts, duration, cuts.len() as int + 1) == Seq::new(
            cuts.len() + 1,
            |i: int| i,
        ),
        shot_start(samples, cuts, 0) == (Timestamp { num: 0, den: 1 }),
        forall|i: int|
            0 <= i < cuts.len() ==> #[trigger] shot_end(samples, cuts, duration, i) == shot_start(
                samples,
                cuts,
                i + 1,
            ),
        timestamp::le_time(duration, shot_end(samples, cuts, duration, cuts.len() as int)),
        timestamp::le_time(
            samples.last().t,
            shot_end(samples, cuts, duration, cuts.len() as int),
        ),
{
    lemma_all_kept(samples, cuts, duration, cuts.len() as int + 1);
    timestamp::law_time_total_preorder(duration, samples.last().t, samples.last().t);
}

/// The hue of a colour is that of its strongest component, give or take a sixth of the circle;
/// a grey has none, and how far a colour is from grey is the difference of its strongest and its
/// weakest component.
pub proof fn law_hues_follow_the_strongest_component(r: int, g: int, b: int)
    requires
        r >= 0,
        g >= 0,
        b >= 0,
    ensures
        ({
            let (sextants, delta, max) = hsv_of(r, g, b);
            &&& max >= r && max >= g && max >= b && (max == r || max == g || max == b)
            &&& forall|x: int| (x == r || x == g || x == b) ==> #[trigger] (max - x) <= delta
            &&& max - delta == r || max - delta == g || max - delta == b
            &&& delta == 0 ==> sextants == 0
            &&& r > g && r > b && g >= b ==> sextants == g - b
            &&& r > g && r > b && b > g ==> sextants == 6 * delta - (b - g)
            &&& g > r && g > b ==> sextants == 2 * delta + (b - r)
            &&& b > r && b > g ==> sextants == 4 * delta + (r - g)
        }),
{
}

/// Gradients measure slopes: where brightness changes by `dx` from column to column and by `dy`
/// from row to row, the gradients are eight times as much.
pub proof fn law_gradients_measure_slopes(g: Seq<int>, w: int, i: int, dx: int, dy: int)
    requires
        forall|a: int, b: int|
            -1 <= a <= 1 && -1 <= b <= 1 ==> #[trigger] g[i + a + b * w] == g[i] + a * dx + b * dy,
    ensures
        gradient_x(g, w, i) == 8 * dx,
        gradient_y(g, w, i) == 8 * dy,
{
    assert(g[i + 1 + (-1) * w] == g[i] + 1 * dx + (-1) * dy);
    assert(g[i + 1 + 0 * w] == g[i] + 1 * dx + 0 * dy);
    assert(g[i + 1 + 1 * w] == g[i] + 1 * dx + 1 * dy);
    assert(g[i + (-1) + (-1) * w] == g[i] + (-1) * dx + (-1) * dy);
    assert(g[i + (-1) + 0 * w] == g[i] + (-1) * dx + 0 * dy);
    assert(g[i + (-1) + 1 * w] == g[i] + (-1) * dx + 1 * dy);
    assert(g[i + 0 + (-1) * w] == g[i] + 0 * dx + (-1) * dy);
    assert(g[i + 0 + 1 * w] == g[i] + 0 * dx + 1 * dy);
    assert(1 * w == w && (-1) * w == -w && 0 * w == 0);
    assert(1 * dx == dx && (-1) * dx == -dx && 0 * dx == 0);
    assert(1 * dy == dy && (-1) * dy == -dy && 0 * dy == 0);
}

proof fn lemma_nothing_shared(a: Seq<int>, n: int, b: Seq<int>, m: int, k: int)
    requires
        0 <= k <= a.len(),
        k <= b.len(),
        n >= 0,
        m >= 0,
        forall|i: int| 0 <= i < k ==> 0 <= #[trigger] a[i],
        forall|i: int| 0 <= i < k ==> 0 <= #[trigger] b[i],
        forall|i: int| 0 <= i < k ==> #[trigger] a[i] == 0 || b[i] == 0,
    ensures
        shared(a, n, b, m, k) == 0,
    decreases k,
{
    if k > 0 {
        lemma_nothing_shared(a, n, b, m, k - 1);
        let (x, y) = (a[k - 1], b[k - 1]);
        assert(0 <= x && 0 <= y && (x == 0 || y == 0));
        assert(x * m >= 0 && y * n >= 0 && (x * m == 0 || y * n == 0)) by (nonlinear_arith)
            requires
                0 <= x,
                0 <= y,
                x == 0 || y == 0,
                n >= 0,
                m >= 0,
        ;
    }
}

/// Frames without a colour in common are at the full distance of colours.
pub proof fn law_frames_without_common_colours_are_far(a: Signature, b: Signature)
    requires
        a.wf(),
        b.wf(),
        forall|k: int| 0 <= k < 128 ==> #[trigger] a.hist[k] == 0 || b.hist[k] == 0,
    ensures
        hist_gap(a, b) == 1_000_000_000,
{
    let (n, m) = (a.w * a.h, b.w * b.h);
    lemma_cells(a);
    lemma_cells(b);
    assert(n * m > 0) by (nonlinear_arith)
        requires
            n >= 1,
            m >= 1,
    ;
    lemma_nothing_shared(a.hist, n, b.hist, m, 128);
    let d = n * m;
    assert((d * 1_000_000_000) / d == 1_000_000_000) by (nonlinear_arith)
        requires
            d > 0,
    ;
}

proof fn lemma_lost_all_or_none(a: Signature, b: Signature, n: int)
    requires
        0 <= n <= a.edges.len(),
    ensures
        (forall|i: int|
            0 <= i < n && #[trigger] a.edges[i] ==> near(b.edges, a.w, a.h, i % a.w, i / a.w))
            ==> lost(a, b, n) == 0,
        (forall|i: int|
            0 <= i < n && #[trigger] a.edges[i] ==> !near(b.edges, a.w, a.h, i % a.w, i / a.w))
            ==> lost(a, b, n) == marks(a.edges, n),
    decreases n,
{
    if n > 0 {
        lemma_lost_all_or_none(a, b, n - 1);
        assert(a.edges[n - 1] == a.edges[n - 1]);
    }
}

/// Edges that another frame has in the same place, or one cell from it, are not lost, and others
/// are: the share that is lost is nothing where all are found and everything where none is.
pub proof fn law_edges_are_lost_when_far(a: Signature, b: Signature)
    requires
        marks(a.edges, a.edges.len() as int) > 0,
    ensures
        (forall|i: int|
            0 <= i < a.edges.len() && #[trigger] a.edges[i] ==> near(
                b.edges,
                a.w,
                a.h,
                i % a.w,
                i / a.w,
            )) ==> lost_share(a, b) == 0,
        (forall|i: int|
            0 <= i < a.edges.len() && #[trigger] a.edges[i] ==> !near(
                b.edges,
                a.w,
                a.h,
                i % a.w,
                i / a.w,
            )) ==> lost_share(a, b) == 1_000_000_000,
{
    let n = a.edges.len() as int;
    lemma_lost_all_or_none(a, b, n);
    let m = marks(a.edges, n);
    assert((m * 1_000_000_000) / m == 1_000_000_000 && 0int / m == 0) by (nonlinear_arith)
        requires
            m > 0,
    ;
}

/// An edge is near a place exactly if it is there or in one of the eight cells around it.
pub proof fn law_near_is_one_cell(e: Seq<bool>, w: int, h: int, x: int, y: int)
    ensures
        near(e, w, h, x, y) <==> exists|a: int, b: int|
            x - 1 <= a <= x + 1 && y - 1 <= b <= y + 1 && #[trigger] edge_at(e, w, h, a, b),
{
    if exists|a: int, b: int|
        x - 1 <= a <= x + 1 && y - 1 <= b <= y + 1 && #[trigger] edge_at(e, w, h, a, b) {
        let (a, b) = choose|a: int, b: int|
            x - 1 <= a <= x + 1 && y - 1 <= b <= y + 1 && #[trigger] edge_at(e, w, h, a, b);
        assert(a == x - 1 || a == x || a == x + 1);
        assert(b == y - 1 || b == y || b == y + 1);
    }
}

/// Frames of different shapes have no edge in common; two frames with hardly an edge do not differ
/// in edges.
pub proof fn law_edges_are_compared_alike(a: Signature, b: Signature)
    ensures
        a.w != b.w || a.h != b.h ==> edge_gap(a, b) == 1_000_000_000,
        a.w == b.w && a.h == b.h && a.w * a.h >= 400 && 200 * (marks(
            a.edges,
            a.edges.len() as int,
        ) + 1) <= a.w * a.h && 200 * (marks(b.edges, b.edges.len() as int) + 1) <= a.w * a.h
            ==> edge_gap(a, b) == 0,
        2 * gap(a, b) <= hist_gap(a, b) + edge_gap(a, b) <= 2 * gap(a, b) + 1,
{
}

proof fn lemma_steady(recent: Seq<int>, c: int)
    requires
        forall|i: int| 0 <= i < recent.len() ==> #[trigger] recent[i] == c,
    ensures
        sum_of(recent) == recent.len() * c,
        squares_of(recent) == recent.len() * (c * c),
    decreases recent.len(),
{
    let n = recent.len() as int;
    if n > 0 {
        let head = recent.drop_last();
        assert forall|i: int| 0 <= i < head.len() implies #[trigger] head[i] == c by {
            assert(head[i] == recent[i]);
        }
        lemma_steady(head, c);
        assert(recent[n - 1] == c);
        assert((n - 1) * c + c == n * c && (n - 1) * (c * c) + c * c == n * (c * c))
            by (nonlinear_arith);
    } else {
        assert(0 * c == 0 && 0 * (c * c) == 0);
    }
}

/// While all recent distances are the same, a distance stands out as soon as it is larger, and
/// outgrows them as soon as it is more than the ratio times as large, or as two hundredths, if
/// they are smaller than that.
pub proof fn law_jumps_stand_out_of_steady_motion(
    recent: Seq<int>,
    c: int,
    d: int,
    k: int,
    ratio: int,
)
    requires
        recent.len() > 0,
        c >= 0,
        forall|i: int| 0 <= i < recent.len() ==> #[trigger] recent[i] == c,
    ensures
        stands_out(recent, d, k) <==> d > c,
        outgrows(recent, d, ratio) <==> 1000 * d > ratio * raster::larger(c, 20_000_000),
{
    let n = recent.len() as int;
    lemma_steady(recent, c);
    let above = n * d - n * c;
    assert(above == n * (d - c)) by (nonlinear_arith)
        requires
            above == n * d - n * c,
    ;
    assert(above > 0 <==> d > c) by (nonlinear_arith)
        requires
            above == n * (d - c),
            n > 0,
    ;
    assert(n * (n * (c * c)) == (n * c) * (n * c)) by (nonlinear_arith);
    assert((k * k) * 0 == 0);
    if above > 0 {
        assert((above * above) * 1_000_000 > 0) by (nonlinear_arith)
            requires
                above > 0,
        ;
    }
    let m = raster::larger(c, 20_000_000);
    assert(raster::larger(n * c, n * 20_000_000) == n * m) by (nonlinear_arith)
        requires
            n > 0,
            m == (if c < 20_000_000 {
                20_000_000
            } else {
                c
            }),
            c >= 0,
    {
        if c < 20_000_000 {
            assert(n * c < n * 20_000_000);
        } else {
            assert(n * c >= n * 20_000_000);
        }
    }
    assert((n * d) * 1000 > ratio * (n * m) <==> 1000 * d > ratio * m) by (nonlinear_arith)
        requires
            n > 0,
    {
        assert((n * d) * 1000 == n * (1000 * d));
        assert(ratio * (n * m) == n * (ratio * m));
    }
}

/// A larger distance stands out and outgrows at least as much as a smaller one.
pub proof fn law_larger_jumps_stand_out_more(recent: Seq<int>, d: int, e: int, k: int, ratio: int)
    requires
        d <= e,
    ensures
        stands_out(recent, d, k) ==> stands_out(recent, e, k),
        outgrows(recent, d, ratio) ==> outgrows(recent, e, ratio),
{
    let n = recent.len() as int;
    let (x, y) = (n * d - sum_of(recent), n * e - sum_of(recent));
    assert(n * d <= n * e) by (nonlinear_arith)
        requires
            d <= e,
            n >= 0,
    ;
    if x > 0 {
        assert(x * x <= y * y) by (nonlinear_arith)
            requires
                0 < x <= y,
        ;
    }
}

/// While no shot starts, the last distances are kept, as many as the window holds, oldest first;
/// a new shot starts without any. The first sample has no distance, and every other one is
/// compared with the one before it.
pub proof fn law_recent_distances_are_kept(
    s: Detection,
    p: ShotParams,
    prev: Signature,
    sig: Signature,
    since_cut: Seq<int>,
)
    requires
        s.prev == Some(prev),
        s.recent == tail(since_cut, p.window as int),
    ensures
        ({
            let r = detected(s, p, sig);
            &&& r.prev == Some(sig)
            &&& r.distances == s.distances.push(gap(prev, sig))
            &&& r.cuts == s.cuts ==> r.recent == tail(
                since_cut.push(gap(prev, sig)),
                p.window as int,
            ) && r.since == s.since + 1
            &&& r.cuts != s.cuts ==> r.cuts == s.cuts.push(s.distances.len() as int)
                && r.recent.len() == 0 && r.since == 1
        }),
{
    let d = gap(prev, sig);
    let w = p.window as int;
    assert(tail(tail(since_cut, w).push(d), w) =~= tail(since_cut.push(d), w));
    if cuts_here(s.recent, d, s.since + 1, p) {
        assert(s.cuts.push(s.distances.len() as int).len() != s.cuts.len());
    }
}

/// With fewer than three recent distances, a sample starts a shot if its distance reaches the
/// middle between the smallest and the hard distance; with more, if it stands out and outgrows
/// them; never before the last shot has its samples.
pub proof fn law_unusual_distances_start_shots(
    s: Detection,
    p: ShotParams,
    prev: Signature,
    sig: Signature,
)
    requires
        s.prev == Some(prev),
        p.min_distance <= gap(prev, sig) < p.hard_distance,
        s.since >= p.min_shot_samples,
    ensures
        s.recent.len() <= 2 ==> (detected(s, p, sig).cuts != s.cuts <==> 2 * gap(prev, sig)
            >= p.min_distance + p.hard_distance),
        s.recent.len() >= 3 ==> (detected(s, p, sig).cuts != s.cuts <==> stands_out(
            s.recent,
            gap(prev, sig),
            p.k_std as int,
        ) && outgrows(s.recent, gap(prev, sig), p.ratio as int)),
{
    assert(s.cuts.push(s.distances.len() as int).len() != s.cuts.len());
}

/// A histogram counts cells by their colour: each cell in one bin.
pub proof fn law_cells_are_counted_once(p: raster::Pixels, n: int, k: int)
    requires
        n >= 0,
    ensures
        binned(p, n + 1, k) == binned(p, n, k) + (if cell_bin(p, n) == k {
            1int
        } else {
            0int
        }),
        binned(p, 0, k) == 0,
        0 <= binned(p, n, k) <= n,
    decreases n,
{
    if n > 0 {
        law_cells_are_counted_once(p, n - 1, k);
    }
}

/// An edge stands where brightness steps by forty levels or more from one side of a cell to the
/// other, whichever side is brighter, and only inside the image.
pub proof fn law_edges_stand_at_steps(g: Seq<int>, w: int, h: int, i: int, low: int, high: int)
    requires
        w > 2,
        g.len() == w * h,
        interior(w, h, i),
        g[i - w - 1] == low,
        g[i - 1] == low,
        g[i + w - 1] == low,
        g[i - w + 1] == high,
        g[i + 1] == high,
        g[i + w + 1] == high,
        g[i - w] == g[i + w],
    ensures
        is_edge(g, w, h, i) <==> high - low >= 40 * 36_000 || low - high >= 40 * 36_000,
{
    let d = high - low;
    assert(gradient_x(g, w, i) == 4 * d || gradient_x(g, w, i) == -4 * d);
    assert(gradient_y(g, w, i) == 0);
    let x = gradient_x(g, w, i);
    assert(x * x == 16 * (d * d)) by (nonlinear_arith)
        requires
            x == 4 * d || x == -4 * d,
    ;
    assert(d * d >= 2_073_600_000_000 <==> d >= 1_440_000 || d <= -1_440_000) by (nonlinear_arith);
}

/// The brightness of a cell of one gray is that gray, whatever the number of its pixels.
pub proof fn law_gray_cells_keep_their_brightness(p: raster::Pixels, i: int, v: int)
    requires
        ({
            let (gx, gy) = (i % p.cols(), i / p.cols());
            &&& cell_count(p, gx, gy) > 0
            &&& cell_sum(p, gx, gy, 0) == v * cell_count(p, gx, gy)
            &&& cell_sum(p, gx, gy, 1) == v * cell_count(p, gx, gy)
            &&& cell_sum(p, gx, gy, 2) == v * cell_count(p, gx, gy)
        }),
    ensures
        cell_gray(p, i) == 36_000 * v,
{
    let n = cell_count(p, i % p.cols(), i / p.cols());
    let s = v * n;
    assert((299 * s + 587 * s + 114 * s) * 36 == (36_000 * v) * n) by (nonlinear_arith)
        requires
            s == v * n,
    ;
    let k = 36_000 * v;
    assert((k * n) / n == k) by (nonlinear_arith)
        requires
            n > 0,
    ;
}

/// Green weighs most in the brightness of a cell and blue least.
pub proof fn law_green_weighs_most(p: raster::Pixels, q: raster::Pixels, i: int, less: int, more: int)
    requires
        p.cols() == q.cols(),
        more > less,
        ({
            let (gx, gy) = (i % p.cols(), i / p.cols());
            &&& cell_count(p, gx, gy) == cell_count(q, gx, gy)
            &&& cell_count(p, gx, gy) > 0
            &&& cell_sum(p, gx, gy, 0) == less
            &&& cell_sum(p, gx, gy, 1) == more
            &&& cell_sum(p, gx, gy, 2) == cell_sum(q, gx, gy, 2)
            &&& cell_sum(q, gx, gy, 0) == more
            &&& cell_sum(q, gx, gy, 1) == less
        }),
    ensures
        cell_gray(p, i) >= cell_gray(q, i),
{
    let (gx, gy) = (i % p.cols(), i / p.cols());
    let n = cell_count(p, gx, gy);
    let a = (299 * less + 587 * more + 114 * cell_sum(p, gx, gy, 2)) * 36;
    let b = (299 * more + 587 * less + 114 * cell_sum(p, gx, gy, 2)) * 36;
    assert(a / n >= b / n) by (nonlinear_arith)
        requires
            a >= b,
            n > 0,
    ;
}

} // verus!
