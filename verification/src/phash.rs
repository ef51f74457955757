//! 64-bit perceptual hashes: grey levels averaged down to 32 by 32, a cosine transform in both
//! directions, and the 8 by 8 lowest frequencies held against their median; distances between
//! hashes and the duplicate rule built on them.
//!
//! All arithmetic is on integers: grey levels in 4096ths, cosines in 65536ths.

use vstd::prelude::*;

use crate::frame::{FrameBuffer, PixelFormat};
use crate::order;
use crate::raster;

verus! {

/// Hamming distance at or below which two frames count as duplicates.
pub const PHASH_DEDUP_DISTANCE: u32 = 6;

/// Bit `i` of `x`.
pub open spec fn bit(x: u64, i: int) -> bool {
    x & (1u64 << (i as u64)) != 0
}

/// The number of positions below `n` in which two hashes differ.
pub open spec fn differing_bits(a: u64, b: u64, n: int) -> nat
    decreases n,
{
    if n <= 0 {
        0
    } else {
        differing_bits(a, b, n - 1) + if bit(a, n - 1) != bit(b, n - 1) {
            1nat
        } else {
            0nat
        }
    }
}

/// Hamming distance between two hashes.
pub fn hamming(a: u64, b: u64) -> (d: u32)
    ensures
        d == differing_bits(a, b, 64),
        d <= 64,
{
    let mut d: u32 = 0;
    let mut i: u64 = 0;
    while i < 64
        invariant
            i <= 64,
            d <= i,
            d == differing_bits(a, b, i as int),
        decreases 64 - i,
    {
        let m: u64 = 1u64 << i;
        if (a & m != 0) != (b & m != 0) {
            d = d + 1;
        }
        i = i + 1;
    }
    d
}

/// Distance is a metric: zero exactly between a hash and itself, the same both ways, and no
/// detour is shorter.
pub proof fn law_hamming_is_a_metric(a: u64, b: u64, c: u64)
    ensures
        differing_bits(a, b, 64) == 0 <==> a == b,
        differing_bits(a, b, 64) == differing_bits(b, a, 64),
        differing_bits(a, c, 64) <= differing_bits(a, b, 64) + differing_bits(b, c, 64),
{
    lemma_symmetric_and_triangle(a, b, c, 64);
    lemma_zero_means_same_bits(a, b, 64);
    lemma_same_hash_same_bits(a, 64);
    if differing_bits(a, b, 64) == 0 {
        lemma_low_bits_agree(a, b, 63);
        assert(bit(a, 63) == bit(b, 63));
        assert(a == b) by (bit_vector)
            requires
                a & !(0xffff_ffff_ffff_ffffu64 << 63u64) == b & !(0xffff_ffff_ffff_ffffu64
                    << 63u64),
                (a & (1u64 << 63u64) != 0) == (b & (1u64 << 63u64) != 0),
        ;
    }
}

/// Hashes that agree bit by bit below `n` agree in their low `n` bits taken together.
proof fn lemma_low_bits_agree(a: u64, b: u64, n: u64)
    requires
        n < 64,
        forall|i: int| 0 <= i < n ==> #[trigger] bit(a, i) == bit(b, i),
    ensures
        a & !(0xffff_ffff_ffff_ffffu64 << n) == b & !(0xffff_ffff_ffff_ffffu64 << n),
    decreases n,
{
    if n == 0 {
        assert(a & !(0xffff_ffff_ffff_ffffu64 << 0u64) == b & !(0xffff_ffff_ffff_ffffu64 << 0u64))
            by (bit_vector);
    } else {
        let m = (n - 1) as u64;
        lemma_low_bits_agree(a, b, m);
        assert(bit(a, m as int) == bit(b, m as int));
        assert(a & !(0xffff_ffff_ffff_ffffu64 << n) == b & !(0xffff_ffff_ffff_ffffu64 << n))
            by (bit_vector)
            requires
                n == m + 1,
                n < 64,
                a & !(0xffff_ffff_ffff_ffffu64 << m) == b & !(0xffff_ffff_ffff_ffffu64 << m),
                (a & (1u64 << m) != 0) == (b & (1u64 << m) != 0),
        ;
    }
}

proof fn lemma_symmetric_and_triangle(a: u64, b: u64, c: u64, n: int)
    ensures
        differing_bits(a, b, n) == differing_bits(b, a, n),
        differing_bits(a, c, n) <= differing_bits(a, b, n) + differing_bits(b, c, n),
    decreases n,
{
    if n > 0 {
        lemma_symmetric_and_triangle(a, b, c, n - 1);
    }
}

proof fn lemma_zero_means_same_bits(a: u64, b: u64, n: int)
    ensures
        differing_bits(a, b, n) == 0 ==> forall|i: int|
            0 <= i < n ==> #[trigger] bit(a, i) == bit(b, i),
    decreases n,
{
    if n > 0 {
        lemma_zero_means_same_bits(a, b, n - 1);
    }
}

proof fn lemma_same_hash_same_bits(a: u64, n: int)
    ensures
        differing_bits(a, a, n) == 0,
    decreases n,
{
    if n > 0 {
        lemma_same_hash_same_bits(a, n - 1);
    }
}

/// Whether a frame counts as a duplicate of the last one that was kept.
pub fn is_duplicate(last: Option<u64>, hash: u64) -> (b: bool)
    ensures
        b == (last matches Some(h) && differing_bits(h, hash, 64) <= PHASH_DEDUP_DISTANCE),
{
    match last {
        Some(h) => hamming(h, hash) <= PHASH_DEDUP_DISTANCE,
        None => false,
    }
}

/// The weighted sum of the pixels of a row from `x0` to `x1`.
pub open spec fn line_luma(data: Seq<u8>, at: int, x0: int, x1: int) -> int {
    299 * raster::row_sum(data, at, x0, x1, 1, 0) + 587 * raster::row_sum(data, at, x0, x1, 1, 1)
        + 114 * raster::row_sum(data, at, x0, x1, 1, 2)
}

/// The weighted sum of a box of pixels.
pub open spec fn box_luma(p: raster::Pixels, x0: int, x1: int, y: int, y1: int) -> int
    decreases raster::larger(y1 - y, 0),
{
    if y >= y1 {
        0
    } else {
        line_luma(p.data, y * p.stride, x0, x1) + box_luma(p, x0, x1, y + 1, y1)
    }
}

/// The mean grey level of cell `i` of 32 by 32.
pub open spec fn mean_gray(p: raster::Pixels, i: int) -> int {
    let (gx, gy) = (i % 32, i / 32);
    let (x0, x1) = (raster::cell_from(gx, p.width, 32), raster::cell_to(gx, p.width, 32));
    let (y0, y1) = (raster::cell_from(gy, p.height, 32), raster::cell_to(gy, p.height, 32));
    (box_luma(p, x0, x1, y0, y1) * 4096) / (1000 * ((x1 - x0) * (y1 - y0)))
}

/// The frame at 32 by 32.
pub open spec fn small_gray(p: raster::Pixels) -> Seq<int> {
    Seq::new(1024, |i: int| mean_gray(p, i))
}

/// The cosine of `j` 128ths of a turn, for the first quarter.
pub open spec fn quarter_cosine(j: int) -> int {
    if j == 0 {
        65536
    } else if j == 1 {
        65457
    } else if j == 2 {
        65220
    } else if j == 3 {
        64827
    } else if j == 4 {
        64277
    } else if j == 5 {
        63572
    } else if j == 6 {
        62714
    } else if j == 7 {
        61705
    } else if j == 8 {
        60547
    } else if j == 9 {
        59244
    } else if j == 10 {
        57798
    } else if j == 11 {
        56212
    } else if j == 12 {
        54491
    } else if j == 13 {
        52639
    } else if j == 14 {
        50660
    } else if j == 15 {
        48559
    } else if j == 16 {
        46341
    } else if j == 17 {
        44011
    } else if j == 18 {
        41576
    } else if j == 19 {
        39040
    } else if j == 20 {
        36410
    } else if j == 21 {
        33692
    } else if j == 22 {
        30893
    } else if j == 23 {
        28020
    } else if j == 24 {
        25080
    } else if j == 25 {
        22078
    } else if j == 26 {
        19024
    } else if j == 27 {
        15924
    } else if j == 28 {
        12785
    } else if j == 29 {
        9616
    } else if j == 30 {
        6424
    } else if j == 31 {
        3216
    } else {
        0
    }
}

/// The cosine of `m` 128ths of a turn.
pub open spec fn turn_cosine(m: int) -> int {
    if m <= 32 {
        quarter_cosine(m)
    } else if m <= 64 {
        -quarter_cosine(64 - m)
    } else if m <= 96 {
        -quarter_cosine(m - 64)
    } else {
        quarter_cosine(128 - m)
    }
}

/// Wave `k` of a transform of 32 values, at value `n`.
pub open spec fn wave(k: int, n: int) -> int {
    turn_cosine(((2 * n + 1) * k) % 128)
}

/// How much of wave `k` is in the first `n` values of row `y`.
pub open spec fn row_wave(g: Seq<int>, y: int, k: int, n: int) -> int
    decreases n,
{
    if n <= 0 {
        0
    } else {
        row_wave(g, y, k, n - 1) + g[y * 32 + n - 1] * wave(k, n - 1)
    }
}

/// How much of wave `v` downwards and `u` across is in the first `n` rows.
pub open spec fn plane_wave(g: Seq<int>, v: int, u: int, n: int) -> int
    decreases n,
{
    if n <= 0 {
        0
    } else {
        plane_wave(g, v, u, n - 1) + row_wave(g, n - 1, u, 32) * wave(v, n - 1)
    }
}

/// The lowest frequencies of a small image, row by row.
pub open spec fn low_block(g: Seq<int>) -> Seq<int> {
    Seq::new(64, |i: int| plane_wave(g, i / 8, i % 8, 32))
}

/// The values as machine integers.
pub open spec fn as_words(s: Seq<int>) -> Seq<i64> {
    s.map_values(|x: int| x as i64)
}

/// Twice the median of 64 values.
pub open spec fn twice_median(s: Seq<int>) -> int {
    let t = order::sorted(as_words(s));
    t[31] + t[32]
}

/// The hash of a small image has a bit for each frequency above the median.
pub open spec fn is_hash(h: u64, low: Seq<int>) -> bool {
    forall|i: int| 0 <= i < 64 ==> (#[trigger] bit(h, i) <==> 2 * low[i] > twice_median(low))
}

/// Two hashes of the same frequencies are the same.
pub proof fn law_hash_is_a_function(a: u64, b: u64, low: Seq<int>)
    requires
        is_hash(a, low),
        is_hash(b, low),
    ensures
        a == b,
{
    assert forall|i: int| 0 <= i < 64 implies #[trigger] bit(a, i) == bit(b, i) by {}
    lemma_same_bits(a, b, 64);
    law_hamming_is_a_metric(a, b, b);
}

proof fn lemma_same_bits(a: u64, b: u64, n: int)
    requires
        forall|i: int| 0 <= i < n ==> #[trigger] bit(a, i) == bit(b, i),
    ensures
        differing_bits(a, b, n) == 0,
    decreases n,
{
    if n > 0 {
        lemma_same_bits(a, b, n - 1);
    }
}

proof fn lemma_box(i: int, extent: int)
    requires
        0 <= i < 32,
        extent > 0,
    ensures
        0 <= raster::cell_from(i, extent, 32) < raster::cell_to(i, extent, 32) <= extent,
{
    assert(0 <= i * extent < 32 * extent) by (nonlinear_arith)
        requires
            0 <= i < 32,
            extent > 0,
    ;
}

proof fn lemma_steps_one(a: int, b: int)
    ensures
        raster::steps(a, b, 1) == raster::larger(b - a, 0),
    decreases raster::larger(b - a, 0),
{
    if a < b {
        lemma_steps_one(a + 1, b);
    }
}

proof fn lemma_line(data: Seq<u8>, at: int, x0: int, x1: int)
    requires
        x0 <= x1,
    ensures
        0 <= line_luma(data, at, x0, x1) <= 255_000 * (x1 - x0),
{
    lemma_steps_one(x0, x1);
    raster::lemma_row_sum(data, at, x0, x1, 1, 0);
    raster::lemma_row_sum(data, at, x0, x1, 1, 1);
    raster::lemma_row_sum(data, at, x0, x1, 1, 2);
}

proof fn lemma_box_luma(p: raster::Pixels, x0: int, x1: int, y: int, y1: int)
    requires
        x0 <= x1,
    ensures
        0 <= box_luma(p, x0, x1, y, y1),
        y <= y1 ==> box_luma(p, x0, x1, y, y1) <= 255_000 * ((x1 - x0) * (y1 - y)),
    decreases raster::larger(y1 - y, 0),
{
    if y < y1 {
        lemma_box_luma(p, x0, x1, y + 1, y1);
        lemma_line(p.data, y * p.stride, x0, x1);
        let (w, h) = (x1 - x0, y1 - y);
        assert(w * (h - 1) == w * h - w) by (nonlinear_arith);
    } else {
        let (w, h) = (x1 - x0, y1 - y);
        if h == 0 {
            assert(w * h == 0) by (nonlinear_arith)
                requires
                    h == 0,
            ;
        }
    }
}

fn read_line(data: &[u8], at: usize, x0: usize, x1: usize) -> (r: u128)
    requires
        x0 <= x1,
        at + 3 * x1 <= data@.len(),
    ensures
        r == line_luma(data@, at as int, x0 as int, x1 as int),
{
    let n: usize = data.len();
    let mut sum: u128 = 0;
    let mut x: usize = x0;
    proof {
        lemma_line(data@, at as int, x0 as int, x1 as int);
    }
    while x < x1
        invariant
            n == data@.len(),
            x0 <= x <= x1,
            at + 3 * x1 <= data@.len(),
            sum + line_luma(data@, at as int, x as int, x1 as int) == line_luma(
                data@,
                at as int,
                x0 as int,
                x1 as int,
            ) <= 255_000 * (x1 - x0),
        decreases x1 - x,
    {
        proof {
            lemma_line(data@, at as int, x + 1, x1 as int);
        }
        let r: u128 = data[at + 3 * x] as u128;
        let g: u128 = data[at + 3 * x + 1] as u128;
        let b: u128 = data[at + 3 * x + 2] as u128;
        sum = sum + (299 * r + 587 * g + 114 * b);
        x = x + 1;
    }
    sum
}

fn box_bounds(i: usize, extent: usize) -> (r: (usize, usize))
    requires
        i < 32,
        0 < extent,
        extent * 32 <= usize::MAX,
    ensures
        r.0 == raster::cell_from(i as int, extent as int, 32),
        r.1 == raster::cell_to(i as int, extent as int, 32),
        r.0 < r.1 <= extent,
        r.1 - r.0 <= 0x40_0000_0000_0000,
{
    proof {
        lemma_box(i as int, extent as int);
        assert(i * extent <= extent * 32 && (i + 1) * extent <= extent * 32 && (i + 1) * extent == i
            * extent + extent) by (nonlinear_arith)
            requires
                0 <= i < 32,
                0 <= extent,
        ;
    }
    let from: usize = (i * extent) / 32;
    let mut to: usize = ((i + 1) * extent) / 32;
    if to < from + 1 {
        to = from + 1;
    }
    if extent < to {
        to = extent;
    }
    (from, to)
}

/// A level in 4096ths, without the large product.
proof fn lemma_level(sum: int, area: int)
    requires
        0 <= sum <= 255_000 * area,
        area >= 1,
    ensures
        (sum * 4096) / (1000 * area) == 512 * (sum / (125 * area)) + (512 * (sum % (125 * area))) / (
        125 * area),
        0 <= (sum * 4096) / (1000 * area) <= 1_044_480,
        0 <= sum / (125 * area) <= 2040,
        0 <= sum % (125 * area) < 125 * area,
        0 <= (512 * (sum % (125 * area))) / (125 * area) <= 511,
{
    let d = 125 * area;
    let (q, m) = (sum / d, sum % d);
    vstd::arithmetic::div_mod::lemma_fundamental_div_mod(sum, d);
    assert(0 <= m < d) by (nonlinear_arith)
        requires
            m == sum % d,
            d > 0,
    ;
    assert(0 <= q <= 2040) by (nonlinear_arith)
        requires
            sum == d * q + m,
            0 <= m < d,
            0 <= sum <= 2040 * d,
            d > 0,
    ;
    let x = 512 * m;
    let (t, u) = (x / d, x % d);
    vstd::arithmetic::div_mod::lemma_fundamental_div_mod(x, d);
    assert(0 <= u < d) by (nonlinear_arith)
        requires
            u == x % d,
            d > 0,
    ;
    assert(0 <= t <= 511) by (nonlinear_arith)
        requires
            x == d * t + u,
            0 <= u < d,
            0 <= x < 512 * d,
            d > 0,
    ;
    let whole = 512 * q + t;
    assert(sum * 4096 == (8 * d) * whole + 8 * u) by (nonlinear_arith)
        requires
            sum == d * q + m,
            512 * m == d * t + u,
            whole == 512 * q + t,
    ;
    assert((sum * 4096) / (8 * d) == whole) by (nonlinear_arith)
        requires
            sum * 4096 == (8 * d) * whole + 8 * u,
            0 <= 8 * u < 8 * d,
    ;
    assert(whole <= 1_044_480) by (nonlinear_arith)
        requires
            (8 * d) * whole <= 8_355_840 * d,
            d > 0,
    ;
}

fn read_box(
    data: &[u8],
    stride: usize,
    xs: (usize, usize),
    ys: (usize, usize),
    Ghost(p): Ghost<raster::Pixels>,
) -> (r: i64)
    requires
        p.complete(),
        p.data == data@,
        p.stride == stride,
        xs.0 < xs.1 <= p.width,
        ys.0 < ys.1 <= p.height,
        xs.1 - xs.0 <= 0x40_0000_0000_0000,
        ys.1 - ys.0 <= 0x40_0000_0000_0000,
    ensures
        r == (box_luma(p, xs.0 as int, xs.1 as int, ys.0 as int, ys.1 as int) * 4096) / (1000 * ((
        xs.1 - xs.0) * (ys.1 - ys.0))),
        0 <= r <= 1_044_480,
{
    let ghost (x0, x1) = (xs.0 as int, xs.1 as int);
    let ghost (y0, y1) = (ys.0 as int, ys.1 as int);
    let ghost area = (x1 - x0) * (y1 - y0);
    proof {
        lemma_box_luma(p, x0, x1, y0, y1);
        let (w, h) = (x1 - x0, y1 - y0);
        assert(1 <= w * h <= 0x40_0000_0000_0000 * 0x40_0000_0000_0000) by (nonlinear_arith)
            requires
                1 <= w <= 0x40_0000_0000_0000,
                1 <= h <= 0x40_0000_0000_0000,
        ;
    }
    let mut sum: u128 = 0;
    let mut y: usize = ys.0;
    let n: usize = data.len();
    while y < ys.1
        invariant
            n == data@.len(),
            p.complete(),
            p.data == data@,
            p.stride == stride,
            x0 == xs.0,
            x1 == xs.1,
            y0 == ys.0,
            y1 == ys.1,
            xs.0 < xs.1 <= p.width,
            ys.0 <= y <= ys.1 <= p.height,
            sum + box_luma(p, x0, x1, y as int, y1) == box_luma(p, x0, x1, y0, y1) <= 255_000
                * area,
            1 <= area <= 0x40_0000_0000_0000 * 0x40_0000_0000_0000,
        decreases ys.1 - y,
    {
        proof {
            let h = p.height;
            assert(0 <= y * stride <= (h - 1) * stride) by (nonlinear_arith)
                requires
                    0 <= y <= h - 1,
                    0 <= stride,
            ;
            lemma_box_luma(p, x0, x1, y + 1, y1);
        }
        sum = sum + read_line(data, y * stride, xs.0, xs.1);
        y = y + 1;
    }
    let w: u128 = (xs.1 - xs.0) as u128;
    let h: u128 = (ys.1 - ys.0) as u128;
    proof {
        assert(w * h == area);
        lemma_level(sum as int, area);
    }
    let share: u128 = 125 * (w * h);
    let whole: u128 = sum / share;
    let rest: u128 = sum % share;
    (512 * whole + (512 * rest) / share) as i64
}

fn cosine_quarter(j: u32) -> (c: i64)
    requires
        j <= 32,
    ensures
        c == quarter_cosine(j as int),
        0 <= c <= 65536,
{
    if j == 0 {
        65536
    } else if j == 1 {
        65457
    } else if j == 2 {
        65220
    } else if j == 3 {
        64827
    } else if j == 4 {
        64277
    } else if j == 5 {
        63572
    } else if j == 6 {
        62714
    } else if j == 7 {
        61705
    } else if j == 8 {
        60547
    } else if j == 9 {
        59244
    } else if j == 10 {
        57798
    } else if j == 11 {
        56212
    } else if j == 12 {
        54491
    } else if j == 13 {
        52639
    } else if j == 14 {
        50660
    } else if j == 15 {
        48559
    } else if j == 16 {
        46341
    } else if j == 17 {
        44011
    } else if j == 18 {
        41576
    } else if j == 19 {
        39040
    } else if j == 20 {
        36410
    } else if j == 21 {
        33692
    } else if j == 22 {
        30893
    } else if j == 23 {
        28020
    } else if j == 24 {
        25080
    } else if j == 25 {
        22078
    } else if j == 26 {
        19024
    } else if j == 27 {
        15924
    } else if j == 28 {
        12785
    } else if j == 29 {
        9616
    } else if j == 30 {
        6424
    } else if j == 31 {
        3216
    } else {
        0
    }
}

fn wave_value(k: u32, n: u32) -> (c: i64)
    requires
        k < 32,
        n < 32,
    ensures
        c == wave(k as int, n as int),
        -65536 <= c <= 65536,
{
    proof {
        assert(0 <= (2 * n + 1) * k <= 2016) by (nonlinear_arith)
            requires
                0 <= k < 32,
                0 <= n < 32,
        ;
    }
    let m: u32 = ((2 * n + 1) * k) % 128;
    if m <= 32 {
        cosine_quarter(m)
    } else if m <= 64 {
        -cosine_quarter(64 - m)
    } else if m <= 96 {
        -cosine_quarter(m - 64)
    } else {
        cosine_quarter(128 - m)
    }
}

/// Small grey images: 32 by 32 levels.
spec fn is_small(g: Seq<int>) -> bool {
    g.len() == 1024 && forall|i: int| 0 <= i < 1024 ==> 0 <= #[trigger] g[i] <= 1_044_480
}

fn row_value(g: &Vec<i64>, y: usize, k: u32) -> (r: i64)
    requires
        is_small(g@.map_values(|x: i64| x as int)),
        y < 32,
        k < 32,
    ensures
        r == row_wave(g@.map_values(|x: i64| x as int), y as int, k as int, 32),
        -2_199_023_255_552 <= r <= 2_199_023_255_552,
{
    let ghost all = g@.map_values(|x: i64| x as int);
    let mut sum: i64 = 0;
    let mut n: usize = 0;
    while n < 32
        invariant
            n <= 32,
            y < 32,
            k < 32,
            all == g@.map_values(|x: i64| x as int),
            is_small(all),
            sum == row_wave(all, y as int, k as int, n as int),
            -68_719_476_736 * n <= sum <= 68_719_476_736 * n,
        decreases 32 - n,
    {
        let a: i64 = g[y * 32 + n];
        let c: i64 = wave_value(k, n as u32);
        proof {
            assert(all[y * 32 + n] == a);
            assert(-68_719_476_736 <= a * c <= 68_719_476_736) by (nonlinear_arith)
                requires
                    0 <= a <= 1_044_480,
                    -65536 <= c <= 65536,
            ;
        }
        sum = sum + a * c;
        n = n + 1;
    }
    sum
}

/// Each row's waves, eight a row.
spec fn are_rows(r: Seq<i64>, g: Seq<int>) -> bool {
    r.len() == 256 && forall|i: int|
        0 <= i < 256 ==> #[trigger] r[i] == row_wave(g, i / 8, i % 8, 32) && -2_199_023_255_552
            <= r[i] <= 2_199_023_255_552
}

fn plane_value(rows: &Vec<i64>, v: u32, u: usize, Ghost(g): Ghost<Seq<int>>) -> (r: i64)
    requires
        are_rows(rows@, g),
        v < 32,
        u < 8,
    ensures
        r == plane_wave(g, v as int, u as int, 32),
{
    let mut sum: i64 = 0;
    let mut n: usize = 0;
    while n < 32
        invariant
            n <= 32,
            v < 32,
            u < 8,
            are_rows(rows@, g),
            sum == plane_wave(g, v as int, u as int, n as int),
            -144_115_188_075_855_872 * n <= sum <= 144_115_188_075_855_872 * n,
        decreases 32 - n,
    {
        let a: i64 = rows[n * 8 + u];
        let c: i64 = wave_value(v, n as u32);
        proof {
            let i = n * 8 + u;
            assert(i / 8 == n && i % 8 == u);
            assert(rows@[i] == row_wave(g, n as int, u as int, 32));
            assert(-144_115_188_075_855_872 <= a * c <= 144_115_188_075_855_872)
                by (nonlinear_arith)
                requires
                    -2_199_023_255_552 <= a <= 2_199_023_255_552,
                    -65536 <= c <= 65536,
            ;
        }
        sum = sum + a * c;
        n = n + 1;
    }
    sum
}

proof fn lemma_set_bit(h: u64, i: u64, j: u64)
    requires
        i < 64,
        j < 64,
    ensures
        bit(h | (1u64 << i), j as int) == (i == j || bit(h, j as int)),
{
    assert(((h | (1u64 << i)) & (1u64 << j) != 0) == (i == j || h & (1u64 << j) != 0))
        by (bit_vector)
        requires
            i < 64,
            j < 64,
    ;
}

proof fn lemma_no_bit(j: u64)
    ensures
        !bit(0, j as int),
{
    assert(0u64 & (1u64 << j) == 0) by (bit_vector);
}

fn threshold(low: &Vec<i64>) -> (h: u64)
    requires
        low@.len() == 64,
    ensures
        is_hash(h, low@.map_values(|x: i64| x as int)),
{
    let ghost all = low@.map_values(|x: i64| x as int);
    let sorted = order::sort(low);
    proof {
        order::law_sorted(low@);
        assert(as_words(all) =~= low@);
    }
    let twice: i128 = sorted[31] as i128 + sorted[32] as i128;
    let mut bits: u64 = 0;
    let mut i: u64 = 0;
    proof {
        assert forall|j: int| 0 <= j < 64 implies !#[trigger] bit(bits, j) by {
            lemma_no_bit(j as u64);
        }
    }
    while i < 64
        invariant
            i <= 64,
            low@.len() == 64,
            all == low@.map_values(|x: i64| x as int),
            twice == twice_median(all),
            forall|j: int|
                0 <= j < 64 ==> (#[trigger] bit(bits, j) <==> j < i && 2 * all[j] > twice_median(
                    all,
                )),
        decreases 64 - i,
    {
        let v: i128 = low[i as usize] as i128;
        if 2 * v > twice {
            let ghost before = bits;
            bits = bits | (1u64 << i);
            proof {
                assert forall|j: int| 0 <= j < 64 implies (#[trigger] bit(bits, j) <==> j < i + 1
                    && 2 * all[j] > twice_median(all)) by {
                    lemma_set_bit(before, i, j as u64);
                    assert(bit(before, j) <==> j < i && 2 * all[j] > twice_median(all));
                }
            }
        }
        i = i + 1;
    }
    bits
}

/// The hash of packed RGB pixels with the given row stride.
pub fn phash_rgb(data: &[u8], width: usize, height: usize, stride: usize) -> (h: u64)
    requires
        0 < width,
        0 < height,
        width * 32 <= usize::MAX,
        height * 32 <= usize::MAX,
        (height - 1) * stride + 3 * width <= data@.len(),
    ensures
        is_hash(
            h,
            low_block(
                small_gray(
                    raster::Pixels {
                        data: data@,
                        width: width as int,
                        height: height as int,
                        stride: stride as int,
                    },
                ),
            ),
        ),
{
    let ghost p = raster::Pixels {
        data: data@,
        width: width as int,
        height: height as int,
        stride: stride as int,
    };
    let ghost g = small_gray(p);
    let mut gray: Vec<i64> = Vec::new();
    let mut i: usize = 0;
    while i < 1024
        invariant
            i <= 1024,
            p == (raster::Pixels {
                data: data@,
                width: width as int,
                height: height as int,
                stride: stride as int,
            }),
            p.complete(),
            0 < width,
            0 < height,
            width * 32 <= usize::MAX,
            height * 32 <= usize::MAX,
            gray@.len() == i,
            forall|j: int|
                0 <= j < i ==> #[trigger] gray@[j] == mean_gray(p, j) && 0 <= gray@[j]
                    <= 1_044_480,
        decreases 1024 - i,
    {
        let xs = box_bounds(i % 32, width);
        let ys = box_bounds(i / 32, height);
        let level: i64 = read_box(data, stride, xs, ys, Ghost(p));
        gray.push(level);
        i = i + 1;
    }
    proof {
        assert(gray@.map_values(|x: i64| x as int) =~= g);
        assert(is_small(g));
    }
    let mut rows: Vec<i64> = Vec::new();
    let mut r: usize = 0;
    while r < 256
        invariant
            r <= 256,
            is_small(g),
            gray@.map_values(|x: i64| x as int) == g,
            rows@.len() == r,
            forall|i: int|
                0 <= i < r ==> #[trigger] rows@[i] == row_wave(g, i / 8, i % 8, 32)
                    && -2_199_023_255_552 <= rows@[i] <= 2_199_023_255_552,
        decreases 256 - r,
    {
        let x: i64 = row_value(&gray, r / 8, (r % 8) as u32);
        rows.push(x);
        r = r + 1;
    }
    let mut low: Vec<i64> = Vec::new();
    let mut k: usize = 0;
    while k < 64
        invariant
            k <= 64,
            are_rows(rows@, g),
            low@.len() == k,
            forall|i: int| 0 <= i < k ==> #[trigger] low@[i] == plane_wave(g, i / 8, i % 8, 32),
        decreases 64 - k,
    {
        let x: i64 = plane_value(&rows, (k / 8) as u32, k % 8, Ghost(g));
        low.push(x);
        k = k + 1;
    }
    proof {
        assert(low@.map_values(|x: i64| x as int) =~= low_block(g));
    }
    threshold(&low)
}

/// The hash of an RGB24 frame; none for other pixel formats or empty frames.
pub fn phash_frame(frame: &FrameBuffer) -> (r: Option<u64>)
    requires
        frame.wf(),
        frame.spec_meta().width * 32 <= usize::MAX,
        frame.spec_meta().height * 32 <= usize::MAX,
    ensures
        r is Some <==> frame.spec_meta().format == PixelFormat::Rgb24 && frame.spec_meta().width > 0
            && frame.spec_meta().height > 0,
        r matches Some(h) ==> is_hash(
            h,
            low_block(
                small_gray(
                    raster::Pixels {
                        data: frame.spec_data(),
                        width: frame.spec_meta().width as int,
                        height: frame.spec_meta().height as int,
                        stride: frame.spec_meta().stride as int,
                    },
                ),
            ),
        ),
{
    let m = frame.meta();
    if m.format != PixelFormat::Rgb24 || m.width == 0 || m.height == 0 {
        return None;
    }
    proof {
        let (h, stride) = (m.height as int, m.stride as int);
        assert((h - 1) * stride + stride == stride * h) by (nonlinear_arith);
    }
    Some(phash_rgb(frame.data(), m.width as usize, m.height as usize, m.stride))
}

/// Two images hold the same pixels, whatever lies between their rows.
pub open spec fn same_pixels(p: raster::Pixels, q: raster::Pixels) -> bool {
    &&& p.width == q.width
    &&& p.height == q.height
    &&& forall|y: int, b: int|
        #![trigger p.data[y * p.stride + b]]
        0 <= y < p.height && 0 <= b < 3 * p.width ==> p.data[y * p.stride + b] == q.data[y
            * q.stride + b]
}

proof fn lemma_same_row(
    p: raster::Pixels,
    q: raster::Pixels,
    y: int,
    x: int,
    x1: int,
    c: int,
)
    requires
        same_pixels(p, q),
        0 <= y < p.height,
        0 <= x,
        x1 <= p.width,
        0 <= c < 3,
    ensures
        raster::row_sum(p.data, y * p.stride, x, x1, 1, c) == raster::row_sum(
            q.data,
            y * q.stride,
            x,
            x1,
            1,
            c,
        ),
    decreases raster::larger(x1 - x, 0),
{
    if x < x1 {
        lemma_same_row(p, q, y, x + 1, x1, c);
        assert(p.data[y * p.stride + (3 * x + c)] == q.data[y * q.stride + (3 * x + c)]);
    }
}

proof fn lemma_same_box(p: raster::Pixels, q: raster::Pixels, x0: int, x1: int, y: int, y1: int)
    requires
        same_pixels(p, q),
        0 <= x0,
        x1 <= p.width,
        0 <= y,
        y1 <= p.height,
    ensures
        box_luma(p, x0, x1, y, y1) == box_luma(q, x0, x1, y, y1),
    decreases raster::larger(y1 - y, 0),
{
    if y < y1 {
        lemma_same_box(p, q, x0, x1, y + 1, y1);
        lemma_same_row(p, q, y, x0, x1, 0);
        lemma_same_row(p, q, y, x0, x1, 1);
        lemma_same_row(p, q, y, x0, x1, 2);
    }
}

/// Bytes between rows do not matter: images with the same pixels have the same hash.
pub proof fn law_padding_is_ignored(p: raster::Pixels, q: raster::Pixels, a: u64, b: u64)
    requires
        p.complete(),
        q.complete(),
        same_pixels(p, q),
        is_hash(a, low_block(small_gray(p))),
        is_hash(b, low_block(small_gray(q))),
    ensures
        a == b,
{
    assert forall|i: int| 0 <= i < 1024 implies mean_gray(p, i) == mean_gray(q, i) by {
        let (gx, gy) = (i % 32, i / 32);
        lemma_box(gx, p.width);
        lemma_box(gy, p.height);
        lemma_same_box(
            p,
            q,
            raster::cell_from(gx, p.width, 32),
            raster::cell_to(gx, p.width, 32),
            raster::cell_from(gy, p.height, 32),
            raster::cell_to(gy, p.height, 32),
        );
    }
    assert(small_gray(p) =~= small_gray(q));
    law_hash_is_a_function(a, b, low_block(small_gray(p)));
}

proof fn lemma_half_turn(m: int)
    requires
        0 <= m < 128,
    ensures
        turn_cosine((128 - m) % 128) == turn_cosine(m),
        m <= 64 ==> turn_cosine(64 - m) == -turn_cosine(m),
        m > 64 ==> turn_cosine(192 - m) == -turn_cosine(m),
{
    if m == 0 {
        assert((128int - 0) % 128 == 0);
    } else {
        assert((128 - m) % 128 == 128 - m);
    }
}

/// The waves that a picture is measured with are even or odd about its middle, as their number is,
/// and the first is level.
pub proof fn law_waves_mirror(k: int, n: int)
    requires
        0 <= k < 8,
        0 <= n < 32,
    ensures
        wave(0, n) == 65536,
        k % 2 == 0 ==> wave(k, 31 - n) == wave(k, n),
        k % 2 == 1 ==> wave(k, 31 - n) == -wave(k, n),
{
    let x = (2 * n + 1) * k;
    let y = (2 * (31 - n) + 1) * k;
    assert(y == 64 * k - x) by (nonlinear_arith)
        requires
            x == (2 * n + 1) * k,
            y == (2 * (31 - n) + 1) * k,
    ;
    assert((2 * n + 1) * 0 == 0);
    let m = x % 128;
    lemma_half_turn(m);
    lemma_mirrored(k, x, y);
}

proof fn lemma_mirrored(k: int, x: int, y: int)
    requires
        y == 64 * k - x,
    ensures
        k % 2 == 0 ==> y % 128 == (128 - x % 128) % 128,
        k % 2 == 1 && x % 128 <= 64 ==> y % 128 == 64 - x % 128,
        k % 2 == 1 && x % 128 > 64 ==> y % 128 == 192 - x % 128,
{
    let j = k / 2;
    let q = x / 128;
    let m = x % 128;
    assert(y == 128 * (j - q) + 64 * (k % 2) - m);
}

proof fn lemma_row_wave_scales(g: Seq<int>, h: Seq<int>, y: int, k: int, n: int, f: int)
    requires
        forall|i: int| 0 <= i < n ==> #[trigger] h[y * 32 + i] == f * g[y * 32 + i],
    ensures
        row_wave(h, y, k, n) == f * row_wave(g, y, k, n),
    decreases n,
{
    if n > 0 {
        lemma_row_wave_scales(g, h, y, k, n - 1, f);
        let (a, b, w) = (row_wave(g, y, k, n - 1), g[y * 32 + (n - 1)], wave(k, n - 1));
        assert(h[y * 32 + (n - 1)] == f * b);
        assert(f * a + (f * b) * w == f * (a + b * w)) by (nonlinear_arith);
    } else {
        assert(f * 0 == 0);
    }
}

proof fn lemma_plane_wave_scales(g: Seq<int>, h: Seq<int>, v: int, u: int, n: int, f: int)
    requires
        n <= 32,
        forall|y: int, i: int|
            0 <= y < n && 0 <= i < 32 ==> #[trigger] h[y * 32 + i] == f * g[y * 32 + i],
    ensures
        plane_wave(h, v, u, n) == f * plane_wave(g, v, u, n),
    decreases n,
{
    if n > 0 {
        lemma_plane_wave_scales(g, h, v, u, n - 1, f);
        lemma_row_wave_scales(g, h, n - 1, u, 32, f);
        let (a, b, w) = (plane_wave(g, v, u, n - 1), row_wave(g, n - 1, u, 32), wave(v, n - 1));
        assert(f * a + (f * b) * w == f * (a + b * w)) by (nonlinear_arith);
    } else {
        assert(f * 0 == 0);
    }
}

/// Frequencies grow with the picture: a picture whose every cell is `f` times as bright has
/// frequencies `f` times as strong.
pub proof fn law_frequencies_scale(g: Seq<int>, h: Seq<int>, f: int, i: int)
    requires
        g.len() == 1024,
        h.len() == 1024,
        forall|k: int| 0 <= k < 1024 ==> #[trigger] h[k] == f * g[k],
        0 <= i < 64,
    ensures
        low_block(h)[i] == f * low_block(g)[i],
{
    assert forall|y: int, k: int| 0 <= y < 32 && 0 <= k < 32 implies #[trigger] h[y * 32 + k] == f
        * g[y * 32 + k] by {
        assert(0 <= y * 32 + k < 1024);
    }
    lemma_plane_wave_scales(g, h, i / 8, i % 8, 32, f);
}

} // verus!
