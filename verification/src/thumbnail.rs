//! Thumbnails: resize an RGB frame so its longest side is `max_dim` pixels and
//! encode it as lossy WebP.

use image::imageops::FilterType;
use image::{ImageBuffer, Rgb};
use vstd::prelude::*;

use crate::frame::{FrameBuffer, PixelFormat};

verus! {

/// Thumbnail errors.
#[derive(Debug)]
pub enum ThumbnailError {
    /// Only RGB24 frames can be thumbnailed.
    Format(PixelFormat),
    /// Frame has zero size.
    Empty,
    /// The encoder failed.
    Encode(String),
}

/// `a / b` rounded to the nearest integer, halves up.
pub open spec fn rounded(a: int, b: int) -> int {
    (2 * a + b) / (2 * b)
}

/// The larger of two numbers.
pub open spec fn larger(a: int, b: int) -> int {
    if a < b {
        b
    } else {
        a
    }
}

/// The size with the longest side at `max_dim`, never upscaled and never empty.
pub open spec fn fitted(width: int, height: int, max_dim: int) -> (int, int) {
    if max_dim == 0 || (width <= max_dim && height <= max_dim) {
        (larger(width, 1), larger(height, 1))
    } else {
        let longest = larger(width, height);
        (
            larger(rounded(width * max_dim, longest), 1),
            larger(rounded(height * max_dim, longest), 1),
        )
    }
}

fn scaled_side(side: u32, max_dim: u32, longest: u32) -> (r: u32)
    requires
        0 < longest,
        side <= longest,
        max_dim <= longest,
    ensures
        r == larger(rounded(side * max_dim, longest as int), 1),
        r <= max_dim || r == 1,
        r <= side || r == 1,
{
    proof {
        let (s, m, l) = (side as int, max_dim as int, longest as int);
        assert(0 <= s * m <= l * m && s * m <= s * l) by (nonlinear_arith)
            requires
                0 <= s <= l,
                0 <= m <= l,
        ;
        assert(l * m <= 0xffff_ffff * 0xffff_ffff) by (nonlinear_arith)
            requires
                0 <= l <= 0xffff_ffff,
                0 <= m <= 0xffff_ffff,
        ;
        lemma_rounded_bound(s * m, l, m);
        lemma_rounded_bound(s * m, l, s);
    }
    let r: u128 = (2 * ((side as u128) * (max_dim as u128)) + (longest as u128)) / (2 * (
    longest as u128));
    if r < 1 {
        1
    } else {
        r as u32
    }
}

proof fn lemma_rounded_bound(a: int, b: int, k: int)
    requires
        0 <= a <= b * k,
        0 < b,
        0 <= k,
    ensures
        0 <= rounded(a, b) <= k,
{
    assert(0 <= (2 * a + b) / (2 * b) <= k) by (nonlinear_arith)
        requires
            0 <= a <= b * k,
            0 < b,
            0 <= k,
    {
        let q = (2 * a + b) / (2 * b);
        let r = (2 * a + b) % (2 * b);
        assert(2 * a + b == (2 * b) * q + r);
        assert(0 <= r);
        if q > k {
            assert((2 * b) * q >= (2 * b) * (k + 1));
        }
    }
}

/// Target size with the longest side at `max_dim`, never upscaling.
pub fn fit(width: u32, height: u32, max_dim: u32) -> (r: (u32, u32))
    ensures
        (r.0 as int, r.1 as int) == fitted(width as int, height as int, max_dim as int),
        r.0 >= 1 && r.1 >= 1,
        r.0 <= width || r.0 == 1,
        r.1 <= height || r.1 == 1,
{
    if max_dim == 0 || (width <= max_dim && height <= max_dim) {
        return (
            if width < 1 {
                1
            } else {
                width
            },
            if height < 1 {
                1
            } else {
                height
            },
        );
    }
    let longest: u32 = if width < height {
        height
    } else {
        width
    };
    (scaled_side(width, max_dim, longest), scaled_side(height, max_dim, longest))
}

/// The fitted size has no side over `max_dim` (a side of one pixel is always allowed), keeps the
/// orientation, and a picture that fits already keeps its size.
pub proof fn law_fit_bounds(w: u32, h: u32, m: u32)
    requires
        w > 0,
        h > 0,
        m > 0,
    ensures
        fitted(w as int, h as int, m as int).0 <= m,
        fitted(w as int, h as int, m as int).1 <= m,
        w <= h ==> fitted(w as int, h as int, m as int).0 <= fitted(w as int, h as int, m as int).1,
        h <= w ==> fitted(w as int, h as int, m as int).1 <= fitted(w as int, h as int, m as int).0,
        w <= m && h <= m ==> fitted(w as int, h as int, m as int) == (w as int, h as int),
{
    if !(w <= m && h <= m) {
        let l = larger(w as int, h as int);
        assert(0 <= w * m <= l * m && 0 <= h * m <= l * m) by (nonlinear_arith)
            requires
                0 <= w <= l,
                0 <= h <= l,
                0 <= m,
        ;
        lemma_rounded_bound(w * m, l, m as int);
        lemma_rounded_bound(h * m, l, m as int);
        if w <= h {
            lemma_rounded_monotone(w * m, h * m, l, w as int, h as int, m as int);
        }
        if h <= w {
            lemma_rounded_monotone(h * m, w * m, l, h as int, w as int, m as int);
        }
    }
}

proof fn lemma_rounded_monotone(a: int, b: int, l: int, x: int, y: int, m: int)
    requires
        a == x * m,
        b == y * m,
        0 <= x <= y,
        0 <= m,
        0 < l,
    ensures
        rounded(a, l) <= rounded(b, l),
{
    assert(a <= b) by (nonlinear_arith)
        requires
            a == x * m,
            b == y * m,
            0 <= x <= y,
            0 <= m,
    ;
    vstd::arithmetic::div_mod::lemma_div_is_ordered(2 * a + l, 2 * b + l, 2 * l);
}

/// The rows of a frame from `y` on, without padding.
pub open spec fn rows_from(f: FrameBuffer, y: int) -> Seq<u8>
    decreases f.spec_meta().height - y,
{
    if y < 0 || y >= f.spec_meta().height {
        Seq::empty()
    } else {
        f.spec_row(y) + rows_from(f, y + 1)
    }
}

/// The packed RGB pixels of a frame, or why there are none.
pub open spec fn packed_rgb(f: FrameBuffer) -> Result<Seq<u8>, ThumbnailError> {
    if f.spec_meta().format != PixelFormat::Rgb24 {
        Err(ThumbnailError::Format(f.spec_meta().format))
    } else if f.spec_meta().width == 0 || f.spec_meta().height == 0 {
        Err(ThumbnailError::Empty)
    } else {
        Ok(rows_from(f, 0))
    }
}

/// Copies the pixels of a frame, dropping row padding.
pub fn frame_to_rgb(frame: &FrameBuffer) -> (r: Result<Vec<u8>, ThumbnailError>)
    requires
        frame.wf(),
    ensures
        match r {
            Ok(v) => packed_rgb(*frame) == Ok::<Seq<u8>, ThumbnailError>(v@) && v@.len()
                == frame.spec_meta().width * frame.spec_meta().height * 3,
            Err(e) => packed_rgb(*frame) == Err::<Seq<u8>, ThumbnailError>(e),
        },
{
    let m = frame.meta();
    if m.format != PixelFormat::Rgb24 {
        return Err(ThumbnailError::Format(m.format));
    }
    if m.width == 0 || m.height == 0 {
        return Err(ThumbnailError::Empty);
    }
    let n: usize = frame.data().len();
    let mut buf: Vec<u8> = Vec::new();
    let mut y: u32 = 0;
    proof {
        assert(buf@ + rows_from(*frame, 0) =~= rows_from(*frame, 0));
    }
    while y < m.height
        invariant
            y <= m.height,
            m == frame.spec_meta(),
            m.format == PixelFormat::Rgb24,
            frame.wf(),
            n == frame.spec_data().len(),
            buf@ + rows_from(*frame, y as int) == rows_from(*frame, 0),
            buf@.len() == m.width * 3 * y,
        decreases m.height - y,
    {
        proof {
            let s = m.stride as int;
            assert(y * s + s <= s * m.height && 0 <= y * s) by (nonlinear_arith)
                requires
                    0 <= y < m.height,
                    0 <= s,
            ;
        }
        let row = frame.row(y);
        let ghost before = buf@;
        let mut i: usize = 0;
        while i < row.len()
            invariant
                i <= row@.len(),
                buf@ == before + row@.take(i as int),
            decreases row@.len() - i,
        {
            buf.push(row[i]);
            proof {
                assert(buf@ =~= before + row@.take(i + 1));
            }
            i = i + 1;
        }
        proof {
            assert(row@.take(i as int) =~= row@);
            assert(buf@ + rows_from(*frame, y + 1) =~= before + (row@ + rows_from(*frame, y + 1)));
            assert(m.width * 3 * (y + 1) == m.width * 3 * y + m.width * 3) by (nonlinear_arith);
        }
        y = y + 1;
    }
    proof {
        assert(buf@ + rows_from(*frame, y as int) =~= buf@);
        assert(m.width * 3 * m.height == m.width * m.height * 3) by (nonlinear_arith);
    }
    Ok(buf)
}

/// What the triangle filter makes of `pixels` (packed RGB, `width` by `height`) at `tw` by `th`.
pub uninterp spec fn triangle_resized(
    pixels: Seq<u8>,
    width: u32,
    height: u32,
    tw: u32,
    th: u32,
) -> Seq<u8>;

/// The longest side of a WebP picture.
pub const MAX_SIDE: u32 = 16_383;

/// The longest side that can be scaled to any smaller one.
pub const MAX_SCALED: u32 = 4_194_304;

/// A side can be scaled down to another one.
pub open spec fn scales(from: u32, to: u32) -> bool {
    from <= MAX_SCALED || to <= MAX_SIDE
}

/// The rows that are scaled first, four numbers of four bytes to the pixel, can be addressed.
pub open spec fn rows_fit(width: u32, th: u32) -> bool {
    width * th * 16 <= isize::MAX
}

/// Scales packed RGB pixels down with `image::imageops::resize` and its triangle filter.
///
/// Claimed of it: the result depends on the pixels and the two sizes alone, and it is packed RGB
/// of the target size. The filter's arithmetic is not described. It is done in 32-bit floating
/// point, and panics where a side is so long, and the target so close to it, that no pixel is left
/// under the filter, or where the rows that are scaled first cannot be addressed, so such sizes are
/// left out.
#[verifier::external_body]
fn resize_triangle(pixels: Vec<u8>, width: u32, height: u32, tw: u32, th: u32) -> (r: Vec<u8>)
    requires
        pixels@.len() == width * height * 3,
        1 <= tw <= width,
        1 <= th <= height,
        scales(width, tw),
        scales(height, th),
        rows_fit(width, th),
    ensures
        r@ == triangle_resized(pixels@, width, height, tw, th),
        r@.len() == tw * th * 3,
{
    let img = ImageBuffer::<Rgb<u8>, Vec<u8>>::from_raw(width, height, pixels).unwrap();
    image::imageops::resize(&img, tw, th, FilterType::Triangle).into_raw()
}

/// The WebP file that the lossy encoder makes of packed RGB pixels, or its error.
pub uninterp spec fn webp_lossy(pixels: Seq<u8>, width: u32, height: u32, quality: u8) -> Result<
    Seq<u8>,
    Seq<char>,
>;

/// Encodes packed RGB pixels with `webp::Encoder::from_rgb` and `encode_simple`, lossy, at a
/// quality from 0 to 100.
///
/// Claimed of it: the bytes, or the error's debug text, depend on the pixels, the size and the
/// quality alone. The format of the bytes is not described.
#[verifier::external_body]
fn encode_lossy(pixels: &[u8], width: u32, height: u32, quality: u8) -> (r: Result<Vec<u8>, String>)
    requires
        pixels@.len() == width * height * 3,
        1 <= width <= 715_827_882,
        1 <= height <= 0x7fff_ffff,
        quality <= 100,
    ensures
        match r {
            Ok(b) => webp_lossy(pixels@, width, height, quality) == Ok::<Seq<u8>, Seq<char>>(b@),
            Err(m) => webp_lossy(pixels@, width, height, quality) == Err::<Seq<u8>, Seq<char>>(m@),
        },
{
    match webp::Encoder::from_rgb(pixels, width, height).encode_simple(false, quality.into()) {
        Ok(mem) => Ok(mem.to_vec()),
        Err(e) => Err(format!("{e:?}")),
    }
}

/// The pixels and size that a thumbnail of `pixels` is encoded from.
pub open spec fn thumbnail_pixels(pixels: Seq<u8>, width: u32, height: u32, max_dim: u32) -> (
    Seq<u8>,
    u32,
    u32,
) {
    let (tw, th) = fitted(width as int, height as int, max_dim as int);
    if tw == width && th == height {
        (pixels, width, height)
    } else {
        (
            triangle_resized(pixels, width, height, tw as u32, th as u32),
            tw as u32,
            th as u32,
        )
    }
}

/// A thumbnail is of a size that can be scaled to.
pub open spec fn can_shrink(width: u32, height: u32, max_dim: u32) -> bool {
    let (tw, th) = fitted(width as int, height as int, max_dim as int);
    (tw == width && th == height) || (scales(width, tw as u32) && scales(height, th as u32)
        && rows_fit(width, th as u32))
}

/// What the encoder says of a picture that is too long or too wide.
pub open spec fn too_large_text() -> Seq<char> {
    "VP8_ENC_ERROR_BAD_DIMENSION"@
}

/// Encodes a WebP thumbnail. Returns the bytes and the thumbnail size. Qualities over 100 count
/// as 100. A thumbnail that is too large to be scaled to is refused as the encoder refuses large
/// pictures.
pub fn encode_webp_thumbnail(frame: &FrameBuffer, max_dim: u32, quality: u8) -> (r: Result<
    (Vec<u8>, u32, u32),
    ThumbnailError,
>)
    requires
        frame.wf(),
        frame.spec_meta().width <= 715_827_882,
        frame.spec_meta().height <= 0x7fff_ffff,
    ensures
        match packed_rgb(*frame) {
            Err(e) => r == Err::<(Vec<u8>, u32, u32), ThumbnailError>(e),
            Ok(px) => if !can_shrink(
                frame.spec_meta().width,
                frame.spec_meta().height,
                max_dim,
            ) {
                r matches Err(ThumbnailError::Encode(s)) && s@ == too_large_text()
            } else {
                let (small, tw, th) = thumbnail_pixels(
                    px,
                    frame.spec_meta().width,
                    frame.spec_meta().height,
                    max_dim,
                );
                match webp_lossy(
                    small,
                    tw,
                    th,
                    if quality < 100 {
                        quality
                    } else {
                        100u8
                    },
                ) {
                    Ok(b) => r matches Ok((v, w, h)) && v@ == b && w == tw && h == th,
                    Err(m) => r matches Err(ThumbnailError::Encode(s)) && s@ == m,
                }
            },
        },
{
    let pixels = match frame_to_rgb(frame) {
        Ok(p) => p,
        Err(e) => {
            return Err(e);
        },
    };
    let m = frame.meta();
    let (tw, th) = fit(m.width, m.height, max_dim);
    let small = if tw == m.width && th == m.height {
        pixels
    } else {
        proof {
            let (w, h) = (m.width as int, th as int);
            assert(0 <= w * h <= 0xffff_ffff * 0xffff_ffff) by (nonlinear_arith)
                requires
                    0 <= w <= 0xffff_ffff,
                    0 <= h <= 0xffff_ffff,
            ;
        }
        if (m.width > MAX_SCALED && tw > MAX_SIDE) || (m.height > MAX_SCALED && th > MAX_SIDE)
            || m.width as u128 * th as u128 * 16 > isize::MAX as u128 {
            return Err(ThumbnailError::Encode("VP8_ENC_ERROR_BAD_DIMENSION".to_owned()));
        }
        resize_triangle(pixels, m.width, m.height, tw, th)
    };
    let q: u8 = if quality < 100 {
        quality
    } else {
        100
    };
    match encode_lossy(small.as_slice(), tw, th, q) {
        Ok(b) => Ok((b, tw, th)),
        Err(e) => Err(ThumbnailError::Encode(e)),
    }
}

/// A picture that is made smaller keeps its proportions: each side is, to the nearest pixel, the
/// old one times the limit over the longest side, so that the longest is as long as the limit, and
/// none is shorter than a pixel.
pub proof fn law_sides_shrink_in_proportion(w: u32, h: u32, m: u32)
    requires
        m > 0,
        w > m || h > m,
    ensures
        ({
            let (tw, th) = fitted(w as int, h as int, m as int);
            let longest = if w > h {
                w as int
            } else {
                h as int
            };
            &&& tw >= 1 && th >= 1
            &&& w >= h ==> tw == m
            &&& h >= w ==> th == m
            &&& tw == 1 || (-longest <= 2 * (tw * longest - w * m) <= longest)
            &&& th == 1 || (-longest <= 2 * (th * longest - h * m) <= longest)
        }),
{
    let l = larger(w as int, h as int);
    lemma_nearest(w * m, l);
    lemma_nearest(h * m, l);
    assert((2 * (l * m) + l) / (2 * l) == m) by (nonlinear_arith)
        requires
            l > 0,
            m > 0,
    ;
    assert(w >= h ==> w * m == l * m);
    assert(h >= w ==> h * m == l * m);
}

proof fn lemma_nearest(a: int, b: int)
    requires
        b > 0,
    ensures
        -b <= 2 * (rounded(a, b) * b - a) <= b,
{
    let (x, y) = (2 * a + b, 2 * b);
    let q = x / y;
    assert(y * q <= x < y * q + y) by (nonlinear_arith)
        requires
            q == x / y,
            y > 0,
    ;
    assert(y * q == 2 * (q * b)) by (nonlinear_arith)
        requires
            y == 2 * b,
    ;
}

/// The packed pixels of a frame are its rows in turn: byte `x` of row `y` stands `y` rows further.
pub proof fn law_packed_pixels_are_rows(f: FrameBuffer, y0: int, y: int, x: int)
    requires
        0 <= y0 <= f.spec_meta().height,
        forall|k: int| 0 <= k < f.spec_meta().height ==> (#[trigger] f.spec_row(k)).len() == f.spec_meta().width * 3,
    ensures
        ({
            let row = f.spec_meta().width * 3;
            &&& rows_from(f, y0).len() == (f.spec_meta().height - y0) * row
            &&& y0 <= y < f.spec_meta().height && 0 <= x < row ==> rows_from(f, y0)[(y - y0) * row
                + x] == f.spec_row(y)[x]
        }),
    decreases f.spec_meta().height - y0,
{
    let row = f.spec_meta().width * 3;
    let h = f.spec_meta().height as int;
    if y0 < h {
        law_packed_pixels_are_rows(f, y0 + 1, y, x);
        assert(f.spec_row(y0).len() == row);
        assert((h - y0) * row == row + (h - (y0 + 1)) * row) by (nonlinear_arith);
        if y0 <= y < h && 0 <= x < row {
            assert((y - y0) * row == (y - (y0 + 1)) * row + row) by (nonlinear_arith);
            if y > y0 {
                assert(0 <= (y - (y0 + 1)) * row && (y - (y0 + 1)) * row + x < (h - (y0 + 1))
                    * row) by (nonlinear_arith)
                    requires
                        y0 < y < h,
                        0 <= x < row,
                ;
            } else {
                assert((y - y0) * row == 0) by (nonlinear_arith)
                    requires
                        y == y0,
                ;
            }
        }
    } else {
        assert((h - y0) * row == 0) by (nonlinear_arith)
            requires
                h == y0,
        ;
    }
}

} // verus!
