//! Decoded frames: pixel layouts, row access and geometry.

use vstd::prelude::*;
use vstd::slice::slice_subrange;

use crate::timestamp::Timestamp;

verus! {

/// Pixel layout of a [`FrameBuffer`].
#[derive(Clone, Copy, Debug, PartialEq, Eq, Structural)]
pub enum PixelFormat {
    /// Packed 8-bit RGB, 3 bytes per pixel.
    Rgb24,
    /// Planar Y followed by interleaved UV at half resolution.
    Nv12,
    /// Single 8-bit luma plane.
    Gray8,
}

impl PixelFormat {
    /// Bytes per pixel in the first plane.
    pub open spec fn spec_bytes_per_pixel(self) -> nat {
        match self {
            PixelFormat::Rgb24 => 3,
            _ => 1,
        }
    }

    /// Bytes of a tightly packed frame: the luma or RGB plane, and for NV12 a half-resolution
    /// plane of two bytes per chroma sample, rounded up.
    pub open spec fn spec_frame_size(self, width: nat, height: nat) -> nat {
        match self {
            PixelFormat::Rgb24 => width * height * 3,
            PixelFormat::Gray8 => width * height,
            PixelFormat::Nv12 => width * height + 2 * ((width + 1) / 2) * ((height + 1) / 2),
        }
    }

    /// Bytes per pixel in the first plane.
    pub fn bytes_per_pixel(&self) -> (n: usize)
        ensures
            n == self.spec_bytes_per_pixel(),
    {
        match self {
            PixelFormat::Rgb24 => 3,
            PixelFormat::Nv12 | PixelFormat::Gray8 => 1,
        }
    }

    /// Total bytes for a tightly packed frame of this size.
    pub fn frame_size(&self, width: u32, height: u32) -> (n: usize)
        requires
            self.spec_frame_size(width as nat, height as nat) <= usize::MAX,
        ensures
            n == self.spec_frame_size(width as nat, height as nat),
    {
        let (w, h): (u128, u128) = (width as u128, height as u128);
        proof {
            lemma_area(width as int, height as int);
            let (hw, hh) = ((width as int + 1) / 2, (height as int + 1) / 2);
            lemma_area(hw, hh);
            assert(2 * hw * hh == 2 * (hw * hh)) by (nonlinear_arith);
        }
        let n: u128 = match self {
            PixelFormat::Rgb24 => w * h * 3,
            PixelFormat::Gray8 => w * h,
            PixelFormat::Nv12 => w * h + 2 * (((w + 1) / 2) * ((h + 1) / 2)),
        };
        n as usize
    }
}

proof fn lemma_area(w: int, h: int)
    requires
        0 <= w <= 0xffff_ffff,
        0 <= h <= 0xffff_ffff,
    ensures
        0 <= w * h <= 0xffff_ffff * 0xffff_ffff,
{
    assert(0 <= w * h <= 0xffff_ffff * 0xffff_ffff) by (nonlinear_arith)
        requires
            0 <= w <= 0xffff_ffff,
            0 <= h <= 0xffff_ffff,
    ;
}

/// Timing and geometry that accompany pixel data.
#[derive(Clone, Copy, Debug, PartialEq, Eq, Structural)]
pub struct FrameMeta {
    /// Width.
    pub width: u32,
    /// Height.
    pub height: u32,
    /// Row stride in bytes.
    pub stride: usize,
    /// Pixel layout.
    pub format: PixelFormat,
    /// PTS in the track timebase.
    pub pts: i64,
    /// Time in seconds.
    pub t: Timestamp,
    /// Keyframe flag.
    pub is_keyframe: bool,
    /// Source width.
    pub source_width: u32,
    /// Source height.
    pub source_height: u32,
}

/// One decoded frame at a known time. Its bytes are a copy on the heap or come from a slot of
/// shared memory that the frame holds.
#[derive(Debug)]
pub struct FrameBuffer {
    meta: FrameMeta,
    data: Vec<u8>,
    slot: Option<u32>,
}

impl FrameBuffer {
    /// Timing and geometry.
    pub closed spec fn spec_meta(self) -> FrameMeta {
        self.meta
    }

    /// All bytes, first plane first.
    pub closed spec fn spec_data(self) -> Seq<u8> {
        self.data@
    }

    /// The shared-memory slot that holds the bytes, if one does.
    pub closed spec fn spec_slot(self) -> Option<u32> {
        self.slot
    }

    /// Every row of the first plane is there: rows do not overlap and the last one is complete.
    pub open spec fn wf(self) -> bool {
        let m = self.spec_meta();
        m.width * m.format.spec_bytes_per_pixel() <= m.stride && m.stride * m.height
            <= self.spec_data().len()
    }

    /// The bytes of row `y` of the first plane, without padding.
    pub open spec fn spec_row(self, y: int) -> Seq<u8> {
        let m = self.spec_meta();
        let start = y * m.stride;
        let len = m.width * m.format.spec_bytes_per_pixel();
        let n = self.spec_data().len();
        let end = if start + len < n {
            start + len
        } else {
            n as int
        };
        self.spec_data().subrange(
            if start < end {
                start
            } else {
                end
            },
            end,
        )
    }

    /// Builds a frame over heap memory. For whole rows `data` holds at least `stride * height`
    /// bytes.
    pub fn owned(meta: FrameMeta, data: Vec<u8>) -> (f: FrameBuffer)
        ensures
            f.spec_meta() == meta,
            f.spec_data() == data@,
            f.spec_slot() is None,
    {
        FrameBuffer { meta, data, slot: None }
    }

    /// Builds a frame over the bytes of a shared-memory slot.
    pub fn shared(meta: FrameMeta, slot: u32, data: Vec<u8>) -> (f: FrameBuffer)
        ensures
            f.spec_meta() == meta,
            f.spec_data() == data@,
            f.spec_slot() == Some(slot),
    {
        FrameBuffer { meta, data, slot: Some(slot) }
    }

    /// All bytes of the frame, first plane first.
    pub fn data(&self) -> (d: &[u8])
        ensures
            d@ == self.spec_data(),
    {
        self.data.as_slice()
    }

    /// One row of the first plane, without padding.
    pub fn row(&self, y: u32) -> (r: &[u8])
        requires
            y * self.spec_meta().stride + self.spec_meta().width
                * self.spec_meta().format.spec_bytes_per_pixel() <= usize::MAX,
        ensures
            r@ == self.spec_row(y as int),
    {
        proof {
            assert(y as int * self.meta.stride as int >= 0) by (nonlinear_arith);
            assert(self.meta.width * self.meta.format.spec_bytes_per_pixel() >= 0)
                by (nonlinear_arith);
        }
        let start: usize = y as usize * self.meta.stride;
        let len: usize = self.meta.width as usize * self.meta.format.bytes_per_pixel();
        let n: usize = self.data.len();
        let end: usize = if start + len < n {
            start + len
        } else {
            n
        };
        let from: usize = if start < end {
            start
        } else {
            end
        };
        slice_subrange(self.data.as_slice(), from, end)
    }

    /// Whether the pixels live in shared memory (a slot is held).
    pub fn is_shared(&self) -> (b: bool)
        ensures
            b == self.spec_slot() is Some,
    {
        self.slot.is_some()
    }

    /// A copy in heap memory that holds no slot.
    pub fn to_owned_frame(&self) -> (f: FrameBuffer)
        ensures
            f.spec_meta() == self.spec_meta(),
            f.spec_data() == self.spec_data(),
            f.spec_slot() is None,
    {
        let copy = self.data.clone();
        proof {
            assert(copy@ =~= self.data@);
        }
        FrameBuffer { meta: self.meta, data: copy, slot: None }
    }

    /// Timing and geometry without the pixels.
    pub fn meta(&self) -> (m: FrameMeta)
        ensures
            m == self.spec_meta(),
    {
        self.meta
    }

    /// RGB triple at a pixel; none if out of range or not RGB24.
    pub fn rgb_at(&self, x: u32, y: u32) -> (r: Option<[u8; 3]>)
        requires
            self.wf(),
        ensures
            r is Some <==> self.spec_meta().format == PixelFormat::Rgb24 && x
                < self.spec_meta().width && y < self.spec_meta().height,
            r matches Some(p) ==> p@ == self.spec_row(y as int).subrange(3 * x, 3 * x + 3),
    {
        if self.meta.format != PixelFormat::Rgb24 || x >= self.meta.width || y >= self.meta.height {
            return None;
        }
        proof {
            lemma_row_in_range(
                self.meta.stride as int,
                self.meta.height as int,
                y as int,
                self.data@.len() as int,
            );
        }
        let n: usize = self.data.len();
        let row = self.row(y);
        let i: usize = x as usize * 3;
        let p: [u8; 3] = [row[i], row[i + 1], row[i + 2]];
        proof {
            assert(p@ =~= self.spec_row(y as int).subrange(3 * x, 3 * x + 3));
        }
        Some(p)
    }
}

proof fn lemma_row_in_range(stride: int, height: int, y: int, n: int)
    requires
        0 <= stride,
        0 <= y < height,
        stride * height <= n,
    ensures
        0 <= y * stride,
        y * stride + stride <= n,
{
    assert(y * stride + stride <= stride * height) by (nonlinear_arith)
        requires
            0 <= stride,
            0 <= y < height,
    ;
    assert(0 <= y * stride) by (nonlinear_arith)
        requires
            0 <= stride,
            0 <= y,
    ;
}

/// In a frame whose rows are all there, every row has its full width and different rows take
/// their bytes from disjoint places.
pub proof fn law_rows_are_whole_and_disjoint(f: FrameBuffer, a: int, b: int)
    requires
        f.wf(),
        0 <= a < b < f.spec_meta().height,
    ensures
        f.spec_row(a).len() == f.spec_meta().width * f.spec_meta().format.spec_bytes_per_pixel(),
        f.spec_row(b).len() == f.spec_meta().width * f.spec_meta().format.spec_bytes_per_pixel(),
        a * f.spec_meta().stride + f.spec_row(a).len() <= b * f.spec_meta().stride,
{
    let m = f.spec_meta();
    let n = f.spec_data().len() as int;
    lemma_row_in_range(m.stride as int, m.height as int, a, n);
    lemma_row_in_range(m.stride as int, m.height as int, b, n);
    assert(m.width * m.format.spec_bytes_per_pixel() >= 0) by (nonlinear_arith);
    assert(a * m.stride + m.stride <= b * m.stride) by (nonlinear_arith)
        requires
            0 <= a < b,
            0 <= m.stride,
    ;
}

/// A frame in three colours takes three times the bytes of a gray one, and one with halved colour
/// planes one and a half times, where both sides are even.
pub proof fn law_frame_sizes_stand_in_proportion(w: nat, h: nat)
    ensures
        PixelFormat::Rgb24.spec_frame_size(w, h) == 3 * PixelFormat::Gray8.spec_frame_size(w, h),
        w % 2 == 0 && h % 2 == 0 ==> 2 * PixelFormat::Nv12.spec_frame_size(w, h) == 3
            * PixelFormat::Gray8.spec_frame_size(w, h),
        PixelFormat::Gray8.spec_frame_size(1, 1) == 1,
{
    if w % 2 == 0 && h % 2 == 0 {
        let (a, b) = (w / 2, h / 2);
        assert((w + 1) / 2 == a && (h + 1) / 2 == b);
        assert(w * h == 4 * (a * b)) by (nonlinear_arith)
            requires
                w == 2 * a,
                h == 2 * b,
        ;
        assert(2 * a * b == 2 * (a * b)) by (nonlinear_arith);
    }
    assert(w * h * 3 == 3 * (w * h));
}

} // verus!
