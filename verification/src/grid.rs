//! Frame grids: frames tiled into rows and columns, each with a label in a
//! built-in bitmap font, as packed RGB.

use vstd::prelude::*;

use crate::frame::{FrameBuffer, PixelFormat};
use crate::text;
use crate::text::{chars_of, parse_unsigned, split_at_all, string_of, trim_of};
use crate::timestamp::Timestamp;

verus! {

/// A tile's source.
#[derive(Debug)]
pub struct Tile<'a> {
    /// Frame pixels (RGB24).
    pub frame: &'a FrameBuffer,
    /// Label, usually `HH:MM:SS`.
    pub label: String,
}

/// Layout parameters.
#[derive(Clone, Copy, Debug, PartialEq, Eq, Structural)]
pub struct GridLayout {
    /// Columns.
    pub cols: u32,
    /// Tile width in pixels; height follows the frame aspect.
    pub tile_width: u32,
    /// Gap between tiles.
    pub gap: u32,
    /// Font scale (pixels per font unit).
    pub font_scale: u32,
}

impl Default for GridLayout {
    fn default() -> (l: GridLayout)
        ensures
            l == (GridLayout { cols: 3, tile_width: 448, gap: 4, font_scale: 3 }),
    {
        GridLayout { cols: 3, tile_width: 448, gap: 4, font_scale: 3 }
    }
}

/// The columns that a text such as `3x3` asks for.
pub open spec fn columns(s: Seq<char>) -> Option<int> {
    text::unsigned(text::trimmed(text::split(s, seq!['x'])[0]), u32::MAX as int)
}

impl GridLayout {
    /// Parses `"3x3"` into columns (the row count follows the tile count).
    pub fn parse_cols(spec: &str) -> (r: Option<u32>)
        ensures
            match r {
                Some(c) => columns(spec@) == Some(c as int),
                None => columns(spec@) is None,
            },
    {
        let c = chars_of(spec);
        let x: [char; 1] = ['x'];
        proof {
            assert(x@ =~= seq!['x']);
        }
        let parts = split_at_all(c.as_slice(), &x);
        proof {
            lemma_split_has_one(spec@);
            assert(text::texts_of(parts@)[0] == parts@[0]@);
        }
        match parse_unsigned(trim_of(parts[0]), 0xffff_ffff) {
            Some(v) => Some(v as u32),
            None => None,
        }
    }
}

proof fn lemma_split_has_one(s: Seq<char>)
    ensures
        text::split(s, seq!['x']).len() > 0,
{
}

/// A composed grid.
#[derive(Debug)]
pub struct Grid {
    /// Width.
    pub width: u32,
    /// Height.
    pub height: u32,
    /// Packed RGB, `width * height * 3`.
    pub rgb: Vec<u8>,
    /// Tile rectangles `(x, y, w, h)` in tile order.
    pub tiles: Vec<(u32, u32, u32, u32)>,
}

/// The sizes of a grid and of its tiles.
pub struct Shape {
    /// Columns.
    pub cols: int,
    /// Rows.
    pub rows: int,
    /// Tile width.
    pub tw: int,
    /// Tile height.
    pub th: int,
    /// Gap.
    pub gap: int,
    /// Font scale.
    pub scale: int,
}

/// The larger of two numbers.
pub open spec fn at_least(x: int, low: int) -> int {
    if x < low {
        low
    } else {
        x
    }
}

/// The sizes that a layout gives `n` tiles whose first frame measures `w` by `h`.
pub open spec fn shape(layout: GridLayout, n: int, w: int, h: int) -> Shape {
    let cols = at_least(layout.cols as int, 1);
    let tw = at_least(layout.tile_width as int, 16);
    Shape {
        cols,
        rows: (n + cols - 1) / cols,
        tw,
        th: at_least((tw * at_least(h, 1)) / at_least(w, 1), 9),
        gap: layout.gap as int,
        scale: at_least(layout.font_scale as int, 1),
    }
}

impl Shape {
    /// Width of the whole grid.
    pub open spec fn width(self) -> int {
        self.cols * self.tw + (self.cols + 1) * self.gap
    }

    /// Height of the whole grid.
    pub open spec fn height(self) -> int {
        self.rows * self.th + (self.rows + 1) * self.gap
    }

    /// Left edge of tile `i`.
    pub open spec fn left(self, i: int) -> int {
        self.gap + (i % self.cols) * (self.tw + self.gap)
    }

    /// Top edge of tile `i`.
    pub open spec fn top(self, i: int) -> int {
        self.gap + (i / self.cols) * (self.th + self.gap)
    }
}

/// A colour.
pub type Rgb = (u8, u8, u8);

/// The rows of the glyphs for digits, `:` and `.`, five bits each; other characters are blank.
pub open spec fn glyph_rows(c: char) -> Seq<u8> {
    if c == '0' {
        seq![0x0Eu8, 0x11, 0x13, 0x15, 0x19, 0x11, 0x0E]
    } else if c == '1' {
        seq![0x04u8, 0x0C, 0x04, 0x04, 0x04, 0x04, 0x0E]
    } else if c == '2' {
        seq![0x0Eu8, 0x11, 0x01, 0x02, 0x04, 0x08, 0x1F]
    } else if c == '3' {
        seq![0x1Fu8, 0x02, 0x04, 0x02, 0x01, 0x11, 0x0E]
    } else if c == '4' {
        seq![0x02u8, 0x06, 0x0A, 0x12, 0x1F, 0x02, 0x02]
    } else if c == '5' {
        seq![0x1Fu8, 0x10, 0x1E, 0x01, 0x01, 0x11, 0x0E]
    } else if c == '6' {
        seq![0x06u8, 0x08, 0x10, 0x1E, 0x11, 0x11, 0x0E]
    } else if c == '7' {
        seq![0x1Fu8, 0x01, 0x02, 0x04, 0x08, 0x08, 0x08]
    } else if c == '8' {
        seq![0x0Eu8, 0x11, 0x11, 0x0E, 0x11, 0x11, 0x0E]
    } else if c == '9' {
        seq![0x0Eu8, 0x11, 0x11, 0x0F, 0x01, 0x02, 0x0C]
    } else if c == ':' {
        seq![0x00u8, 0x04, 0x04, 0x00, 0x04, 0x04, 0x00]
    } else if c == '.' {
        seq![0x00u8, 0x00, 0x00, 0x00, 0x00, 0x0C, 0x0C]
    } else {
        seq![0x00u8, 0x00, 0x00, 0x00, 0x00, 0x00, 0x00]
    }
}

/// Dot `gx` of a glyph row is set, the leftmost being the highest of the five bits.
pub open spec fn dot(row: u8, gx: int) -> bool {
    if gx == 0 {
        (row / 16) % 2 == 1
    } else if gx == 1 {
        (row / 8) % 2 == 1
    } else if gx == 2 {
        (row / 4) % 2 == 1
    } else if gx == 3 {
        (row / 2) % 2 == 1
    } else if gx == 4 {
        row % 2 == 1
    } else {
        false
    }
}

/// Pixel `(x, y)`, counted from the label's corner, lies on a stroke of the label's text. A
/// character takes five dots and one blank, seven rows, all of `scale` pixels, behind a padding
/// of one dot.
pub open spec fn on_stroke(label: Seq<char>, scale: int, x: int, y: int) -> bool {
    let dx = x - scale;
    let dy = y - scale;
    &&& dx >= 0 && dy >= 0 && dy < 7 * scale
    &&& dx / (6 * scale) < label.len()
    &&& dot(glyph_rows(label[dx / (6 * scale)])[dy / scale], (dx % (6 * scale)) / scale)
}

/// Pixel `(x, y)`, counted from the label's corner, lies in the label's box.
pub open spec fn in_box(label: Seq<char>, scale: int, x: int, y: int) -> bool {
    0 <= x < label.len() * (6 * scale) + 2 * scale && 0 <= y < 7 * scale + 2 * scale
}

/// The colour that a frame, scaled to the nearest pixel, has at `(x, y)` of a `tw` by `th` tile.
pub open spec fn scaled_pixel(f: FrameBuffer, tw: int, th: int, x: int, y: int) -> Option<Rgb> {
    let m = f.spec_meta();
    if m.format != PixelFormat::Rgb24 || m.width == 0 || m.height == 0 {
        None
    } else {
        let row = f.spec_row(y * m.height / th);
        let sx = x * m.width / tw;
        if sx * 3 + 3 <= row.len() {
            Some((row[sx * 3], row[sx * 3 + 1], row[sx * 3 + 2]))
        } else {
            None
        }
    }
}

/// The colour of the grid at `(x, y)` after the first `n` tiles: the last label over it, else
/// the last tile over it, else the background. A tile covers earlier labels and a label earlier
/// tiles.
pub open spec fn grid_pixel(tiles: Seq<Tile>, s: Shape, n: int, x: int, y: int) -> Rgb
    decreases n,
{
    if n <= 0 {
        (24, 24, 24)
    } else {
        let i = n - 1;
        let t = tiles[i];
        let bx = x - s.left(i) - 4;
        let by = y - s.top(i) - 4;
        let tx = x - s.left(i);
        let ty = y - s.top(i);
        if on_stroke(t.label@, s.scale, bx, by) {
            (255, 255, 255)
        } else if in_box(t.label@, s.scale, bx, by) {
            (0, 0, 0)
        } else if 0 <= tx < s.tw && 0 <= ty < s.th && scaled_pixel(
            *t.frame,
            s.tw,
            s.th,
            tx,
            ty,
        ) is Some {
            scaled_pixel(*t.frame, s.tw, s.th, tx, ty)->0
        } else {
            grid_pixel(tiles, s, i, x, y)
        }
    }
}

/// The glyph of a character: one byte for each row, low five bits.
pub fn glyph(c: char) -> (g: [u8; 7])
    ensures
        g@ == glyph_rows(c),
{
    let g: [u8; 7] = match c {
        '0' => [0x0E, 0x11, 0x13, 0x15, 0x19, 0x11, 0x0E],
        '1' => [0x04, 0x0C, 0x04, 0x04, 0x04, 0x04, 0x0E],
        '2' => [0x0E, 0x11, 0x01, 0x02, 0x04, 0x08, 0x1F],
        '3' => [0x1F, 0x02, 0x04, 0x02, 0x01, 0x11, 0x0E],
        '4' => [0x02, 0x06, 0x0A, 0x12, 0x1F, 0x02, 0x02],
        '5' => [0x1F, 0x10, 0x1E, 0x01, 0x01, 0x11, 0x0E],
        '6' => [0x06, 0x08, 0x10, 0x1E, 0x11, 0x11, 0x0E],
        '7' => [0x1F, 0x01, 0x02, 0x04, 0x08, 0x08, 0x08],
        '8' => [0x0E, 0x11, 0x11, 0x0E, 0x11, 0x11, 0x0E],
        '9' => [0x0E, 0x11, 0x11, 0x0F, 0x01, 0x02, 0x0C],
        ':' => [0x00, 0x04, 0x04, 0x00, 0x04, 0x04, 0x00],
        '.' => [0x00, 0x00, 0x00, 0x00, 0x00, 0x0C, 0x0C],
        _ => [0x00, 0x00, 0x00, 0x00, 0x00, 0x00, 0x00],
    };
    proof {
        assert(g@ =~= glyph_rows(c));
    }
    g
}

fn dot_set(row: u8, gx: u32) -> (b: bool)
    ensures
        b == dot(row, gx as int),
{
    match gx {
        0 => (row / 16) % 2 == 1,
        1 => (row / 8) % 2 == 1,
        2 => (row / 4) % 2 == 1,
        3 => (row / 2) % 2 == 1,
        4 => row % 2 == 1,
        _ => false,
    }
}

fn stroke_at(label: &[char], scale: u32, x: i64, y: i64) -> (b: bool)
    requires
        scale > 0,
    ensures
        b == on_stroke(label@, scale as int, x as int, y as int),
{
    let s: i128 = scale as i128;
    let dx: i128 = x as i128 - s;
    let dy: i128 = y as i128 - s;
    if dx < 0 || dy < 0 || dy >= 7 * s {
        return false;
    }
    let ci: i128 = dx / (6 * s);
    proof {
        lemma_stroke_index(dx as int, dy as int, s as int);
    }
    let n: usize = label.len();
    if ci >= n as i128 {
        return false;
    }
    let gy: i128 = dy / s;
    let gx: i128 = (dx % (6 * s)) / s;
    let g = glyph(label[ci as usize]);
    dot_set(g[gy as usize], gx as u32)
}

proof fn lemma_stroke_index(dx: int, dy: int, s: int)
    requires
        s > 0,
        dx >= 0,
        0 <= dy < 7 * s,
    ensures
        0 <= dx / (6 * s) <= dx,
        0 <= dy / s < 7,
        0 <= dx % (6 * s) < 6 * s,
        0 <= (dx % (6 * s)) / s < 6,
{
    let d = 6 * s;
    assert(0 <= dx / d <= dx && 0 <= dx % d < d) by (nonlinear_arith)
        requires
            d > 0,
            dx >= 0,
    ;
    assert(0 <= dy / s < 7) by (nonlinear_arith)
        requires
            s > 0,
            0 <= dy < 7 * s,
    ;
    let r = dx % d;
    assert(0 <= r / s < 6) by (nonlinear_arith)
        requires
            s > 0,
            0 <= r < 6 * s,
    ;
}

fn box_at(label: &[char], scale: u32, x: i64, y: i64) -> (b: bool)
    ensures
        b == in_box(label@, scale as int, x as int, y as int),
{
    let n: usize = label.len();
    let s: i128 = scale as i128;
    proof {
        assert(0 <= n * (6 * s) <= 0xffff_ffff_ffff_ffff * (6 * 0xffff_ffff)) by (nonlinear_arith)
            requires
                0 <= n <= 0xffff_ffff_ffff_ffff,
                0 <= s <= 0xffff_ffff,
        ;
    }
    let w: i128 = (n as i128) * (6 * s) + 2 * s;
    0 <= x && (x as i128) < w && 0 <= y && (y as i128) < 9 * s
}

/// The rows of a frame can be addressed.
pub open spec fn addressable(f: FrameBuffer) -> bool {
    let m = f.spec_meta();
    m.height * m.stride + m.width * m.format.spec_bytes_per_pixel() <= usize::MAX
}

fn frame_pixel(f: &FrameBuffer, tw: u32, th: u32, x: u32, y: u32) -> (r: Option<Rgb>)
    requires
        addressable(*f),
        x < tw,
        y < th,
    ensures
        r == scaled_pixel(*f, tw as int, th as int, x as int, y as int),
{
    let m = f.meta();
    if m.format != PixelFormat::Rgb24 || m.width == 0 || m.height == 0 {
        return None;
    }
    proof {
        lemma_scaled_index(y as int, m.height as int, th as int);
        lemma_scaled_index(x as int, m.width as int, tw as int);
    }
    let sy: u64 = (y as u64) * (m.height as u64) / (th as u64);
    let sx: u64 = (x as u64) * (m.width as u64) / (tw as u64);
    proof {
        assert(sy * m.stride <= m.height * m.stride) by (nonlinear_arith)
            requires
                0 <= sy < m.height,
                m.stride >= 0,
        ;
    }
    let row = f.row(sy as u32);
    let n: usize = row.len();
    let at: u64 = sx * 3;
    if at + 3 <= n as u64 {
        let k: usize = at as usize;
        Some((row[k], row[k + 1], row[k + 2]))
    } else {
        None
    }
}

proof fn lemma_scaled_index(y: int, h: int, th: int)
    requires
        0 <= y < th,
        0 <= h <= 0xffff_ffff,
        th <= 0xffff_ffff,
    ensures
        0 <= y * h <= 0xffff_ffff * 0xffff_ffff,
        h > 0 ==> 0 <= (y * h) / th < h,
        (y * h) / th >= 0,
{
    assert(0 <= y * h <= 0xffff_ffff * 0xffff_ffff) by (nonlinear_arith)
        requires
            0 <= y < th,
            0 <= h <= 0xffff_ffff,
            th <= 0xffff_ffff,
    ;
    assert((y * h) / th >= 0) by (nonlinear_arith)
        requires
            0 <= y * h,
            th > 0,
    ;
    if h > 0 {
        assert((y * h) / th < h) by (nonlinear_arith)
            requires
                0 <= y < th,
                h > 0,
        ;
    }
}

/// The colour of the grid at one pixel.
fn pixel_at(
    tiles: &Vec<Tile>,
    labels: &Vec<Vec<char>>,
    rects: &Vec<(u32, u32, u32, u32)>,
    Ghost(s): Ghost<Shape>,
    scale: u32,
    x: u32,
    y: u32,
) -> (r: Rgb)
    requires
        rects@.len() == tiles@.len() == labels@.len(),
        scale == s.scale > 0,
        forall|i: int|
            0 <= i < tiles@.len() ==> (#[trigger] rects@[i]).0 == s.left(i) && rects@[i].1 == s.top(
                i,
            ) && rects@[i].2 == s.tw && rects@[i].3 == s.th && addressable(*tiles@[i].frame)
                && labels@[i]@ == tiles@[i].label@,
    ensures
        r == grid_pixel(tiles@, s, tiles@.len() as int, x as int, y as int),
{
    let mut n: usize = tiles.len();
    while n > 0
        invariant
            n <= tiles@.len(),
            rects@.len() == tiles@.len() == labels@.len(),
            scale == s.scale > 0,
            forall|i: int|
                0 <= i < tiles@.len() ==> (#[trigger] rects@[i]).0 == s.left(i) && rects@[i].1
                    == s.top(i) && rects@[i].2 == s.tw && rects@[i].3 == s.th && addressable(
                    *tiles@[i].frame,
                ) && labels@[i]@ == tiles@[i].label@,
            grid_pixel(tiles@, s, tiles@.len() as int, x as int, y as int) == grid_pixel(
                tiles@,
                s,
                n as int,
                x as int,
                y as int,
            ),
        decreases n,
    {
        let i: usize = n - 1;
        let (left, top, tw, th) = rects[i];
        let tx: i64 = x as i64 - left as i64;
        let ty: i64 = y as i64 - top as i64;
        if stroke_at(labels[i].as_slice(), scale, tx - 4, ty - 4) {
            return (255, 255, 255);
        }
        if box_at(labels[i].as_slice(), scale, tx - 4, ty - 4) {
            return (0, 0, 0);
        }
        if 0 <= tx && tx < tw as i64 && 0 <= ty && ty < th as i64 {
            match frame_pixel(tiles[i].frame, tw, th, tx as u32, ty as u32) {
                Some(c) => {
                    return c;
                },
                None => {},
            }
        }
        n = i;
    }
    (24, 24, 24)
}

/// The place of a pixel's first byte.
pub open spec fn offset(w: int, x: int, y: int) -> int {
    (y * w + x) * 3
}

/// Packed bytes show a picture of the given size.
pub open spec fn shows(rgb: Seq<u8>, tiles: Seq<Tile>, s: Shape, w: int, h: int) -> bool {
    &&& rgb.len() == w * h * 3
    &&& forall|x: int, y: int|
        0 <= x < w && 0 <= y < h ==> {
            let k = #[trigger] offset(w, x, y);
            (rgb[k], rgb[k + 1], rgb[k + 2]) == grid_pixel(tiles, s, tiles.len() as int, x, y)
        }
}

/// The grid of a layout can be held: its bytes can be counted.
pub open spec fn fits(layout: GridLayout, tiles: Seq<Tile>) -> bool {
    let m = tiles[0].frame.spec_meta();
    let s = shape(layout, tiles.len() as int, m.width as int, m.height as int);
    &&& tiles.len() <= u32::MAX
    &&& s.width() * s.height() * 3 <= u32::MAX
    &&& forall|i: int| 0 <= i < tiles.len() ==> addressable(*(#[trigger] tiles[i]).frame)
}

/// The rectangles of tiles, all of them inside the picture.
pub open spec fn placed(
    rects: Seq<(u32, u32, u32, u32)>,
    s: Shape,
    n: int,
    w: int,
    h: int,
) -> bool {
    &&& rects.len() == n
    &&& forall|i: int|
        0 <= i < n ==> (#[trigger] rects[i]).0 == s.left(i) && rects[i].1 == s.top(i) && rects[i].2
            == s.tw && rects[i].3 == s.th && s.left(i) + s.tw <= w && s.top(i) + s.th <= h
}

/// A picture is what a layout makes of tiles.
pub open spec fn is_grid(g: Grid, tiles: Seq<Tile>, layout: GridLayout) -> bool {
    if tiles.len() == 0 {
        g.width == 0 && g.height == 0 && g.rgb@.len() == 0 && g.tiles@.len() == 0
    } else {
        let m = tiles[0].frame.spec_meta();
        let s = shape(layout, tiles.len() as int, m.width as int, m.height as int);
        &&& g.width == s.width()
        &&& g.height == s.height()
        &&& g.tiles@.len() == tiles.len()
        &&& placed(g.tiles@, s, tiles.len() as int, g.width as int, g.height as int)
        &&& shows(g.rgb@, tiles, s, g.width as int, g.height as int)
    }
}

proof fn lemma_shape_bounds(s: Shape, n: int, i: int)
    requires
        s.cols >= 1,
        s.rows == (n + s.cols - 1) / s.cols,
        s.tw >= 16,
        s.th >= 9,
        s.gap >= 0,
        0 <= i < n,
    ensures
        0 <= i % s.cols < s.cols,
        0 <= i / s.cols < s.rows,
        s.rows >= 1,
        s.left(i) >= 0,
        s.top(i) >= 0,
        (i % s.cols) * (s.tw + s.gap) >= 0,
        (i / s.cols) * (s.th + s.gap) >= 0,
        s.left(i) + s.tw <= s.width(),
        s.top(i) + s.th <= s.height(),
{
    let c = s.cols;
    let a = i % c;
    let b = i / c;
    assert(0 <= a < c && 0 <= b && i == b * c + a) by (nonlinear_arith)
        requires
            c >= 1,
            i >= 0,
            a == i % c,
            b == i / c,
    ;
    let rows = s.rows;
    assert(b < rows) by (nonlinear_arith)
        requires
            c >= 1,
            i < n,
            i == b * c + a,
            0 <= a,
            rows == (n + c - 1) / c,
    ;
    lemma_strip(a, c, s.tw, s.gap);
    lemma_strip(b, rows, s.th, s.gap);
}

proof fn lemma_strip(a: int, c: int, t: int, g: int)
    requires
        0 <= a < c,
        t >= 0,
        g >= 0,
    ensures
        a * (t + g) >= 0,
        g + a * (t + g) + t <= c * t + (c + 1) * g,
        c * t >= 0,
        (c + 1) * g >= 0,
{
    assert(a * (t + g) >= 0 && c * t >= 0 && (c + 1) * g >= 0) by (nonlinear_arith)
        requires
            0 <= a < c,
            t >= 0,
            g >= 0,
    ;
    assert(g + a * (t + g) + t <= c * t + (c + 1) * g) by (nonlinear_arith)
        requires
            0 <= a < c,
            t >= 0,
            g >= 0,
    ;
}

proof fn lemma_area(w: int, h: int)
    requires
        w >= 16,
        h >= 9,
        w * h * 3 <= u32::MAX,
    ensures
        w <= u32::MAX,
        h <= u32::MAX,
{
    assert(w <= w * h * 3 && h <= w * h * 3) by (nonlinear_arith)
        requires
            w >= 16,
            h >= 9,
    ;
}

proof fn lemma_offsets(w: int, h: int, x: int, y: int)
    requires
        0 <= x < w,
        0 <= y < h,
    ensures
        0 <= offset(w, x, y),
        offset(w, x, y) + 3 <= w * h * 3,
        offset(w, x + 1, y) == offset(w, x, y) + 3,
        offset(w, w, y) == offset(w, 0, y + 1),
{
    assert(0 <= y * w && y * w + w <= w * h) by (nonlinear_arith)
        requires
            0 <= y < h,
            0 <= w,
    ;
    assert(y * w + w == (y + 1) * w) by (nonlinear_arith);
}

proof fn lemma_offset_order(w: int, x: int, y: int, cx: int, cy: int)
    requires
        0 <= x < w,
        0 <= y,
        0 <= cx <= w,
        y < cy || (y == cy && x < cx),
    ensures
        0 <= offset(w, x, y),
        offset(w, x, y) + 3 <= offset(w, cx, cy),
{
    assert(0 <= y * w) by (nonlinear_arith)
        requires
            0 <= y,
            0 <= w,
    ;
    if y < cy {
        assert(y * w + w <= cy * w) by (nonlinear_arith)
            requires
                y < cy,
                0 <= w,
        ;
    }
}

/// What has been painted when the next pixel is `(cx, cy)`.
spec fn painted(rgb: Seq<u8>, tiles: Seq<Tile>, s: Shape, w: int, cx: int, cy: int) -> bool {
    &&& rgb.len() == offset(w, cx, cy)
    &&& forall|x: int, y: int|
        0 <= x < w && 0 <= y && (y < cy || (y == cy && x < cx)) ==> {
            let k = #[trigger] offset(w, x, y);
            (rgb[k], rgb[k + 1], rgb[k + 2]) == grid_pixel(tiles, s, tiles.len() as int, x, y)
        }
}

proof fn lemma_paint(
    rgb: Seq<u8>,
    c: Rgb,
    tiles: Seq<Tile>,
    s: Shape,
    w: int,
    cx: int,
    cy: int,
)
    requires
        painted(rgb, tiles, s, w, cx, cy),
        0 <= cx < w,
        0 <= cy,
        c == grid_pixel(tiles, s, tiles.len() as int, cx, cy),
    ensures
        painted(rgb.push(c.0).push(c.1).push(c.2), tiles, s, w, cx + 1, cy),
{
    let r = rgb.push(c.0).push(c.1).push(c.2);
    lemma_offsets(w, cy + 1, cx, cy);
    assert forall|x: int, y: int|
        0 <= x < w && 0 <= y && (y < cy || (y == cy && x < cx + 1)) implies {
        let k = #[trigger] offset(w, x, y);
        (r[k], r[k + 1], r[k + 2]) == grid_pixel(tiles, s, tiles.len() as int, x, y)
    } by {
        if !(y == cy && x == cx) {
            lemma_offset_order(w, x, y, cx, cy);
        }
    }
}

/// Where the tiles of a shape lie.
fn place_tiles(n: u32, cols: u32, tw: u32, th: u32, gap: u32, Ghost(s): Ghost<Shape>) -> (rects: Vec<
    (u32, u32, u32, u32),
>)
    requires
        s.cols == cols >= 1,
        s.rows == (n + s.cols - 1) / s.cols,
        s.tw == tw >= 16,
        s.th == th >= 9,
        s.gap == gap,
        s.width() <= u32::MAX,
        s.height() <= u32::MAX,
    ensures
        placed(rects@, s, n as int, s.width(), s.height()),
{
    let mut rects: Vec<(u32, u32, u32, u32)> = Vec::new();
    let mut i: u32 = 0;
    while i < n
        invariant
            i <= n,
            s.cols == cols >= 1,
            s.rows == (n + s.cols - 1) / s.cols,
            s.tw == tw >= 16,
            s.th == th >= 9,
            s.gap == gap,
            s.width() <= u32::MAX,
            s.height() <= u32::MAX,
            placed(rects@, s, i as int, s.width(), s.height()),
        decreases n - i,
    {
        proof {
            lemma_shape_bounds(s, n as int, i as int);
        }
        let x0: u32 = gap + (i % cols) * (tw + gap);
        let y0: u32 = gap + (i / cols) * (th + gap);
        let ghost before = rects@;
        rects.push((x0, y0, tw, th));
        proof {
            assert(x0 == s.left(i as int) && y0 == s.top(i as int));
            assert forall|k: int| 0 <= k < i + 1 implies (#[trigger] rects@[k]).0 == s.left(k)
                && rects@[k].1 == s.top(k) && rects@[k].2 == s.tw && rects@[k].3 == s.th && s.left(k)
                + s.tw <= s.width() && s.top(k) + s.th <= s.height() by {
                if k < i {
                    assert(rects@[k] == before[k]);
                }
            }
        }
        i = i + 1;
    }
    rects
}

/// The labels of tiles.
fn labels_of(tiles: &Vec<Tile>) -> (labels: Vec<Vec<char>>)
    ensures
        labels@.len() == tiles@.len(),
        forall|k: int| 0 <= k < labels@.len() ==> (#[trigger] labels@[k])@ == tiles@[k].label@,
{
    let mut labels: Vec<Vec<char>> = Vec::new();
    let mut i: usize = 0;
    while i < tiles.len()
        invariant
            i <= tiles@.len(),
            labels@.len() == i,
            forall|k: int| 0 <= k < i ==> (#[trigger] labels@[k])@ == tiles@[k].label@,
        decreases tiles@.len() - i,
    {
        labels.push(chars_of(tiles[i].label.as_str()));
        i = i + 1;
    }
    labels
}

fn is_addressable(f: &FrameBuffer) -> (b: bool)
    ensures
        b == addressable(*f),
{
    let m = f.meta();
    let bpp: usize = m.format.bytes_per_pixel();
    let (h, stride, w) = (m.height as u128, m.stride as u128, m.width as u128);
    proof {
        assert(0 <= h * stride <= 0xffff_ffff * 0xffff_ffff_ffff_ffff) by (nonlinear_arith)
            requires
                0 <= h <= 0xffff_ffff,
                0 <= stride <= 0xffff_ffff_ffff_ffff,
        ;
        assert(0 <= w * bpp <= 0xffff_ffff * 16) by (nonlinear_arith)
            requires
                0 <= w <= 0xffff_ffff,
                0 <= bpp <= 16,
        ;
    }
    h * stride + w * (bpp as u128) <= usize::MAX as u128
}

/// Whether the grid of a layout can be held. No tiles always can.
pub fn can_hold(tiles: &Vec<Tile>, layout: GridLayout) -> (b: bool)
    ensures
        b == (tiles@.len() > 0 ==> fits(layout, tiles@)),
{
    let n: usize = tiles.len();
    if n == 0 {
        return true;
    }
    if n as u64 > 0xffff_ffff {
        return false;
    }
    let m = tiles[0].frame.meta();
    let ghost s = shape(layout, tiles@.len() as int, m.width as int, m.height as int);
    let cols: u128 = if layout.cols < 1 {
        1
    } else {
        layout.cols as u128
    };
    let tw: u128 = if layout.tile_width < 16 {
        16
    } else {
        layout.tile_width as u128
    };
    let fh: u128 = if m.height < 1 {
        1
    } else {
        m.height as u128
    };
    let fw: u128 = if m.width < 1 {
        1
    } else {
        m.width as u128
    };
    let gap: u128 = layout.gap as u128;
    proof {
        assert(0 <= tw * fh <= 0xffff_ffff * 0xffff_ffff) by (nonlinear_arith)
            requires
                0 <= tw <= 0xffff_ffff,
                0 <= fh <= 0xffff_ffff,
        ;
        assert(0 <= (tw * fh) / (fw as int) <= tw * fh) by (nonlinear_arith)
            requires
                0 <= tw * fh,
                fw >= 1,
        ;
    }
    let th0: u128 = (tw * fh) / fw;
    let th: u128 = if th0 < 9 {
        9
    } else {
        th0
    };
    let rows: u128 = (n as u128 + cols - 1) / cols;
    proof {
        assert(0 <= rows <= 0x2_0000_0000) by (nonlinear_arith)
            requires
                rows == (n + cols - 1) / (cols as int),
                1 <= cols <= 0xffff_ffff,
                1 <= n <= 0xffff_ffff,
        ;
        assert(rows >= 1) by (nonlinear_arith)
            requires
                rows == (n + cols - 1) / (cols as int),
                1 <= cols,
                1 <= n,
        ;
        assert(0 <= cols * tw <= 0xffff_ffff * 0xffff_ffff && 0 <= (cols + 1) * gap <= 0x1_0000_0000
            * 0xffff_ffff) by (nonlinear_arith)
            requires
                0 <= cols <= 0xffff_ffff,
                0 <= tw <= 0xffff_ffff,
                0 <= gap <= 0xffff_ffff,
        ;
        assert(0 <= rows * th <= 0x2_0000_0000 * (0xffff_ffff * 0xffff_ffff) && 0 <= (rows + 1) * gap
            <= 0x2_0000_0001 * 0xffff_ffff) by (nonlinear_arith)
            requires
                0 <= rows <= 0x2_0000_0000,
                0 <= th <= 0xffff_ffff * 0xffff_ffff,
                0 <= gap <= 0xffff_ffff,
        ;
    }
    let width: u128 = cols * tw + (cols + 1) * gap;
    let height: u128 = rows * th + (rows + 1) * gap;
    proof {
        assert(s.cols == cols && s.tw == tw && s.th == th && s.rows == rows && s.gap == gap);
        assert(width == s.width() && height == s.height());
        let (w, h) = (width as int, height as int);
        assert(cols * tw >= 1 && rows * th >= 1) by (nonlinear_arith)
            requires
                cols >= 1,
                tw >= 16,
                rows >= 1,
                th >= 9,
        ;
        assert(w >= 1 && h >= 1);
        assert((w > 0xffff_ffff || h > 0xffff_ffff) ==> w * h * 3 > 0xffff_ffff) by (nonlinear_arith)
            requires
                w >= 1,
                h >= 1,
        ;
        assert((w <= 0xffff_ffff && h <= 0xffff_ffff) ==> 0 <= w * h <= 0xffff_ffff * 0xffff_ffff)
            by (nonlinear_arith)
            requires
                w >= 1,
                h >= 1,
        ;
    }
    if width > 0xffff_ffff || height > 0xffff_ffff || width * height * 3 > 0xffff_ffff {
        return false;
    }
    let mut i: usize = 0;
    while i < n
        invariant
            i <= n == tiles@.len(),
            forall|k: int| 0 <= k < i ==> addressable(*(#[trigger] tiles@[k]).frame),
        decreases n - i,
    {
        if !is_addressable(tiles[i].frame) {
            proof {
                assert(!addressable(*tiles@[i as int].frame));
            }
            return false;
        }
        i = i + 1;
    }
    true
}

/// Composes tiles into a grid. Empty input gives an empty grid.
pub fn compose(tiles: &Vec<Tile>, layout: GridLayout) -> (g: Grid)
    requires
        tiles@.len() > 0 ==> fits(layout, tiles@),
    ensures
        is_grid(g, tiles@, layout),
{
    if tiles.len() == 0 {
        return Grid { width: 0, height: 0, rgb: Vec::new(), tiles: Vec::new() };
    }
    let n: u32 = tiles.len() as u32;
    let m = tiles[0].frame.meta();
    let ghost s = shape(layout, tiles@.len() as int, m.width as int, m.height as int);
    let cols: u32 = if layout.cols < 1 {
        1
    } else {
        layout.cols
    };
    let tw: u32 = if layout.tile_width < 16 {
        16
    } else {
        layout.tile_width
    };
    let scale: u32 = if layout.font_scale < 1 {
        1
    } else {
        layout.font_scale
    };
    let fh: u64 = if m.height < 1 {
        1
    } else {
        m.height as u64
    };
    let fw: u64 = if m.width < 1 {
        1
    } else {
        m.width as u64
    };
    proof {
        assert(tw * fh <= 0xffff_ffff * 0xffff_ffff) by (nonlinear_arith)
            requires
                0 <= tw <= 0xffff_ffff,
                0 <= fh <= 0xffff_ffff,
        ;
    }
    let th64: u64 = (tw as u64) * fh / fw;
    let rows64: u64 = (n as u64 + cols as u64 - 1) / cols as u64;
    let ghost w = s.width();
    let ghost h = s.height();
    proof {
        assert(s.rows == rows64 && s.cols == cols);
        assert(s.th == at_least(th64 as int, 9));
        lemma_shape_bounds(s, n as int, 0);
        lemma_area(w, h);
        lemma_strip(0, s.cols, s.tw, s.gap);
        lemma_strip(0, s.rows, s.th, s.gap);
        assert(s.th <= s.rows * s.th) by (nonlinear_arith)
            requires
                s.rows >= 1,
                s.th >= 0,
        ;
    }
    let th: u32 = if th64 < 9 {
        9
    } else {
        th64 as u32
    };
    let rows: u32 = rows64 as u32;
    let gap: u32 = layout.gap;
    proof {
        assert(s.cols + 1 <= w) by (nonlinear_arith)
            requires
                w == s.cols * s.tw + (s.cols + 1) * s.gap,
                s.tw >= 16,
                s.cols >= 1,
                s.gap >= 0,
        ;
        assert(s.rows + 1 <= h) by (nonlinear_arith)
            requires
                h == s.rows * s.th + (s.rows + 1) * s.gap,
                s.th >= 9,
                s.rows >= 1,
                s.gap >= 0,
        ;
        assert(s.cols * s.tw == cols * tw);
        assert(s.rows * s.th == rows * th);
    }
    let width: u32 = cols * tw + (cols + 1) * gap;
    let height: u32 = rows * th + (rows + 1) * gap;
    let rects = place_tiles(n, cols, tw, th, gap, Ghost(s));
    let labels = labels_of(tiles);
    let mut rgb: Vec<u8> = Vec::new();
    let mut y: u32 = 0;
    proof {
        assert(offset(w, 0, 0) == 0) by (nonlinear_arith)
            requires
                offset(w, 0, 0) == (0 * w + 0) * 3,
        ;
    }
    while y < height
        invariant
            y <= height == h,
            width == w >= 16,
            rects@.len() == tiles@.len() == labels@.len(),
            scale == s.scale > 0,
            forall|i: int|
                0 <= i < tiles@.len() ==> (#[trigger] rects@[i]).0 == s.left(i) && rects@[i].1
                    == s.top(i) && rects@[i].2 == s.tw && rects@[i].3 == s.th && addressable(
                    *tiles@[i].frame,
                ) && labels@[i]@ == tiles@[i].label@,
            placed(rects@, s, tiles@.len() as int, w, h),
            painted(rgb@, tiles@, s, w, 0, y as int),
        decreases height - y,
    {
        let mut x: u32 = 0;
        while x < width
            invariant
                x <= width == w,
                y < height == h,
                rects@.len() == tiles@.len() == labels@.len(),
                scale == s.scale > 0,
                forall|i: int|
                    0 <= i < tiles@.len() ==> (#[trigger] rects@[i]).0 == s.left(i) && rects@[i].1
                        == s.top(i) && rects@[i].2 == s.tw && rects@[i].3 == s.th && addressable(
                        *tiles@[i].frame,
                    ) && labels@[i]@ == tiles@[i].label@,
                painted(rgb@, tiles@, s, w, x as int, y as int),
            decreases width - x,
        {
            let c = pixel_at(tiles, &labels, &rects, Ghost(s), scale, x, y);
            proof {
                lemma_paint(rgb@, c, tiles@, s, w, x as int, y as int);
            }
            rgb.push(c.0);
            rgb.push(c.1);
            rgb.push(c.2);
            x = x + 1;
        }
        proof {
            lemma_offsets(w, h, 0, y as int);
            assert(painted(rgb@, tiles@, s, w, 0, y + 1)) by {
                assert forall|px: int, py: int|
                    0 <= px < w && 0 <= py && (py < y + 1 || (py == y + 1 && px < 0)) implies {
                    let k = #[trigger] offset(w, px, py);
                    (rgb@[k], rgb@[k + 1], rgb@[k + 2]) == grid_pixel(
                        tiles@,
                        s,
                        tiles@.len() as int,
                        px,
                        py,
                    )
                } by {
                    assert(py < y || (py == y && px < w));
                }
            }
        }
        y = y + 1;
    }
    proof {
        assert(offset(w, 0, h) == w * h * 3) by (nonlinear_arith)
            requires
                offset(w, 0, h) == (h * w + 0) * 3,
        ;
    }
    proof {
        assert(shows(rgb@, tiles@, s, w, h));
    }
    Grid { width, height, rgb, tiles: rects }
}

/// The PNG file of a packed RGB picture.
pub uninterp spec fn png_file(width: u32, height: u32, rgb: Seq<u8>) -> Seq<u8>;

/// Makes an `image::RgbImage` of packed bytes and writes it with `write_to` as PNG.
///
/// Claimed of it: the file depends on the size and on the bytes of the picture alone; bytes
/// behind the picture are not looked at. How PNG encodes pixels is not described, nor what is
/// written of a picture that PNG cannot hold.
#[verifier::external_body]
fn write_png(width: u32, height: u32, rgb: Vec<u8>) -> (r: Vec<u8>)
    requires
        3 * width * height <= rgb@.len(),
    ensures
        r@ == png_file(width, height, rgb@.take(3 * width * height)),
{
    let mut out = std::io::Cursor::new(Vec::new());
    if let Some(img) = image::RgbImage::from_raw(width, height, rgb) {
        let _ = img.write_to(&mut out, image::ImageFormat::Png);
    }
    out.into_inner()
}

/// The PNG file of a grid; an error if the grid lacks pixels.
pub fn grid_png(g: Grid) -> (r: Result<Vec<u8>, String>)
    ensures
        match r {
            Ok(file) => 3 * g.width * g.height <= g.rgb@.len() && file@ == png_file(
                g.width,
                g.height,
                g.rgb@.take(3 * g.width * g.height),
            ),
            Err(e) => 3 * g.width * g.height > g.rgb@.len() && e@ == "grid buffer mismatch"@,
        },
{
    let row: u128 = 3 * g.width as u128;
    proof {
        assert(row * g.height <= 3 * 0xffff_ffff * 0xffff_ffff) by (nonlinear_arith)
            requires
                row <= 3 * 0xffff_ffff,
                g.height <= 0xffff_ffff,
        ;
        assert(row * g.height == 3 * g.width * g.height);
    }
    if row * g.height as u128 > g.rgb.len() as u128 {
        return Err("grid buffer mismatch".to_owned());
    }
    Ok(write_png(g.width, g.height, g.rgb))
}

/// Tiles of a grid never overlap.
pub proof fn law_tiles_are_disjoint(s: Shape, i: int, j: int)
    requires
        s.cols >= 1,
        s.tw >= 0,
        s.th >= 0,
        s.gap >= 0,
        0 <= i,
        0 <= j,
        i != j,
    ensures
        s.left(i) + s.tw <= s.left(j) || s.left(j) + s.tw <= s.left(i) || s.top(i) + s.th <= s.top(j)
            || s.top(j) + s.th <= s.top(i),
{
    let c = s.cols;
    assert(i == (i / c) * c + i % c && j == (j / c) * c + j % c) by (nonlinear_arith)
        requires
            c >= 1,
    ;
    if i % c < j % c {
        lemma_apart(i % c, j % c, s.tw, s.gap);
    } else if j % c < i % c {
        lemma_apart(j % c, i % c, s.tw, s.gap);
    } else if i / c < j / c {
        lemma_apart(i / c, j / c, s.th, s.gap);
    } else if j / c < i / c {
        lemma_apart(j / c, i / c, s.th, s.gap);
    }
}

proof fn lemma_apart(a: int, b: int, t: int, g: int)
    requires
        a < b,
        t >= 0,
        g >= 0,
    ensures
        a * (t + g) + t <= b * (t + g),
{
    assert(a * (t + g) + t <= b * (t + g)) by (nonlinear_arith)
        requires
            a < b,
            t >= 0,
            g >= 0,
    ;
}

/// Two digits at least.
pub open spec fn two_digits(n: nat) -> Seq<char> {
    if n < 10 {
        "0"@ + text::decimal(n)
    } else {
        text::decimal(n)
    }
}

/// `HH:MM:SS` for whole seconds.
pub open spec fn clock(secs: nat) -> Seq<char> {
    two_digits(secs / 3600) + ":"@ + two_digits((secs % 3600) / 60) + ":"@ + two_digits(secs % 60)
}

/// A time in whole seconds, rounded to the nearest; a negative one is zero.
pub open spec fn whole_seconds(t: Timestamp) -> nat {
    if t.num <= 0 {
        0
    } else {
        ((2 * t.num + t.den) / (2 * t.den)) as nat
    }
}

fn push_two(s: &mut String, n: u64)
    ensures
        final(s)@ == old(s)@ + two_digits(n as nat),
{
    if n < 10 {
        s.append("0");
    }
    let d = text::decimal_string(n);
    s.append(d.as_str());
    proof {
        assert(s@ =~= old(s)@ + two_digits(n as nat));
    }
}

/// `HH:MM:SS` for whole seconds.
pub fn clock_text(secs: u64) -> (r: String)
    ensures
        r@ == clock(secs as nat),
{
    let mut r = string_of(&[]);
    proof {
        assert(r@ =~= Seq::<char>::empty());
    }
    push_two(&mut r, secs / 3600);
    r.append(":");
    push_two(&mut r, (secs % 3600) / 60);
    r.append(":");
    push_two(&mut r, secs % 60);
    proof {
        assert(r@ =~= clock(secs as nat));
    }
    r
}

/// `HH:MM:SS` for a time.
pub fn hms(t: Timestamp) -> (r: String)
    requires
        t.wf(),
    ensures
        r@ == clock(whole_seconds(t)),
{
    let secs: u64 = if t.num <= 0 {
        0
    } else {
        let d: i128 = t.den as i128;
        let q: i128 = (2 * (t.num as i128) + d) / (2 * d);
        proof {
            let a = 2 * t.num + t.den;
            let b = 2 * t.den;
            assert(0 <= a / b <= t.num + 1) by (nonlinear_arith)
                requires
                    a == 2 * t.num + t.den,
                    b == 2 * t.den,
                    t.den >= 1,
                    t.num > 0,
            ;
        }
        q as u64
    };
    clock_text(secs)
}

proof fn lemma_strokes_in_box(label: Seq<char>, scale: int, x: int, y: int)
    requires
        scale >= 1,
    ensures
        on_stroke(label, scale, x, y) ==> in_box(label, scale, x, y),
{
    if on_stroke(label, scale, x, y) {
        let dx = x - scale;
        let d = 6 * scale;
        let n = label.len() as int;
        assert(dx < n * d) by (nonlinear_arith)
            requires
                d >= 1,
                dx >= 0,
                dx / d < n,
        ;
    }
}

/// A place of the grid that no label covers shows the tile it lies in, scaled, and the background
/// where it lies in none.
pub proof fn law_tiles_show_their_frames(
    tiles: Seq<Tile>,
    s: Shape,
    n: int,
    i: int,
    x: int,
    y: int,
)
    requires
        0 <= n <= tiles.len(),
        s.cols >= 1,
        s.tw >= 1,
        s.th >= 1,
        s.gap >= 0,
        s.scale >= 1,
        forall|j: int|
            0 <= j < n ==> !in_box(
                (#[trigger] tiles[j]).label@,
                s.scale,
                x - s.left(j) - 4,
                y - s.top(j) - 4,
            ),
    ensures
        0 <= i < n && s.left(i) <= x < s.left(i) + s.tw && s.top(i) <= y < s.top(i) + s.th
            && scaled_pixel(*tiles[i].frame, s.tw, s.th, x - s.left(i), y - s.top(i)) is Some
            ==> grid_pixel(tiles, s, n, x, y) == scaled_pixel(
            *tiles[i].frame,
            s.tw,
            s.th,
            x - s.left(i),
            y - s.top(i),
        )->0,
        (forall|j: int|
            0 <= j < n ==> !(#[trigger] s.left(j) <= x < s.left(j) + s.tw && s.top(j) <= y < s.top(j)
                + s.th)) ==> grid_pixel(tiles, s, n, x, y) == (24u8, 24u8, 24u8),
    decreases n,
{
    if n > 0 {
        let l = n - 1;
        assert(!in_box(tiles[l].label@, s.scale, x - s.left(l) - 4, y - s.top(l) - 4));
        lemma_strokes_in_box(tiles[l].label@, s.scale, x - s.left(l) - 4, y - s.top(l) - 4);
        law_tiles_show_their_frames(tiles, s, l, i, x, y);
        assert(s.left(l) == s.left(l));
        if 0 <= i < l {
            law_tiles_are_disjoint(s, i, l);
        }
    }
}

/// A clock shows hours, minutes and seconds.
pub proof fn law_clocks_show_hours_minutes_seconds(h: nat, m: nat, s: nat)
    requires
        m < 60,
        s < 60,
    ensures
        clock(h * 3600 + m * 60 + s) == two_digits(h) + ":"@ + two_digits(m) + ":"@ + two_digits(s),
        h < 10 ==> two_digits(h) == "0"@ + text::decimal(h),
        h >= 10 ==> two_digits(h) == text::decimal(h),
{
    let t = h * 3600 + m * 60 + s;
    assert(t / 3600 == h && t % 3600 == m * 60 + s);
    assert((m * 60 + s) / 60 == m && t % 60 == s);
}

/// Whole seconds are the nearest, and none before zero.
pub proof fn law_whole_seconds_are_nearest(t: Timestamp)
    requires
        t.wf(),
    ensures
        t.num <= 0 ==> whole_seconds(t) == 0,
        t.num > 0 ==> -(t.den as int) <= 2 * (whole_seconds(t) * t.den - t.num) <= t.den,
{
    if t.num > 0 {
        let (n, d) = (t.num as int, t.den as int);
        let q = (2 * n + d) / (2 * d);
        assert(q >= 0 && -d <= 2 * (q * d - n) <= d) by (nonlinear_arith)
            requires
                n > 0,
                d > 0,
                q == (2 * n + d) / (2 * d),
        {
            let e = 2 * d;
            assert(2 * n + d == e * q + (2 * n + d) % e && 0 <= (2 * n + d) % e < e);
        }
    }
}

/// A grid has as many rows as its tiles need, and no more; tiles keep the shape of the first frame.
pub proof fn law_grids_have_the_rows_they_need(layout: GridLayout, n: int, w: int, h: int)
    requires
        n > 0,
        w > 0,
        h > 0,
    ensures
        ({
            let s = shape(layout, n, w, h);
            &&& s.cols >= 1 && s.tw >= 16 && s.th >= 9
            &&& (s.rows - 1) * s.cols < n <= s.rows * s.cols
            &&& s.th * w <= s.tw * h || s.th == 9
            &&& s.tw * h < (s.th + 1) * w
        }),
{
    let s = shape(layout, n, w, h);
    let c = s.cols;
    let r = (n + c - 1) / c;
    assert((r - 1) * c < n <= r * c) by (nonlinear_arith)
        requires
            c >= 1,
            n > 0,
            r == (n + c - 1) / c,
    {
        assert(n + c - 1 == c * r + (n + c - 1) % c && 0 <= (n + c - 1) % c < c);
    }
    let p = s.tw * h;
    let q = p / w;
    assert(q * w <= p < (q + 1) * w) by (nonlinear_arith)
        requires
            w > 0,
            q == p / w,
    {
        assert(p == w * q + p % w && 0 <= p % w < w);
    }
    if q < 9 {
        assert((q + 1) * w <= 10 * w) by (nonlinear_arith)
            requires
                q < 9,
                w > 0,
        ;
    }
}

} // verus!
