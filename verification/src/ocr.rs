//! On-screen text: regions of a probability map that become text boxes, greedy decoding of what
//! a recogniser saw, reading order, and which frames and lines are worth keeping.
//!
//! Probabilities are whole millionths.

use vstd::prelude::*;

use crate::{raster, text};

verus! {

/// Default model directory name under the models directory.
pub const MODEL_DIR: &'static str = "rapidocr";

/// Files and thresholds.
#[derive(Debug)]
pub struct OcrConfig {
    /// Detector file name.
    pub det_model: String,
    /// Recogniser file name.
    pub rec_model: String,
    /// Dictionary file name (one character per line).
    pub dict: String,
    /// Longest side the detector sees.
    pub det_max_side: u32,
    /// Probability threshold for the binary map.
    pub det_threshold: u32,
    /// Mean probability a region needs to become a box.
    pub box_threshold: u32,
    /// How far boxes are grown, in millionths.
    pub unclip_ratio: u32,
    /// Recogniser input height.
    pub rec_height: u32,
    /// Drop recognised lines below this mean confidence.
    pub min_confidence: u32,
}

impl Default for OcrConfig {
    fn default() -> (c: OcrConfig)
        ensures
            c.det_model@ == "ch_PP-OCRv4_det_infer.onnx"@,
            c.rec_model@ == "en_PP-OCRv3_rec_infer.onnx"@,
            c.dict@ == "en_dict.txt"@,
            c.det_max_side == 960,
            c.det_threshold == 300_000,
            c.box_threshold == 500_000,
            c.unclip_ratio == 1_600_000,
            c.rec_height == 48,
            c.min_confidence == 500_000,
    {
        OcrConfig {
            det_model: "ch_PP-OCRv4_det_infer.onnx".to_string(),
            rec_model: "en_PP-OCRv3_rec_infer.onnx".to_string(),
            dict: "en_dict.txt".to_string(),
            det_max_side: 960,
            det_threshold: 300_000,
            box_threshold: 500_000,
            unclip_ratio: 1_600_000,
            rec_height: 48,
            min_confidence: 500_000,
        }
    }
}

/// A detected region.
#[derive(Clone, Copy, Debug, PartialEq, Eq, Structural)]
pub struct TextBox {
    /// Left.
    pub x0: u32,
    /// Top.
    pub y0: u32,
    /// Right (exclusive).
    pub x1: u32,
    /// Bottom (exclusive).
    pub y1: u32,
    /// Mean detector probability inside.
    pub score: u32,
}

/// A map of probabilities, row by row.
pub struct ProbMap {
    /// Probabilities.
    pub prob: Seq<u32>,
    /// Width.
    pub w: int,
    /// Height.
    pub h: int,
    /// From where on a cell counts as text.
    pub threshold: int,
}

impl ProbMap {
    /// Every cell has a probability.
    pub open spec fn wf(self) -> bool {
        self.w > 0 && self.h > 0 && self.prob.len() >= self.w * self.h
    }

    /// Whether cell `i` counts as text.
    pub open spec fn on(self, i: int) -> bool {
        0 <= i < self.w * self.h && self.prob[i] >= self.threshold
    }

    /// Whether two cells share a side.
    pub open spec fn touches(self, i: int, j: int) -> bool {
        ||| j == i - 1 && i % self.w > 0
        ||| j == i + 1 && i % self.w + 1 < self.w
        ||| j == i - self.w && i / self.w > 0
        ||| j == i + self.w && i / self.w + 1 < self.h
    }

    /// A set of cells that no text cell outside of it touches.
    pub open spec fn closed(self, s: Set<int>) -> bool {
        forall|i: int, j: int|
            #![trigger s.contains(i), s.contains(j)]
            s.contains(i) && self.on(i) && self.touches(i, j) && self.on(j) ==> s.contains(j)
    }

    /// Whether text cell `b` is in the region of text cell `a`: every closed set with `a` has
    /// `b` too.
    pub open spec fn linked(self, a: int, b: int) -> bool {
        self.on(a) && self.on(b) && forall|s: Set<int>|
            #[trigger] self.closed(s) && s.contains(a) ==> s.contains(b)
    }

    /// Whether a cell is the first of its region.
    pub open spec fn first(self, i: int) -> bool {
        self.on(i) && forall|j: int| 0 <= j < i ==> !#[trigger] self.linked(j, i)
    }

    /// The leftmost column of the region of `a`, over the first `n` cells.
    pub open spec fn left(self, a: int, n: int) -> int
        decreases n,
    {
        if n <= 0 {
            self.w
        } else if self.linked(a, n - 1) {
            raster::smaller(self.left(a, n - 1), (n - 1) % self.w)
        } else {
            self.left(a, n - 1)
        }
    }

    /// The rightmost column.
    pub open spec fn right(self, a: int, n: int) -> int
        decreases n,
    {
        if n <= 0 {
            0
        } else if self.linked(a, n - 1) {
            raster::larger(self.right(a, n - 1), (n - 1) % self.w)
        } else {
            self.right(a, n - 1)
        }
    }

    /// The top row.
    pub open spec fn top(self, a: int, n: int) -> int
        decreases n,
    {
        if n <= 0 {
            self.h
        } else if self.linked(a, n - 1) {
            raster::smaller(self.top(a, n - 1), (n - 1) / self.w)
        } else {
            self.top(a, n - 1)
        }
    }

    /// The bottom row.
    pub open spec fn bottom(self, a: int, n: int) -> int
        decreases n,
    {
        if n <= 0 {
            0
        } else if self.linked(a, n - 1) {
            raster::larger(self.bottom(a, n - 1), (n - 1) / self.w)
        } else {
            self.bottom(a, n - 1)
        }
    }

    /// The bounds of the region of `a`: left, top, right and bottom, all inclusive.
    pub open spec fn bounds(self, a: int) -> (int, int, int, int) {
        let n = self.w * self.h;
        (self.left(a, n), self.top(a, n), self.right(a, n), self.bottom(a, n))
    }
}

proof fn lemma_place(m: ProbMap, i: int)
    requires
        m.wf(),
        0 <= i < m.w * m.h,
    ensures
        0 <= i % m.w < m.w,
        0 <= i / m.w < m.h,
        i == (i / m.w) * m.w + i % m.w,
{
    let (w, h) = (m.w, m.h);
    assert(0 <= i / w < h && i == (i / w) * w + i % w && 0 <= i % w < w) by (nonlinear_arith)
        requires
            0 <= i < w * h,
            w > 0,
    ;
}

proof fn lemma_down(m: ProbMap, i: int)
    requires
        m.wf(),
        0 <= i < m.w * m.h,
    ensures
        i / m.w > 0 <==> i >= m.w,
        i / m.w + 1 < m.h <==> i + m.w < m.w * m.h,
        (i + m.w) / m.w == i / m.w + 1,
        (i + m.w) % m.w == i % m.w,
        i >= m.w ==> (i - m.w) / m.w == i / m.w - 1 && (i - m.w) % m.w == i % m.w,
        i % m.w > 0 ==> i >= 1 && (i - 1) / m.w == i / m.w && (i - 1) % m.w == i % m.w - 1,
        i % m.w + 1 < m.w ==> i + 1 < m.w * m.h && (i + 1) / m.w == i / m.w && (i + 1) % m.w == i
            % m.w + 1,
{
    lemma_place(m, i);
    let (w, h) = (m.w, m.h);
    let (x, y) = (i % w, i / w);
    assert((y + 1) * w == y * w + w) by (nonlinear_arith);
    vstd::arithmetic::div_mod::lemma_fundamental_div_mod_converse(i + w, w, y + 1, x);
    assert(y + 1 < h ==> (y + 1) * w + x < w * h) by (nonlinear_arith)
        requires
            0 <= x < w,
    ;
    assert(y + 1 >= h ==> (y + 1) * w >= w * h) by (nonlinear_arith)
        requires
            0 < w,
    ;
    assert(y > 0 ==> y * w >= w) by (nonlinear_arith)
        requires
            0 < w,
    ;
    assert(y == 0 ==> y * w == 0) by (nonlinear_arith);
    if i >= w {
        assert((y - 1) * w == y * w - w) by (nonlinear_arith);
        vstd::arithmetic::div_mod::lemma_fundamental_div_mod_converse(i - w, w, y - 1, x);
    }
    if x > 0 {
        assert(y * w >= 0) by (nonlinear_arith)
            requires
                y >= 0,
                w > 0,
        ;
        vstd::arithmetic::div_mod::lemma_fundamental_div_mod_converse(i - 1, w, y, x - 1);
    }
    if x + 1 < w {
        assert(y * w + w <= w * h) by (nonlinear_arith)
            requires
                y < h,
                w > 0,
        ;
        vstd::arithmetic::div_mod::lemma_fundamental_div_mod_converse(i + 1, w, y, x + 1);
    }
}

proof fn lemma_touches_back(m: ProbMap, i: int, j: int)
    requires
        m.wf(),
        m.on(i),
        m.on(j),
        m.touches(i, j),
    ensures
        m.touches(j, i),
{
    lemma_place(m, i);
    lemma_place(m, j);
    lemma_down(m, i);
    lemma_down(m, j);
}

proof fn lemma_linked_self(m: ProbMap, a: int)
    requires
        m.on(a),
    ensures
        m.linked(a, a),
{
}

proof fn lemma_linked_step(m: ProbMap, a: int, i: int, j: int)
    requires
        m.linked(a, i),
        m.touches(i, j),
        m.on(j),
    ensures
        m.linked(a, j),
{
    assert forall|s: Set<int>| #[trigger] m.closed(s) && s.contains(a) implies s.contains(j) by {
        assert(s.contains(i));
    }
}

/// Being in one region goes both ways and chains: regions do not overlap.
pub proof fn law_regions_are_disjoint(m: ProbMap, a: int, b: int, c: int)
    requires
        m.wf(),
        m.linked(a, b),
    ensures
        m.linked(b, a),
        m.linked(b, c) ==> m.linked(a, c),
{
    let back = Set::new(|x: int| m.linked(x, a));
    assert(back.contains(a)) by {
        lemma_linked_self(m, a);
    }
    assert(m.closed(back)) by {
        assert forall|i: int, j: int|
            #![trigger back.contains(i), back.contains(j)]
            back.contains(i) && m.on(i) && m.touches(i, j) && m.on(j) implies back.contains(j) by {
            lemma_touches_back(m, i, j);
            lemma_linked_self(m, j);
            lemma_linked_step(m, j, j, i);
            assert forall|s: Set<int>| #[trigger] m.closed(s) && s.contains(j) implies s.contains(
                a,
            ) by {
                assert(s.contains(i));
            }
        }
    }
    assert(back.contains(b));
    if m.linked(b, c) {
        assert forall|s: Set<int>| #[trigger] m.closed(s) && s.contains(a) implies s.contains(c) by {
            assert(s.contains(b));
        }
    }
}

/// The sum of the probabilities of the first `n` columns of a row, from column `x` on.
pub open spec fn row_total(m: ProbMap, y: int, x: int, n: int) -> int
    decreases n,
{
    if n <= 0 {
        0
    } else {
        row_total(m, y, x, n - 1) + m.prob[y * m.w + x + n - 1]
    }
}

/// The sum of the probabilities of the first `n` rows of a box, from row `y` on.
pub open spec fn box_total(m: ProbMap, x: int, cols: int, y: int, n: int) -> int
    decreases n,
{
    if n <= 0 {
        0
    } else {
        box_total(m, x, cols, y, n - 1) + row_total(m, y + n - 1, x, cols)
    }
}

/// How far a box is grown: its area times the ratio over its perimeter, to the nearest whole.
pub open spec fn growth(bw: int, bh: int, ratio: int) -> int {
    (2 * (bw * bh * ratio) + 2_000_000 * (bw + bh)) / (4_000_000 * (bw + bh))
}

/// The box of the region of `a`, if the region is large and certain enough.
pub open spec fn region_box(m: ProbMap, a: int, box_threshold: int, ratio: int) -> Option<
    (int, int, int, int, int),
> {
    let (x0, y0, x1, y1) = m.bounds(a);
    let (bw, bh) = (x1 - x0 + 1, y1 - y0 + 1);
    let score = box_total(m, x0, bw, y0, bh) / (bw * bh);
    let d = growth(bw, bh, ratio);
    if bw < 3 || bh < 3 || score < box_threshold {
        None
    } else {
        Some(
            (
                raster::larger(x0 - d, 0),
                raster::larger(y0 - d, 0),
                raster::smaller(x1 + 1 + d, m.w),
                raster::smaller(y1 + 1 + d, m.h),
                score,
            ),
        )
    }
}

/// The boxes of the regions that start in the first `n` cells, in that order.
pub open spec fn boxes_of(m: ProbMap, box_threshold: int, ratio: int, n: int) -> Seq<
    (int, int, int, int, int),
>
    decreases n,
{
    if n <= 0 {
        Seq::empty()
    } else {
        let rest = boxes_of(m, box_threshold, ratio, n - 1);
        if m.first(n - 1) {
            match region_box(m, n - 1, box_threshold, ratio) {
                Some(b) => rest.push(b),
                None => rest,
            }
        } else {
            rest
        }
    }
}

/// Boxes as mathematics.
pub open spec fn box_views(s: Seq<TextBox>) -> Seq<(int, int, int, int, int)> {
    s.map_values(
        |b: TextBox| (b.x0 as int, b.y0 as int, b.x1 as int, b.y1 as int, b.score as int),
    )
}

/// How many of the first `n` cells were not seen.
spec fn unseen(seen: Seq<bool>, n: int) -> int
    decreases n,
{
    if n <= 0 {
        0
    } else {
        unseen(seen, n - 1) + if seen[n - 1] {
            0int
        } else {
            1int
        }
    }
}

proof fn lemma_unseen(seen: Seq<bool>, n: int)
    requires
        0 <= n <= seen.len(),
    ensures
        0 <= unseen(seen, n) <= n,
    decreases n,
{
    if n > 0 {
        lemma_unseen(seen, n - 1);
    }
}

proof fn lemma_unseen_mark(seen: Seq<bool>, j: int, n: int)
    requires
        0 <= j < seen.len(),
        0 <= n <= seen.len(),
        !seen[j],
    ensures
        unseen(seen.update(j, true), n) == unseen(seen, n) - if j < n {
            1int
        } else {
            0int
        },
    decreases n,
{
    if n > 0 {
        lemma_unseen_mark(seen, j, n - 1);
    }
}

/// The cells that were seen.
spec fn seen_set(seen: Seq<bool>) -> Set<int> {
    Set::new(|i: int| 0 <= i < seen.len() && seen[i])
}

/// Whether cell `k` waits to be visited.
spec fn waits(stack: Seq<usize>, k: int) -> bool {
    exists|x: int| 0 <= x < stack.len() && #[trigger] stack[x] == k
}

/// What a search of the region of `a` has done: it saw what was seen before, what it found is
/// in the region, and of each cell that no longer waits, but for `hole`, all neighbours were
/// seen.
spec fn searching(
    m: ProbMap,
    before: Seq<bool>,
    seen: Seq<bool>,
    stack: Seq<usize>,
    a: int,
    hole: int,
) -> bool {
    &&& m.wf()
    &&& m.on(a)
    &&& m.w * m.h <= usize::MAX
    &&& before.len() == m.w * m.h
    &&& seen.len() == before.len()
    &&& !before[a]
    &&& seen[a]
    &&& m.closed(seen_set(before))
    &&& forall|i: int| 0 <= i < seen.len() && #[trigger] before[i] ==> seen[i]
    &&& forall|i: int| 0 <= i < seen.len() && #[trigger] seen[i] && !before[i] ==> m.linked(a, i)
    &&& forall|k: int|
        0 <= k < stack.len() ==> 0 <= #[trigger] stack[k] < seen.len() && seen[stack[k] as int]
            && !before[stack[k] as int]
    &&& stack.no_duplicates()
    &&& forall|i: int|
        0 <= i < seen.len() && #[trigger] seen[i] && i != hole && !waits(stack, i)
            ==> settled(m, seen, i)
}

/// All neighbours of a cell were seen.
spec fn settled(m: ProbMap, seen: Seq<bool>, i: int) -> bool {
    forall|j: int| #[trigger] m.touches(i, j) && m.on(i) && m.on(j) ==> seen[j]
}

fn visit(
    prob: &Vec<u32>,
    threshold: u32,
    seen: &mut Vec<bool>,
    stack: &mut Vec<usize>,
    j: usize,
    Ghost(m): Ghost<ProbMap>,
    Ghost(before): Ghost<Seq<bool>>,
    Ghost(a): Ghost<int>,
    Ghost(i): Ghost<int>,
)
    requires
        searching(m, before, old(seen)@, old(stack)@, a, i),
        prob@ == m.prob,
        threshold == m.threshold,
        m.linked(a, i),
        m.touches(i, j as int),
        j < old(seen)@.len(),
        0 <= i < old(seen)@.len(),
        old(seen)@[i],
        !waits(old(stack)@, i),
    ensures
        searching(m, before, final(seen)@, final(stack)@, a, i),
        forall|k: int| 0 <= k < old(seen)@.len() && #[trigger] old(seen)@[k] ==> final(seen)@[k],
        m.on(j as int) ==> final(seen)@[j as int],
        !waits(final(stack)@, i),
        forall|k: int|
            0 <= k < old(seen)@.len() && #[trigger] final(seen)@[k] && !waits(final(stack)@, k) ==> old(seen)@[k] && !waits(old(stack)@, k),
        2 * unseen(final(seen)@, m.w * m.h) + final(stack)@.len() <= 2 * unseen(
            old(seen)@,
            m.w * m.h,
        ) + old(stack)@.len(),
{
    if !seen[j] && prob[j] >= threshold {
        let ghost s0 = seen@;
        let ghost t0 = stack@;
        seen.set(j, true);
        stack.push(j);
        proof {
            let s1 = seen@;
            let t1 = stack@;
            assert(s1 == s0.update(j as int, true));
            lemma_unseen_mark(s0, j as int, m.w * m.h);
            lemma_linked_step(m, a, i, j as int);
            assert(t1.no_duplicates()) by {
                assert forall|x: int, y: int|
                    0 <= x < t1.len() && 0 <= y < t1.len() && x != y implies t1[x] != t1[y] by {
                    if x == t0.len() {
                        assert(s0[t0[y] as int]);
                    } else if y == t0.len() {
                        assert(s0[t0[x] as int]);
                    }
                }
            }
            assert(t1[t0.len() as int] == j);
            assert forall|k: int| 0 <= k < s1.len() && !#[trigger] waits(t1, k) implies k != j
                && !waits(t0, k) by {
                if waits(t0, k) {
                    let x = choose|x: int| 0 <= x < t0.len() && t0[x] == k;
                    assert(t1[x] == k);
                }
            }
            assert forall|k: int|
                0 <= k < s1.len() && #[trigger] s1[k] && k != i && !waits(t1, k) implies settled(m, s1, k) by {
                assert(s0[k]);
                assert(settled(m, s0, k));
            }
            assert(!waits(t1, i)) by {
                if waits(t1, i) {
                    let x = choose|x: int| 0 <= x < t1.len() && t1[x] == i;
                    if x < t0.len() {
                        assert(t0[x] == i);
                    }
                }
            }
        }
    }
}

/// The bounds found so far hold every cell that no longer waits, and each side is a cell's.
spec fn framed(
    m: ProbMap,
    before: Seq<bool>,
    seen: Seq<bool>,
    stack: Seq<usize>,
    a: int,
    b: (int, int, int, int),
    at: (int, int, int, int),
) -> bool {
    &&& forall|j: int|
        0 <= j < seen.len() && #[trigger] seen[j] && !before[j] && !waits(stack, j)
            ==> b.0 <= j % m.w <= b.2 && b.1 <= j / m.w <= b.3
    &&& b.0 == m.w || (m.linked(a, at.0) && at.0 % m.w == b.0)
    &&& b.1 == m.h || (m.linked(a, at.1) && at.1 / m.w == b.1)
    &&& b.2 == 0 || (m.linked(a, at.2) && at.2 % m.w == b.2)
    &&& b.3 == 0 || (m.linked(a, at.3) && at.3 / m.w == b.3)
}

proof fn lemma_bounds(m: ProbMap, a: int, b: (int, int, int, int), at: (int, int, int, int), n: int)
    requires
        m.wf(),
        0 <= n <= m.w * m.h,
        forall|j: int| #[trigger]
            m.linked(a, j) ==> b.0 <= j % m.w <= b.2 && b.1 <= j / m.w <= b.3,
        b.0 <= m.w,
        b.1 <= m.h,
        b.2 >= 0,
        b.3 >= 0,
    ensures
        m.left(a, n) >= b.0,
        m.top(a, n) >= b.1,
        m.right(a, n) <= b.2,
        m.bottom(a, n) <= b.3,
        m.linked(a, at.0) && at.0 % m.w == b.0 && at.0 < n ==> m.left(a, n) == b.0,
        m.linked(a, at.1) && at.1 / m.w == b.1 && at.1 < n ==> m.top(a, n) == b.1,
        m.linked(a, at.2) && at.2 % m.w == b.2 && at.2 < n ==> m.right(a, n) == b.2,
        m.linked(a, at.3) && at.3 / m.w == b.3 && at.3 < n ==> m.bottom(a, n) == b.3,
        0 <= m.right(a, n),
        0 <= m.bottom(a, n),
    decreases n,
{
    if n > 0 {
        lemma_bounds(m, a, b, at, n - 1);
        lemma_place(m, n - 1);
    }
}

/// A search that has nothing left to visit has seen just the region.
proof fn lemma_searched(m: ProbMap, before: Seq<bool>, seen: Seq<bool>, a: int, hole: int)
    requires
        searching(m, before, seen, Seq::empty(), a, hole),
        hole < 0,
    ensures
        m.closed(seen_set(seen)),
        forall|j: int|
            0 <= j < seen.len() ==> (#[trigger] m.linked(a, j) <==> seen[j] && !before[j]),
{
    let s = seen_set(seen);
    assert forall|i: int, j: int|
        #![trigger s.contains(i), s.contains(j)]
        s.contains(i) && m.on(i) && m.touches(i, j) && m.on(j) implies s.contains(j) by {
        assert(seen[i]);
        assert(settled(m, seen, i));
    }
    assert(m.closed(s));
    assert forall|j: int| 0 <= j < seen.len() implies (#[trigger] m.linked(a, j) <==> seen[j]
        && !before[j]) by {
        if m.linked(a, j) {
            assert(s.contains(a));
            assert(s.contains(j));
            if before[j] {
                law_regions_are_disjoint(m, a, j, j);
                assert(seen_set(before).contains(j));
                assert(seen_set(before).contains(a));
            }
        }
    }
}

fn search(
    prob: &Vec<u32>,
    w: usize,
    h: usize,
    threshold: u32,
    seen: &mut Vec<bool>,
    start: usize,
    Ghost(m): Ghost<ProbMap>,
) -> (r: (usize, usize, usize, usize))
    requires
        m == (ProbMap { prob: prob@, w: w as int, h: h as int, threshold: threshold as int }),
        m.wf(),
        m.w * m.h <= usize::MAX,
        old(seen)@.len() == m.w * m.h,
        m.closed(seen_set(old(seen)@)),
        m.on(start as int),
        !old(seen)@[start as int],
    ensures
        (r.0 as int, r.1 as int, r.2 as int, r.3 as int) == m.bounds(start as int),
        r.0 <= r.2 < w,
        r.1 <= r.3 < h,
        final(seen)@.len() == old(seen)@.len(),
        m.closed(seen_set(final(seen)@)),
        forall|j: int|
            0 <= j < old(seen)@.len() ==> (#[trigger] final(seen)@[j] <==> old(seen)@[j]
                || m.linked(start as int, j)),
{
    let ghost before = seen@;
    let ghost a = start as int;
    let mut stack: Vec<usize> = Vec::new();
    seen.set(start, true);
    stack.push(start);
    let mut x0: usize = w;
    let mut y0: usize = h;
    let mut x1: usize = 0;
    let mut y1: usize = 0;
    let ghost mut at: (int, int, int, int) = (a, a, a, a);
    proof {
        lemma_linked_self(m, a);
        lemma_unseen(seen@, m.w * m.h);
        let s1 = seen@;
        assert(stack@[0] == start);
        assert forall|i: int|
            0 <= i < s1.len() && #[trigger] s1[i] && i != -1 && !waits(stack@, i) implies settled(m, s1, i) by {
            assert(i != a);
            assert(before[i]);
            assert forall|j: int| #[trigger] m.touches(i, j) && m.on(i) && m.on(j) implies s1[j] by {
                assert(seen_set(before).contains(i));
                assert(seen_set(before).contains(j));
            }
        }
        assert(searching(m, before, s1, stack@, a, -1));
        assert forall|j: int|
            0 <= j < s1.len() && #[trigger] s1[j] && !before[j] && !waits(stack@, j) implies false by {
            assert(j == a);
        }
        assert(framed(
            m,
            before,
            s1,
            stack@,
            a,
            (x0 as int, y0 as int, x1 as int, y1 as int),
            at,
        ));
    }
    while stack.len() > 0
        invariant
            m == (ProbMap { prob: prob@, w: w as int, h: h as int, threshold: threshold as int }),
            m.wf(),
            m.w * m.h <= usize::MAX,
            a == start,
            searching(m, before, seen@, stack@, a, -1),
            framed(
                m,
                before,
                seen@,
                stack@,
                a,
                (x0 as int, y0 as int, x1 as int, y1 as int),
                at,
            ),
            x0 <= w,
            y0 <= h,
        decreases 2 * unseen(seen@, m.w * m.h) + stack@.len(),
    {
        let ghost t0 = stack@;
        let ghost s0 = seen@;
        let ghost b0 = (x0 as int, y0 as int, x1 as int, y1 as int);
        proof {
            lemma_unseen(seen@, m.w * m.h);
        }
        let top = stack.pop();
        let i: usize = match top {
            Some(i) => i,
            None => 0,
        };
        proof {
            assert(i == t0[t0.len() - 1]);
            assert(s0[i as int] && !before[i as int]);
            assert(m.linked(a, i as int));
            assert(stack@ == t0.drop_last());
            assert(!waits(stack@, i as int)) by {
                if waits(stack@, i as int) {
                    let k = choose|k: int| 0 <= k < stack@.len() && stack@[k] == i;
                    assert(t0[k] == i);
                }
            }
            assert forall|k: int| 0 <= k < s0.len() && k != i && !#[trigger] waits(stack@, k) implies !waits(t0, k) by {
                if waits(t0, k) {
                    let x = choose|x: int| 0 <= x < t0.len() && t0[x] == k;
                    if x < t0.len() - 1 {
                        assert(stack@[x] == k);
                    }
                }
            }
            assert forall|k: int| 0 <= k < stack@.len() implies 0 <= #[trigger] stack@[k]
                < s0.len() && s0[stack@[k] as int] && !before[stack@[k] as int] by {
                assert(stack@[k] == t0[k]);
            }
            assert(stack@.no_duplicates()) by {
                assert forall|x: int, y: int|
                    0 <= x < stack@.len() && 0 <= y < stack@.len() && x
                        != y implies stack@[x] != stack@[y] by {
                    assert(t0[x] != t0[y]);
                }
            }
            assert(searching(m, before, s0, stack@, a, i as int));
            lemma_place(m, i as int);
            lemma_down(m, i as int);
        }
        let x: usize = i % w;
        let y: usize = i / w;
        if x < x0 {
            x0 = x;
            proof {
                at = (i as int, at.1, at.2, at.3);
            }
        }
        if y < y0 {
            y0 = y;
            proof {
                at = (at.0, i as int, at.2, at.3);
            }
        }
        if x > x1 {
            x1 = x;
            proof {
                at = (at.0, at.1, i as int, at.3);
            }
        }
        if y > y1 {
            y1 = y;
            proof {
                at = (at.0, at.1, at.2, i as int);
            }
        }
        let ghost b1 = (x0 as int, y0 as int, x1 as int, y1 as int);
        let ghost t1 = stack@;
        if x > 0 {
            visit(
                prob,
                threshold,
                seen,
                &mut stack,
                i - 1,
                Ghost(m),
                Ghost(before),
                Ghost(a),
                Ghost(i as int),
            );
        }
        let ghost s2 = seen@;
        if x < w - 1 {
            visit(
                prob,
                threshold,
                seen,
                &mut stack,
                i + 1,
                Ghost(m),
                Ghost(before),
                Ghost(a),
                Ghost(i as int),
            );
        }
        let ghost s3 = seen@;
        if y > 0 {
            visit(
                prob,
                threshold,
                seen,
                &mut stack,
                i - w,
                Ghost(m),
                Ghost(before),
                Ghost(a),
                Ghost(i as int),
            );
        }
        let ghost s4 = seen@;
        if y < h - 1 {
            visit(
                prob,
                threshold,
                seen,
                &mut stack,
                i + w,
                Ghost(m),
                Ghost(before),
                Ghost(a),
                Ghost(i as int),
            );
        }
        proof {
            let s5 = seen@;
            lemma_unseen(s5, m.w * m.h);
            assert(settled(m, s5, i as int)) by {
                assert forall|j: int| #[trigger]
                    m.touches(i as int, j) && m.on(i as int) && m.on(j) implies s5[j] by {
                    if j == i - 1 && x > 0 {
                        assert(s2[j]);
                        assert(s3[j]);
                        assert(s4[j]);
                    } else if j == i + 1 && x + 1 < w {
                        assert(s3[j]);
                        assert(s4[j]);
                    } else if j == i - w && y > 0 {
                        assert(s4[j]);
                    } else {
                        assert(j == i + w);
                    }
                }
            }
            assert(searching(m, before, s5, stack@, a, -1));
            assert forall|j: int|
                0 <= j < s5.len() && #[trigger] s5[j] && !before[j] && !waits(stack@, j) implies b1.0 <= j % m.w <= b1.2 && b1.1 <= j / m.w <= b1.3 by {
                if j != i {
                    assert(s4[j]);
                    assert(s3[j]);
                    assert(s2[j]);
                    assert(s0[j]);
                    assert(!waits(t0, j));
                }
            }
        }
    }
    proof {
        assert(stack@ =~= Seq::<usize>::empty());
        lemma_searched(m, before, seen@, a, -1);
        let b = (x0 as int, y0 as int, x1 as int, y1 as int);
        assert forall|j: int| #[trigger] m.linked(a, j) implies b.0 <= j % m.w <= b.2 && b.1 <= j
            / m.w <= b.3 by {
            assert(seen@[j] && !before[j]);
        }
        assert(m.linked(a, a));
        lemma_place(m, a);
        lemma_bounds(m, a, b, at, m.w * m.h);
        if b.0 != m.w {
            lemma_place(m, at.0);
        }
        if b.2 != 0 {
            lemma_place(m, at.2);
        }
        if b.3 != 0 {
            lemma_place(m, at.3);
        }
    }
    (x0, y0, x1, y1)
}

proof fn lemma_box_cell(w: int, h: int, x: int, y: int)
    requires
        0 <= x < w,
        0 <= y < h,
    ensures
        0 <= y * w + x < w * h,
        0 <= y * w,
{
    assert(0 <= y * w + x < w * h && 0 <= y * w) by (nonlinear_arith)
        requires
            0 <= x < w,
            0 <= y < h,
    ;
}

fn sum_of_box(
    prob: &Vec<u32>,
    w: usize,
    h: usize,
    b: (usize, usize, usize, usize),
    Ghost(m): Ghost<ProbMap>,
) -> (r: u128)
    requires
        m.wf(),
        m.prob == prob@,
        m.w == w,
        m.h == h,
        w <= 0xffff_ffff,
        h <= 0xffff_ffff,
        m.w * m.h <= usize::MAX,
        b.0 <= b.2 < w,
        b.1 <= b.3 < h,
    ensures
        r == box_total(m, b.0 as int, b.2 - b.0 + 1, b.1 as int, b.3 - b.1 + 1),
        r <= 0xffff_ffff * ((b.2 - b.0 + 1) * (b.3 - b.1 + 1)),
{
    let (x0, y0, x1, y1) = b;
    let cols: usize = x1 - x0 + 1;
    let rows: usize = y1 - y0 + 1;
    let mut sum: u128 = 0;
    let mut r: usize = 0;
    proof {
        assert(cols * 0 == 0) by (nonlinear_arith);
    }
    while r < rows
        invariant
            r <= rows == y1 - y0 + 1,
            cols == x1 - x0 + 1,
            x0 <= x1 < w,
            y0 <= y1 < h,
            m.wf(),
            m.prob == prob@,
            m.w == w,
            m.h == h,
            w <= 0xffff_ffff,
            h <= 0xffff_ffff,
            m.w * m.h <= usize::MAX,
            sum == box_total(m, x0 as int, cols as int, y0 as int, r as int),
            sum <= 0xffff_ffff * (cols * r),
        decreases rows - r,
    {
        let y: usize = y0 + r;
        let mut row: u128 = 0;
        let mut c: usize = 0;
        while c < cols
            invariant
                c <= cols == x1 - x0 + 1,
                x0 <= x1 < w,
                y < h,
                m.wf(),
                m.prob == prob@,
                m.w == w,
                m.h == h,
                w <= 0xffff_ffff,
                m.w * m.h <= usize::MAX,
                row == row_total(m, y as int, x0 as int, c as int),
                row <= 0xffff_ffff * c,
            decreases cols - c,
        {
            proof {
                lemma_box_cell(w as int, h as int, x0 + c, y as int);
            }
            row = row + prob[y * w + (x0 + c)] as u128;
            c = c + 1;
        }
        proof {
            assert(cols * (r + 1) == cols * r + cols) by (nonlinear_arith);
            assert(cols * (r + 1) <= 0xffff_ffff * 0xffff_ffff) by (nonlinear_arith)
                requires
                    cols <= 0xffff_ffff,
                    r + 1 <= 0xffff_ffff,
            ;
        }
        sum = sum + row;
        r = r + 1;
    }
    sum
}

fn grow(bw: usize, bh: usize, ratio: u32) -> (d: u128)
    requires
        1 <= bw <= 0xffff_ffff,
        1 <= bh <= 0xffff_ffff,
    ensures
        d == growth(bw as int, bh as int, ratio as int),
        d <= 0xffff_ffff_ffff_ffff_ffff_ffff_ffff,
{
    let w: u128 = bw as u128;
    let h: u128 = bh as u128;
    let k: u128 = ratio as u128;
    proof {
        assert(1 <= w * h <= 0xffff_ffff * 0xffff_ffff) by (nonlinear_arith)
            requires
                1 <= w <= 0xffff_ffff,
                1 <= h <= 0xffff_ffff,
        ;
        let area = w * h;
        assert(0 <= area * k <= 0xffff_ffff * 0xffff_ffff * 0xffff_ffff) by (nonlinear_arith)
            requires
                0 <= area <= 0xffff_ffff * 0xffff_ffff,
                0 <= k <= 0xffff_ffff,
        ;
        let (n, e) = (2 * (w * h * k) + 2_000_000 * (w + h), 4_000_000 * (w + h));
        assert(0 <= n / e <= n) by (nonlinear_arith)
            requires
                0 <= n,
                1 <= e,
        ;
    }
    (2 * (w * h * k) + 2_000_000 * (w + h)) / (4_000_000 * (w + h))
}

fn box_of_region(
    prob: &Vec<u32>,
    w: usize,
    h: usize,
    cfg: &OcrConfig,
    b: (usize, usize, usize, usize),
    Ghost(m): Ghost<ProbMap>,
    Ghost(a): Ghost<int>,
) -> (r: Option<TextBox>)
    requires
        m.wf(),
        m.prob == prob@,
        m.w == w,
        m.h == h,
        w <= 0xffff_ffff,
        h <= 0xffff_ffff,
        m.w * m.h <= usize::MAX,
        b.0 <= b.2 < w,
        b.1 <= b.3 < h,
        (b.0 as int, b.1 as int, b.2 as int, b.3 as int) == m.bounds(a),
    ensures
        match r {
            Some(x) => region_box(m, a, cfg.box_threshold as int, cfg.unclip_ratio as int) == Some(
                (x.x0 as int, x.y0 as int, x.x1 as int, x.y1 as int, x.score as int),
            ),
            None => region_box(m, a, cfg.box_threshold as int, cfg.unclip_ratio as int) is None,
        },
{
    let (x0, y0, x1, y1) = b;
    let bw: usize = x1 - x0 + 1;
    let bh: usize = y1 - y0 + 1;
    if bw < 3 || bh < 3 {
        return None;
    }
    let sum: u128 = sum_of_box(prob, w, h, b, Ghost(m));
    proof {
        let (p, q) = (bw as int, bh as int);
        assert(1 <= p * q <= 0xffff_ffff * 0xffff_ffff) by (nonlinear_arith)
            requires
                1 <= p <= 0xffff_ffff,
                1 <= q <= 0xffff_ffff,
        ;
        let (t, ar) = (sum as int, p * q);
        assert(0 <= t / ar <= 0xffff_ffff) by (nonlinear_arith)
            requires
                0 <= t <= 0xffff_ffff * ar,
                1 <= ar,
        ;
    }
    let area: u128 = (bw as u128) * (bh as u128);
    let score: u128 = sum / area;
    if score < cfg.box_threshold as u128 {
        return None;
    }
    let d: u128 = grow(bw, bh, cfg.unclip_ratio);
    let left: u128 = if (x0 as u128) < d {
        0
    } else {
        x0 as u128 - d
    };
    let top: u128 = if (y0 as u128) < d {
        0
    } else {
        y0 as u128 - d
    };
    let r1: u128 = x1 as u128 + 1 + d;
    let right: u128 = if r1 < w as u128 {
        r1
    } else {
        w as u128
    };
    let b1: u128 = y1 as u128 + 1 + d;
    let bottom: u128 = if b1 < h as u128 {
        b1
    } else {
        h as u128
    };
    Some(
        TextBox {
            x0: left as u32,
            y0: top as u32,
            x1: right as u32,
            y1: bottom as u32,
            score: score as u32,
        },
    )
}

/// The boxes of the regions of a probability map: cells at or above a threshold that share
/// sides form a region, and regions that are large and certain enough become boxes, grown. In
/// the coordinates of the map; none where the map is empty or too short.
pub fn boxes_from_prob_map(prob: &Vec<u32>, w: usize, h: usize, cfg: &OcrConfig) -> (r: Vec<
    TextBox,
>)
    requires
        w * h <= usize::MAX,
        w <= 0xffff_ffff,
        h <= 0xffff_ffff,
    ensures
        prob@.len() < w * h || w == 0 || h == 0 ==> r@.len() == 0,
        prob@.len() >= w * h && w > 0 && h > 0 ==> box_views(r@) == boxes_of(
            ProbMap {
                prob: prob@,
                w: w as int,
                h: h as int,
                threshold: cfg.det_threshold as int,
            },
            cfg.box_threshold as int,
            cfg.unclip_ratio as int,
            w * h,
        ),
{
    let mut out: Vec<TextBox> = Vec::new();
    if w == 0 || h == 0 || prob.len() < w * h {
        return out;
    }
    let ghost m = ProbMap {
        prob: prob@,
        w: w as int,
        h: h as int,
        threshold: cfg.det_threshold as int,
    };
    let ghost (bt, ur) = (cfg.box_threshold as int, cfg.unclip_ratio as int);
    let n: usize = w * h;
    let mut seen: Vec<bool> = Vec::new();
    while seen.len() < n
        invariant
            seen@.len() <= n,
            forall|i: int| 0 <= i < seen@.len() ==> !#[trigger] seen@[i],
        decreases n - seen@.len(),
    {
        seen.push(false);
    }
    let mut start: usize = 0;
    proof {
        assert(box_views(out@) =~= Seq::<(int, int, int, int, int)>::empty());
    }
    while start < n
        invariant
            m == (ProbMap {
                prob: prob@,
                w: w as int,
                h: h as int,
                threshold: cfg.det_threshold as int,
            }),
            bt == cfg.box_threshold,
            ur == cfg.unclip_ratio,
            m.wf(),
            w <= 0xffff_ffff,
            h <= 0xffff_ffff,
            start <= n == w * h,
            n == m.w * m.h <= usize::MAX,
            seen@.len() == n,
            m.closed(seen_set(seen@)),
            forall|i: int|
                0 <= i < n && #[trigger] seen@[i] ==> m.on(i) && exists|k: int|
                    0 <= k < start && #[trigger] m.linked(k, i),
            forall|k: int| 0 <= k < start && #[trigger] m.on(k) ==> seen@[k],
            box_views(out@) == boxes_of(m, bt, ur, start as int),
        decreases n - start,
    {
        let ghost a = start as int;
        let ghost had = box_views(out@);
        let ghost s0 = seen@;
        if !seen[start] && prob[start] >= cfg.det_threshold {
            proof {
                assert(m.on(a));
                assert forall|j: int| 0 <= j < a implies !#[trigger] m.linked(j, a) by {
                    if m.linked(j, a) {
                        assert(seen_set(s0).contains(j));
                        assert(seen_set(s0).contains(a));
                    }
                }
                assert(m.first(a));
            }
            let b = search(prob, w, h, cfg.det_threshold, &mut seen, start, Ghost(m));
            proof {
                lemma_linked_self(m, a);
                assert forall|i: int| 0 <= i < n && #[trigger] seen@[i] implies m.on(i) && exists|
                    k: int,
                |
                    0 <= k < a + 1 && #[trigger] m.linked(k, i) by {
                    if s0[i] {
                        let k = choose|k: int| 0 <= k < a && #[trigger] m.linked(k, i);
                        assert(m.linked(k, i));
                    } else {
                        assert(m.linked(a, i));
                    }
                }
                assert forall|k: int| 0 <= k < a + 1 && #[trigger] m.on(k) implies seen@[k] by {
                    if k < a {
                        assert(s0[k]);
                    }
                }
            }
            let found = box_of_region(prob, w, h, cfg, b, Ghost(m), Ghost(a));
            if let Some(x) = found {
                out.push(x);
                proof {
                    assert(box_views(out@) =~= had.push(
                        (x.x0 as int, x.y0 as int, x.x1 as int, x.y1 as int, x.score as int),
                    ));
                }
            }
        } else {
            proof {
                assert(!m.first(a)) by {
                    if m.on(a) {
                        assert(s0[a]);
                        let k = choose|k: int| 0 <= k < a && #[trigger] m.linked(k, a);
                        assert(m.linked(k, a));
                    }
                }
                assert forall|i: int| 0 <= i < n && #[trigger] seen@[i] implies m.on(i) && exists|
                    k: int,
                |
                    0 <= k < a + 1 && #[trigger] m.linked(k, i) by {
                    let k = choose|k: int| 0 <= k < a && #[trigger] m.linked(k, i);
                    assert(m.linked(k, i));
                }
            }
        }
        start = start + 1;
    }
    out
}

proof fn lemma_tight(m: ProbMap, a: int, n: int)
    requires
        m.wf(),
        0 <= n <= m.w * m.h,
    ensures
        forall|i: int|
            0 <= i < n && #[trigger] m.linked(a, i) ==> m.left(a, n) <= i % m.w <= m.right(a, n)
                && m.top(a, n) <= i / m.w <= m.bottom(a, n),
        m.left(a, n) == m.w || exists|i: int|
            0 <= i < n && #[trigger] m.linked(a, i) && i % m.w == m.left(a, n),
        m.right(a, n) == 0 || exists|i: int|
            0 <= i < n && #[trigger] m.linked(a, i) && i % m.w == m.right(a, n),
        m.top(a, n) == m.h || exists|i: int|
            0 <= i < n && #[trigger] m.linked(a, i) && i / m.w == m.top(a, n),
        m.bottom(a, n) == 0 || exists|i: int|
            0 <= i < n && #[trigger] m.linked(a, i) && i / m.w == m.bottom(a, n),
    decreases n,
{
    if n > 0 {
        lemma_tight(m, a, n - 1);
        if m.linked(a, n - 1) {
            assert(m.linked(a, n - 1) && 0 <= n - 1 < n);
        }
        if m.left(a, n) != m.w {
            if m.linked(a, n - 1) && m.left(a, n) == (n - 1) % m.w {
            } else {
                let i = choose|i: int|
                    0 <= i < n - 1 && #[trigger] m.linked(a, i) && i % m.w == m.left(a, n - 1);
                assert(m.linked(a, i));
            }
        }
        if m.right(a, n) != 0 {
            if m.linked(a, n - 1) && m.right(a, n) == (n - 1) % m.w {
            } else {
                let i = choose|i: int|
                    0 <= i < n - 1 && #[trigger] m.linked(a, i) && i % m.w == m.right(a, n - 1);
                assert(m.linked(a, i));
            }
        }
        if m.top(a, n) != m.h {
            if m.linked(a, n - 1) && m.top(a, n) == (n - 1) / m.w {
            } else {
                let i = choose|i: int|
                    0 <= i < n - 1 && #[trigger] m.linked(a, i) && i / m.w == m.top(a, n - 1);
                assert(m.linked(a, i));
            }
        }
        if m.bottom(a, n) != 0 {
            if m.linked(a, n - 1) && m.bottom(a, n) == (n - 1) / m.w {
            } else {
                let i = choose|i: int|
                    0 <= i < n - 1 && #[trigger] m.linked(a, i) && i / m.w == m.bottom(a, n - 1);
                assert(m.linked(a, i));
            }
        }
    }
}

/// The bounds of a region hold all its cells, and some cell of it lies on each of its sides.
pub proof fn law_bounds_hold_their_region(m: ProbMap, a: int)
    requires
        m.wf(),
        m.on(a),
    ensures
        ({
            let (x0, y0, x1, y1) = m.bounds(a);
            &&& forall|i: int| #[trigger]
                m.linked(a, i) ==> x0 <= i % m.w <= x1 && y0 <= i / m.w <= y1
            &&& exists|i: int| #[trigger] m.linked(a, i) && i % m.w == x0
            &&& exists|i: int| #[trigger] m.linked(a, i) && i / m.w == y0
            &&& exists|i: int| #[trigger] m.linked(a, i) && i % m.w == x1
            &&& exists|i: int| #[trigger] m.linked(a, i) && i / m.w == y1
        }),
{
    let n = m.w * m.h;
    lemma_tight(m, a, n);
    assert(m.linked(a, a));
    assert(0 <= a % m.w < m.w) by (nonlinear_arith)
        requires
            m.w > 0,
    ;
    assert(0 <= a / m.w < m.h) by (nonlinear_arith)
        requires
            m.w > 0,
            0 <= a < m.w * m.h,
    ;
    assert forall|i: int| #[trigger] m.linked(a, i) implies 0 <= i < n by {}
    assert(m.left(a, n) <= a % m.w <= m.right(a, n));
    assert(m.top(a, n) <= a / m.w <= m.bottom(a, n));
    if m.right(a, n) == 0 {
        assert(m.linked(a, a) && a % m.w == 0);
    }
    if m.bottom(a, n) == 0 {
        assert(m.linked(a, a) && a / m.w == 0);
    }
}

proof fn lemma_row_total(m: ProbMap, y: int, x: int, n: int, lo: int, hi: int)
    requires
        n >= 0,
        forall|k: int| 0 <= k < n ==> lo <= #[trigger] m.prob[y * m.w + x + k] <= hi,
    ensures
        lo * n <= row_total(m, y, x, n) <= hi * n,
    decreases n,
{
    if n > 0 {
        lemma_row_total(m, y, x, n - 1, lo, hi);
        assert(lo * (n - 1) + lo == lo * n && hi * (n - 1) + hi == hi * n) by (nonlinear_arith);
        assert(lo <= m.prob[y * m.w + x + (n - 1)] <= hi);
    } else {
        assert(lo * n == 0 && hi * n == 0) by (nonlinear_arith)
            requires
                n == 0,
        ;
    }
}

proof fn lemma_box_total(m: ProbMap, x: int, cols: int, y: int, n: int, lo: int, hi: int)
    requires
        n >= 0,
        cols >= 0,
        forall|j: int, k: int|
            0 <= j < n && 0 <= k < cols ==> lo <= #[trigger] m.prob[(y + j) * m.w + x + k] <= hi,
    ensures
        lo * (cols * n) <= box_total(m, x, cols, y, n) <= hi * (cols * n),
    decreases n,
{
    if n > 0 {
        lemma_box_total(m, x, cols, y, n - 1, lo, hi);
        assert forall|k: int| 0 <= k < cols implies lo <= #[trigger] m.prob[(y + n - 1) * m.w + x
            + k] <= hi by {
            assert(lo <= m.prob[(y + (n - 1)) * m.w + x + k] <= hi);
        }
        lemma_row_total(m, y + n - 1, x, cols, lo, hi);
        assert(lo * (cols * (n - 1)) + lo * cols == lo * (cols * n) && hi * (cols * (n - 1)) + hi
            * cols == hi * (cols * n)) by (nonlinear_arith);
    } else {
        assert(lo * (cols * n) == 0 && hi * (cols * n) == 0) by (nonlinear_arith)
            requires
                n == 0,
        ;
    }
}

/// What a region makes: nothing if it is less than three cells wide or high, or its score is too
/// low; else a box that holds its bounds, grown on all sides alike as far as the map reaches, by
/// the nearest to its area times the ratio over its perimeter. The score lies between the lowest
/// and the highest value within the bounds.
pub proof fn law_regions_make_boxes(m: ProbMap, a: int, threshold: int, ratio: int, lo: int, hi: int)
    requires
        m.wf(),
        m.on(a),
        ratio >= 0,
        ({
            let (x0, y0, x1, y1) = m.bounds(a);
            forall|j: int, k: int|
                0 <= j < y1 - y0 + 1 && 0 <= k < x1 - x0 + 1 ==> lo <= #[trigger] m.prob[(y0 + j)
                    * m.w + x0 + k] <= hi
        }),
    ensures
        ({
            let (x0, y0, x1, y1) = m.bounds(a);
            match region_box(m, a, threshold, ratio) {
                Some((bx0, by0, bx1, by1, score)) => {
                    &&& x1 - x0 >= 2 && y1 - y0 >= 2
                    &&& score >= threshold
                    &&& lo <= score <= hi
                    &&& 0 <= bx0 <= x0 && 0 <= by0 <= y0
                    &&& x1 + 1 <= bx1 <= m.w && y1 + 1 <= by1 <= m.h
                    &&& exists|d: int|
                        d >= 0 && #[trigger] grows(bx0, by0, bx1, by1, m.bounds(a), m.w, m.h, d)
                            && -1_000_000 * ((x1 - x0 + 1) + (y1 - y0 + 1)) <= 2_000_000 * ((x1
                            - x0 + 1) + (y1 - y0 + 1)) * d - (x1 - x0 + 1) * (y1 - y0 + 1) * ratio
                            <= 1_000_000 * ((x1 - x0 + 1) + (y1 - y0 + 1))
                },
                None => x1 - x0 < 2 || y1 - y0 < 2 || lo < threshold,
            }
        }),
{
    let (x0, y0, x1, y1) = m.bounds(a);
    law_bounds_hold_their_region(m, a);
    let (bw, bh) = (x1 - x0 + 1, y1 - y0 + 1);
    let ra = choose|i: int| #[trigger] m.linked(a, i) && i % m.w == x1;
    let rb = choose|i: int| #[trigger] m.linked(a, i) && i / m.w == y1;
    let rc = choose|i: int| #[trigger] m.linked(a, i) && i % m.w == x0;
    let rd = choose|i: int| #[trigger] m.linked(a, i) && i / m.w == y0;
    assert(0 <= ra % m.w < m.w && 0 <= rc % m.w) by (nonlinear_arith)
        requires
            m.w > 0,
    ;
    assert(0 <= rb / m.w < m.h && 0 <= rd / m.w) by (nonlinear_arith)
        requires
            m.w > 0,
            0 <= rb < m.w * m.h,
            0 <= rd,
    ;
    assert(m.linked(a, a));
    assert(bw >= 1 && bh >= 1);
    lemma_box_total(m, x0, bw, y0, bh, lo, hi);
    let total = box_total(m, x0, bw, y0, bh);
    let area = bw * bh;
    assert(area >= 1) by (nonlinear_arith)
        requires
            bw >= 1,
            bh >= 1,
            area == bw * bh,
    ;
    let score = total / area;
    assert(lo <= score <= hi) by (nonlinear_arith)
        requires
            lo * area <= total <= hi * area,
            area >= 1,
            score == total / area,
    ;
    let p = bw + bh;
    let grown = bw * bh * ratio;
    let d = growth(bw, bh, ratio);
    assert(grown >= 0) by (nonlinear_arith)
        requires
            bw >= 1,
            bh >= 1,
            ratio >= 0,
            grown == bw * bh * ratio,
    ;
    assert(d >= 0 && -1_000_000 * p <= 2_000_000 * p * d - grown <= 1_000_000 * p)
        by (nonlinear_arith)
        requires
            p >= 1,
            grown >= 0,
            d == (2 * grown + 2_000_000 * p) / (4_000_000 * p),
    {
        let num = 2 * grown + 2_000_000 * p;
        let den = 4_000_000 * p;
        assert(num == den * (num / den) + num % den && 0 <= num % den < den);
    }
    if let Some((bx0, by0, bx1, by1, s)) = region_box(m, a, threshold, ratio) {
        assert(grows(bx0, by0, bx1, by1, m.bounds(a), m.w, m.h, d));
    }
}

/// A box is the bounds grown by `d` on all sides, as far as a map of `w` by `h` cells reaches.
pub open spec fn grows(
    bx0: int,
    by0: int,
    bx1: int,
    by1: int,
    bounds: (int, int, int, int),
    w: int,
    h: int,
    d: int,
) -> bool {
    let (x0, y0, x1, y1) = bounds;
    &&& (bx0 == x0 - d || (bx0 == 0 && x0 < d))
    &&& (by0 == y0 - d || (by0 == 0 && y0 < d))
    &&& (bx1 == x1 + 1 + d || (bx1 == w && x1 + 1 + d > w))
    &&& (by1 == y1 + 1 + d || (by1 == h && y1 + 1 + d > h))
}

/// Every region gives its one box, and no box comes from anything else.
pub proof fn law_every_region_has_its_box(m: ProbMap, threshold: int, ratio: int, n: int)
    ensures
        forall|a: int|
            0 <= a < n && #[trigger] m.first(a) ==> (region_box(m, a, threshold, ratio) matches Some(
                b,
            ) ==> boxes_of(m, threshold, ratio, n).contains(b)),
        forall|k: int|
            0 <= k < boxes_of(m, threshold, ratio, n).len() ==> exists|a: int|
                0 <= a < n && #[trigger] m.first(a) && region_box(m, a, threshold, ratio) == Some(
                    #[trigger] boxes_of(m, threshold, ratio, n)[k],
                ),
    decreases n,
{
    if n > 0 {
        law_every_region_has_its_box(m, threshold, ratio, n - 1);
        let rest = boxes_of(m, threshold, ratio, n - 1);
        let all = boxes_of(m, threshold, ratio, n);
        assert forall|a: int| 0 <= a < n && #[trigger] m.first(a) implies (region_box(
            m,
            a,
            threshold,
            ratio,
        ) matches Some(b) ==> all.contains(b)) by {
            if let Some(b) = region_box(m, a, threshold, ratio) {
                if a < n - 1 {
                    assert(rest.contains(b));
                    let i = choose|i: int| 0 <= i < rest.len() && rest[i] == b;
                    assert(all[i] == b);
                } else {
                    assert(all[all.len() - 1] == b);
                }
            }
        }
        assert forall|k: int| 0 <= k < all.len() implies exists|a: int|
            0 <= a < n && #[trigger] m.first(a) && region_box(m, a, threshold, ratio) == Some(
                #[trigger] all[k],
            ) by {
            if k < rest.len() {
                assert(all[k] == rest[k]);
                let a = choose|a: int|
                    0 <= a < n - 1 && #[trigger] m.first(a) && region_box(m, a, threshold, ratio)
                        == Some(rest[k]);
                assert(m.first(a));
            } else {
                assert(m.first(n - 1));
            }
        }
    }
}

} // verus!
