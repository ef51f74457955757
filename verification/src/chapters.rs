//! Chapters: topic changes between scenes, titles read off the screen, and
//! the boundaries chosen from them.
//!
//! Embeddings are fixed-point numbers, in millionths.

use vstd::prelude::*;

use crate::decode;
use crate::model;
use crate::model::{Segment, SegmentLevel};
use crate::text;
use crate::text::{chars_of, has_str, words_of};
use crate::timestamp;
use crate::timestamp::Timestamp;

verus! {

/// Shortest chapter, in nanoseconds.
pub const MIN_CHAPTER_NANOS: i128 = 180_000_000_000;

/// Target chapter length, in nanoseconds.
pub const TARGET_CHAPTER_NANOS: i128 = 600_000_000_000;

/// The similarity of two equal embeddings, in the unit of similarities and depths: twelve times
/// a million squared, so that means of up to four products are whole.
pub const ONE: i128 = 12_000_000_000_000;

/// No product of embeddings is larger.
pub const PRODUCT_BOUND: i128 = 0x4000_0000_0000_0000_0000_0000;

/// No similarity is larger.
pub const GAP_BOUND: i128 = 0xC_4000_0000_0000_0000_0000_0000;

/// The product of two embeddings, as far as both reach.
pub open spec fn product(x: Seq<i32>, y: Seq<i32>) -> int
    decreases x.len(),
{
    if x.len() == 0 || y.len() == 0 {
        0
    } else {
        x[0] * y[0] + product(x.drop_first(), y.drop_first())
    }
}

fn dot(x: &Vec<i32>, y: &Vec<i32>) -> (r: i128)
    requires
        x@.len() <= u32::MAX,
    ensures
        r == product(x@, y@),
        -PRODUCT_BOUND <= r <= PRODUCT_BOUND,
{
    let n: usize = if x.len() < y.len() {
        x.len()
    } else {
        y.len()
    };
    let mut s: i128 = 0;
    let mut i: usize = n;
    proof {
        lemma_product_ends(x@, y@, n as int);
    }
    while i > 0
        invariant
            i <= n <= x@.len() <= u32::MAX,
            n <= y@.len(),
            s == product(x@.skip(i as int), y@.skip(i as int)),
            -0x4000_0000_0000_0000 * (n - i) <= s <= 0x4000_0000_0000_0000 * (n - i),
        decreases i,
    {
        let a: i128 = x[i - 1] as i128;
        let b: i128 = y[i - 1] as i128;
        proof {
            assert(-0x4000_0000_0000_0000 <= a * b <= 0x4000_0000_0000_0000) by (nonlinear_arith)
                requires
                    -0x8000_0000 <= a < 0x8000_0000,
                    -0x8000_0000 <= b < 0x8000_0000,
            ;
            assert(x@.skip(i - 1).drop_first() =~= x@.skip(i as int));
            assert(y@.skip(i - 1).drop_first() =~= y@.skip(i as int));
            assert(0x4000_0000_0000_0000 * (n - i) <= PRODUCT_BOUND) by (nonlinear_arith)
                requires
                    0 <= n - i <= 0xffff_ffff,
            ;
        }
        s = a * b + s;
        i = i - 1;
    }
    proof {
        assert(x@.skip(0) =~= x@);
        assert(y@.skip(0) =~= y@);
    }
    s
}

proof fn lemma_product_ends(x: Seq<i32>, y: Seq<i32>, n: int)
    requires
        n == x.len() || n == y.len(),
        0 <= n <= x.len(),
        n <= y.len(),
    ensures
        product(x.skip(n), y.skip(n)) == 0,
{
}

/// The products of the scenes just before a boundary with those just after it: for scenes `i`
/// from `a - 1` to `a` and `j` from `b` to `b + 1`, in steps counted by `k`. The sum, and how many
/// products it has.
pub open spec fn across(embs: Seq<Option<Vec<i32>>>, a: int, k: int) -> (int, int)
    decreases k,
{
    if k <= 0 {
        (0, 0)
    } else {
        let (s, c) = across(embs, a, k - 1);
        let i = if (k - 1) / 2 == 0 {
            a - 1
        } else {
            a
        };
        let j = if (k - 1) % 2 == 0 {
            a + 1
        } else {
            a + 2
        };
        if 0 <= i && j < embs.len() && embs[i] is Some && embs[j] is Some {
            (s + product(embs[i]->0@, embs[j]->0@), c + 1)
        } else {
            (s, c)
        }
    }
}

/// The similarity across the boundary behind scene `a`: the mean product, or a half when there
/// is none.
pub open spec fn similarity(embs: Seq<Option<Vec<i32>>>, a: int) -> int {
    let (s, c) = across(embs, a, 4);
    if c == 0 {
        ONE / 2
    } else if c == 1 {
        s * 12
    } else if c == 2 {
        s * 6
    } else if c == 3 {
        s * 4
    } else {
        s * 3
    }
}

/// The embeddings have no more dimensions than can be counted in 32 bits.
pub open spec fn countable(embs: Seq<Option<Vec<i32>>>) -> bool {
    forall|i: int| 0 <= i < embs.len() ==> (#[trigger] embs[i] matches Some(v) ==> v@.len() <= u32::MAX)
}

fn similarity_at(embs: &Vec<Option<Vec<i32>>>, a: usize) -> (r: i128)
    requires
        countable(embs@),
        a + 1 < embs@.len(),
    ensures
        r == similarity(embs@, a as int),
        -GAP_BOUND <= r <= GAP_BOUND,
{
    let mut s: i128 = 0;
    let mut c: i128 = 0;
    let mut k: u8 = 0;
    let n: usize = embs.len();
    while k < 4
        invariant
            k <= 4,
            n == embs@.len(),
            countable(embs@),
            a + 1 < n,
            (s as int, c as int) == across(embs@, a as int, k as int),
            0 <= c <= k,
            -0x4000_0000_0000_0000_0000_0000 * k <= s <= 0x4000_0000_0000_0000_0000_0000 * k,
        decreases 4 - k,
    {
        let before: bool = k / 2 == 0;
        let next: bool = k % 2 == 0;
        if (!before || a > 0) && (next || n - a > 2) {
            let i: usize = if before {
                a - 1
            } else {
                a
            };
            let j: usize = if next {
                a + 1
            } else {
                a + 2
            };
            match (&embs[i], &embs[j]) {
                (Some(x), Some(y)) => {
                    s = s + dot(x, y);
                    c = c + 1;
                },
                _ => {},
            }
        }
        k = k + 1;
    }
    if c == 0 {
        ONE / 2
    } else if c == 1 {
        s * 12
    } else if c == 2 {
        s * 6
    } else if c == 3 {
        s * 4
    } else {
        s * 3
    }
}

/// The peak to the left of place `i`: gaps rise from `i` on leftwards up to it.
pub open spec fn left_peak(gaps: Seq<int>, i: int) -> int
    decreases i,
{
    if 0 < i < gaps.len() && gaps[i - 1] >= gaps[i] {
        left_peak(gaps, i - 1)
    } else {
        gaps[i]
    }
}

/// The peak to the right of place `i`.
pub open spec fn right_peak(gaps: Seq<int>, i: int) -> int
    decreases gaps.len() - i,
{
    if 0 <= i < gaps.len() - 1 && gaps[i + 1] >= gaps[i] {
        right_peak(gaps, i + 1)
    } else {
        gaps[i]
    }
}

/// The depth of a gap: how far similarity falls from the peaks on either side.
pub open spec fn depth_at(gaps: Seq<int>, i: int) -> int {
    (left_peak(gaps, i) - gaps[i]) + (right_peak(gaps, i) - gaps[i])
}

/// The similarity across every boundary.
pub open spec fn gaps_of(embs: Seq<Option<Vec<i32>>>) -> Seq<int> {
    Seq::new(
        if embs.len() < 2 {
            0
        } else {
            (embs.len() - 1) as nat
        },
        |i: int| similarity(embs, i),
    )
}

/// Numbers as mathematics.
pub open spec fn nums(s: Seq<i128>) -> Seq<int> {
    s.map_values(|x: i128| x as int)
}

/// All gaps lie in the range of similarities.
pub open spec fn gaps_bounded(gaps: Seq<i128>) -> bool {
    forall|i: int|
        0 <= i < gaps.len() ==> -GAP_BOUND <= #[trigger] gaps[i]
            <= GAP_BOUND
}

fn peak_left(gaps: &Vec<i128>, i: usize) -> (p: i128)
    requires
        i < gaps@.len(),
        gaps_bounded(gaps@),
    ensures
        p == left_peak(nums(gaps@), i as int),
        -GAP_BOUND <= p <= GAP_BOUND,
{
    let mut j: usize = i;
    while j > 0 && gaps[j - 1] >= gaps[j]
        invariant
            j <= i < gaps@.len(),
            left_peak(nums(gaps@), i as int) == left_peak(nums(gaps@), j as int),
        decreases j,
    {
        j = j - 1;
    }
    gaps[j]
}

fn peak_right(gaps: &Vec<i128>, i: usize) -> (p: i128)
    requires
        i < gaps@.len(),
        gaps_bounded(gaps@),
    ensures
        p == right_peak(nums(gaps@), i as int),
        -GAP_BOUND <= p <= GAP_BOUND,
{
    let n: usize = gaps.len();
    let mut j: usize = i;
    while n - j > 1 && gaps[j + 1] >= gaps[j]
        invariant
            j < n == gaps@.len(),
            right_peak(nums(gaps@), i as int) == right_peak(nums(gaps@), j as int),
        decreases n - j,
    {
        j = j + 1;
    }
    gaps[j]
}

/// Depth score at each scene boundary: how much the similarity between the text on either side
/// drops relative to the neighbourhood. `embs[i]` is the embedding of scene `i`'s text.
pub fn depth_scores(embs: &Vec<Option<Vec<i32>>>) -> (r: Vec<i128>)
    requires
        countable(embs@),
    ensures
        r@.len() == gaps_of(embs@).len(),
        depths_bounded(r@),
        forall|i: int| 0 <= i < r@.len() ==> #[trigger] r@[i] == depth_at(gaps_of(embs@), i),
{
    let n: usize = embs.len();
    let mut gaps: Vec<i128> = Vec::new();
    let mut out: Vec<i128> = Vec::new();
    if n >= 2 {
        let mut i: usize = 0;
        while i < n - 1
            invariant
                i <= n - 1,
                n == embs@.len(),
                countable(embs@),
                n >= 2,
                gaps@.len() == i,
                gaps_bounded(gaps@),
                forall|j: int| 0 <= j < i ==> #[trigger] gaps@[j] == similarity(embs@, j),
            decreases n - i,
        {
            gaps.push(similarity_at(embs, i));
            i = i + 1;
        }
    }
    proof {
        assert(nums(gaps@) =~= gaps_of(embs@));
    }
    let m: usize = gaps.len();
    let mut i: usize = 0;
    while i < m
        invariant
            i <= m == gaps@.len(),
            gaps_bounded(gaps@),
            out@.len() == i,
            depths_bounded(out@),
            forall|j: int| 0 <= j < i ==> #[trigger] out@[j] == depth_at(nums(gaps@), j),
        decreases m - i,
    {
        let l: i128 = peak_left(&gaps, i);
        let r: i128 = peak_right(&gaps, i);
        let g: i128 = gaps[i];
        out.push((l - g) + (r - g));
        i = i + 1;
    }
    out
}

proof fn lemma_peaks_reach(gaps: Seq<int>, i: int)
    requires
        0 <= i < gaps.len(),
    ensures
        left_peak(gaps, i) >= gaps[i],
    decreases i,
{
    if 0 < i && gaps[i - 1] >= gaps[i] {
        lemma_peaks_reach(gaps, i - 1);
    }
}

proof fn lemma_right_peaks_reach(gaps: Seq<int>, i: int)
    requires
        0 <= i < gaps.len(),
    ensures
        right_peak(gaps, i) >= gaps[i],
    decreases gaps.len() - i,
{
    if i < gaps.len() - 1 && gaps[i + 1] >= gaps[i] {
        lemma_right_peaks_reach(gaps, i + 1);
    }
}

/// Depths are not negative, and a gap that is a peak has depth zero.
pub proof fn law_depths(gaps: Seq<int>, i: int)
    requires
        0 <= i < gaps.len(),
    ensures
        depth_at(gaps, i) >= 0,
        (i == 0 || gaps[i - 1] < gaps[i]) && (i == gaps.len() - 1 || gaps[i + 1] < gaps[i])
            ==> depth_at(gaps, i) == 0,
{
    lemma_peaks_reach(gaps, i);
    lemma_right_peaks_reach(gaps, i);
}

/// The score of the boundary behind scene `i`: its depth, with a bonus for a change of title.
pub open spec fn score(depth: Seq<i128>, title_change: Seq<bool>, i: int) -> int {
    (if 0 <= i < depth.len() {
        depth[i] as int
    } else {
        0
    }) + (if 0 <= i < title_change.len() && title_change[i] {
        ONE / 4
    } else {
        0int
    })
}

/// A list of boundaries with one more, put behind those whose score is not lower. Boundary `b`
/// lies before scene `b`.
pub open spec fn ranked_in(s: Seq<int>, depth: Seq<i128>, tc: Seq<bool>, b: int) -> Seq<int>
    decreases s.len(),
{
    if s.len() == 0 || score(depth, tc, s.last() - 1) >= score(depth, tc, b - 1) {
        s.push(b)
    } else {
        ranked_in(s.drop_last(), depth, tc, b).push(s.last())
    }
}

/// Boundaries `1` to `n` by falling score; those of one score in the order of the scenes.
pub open spec fn ranking(depth: Seq<i128>, tc: Seq<bool>, n: int) -> Seq<int>
    decreases n,
{
    if n <= 0 {
        Seq::empty()
    } else {
        ranked_in(ranking(depth, tc, n - 1), depth, tc, n)
    }
}

/// Chapters that start at the given scenes are long enough, and so is the last one.
pub open spec fn long_enough(ranges: Seq<(i128, i128)>, starts: Seq<int>) -> bool {
    &&& forall|k: int|
        0 <= k < starts.len() - 1 ==> ranges[#[trigger] starts[k + 1]].0 - ranges[starts[k]].0
            >= MIN_CHAPTER_NANOS
    &&& ranges.last().1 - ranges[starts.last()].0 >= MIN_CHAPTER_NANOS
}

/// An ascending list with one more number.
pub open spec fn with_start(s: Seq<int>, b: int) -> Seq<int>
    decreases s.len(),
{
    if s.len() == 0 || s.last() <= b {
        s.push(b)
    } else {
        with_start(s.drop_last(), b).push(s.last())
    }
}

/// The starts after one more boundary was tried.
pub open spec fn tried(ranges: Seq<(i128, i128)>, starts: Seq<int>, b: int, want: int) -> Seq<int> {
    if starts.len() < want && long_enough(ranges, with_start(starts, b)) && ranges[b].0 > 0 {
        with_start(starts, b)
    } else {
        starts
    }
}

/// The starts after boundaries were tried in order.
pub open spec fn tried_all(ranges: Seq<(i128, i128)>, order: Seq<int>, want: int) -> Seq<int>
    decreases order.len(),
{
    if order.len() == 0 {
        seq![0]
    } else {
        tried(ranges, tried_all(ranges, order.drop_last(), want), order.last(), want)
    }
}

/// The number of chapters to aim at for a stretch of time.
pub open spec fn wanted(total: int) -> int {
    let w = (2 * total + TARGET_CHAPTER_NANOS) / (2 * TARGET_CHAPTER_NANOS);
    if total < 0 || w < 1 {
        1
    } else {
        w
    }
}

/// The scenes that start chapters.
pub open spec fn boundaries(
    ranges: Seq<(i128, i128)>,
    depth: Seq<i128>,
    tc: Seq<bool>,
) -> Seq<int> {
    let n = ranges.len() as int;
    if n == 0 {
        Seq::empty()
    } else {
        let want = wanted(ranges[n - 1].1 - ranges[0].0);
        if want <= 1 || n < 2 {
            seq![0]
        } else {
            tried_all(ranges, ranking(depth, tc, n - 1), want)
        }
    }
}

/// Positions as mathematics.
pub open spec fn ints(s: Seq<usize>) -> Seq<int> {
    s.map_values(|x: usize| x as int)
}

/// The largest time that ranges may have, in nanoseconds.
pub const MAX_TIME: i128 = 0x1000_0000_0000_0000_0000_0000_0000_0000;

/// All times of ranges are in bounds.
pub open spec fn bounded(ranges: Seq<(i128, i128)>) -> bool {
    forall|i: int|
        0 <= i < ranges.len() ==> -MAX_TIME <= (#[trigger] ranges[i]).0 <= MAX_TIME && -MAX_TIME
            <= ranges[i].1 <= MAX_TIME
}

/// All depths are in bounds.
pub open spec fn depths_bounded(depth: Seq<i128>) -> bool {
    forall|i: int| 0 <= i < depth.len() ==> -MAX_TIME <= #[trigger] depth[i] <= MAX_TIME
}

fn score_of(depth: &Vec<i128>, tc: &Vec<bool>, i: usize) -> (r: i128)
    requires
        depths_bounded(depth@),
    ensures
        r == score(depth@, tc@, i as int),
{
    let d: i128 = if i < depth.len() {
        depth[i]
    } else {
        0
    };
    let bonus: i128 = if i < tc.len() && tc[i] {
        ONE / 4
    } else {
        0
    };
    d + bonus
}

fn rank(v: &mut Vec<usize>, depth: &Vec<i128>, tc: &Vec<bool>, b: usize)
    requires
        depths_bounded(depth@),
        b >= 1,
        forall|i: int| 0 <= i < old(v)@.len() ==> 1 <= #[trigger] old(v)@[i] < b,
    ensures
        ints(final(v)@) == ranked_in(ints(old(v)@), depth@, tc@, b as int),
        forall|i: int| 0 <= i < final(v)@.len() ==> 1 <= #[trigger] final(v)@[i] <= b,
{
    let ghost all = ints(v@);
    let ghost before = v@;
    let mine: i128 = score_of(depth, tc, b - 1);
    let mut i: usize = v.len();
    proof {
        assert(all.take(i as int) =~= all);
        assert(ranked_in(all, depth@, tc@, b as int) =~= ranked_in(all, depth@, tc@, b as int)
            + all.skip(i as int));
    }
    while i > 0
        invariant
            i <= v@.len(),
            v@ == before,
            all == ints(before),
            depths_bounded(depth@),
            mine == score(depth@, tc@, b - 1),
            forall|i: int| 0 <= i < before.len() ==> 1 <= #[trigger] before[i] < b,
            ranked_in(all, depth@, tc@, b as int) == ranked_in(
                all.take(i as int),
                depth@,
                tc@,
                b as int,
            ) + all.skip(i as int),
        ensures
            i <= v@.len(),
            v@ == before,
            ranked_in(all, depth@, tc@, b as int) == all.take(i as int).push(b as int) + all.skip(
                i as int,
            ),
        decreases i,
    {
        proof {
            assert(all.take(i as int).last() == all[i - 1]);
            assert(all[i - 1] == v@[i - 1]);
            assert(all.take(i as int).drop_last() =~= all.take(i - 1));
        }
        let other: usize = v[i - 1];
        if score_of(depth, tc, other - 1) >= mine {
            break;
        }
        proof {
            let p = ranked_in(all.take(i - 1), depth@, tc@, b as int);
            assert(p.push(all[i - 1]) + all.skip(i as int) =~= p + all.skip(i - 1));
        }
        i = i - 1;
    }
    v.insert(i, b);
    proof {
        assert(v@ =~= before.insert(i as int, b));
        assert(ints(v@) =~= all.take(i as int).push(b as int) + all.skip(i as int));
        assert forall|k: int| 0 <= k < v@.len() implies 1 <= #[trigger] v@[k] <= b by {
            if k < i {
                assert(v@[k] == before[k]);
            } else if k > i {
                assert(v@[k] == before[k - 1]);
            }
        }
    }
}

fn insert_start(starts: &Vec<usize>, b: usize) -> (r: Vec<usize>)
    ensures
        ints(r@) == with_start(ints(starts@), b as int),
        r@.len() == starts@.len() + 1,
        forall|i: int|
            0 <= i < r@.len() ==> #[trigger] r@[i] == b || starts@.contains(r@[i]),
{
    let ghost all = ints(starts@);
    let mut r = starts.clone();
    proof {
        assert(r@ =~= starts@);
    }
    let mut i: usize = r.len();
    proof {
        assert(all.take(i as int) =~= all);
        assert(with_start(all, b as int) =~= with_start(all, b as int) + all.skip(i as int));
    }
    while i > 0
        invariant
            i <= r@.len(),
            r@ == starts@,
            all == ints(starts@),
            with_start(all, b as int) == with_start(all.take(i as int), b as int) + all.skip(
                i as int,
            ),
        ensures
            i <= r@.len(),
            r@ == starts@,
            with_start(all, b as int) == all.take(i as int).push(b as int) + all.skip(i as int),
        decreases i,
    {
        proof {
            assert(all.take(i as int).last() == all[i - 1]);
            assert(all[i - 1] == r@[i - 1]);
            assert(all.take(i as int).drop_last() =~= all.take(i - 1));
        }
        if r[i - 1] <= b {
            break;
        }
        proof {
            let p = with_start(all.take(i - 1), b as int);
            assert(p.push(all[i - 1]) + all.skip(i as int) =~= p + all.skip(i - 1));
        }
        i = i - 1;
    }
    r.insert(i, b);
    proof {
        assert(r@ =~= starts@.insert(i as int, b));
        assert(ints(r@) =~= all.take(i as int).push(b as int) + all.skip(i as int));
        assert forall|k: int| 0 <= k < r@.len() implies #[trigger] r@[k] == b || starts@.contains(
            r@[k],
        ) by {
            if k < i {
                assert(r@[k] == starts@[k]);
            } else if k > i {
                assert(r@[k] == starts@[k - 1]);
            }
        }
    }
    r
}

fn check_lengths(ranges: &Vec<(i128, i128)>, starts: &Vec<usize>) -> (b: bool)
    requires
        bounded(ranges@),
        ranges@.len() > 0,
        starts@.len() > 0,
        forall|i: int| 0 <= i < starts@.len() ==> #[trigger] starts@[i] < ranges@.len(),
    ensures
        b == long_enough(ranges@, ints(starts@)),
{
    let ghost s = ints(starts@);
    let n: usize = starts.len();
    let mut k: usize = 0;
    while k < n - 1
        invariant
            k < n == starts@.len(),
            n > 0,
            s == ints(starts@),
            bounded(ranges@),
            forall|i: int| 0 <= i < starts@.len() ==> #[trigger] starts@[i] < ranges@.len(),
            forall|j: int|
                0 <= j < k ==> ranges@[#[trigger] s[j + 1]].0 - ranges@[s[j]].0
                    >= MIN_CHAPTER_NANOS,
        decreases n - k,
    {
        proof {
            assert(s[k + 1] == starts@[k + 1]);
            assert(s[k as int] == starts@[k as int]);
            let a = ranges@[starts@[k + 1] as int];
            let b = ranges@[starts@[k as int] as int];
        }
        if ranges[starts[k + 1]].0 - ranges[starts[k]].0 < MIN_CHAPTER_NANOS {
            return false;
        }
        k = k + 1;
    }
    proof {
        assert(s.last() == starts@[n - 1]);
        let a = ranges@[ranges@.len() - 1];
        let b = ranges@[starts@[n - 1] as int];
    }
    ranges[ranges.len() - 1].1 - ranges[starts[n - 1]].0 >= MIN_CHAPTER_NANOS
}

/// Chooses chapter boundaries (the scenes that start a chapter) from depth scores and changes of
/// title, honouring the length limits.
pub fn choose_boundaries(
    ranges: &Vec<(i128, i128)>,
    depth: &Vec<i128>,
    title_change: &Vec<bool>,
) -> (r: Vec<usize>)
    requires
        bounded(ranges@),
        depths_bounded(depth@),
    ensures
        ints(r@) == boundaries(ranges@, depth@, title_change@),
{
    let n: usize = ranges.len();
    let mut starts: Vec<usize> = Vec::new();
    if n == 0 {
        proof {
            assert(ints(starts@) =~= Seq::<int>::empty());
        }
        return starts;
    }
    proof {
        let a = ranges@[n - 1];
        let b = ranges@[0];
    }
    let total: i128 = ranges[n - 1].1 - ranges[0].0;
    let want: i128 = if total < 0 {
        1
    } else {
        let w: i128 = (2 * total + TARGET_CHAPTER_NANOS) / (2 * TARGET_CHAPTER_NANOS);
        if w < 1 {
            1
        } else {
            w
        }
    };
    starts.push(0);
    proof {
        assert(ints(starts@) =~= seq![0int]);
    }
    if want <= 1 || n < 2 {
        return starts;
    }
    let mut order: Vec<usize> = Vec::new();
    let mut b: usize = 1;
    proof {
        assert(ints(order@) =~= Seq::<int>::empty());
    }
    while b < n
        invariant
            1 <= b <= n,
            depths_bounded(depth@),
            ints(order@) == ranking(depth@, title_change@, b - 1),
            forall|i: int| 0 <= i < order@.len() ==> 1 <= #[trigger] order@[i] < b,
        decreases n - b,
    {
        rank(&mut order, depth, title_change, b);
        b = b + 1;
    }
    let ghost all = ints(order@);
    let mut k: usize = 0;
    proof {
        assert(all.take(0) =~= Seq::<int>::empty());
    }
    while k < order.len()
        invariant
            k <= order@.len(),
            n == ranges@.len() > 0,
            bounded(ranges@),
            all == ints(order@),
            forall|i: int| 0 <= i < order@.len() ==> 1 <= #[trigger] order@[i] < n,
            starts@.len() > 0,
            forall|i: int| 0 <= i < starts@.len() ==> #[trigger] starts@[i] < n,
            ints(starts@) == tried_all(ranges@, all.take(k as int), want as int),
        decreases order@.len() - k,
    {
        let idx: usize = order[k];
        proof {
            assert(all.take(k + 1).drop_last() =~= all.take(k as int));
            assert(all.take(k + 1).last() == idx);
        }
        let len: usize = starts.len();
        if (len as i128) < want {
            let more = insert_start(&starts, idx);
            proof {
                assert forall|i: int| 0 <= i < more@.len() implies #[trigger] more@[i] < n by {
                    if more@[i] != idx {
                        let j = choose|j: int| 0 <= j < starts@.len() && starts@[j] == more@[i];
                        assert(starts@[j] < n);
                    }
                }
            }
            if check_lengths(ranges, &more) && ranges[idx].0 > 0 {
                starts = more;
            }
        }
        k = k + 1;
    }
    proof {
        assert(all.take(k as int) =~= all);
    }
    starts
}

proof fn lemma_ranked(s: Seq<int>, depth: Seq<i128>, tc: Seq<bool>, b: int, n: int)
    requires
        forall|i: int| 0 <= i < s.len() ==> 1 <= #[trigger] s[i] <= n,
        1 <= b <= n,
    ensures
        forall|i: int|
            0 <= i < ranked_in(s, depth, tc, b).len() ==> 1 <= #[trigger] ranked_in(
                s,
                depth,
                tc,
                b,
            )[i] <= n,
    decreases s.len(),
{
    if s.len() > 0 && score(depth, tc, s.last() - 1) < score(depth, tc, b - 1) {
        assert forall|i: int| 0 <= i < s.drop_last().len() implies 1 <= #[trigger] s.drop_last()[i]
            <= n by {
            assert(s[i] == s.drop_last()[i]);
        }
        lemma_ranked(s.drop_last(), depth, tc, b, n);
        assert(1 <= s[s.len() - 1] <= n);
        let q = ranked_in(s.drop_last(), depth, tc, b);
        let r = ranked_in(s, depth, tc, b);
        assert(r == q.push(s.last()));
        assert forall|i: int| 0 <= i < r.len() implies 1 <= #[trigger] r[i] <= n by {
            if i < q.len() {
                assert(r[i] == q[i]);
            }
        }
    } else {
        let r = ranked_in(s, depth, tc, b);
        assert(r == s.push(b));
        assert forall|i: int| 0 <= i < r.len() implies 1 <= #[trigger] r[i] <= n by {
            if i < s.len() {
                assert(r[i] == s[i]);
            }
        }
    }
}

proof fn lemma_ranking(depth: Seq<i128>, tc: Seq<bool>, k: int, n: int)
    requires
        k <= n,
    ensures
        forall|i: int|
            0 <= i < ranking(depth, tc, k).len() ==> 1 <= #[trigger] ranking(depth, tc, k)[i] <= n,
    decreases k,
{
    if k > 0 {
        lemma_ranking(depth, tc, k - 1, n);
        lemma_ranked(ranking(depth, tc, k - 1), depth, tc, k, n);
    }
}

proof fn lemma_with_start(s: Seq<int>, b: int, n: int)
    requires
        s.len() > 0,
        s[0] == 0,
        b >= 1,
        b <= n,
        forall|i: int| 0 <= i < s.len() ==> 0 <= #[trigger] s[i] <= n,
    ensures
        with_start(s, b).len() == s.len() + 1,
        with_start(s, b)[0] == 0,
        forall|i: int|
            0 <= i < with_start(s, b).len() ==> 0 <= #[trigger] with_start(s, b)[i] <= n,
    decreases s.len(),
{
    if s.last() > b {
        lemma_with_start(s.drop_last(), b, n);
    }
}

proof fn lemma_tried_all(ranges: Seq<(i128, i128)>, order: Seq<int>, want: int)
    requires
        ranges.len() > 0,
        want >= 1,
        forall|i: int| 0 <= i < order.len() ==> 1 <= #[trigger] order[i] < ranges.len(),
    ensures
        ({
            let s = tried_all(ranges, order, want);
            &&& 1 <= s.len() <= want
            &&& s[0] == 0
            &&& forall|i: int| 0 <= i < s.len() ==> 0 <= #[trigger] s[i] < ranges.len()
            &&& s.len() > 1 ==> long_enough(ranges, s)
        }),
    decreases order.len(),
{
    if order.len() > 0 {
        let rest = order.drop_last();
        assert forall|i: int| 0 <= i < rest.len() implies 1 <= #[trigger] rest[i] < ranges.len() by {
            assert(rest[i] == order[i]);
        }
        lemma_tried_all(ranges, rest, want);
        let s = tried_all(ranges, rest, want);
        assert(order[order.len() - 1] == order.last());
        lemma_with_start(s, order.last(), ranges.len() - 1);
    }
}

/// Chapters honour the limits: the first starts with the first scene, there are no more than
/// aimed at, and where there are several, each is long enough.
pub proof fn law_chapters_honour_lengths(
    ranges: Seq<(i128, i128)>,
    depth: Seq<i128>,
    tc: Seq<bool>,
)
    requires
        ranges.len() > 0,
    ensures
        ({
            let s = boundaries(ranges, depth, tc);
            &&& 1 <= s.len() <= wanted(ranges.last().1 - ranges[0].0)
            &&& s[0] == 0
            &&& forall|i: int| 0 <= i < s.len() ==> 0 <= #[trigger] s[i] < ranges.len()
            &&& s.len() > 1 ==> long_enough(ranges, s)
        }),
{
    let n = ranges.len() as int;
    let want = wanted(ranges[n - 1].1 - ranges[0].0);
    if want > 1 && n >= 2 {
        lemma_ranking(depth, tc, n - 1, n - 1);
        lemma_tried_all(ranges, ranking(depth, tc, n - 1), want);
    }
}

/// How deep the boundary before scene `b` is; zero where nothing is known of it.
pub open spec fn depth_before(depth: Seq<i128>, b: int) -> int {
    if 1 <= b <= depth.len() {
        depth[b - 1] as int
    } else {
        0
    }
}

/// The title changes at the boundary before scene `b`.
pub open spec fn titled_before(tc: Seq<bool>, b: int) -> bool {
    1 <= b <= tc.len() && tc[b - 1]
}

/// The boundary before scene `a` is tried before that before scene `b`: it is the deeper of two
/// whose titles both change or both stay, and a change of title makes up for a quarter of full
/// similarity; of equals, it is the earlier.
pub open spec fn comes_first(depth: Seq<i128>, tc: Seq<bool>, a: int, b: int) -> bool {
    let lead = depth_before(depth, a) - depth_before(depth, b);
    let needed = if titled_before(tc, a) && !titled_before(tc, b) {
        -3_000_000_000_000int
    } else if !titled_before(tc, a) && titled_before(tc, b) {
        3_000_000_000_000int
    } else {
        0int
    };
    lead > needed || (lead == needed && a < b)
}

/// Boundaries in the order in which they are tried.
pub open spec fn in_turn(depth: Seq<i128>, tc: Seq<bool>, s: Seq<int>) -> bool {
    forall|p: int, q: int|
        0 <= p < q < s.len() ==> comes_first(depth, tc, #[trigger] s[p], #[trigger] s[q])
}

proof fn lemma_scores_decide(depth: Seq<i128>, tc: Seq<bool>, a: int, b: int)
    ensures
        comes_first(depth, tc, a, b) <==> score(depth, tc, a - 1) > score(depth, tc, b - 1) || (
        score(depth, tc, a - 1) == score(depth, tc, b - 1) && a < b),
{
}

proof fn lemma_ranked_in_turn(s: Seq<int>, depth: Seq<i128>, tc: Seq<bool>, b: int)
    requires
        forall|i: int| 0 <= i < s.len() ==> #[trigger] s[i] < b,
        in_turn(depth, tc, s),
    ensures
        ranked_in(s, depth, tc, b).len() == s.len() + 1,
        in_turn(depth, tc, ranked_in(s, depth, tc, b)),
        ranked_in(s, depth, tc, b).contains(b),
        forall|x: int| s.contains(x) ==> #[trigger] ranked_in(s, depth, tc, b).contains(x),
        forall|x: int| #[trigger]
            ranked_in(s, depth, tc, b).contains(x) ==> x == b || s.contains(x),
    decreases s.len(),
{
    let r = ranked_in(s, depth, tc, b);
    if s.len() == 0 || score(depth, tc, s.last() - 1) >= score(depth, tc, b - 1) {
        assert(r == s.push(b));
        assert(r[s.len() as int] == b);
        assert forall|p: int, q: int| 0 <= p < q < r.len() implies comes_first(
            depth,
            tc,
            #[trigger] r[p],
            #[trigger] r[q],
        ) by {
            if q < s.len() {
                assert(comes_first(depth, tc, s[p], s[q]));
            } else {
                let l = s.len() - 1;
                lemma_scores_decide(depth, tc, s[p], s[l]);
                lemma_scores_decide(depth, tc, s[p], b);
                if p < l {
                    assert(comes_first(depth, tc, s[p], s[l]));
                }
            }
        }
        assert forall|x: int| s.contains(x) implies #[trigger] r.contains(x) by {
            let i = choose|i: int| 0 <= i < s.len() && s[i] == x;
            assert(r[i] == x);
        }
        assert forall|x: int| #[trigger] r.contains(x) implies x == b || s.contains(x) by {
            let i = choose|i: int| 0 <= i < r.len() && r[i] == x;
            if i < s.len() {
                assert(s[i] == x);
            }
        }
    } else {
        let t = s.drop_last();
        let l = s.last();
        assert forall|p: int, q: int| 0 <= p < q < t.len() implies comes_first(
            depth,
            tc,
            #[trigger] t[p],
            #[trigger] t[q],
        ) by {
            assert(comes_first(depth, tc, s[p], s[q]));
        }
        assert forall|i: int| 0 <= i < t.len() implies #[trigger] t[i] < b by {
            assert(s[i] == t[i]);
        }
        lemma_ranked_in_turn(t, depth, tc, b);
        let q = ranked_in(t, depth, tc, b);
        assert(r == q.push(l));
        assert(r[q.len() as int] == l);
        assert forall|i: int| 0 <= i < q.len() implies comes_first(depth, tc, #[trigger] q[i], l) by {
            assert(q.contains(q[i]));
            if q[i] == b {
                lemma_scores_decide(depth, tc, b, l);
            } else {
                let k = choose|k: int| 0 <= k < t.len() && t[k] == q[i];
                assert(s[k] == q[i]);
                assert(comes_first(depth, tc, s[k], s[s.len() - 1]));
            }
        }
        assert forall|i: int, j: int| 0 <= i < j < r.len() implies comes_first(
            depth,
            tc,
            #[trigger] r[i],
            #[trigger] r[j],
        ) by {
            if j < q.len() {
                assert(comes_first(depth, tc, q[i], q[j]));
            } else {
                assert(comes_first(depth, tc, q[i], l));
            }
        }
        assert forall|x: int| q.contains(x) || x == l implies #[trigger] r.contains(x) by {
            if q.contains(x) {
                let i = choose|i: int| 0 <= i < q.len() && q[i] == x;
                assert(r[i] == x);
            }
        }
        assert(q.contains(b));
        assert(r.contains(b));
        assert forall|x: int| s.contains(x) implies #[trigger] r.contains(x) by {
            let i = choose|i: int| 0 <= i < s.len() && s[i] == x;
            if i < t.len() {
                assert(t[i] == x);
                assert(t.contains(x));
                assert(q.contains(x));
            }
        }
        assert forall|x: int| #[trigger] r.contains(x) implies x == b || s.contains(x) by {
            let i = choose|i: int| 0 <= i < r.len() && r[i] == x;
            if i < q.len() {
                assert(q[i] == x);
                assert(q.contains(x));
                if x != b {
                    let k = choose|k: int| 0 <= k < t.len() && t[k] == x;
                    assert(s[k] == x);
                }
            } else {
                assert(s[s.len() - 1] == x);
            }
        }
    }
}

/// Every boundary is tried once, and in turn: the deeper before the shallower, a change of title
/// before none, and an earlier one before an equal later one.
pub proof fn law_boundaries_are_tried_in_turn(depth: Seq<i128>, tc: Seq<bool>, n: int)
    requires
        n >= 0,
    ensures
        ranking(depth, tc, n).len() == n,
        ranking(depth, tc, n).no_duplicates(),
        forall|b: int| #[trigger] ranking(depth, tc, n).contains(b) <==> 1 <= b <= n,
        in_turn(depth, tc, ranking(depth, tc, n)),
    decreases n,
{
    let r = ranking(depth, tc, n);
    if n > 0 {
        law_boundaries_are_tried_in_turn(depth, tc, n - 1);
        let before = ranking(depth, tc, n - 1);
        assert forall|i: int| 0 <= i < before.len() implies #[trigger] before[i] < n by {
            assert(before.contains(before[i]));
        }
        lemma_ranked_in_turn(before, depth, tc, n);
    }
    assert forall|i: int, j: int| 0 <= i < r.len() && 0 <= j < r.len() && i != j implies r[i]
        != r[j] by {
        if i < j {
            assert(comes_first(depth, tc, r[i], r[j]));
        } else {
            assert(comes_first(depth, tc, r[j], r[i]));
        }
    }
}

/// A change of title never counts against a boundary: of two boundaries of equal depth of which
/// one has a change of title, that one is tried before the other.
pub proof fn law_title_changes_are_tried_first(
    depth: Seq<i128>,
    tc: Seq<bool>,
    n: int,
    p: int,
    q: int,
)
    requires
        n <= depth.len(),
        n <= tc.len(),
        0 <= p < ranking(depth, tc, n).len(),
        0 <= q < ranking(depth, tc, n).len(),
        depth[ranking(depth, tc, n)[p] - 1] == depth[ranking(depth, tc, n)[q] - 1],
        tc[ranking(depth, tc, n)[p] - 1],
        !tc[ranking(depth, tc, n)[q] - 1],
    ensures
        p < q,
{
    if n >= 0 {
        law_boundaries_are_tried_in_turn(depth, tc, n);
        let r = ranking(depth, tc, n);
        assert(r.contains(r[p]) && r.contains(r[q]));
        if q < p {
            assert(comes_first(depth, tc, r[q], r[p]));
        }
    }
}

/// Chapters that start at scenes `a` and `b` would be too near to each other.
pub open spec fn too_near(ranges: Seq<(i128, i128)>, a: int, b: int) -> bool {
    if a < b {
        ranges[b].0 - ranges[a].0 < 180_000_000_000
    } else {
        ranges[a].0 - ranges[b].0 < 180_000_000_000
    }
}

/// Why no chapter starts at scene `b`: the scene starts no later than time zero, or leaves too
/// little time behind it, or is too near to a start that was tried before it, or enough other
/// chapters start at scenes that were tried before it.
pub open spec fn passed_over(
    ranges: Seq<(i128, i128)>,
    depth: Seq<i128>,
    tc: Seq<bool>,
    starts: Seq<int>,
    want: int,
    b: int,
) -> bool {
    ||| ranges[b].0 <= 0
    ||| ranges.last().1 - ranges[b].0 < 180_000_000_000
    ||| exists|i: int|
        0 <= i < starts.len() && (starts[i] == 0 || comes_first(depth, tc, starts[i], b))
            && too_near(ranges, #[trigger] starts[i], b)
    ||| starts.len() == want && forall|i: int|
        0 < i < starts.len() ==> comes_first(depth, tc, #[trigger] starts[i], b)
}

/// Numbers rise.
pub open spec fn rising(s: Seq<int>) -> bool {
    forall|i: int, j: int| 0 <= i < j < s.len() ==> #[trigger] s[i] < #[trigger] s[j]
}

proof fn lemma_start_place(s: Seq<int>, b: int) -> (j: int)
    ensures
        0 <= j <= s.len(),
        with_start(s, b) == s.insert(j, b),
        j > 0 ==> s[j - 1] <= b,
        forall|i: int| j <= i < s.len() ==> #[trigger] s[i] > b,
    decreases s.len(),
{
    if s.len() == 0 || s.last() <= b {
        assert(s.insert(s.len() as int, b) =~= s.push(b));
        s.len() as int
    } else {
        let j = lemma_start_place(s.drop_last(), b);
        assert(s.insert(j, b) =~= s.drop_last().insert(j, b).push(s.last()));
        assert forall|i: int| j <= i < s.len() implies #[trigger] s[i] > b by {
            if i < s.len() - 1 {
                assert(s.drop_last()[i] > b);
            }
        }
        if j > 0 {
            assert(s.drop_last()[j - 1] == s[j - 1]);
        }
        j
    }
}

proof fn lemma_start_refused(ranges: Seq<(i128, i128)>, s: Seq<int>, b: int)
    requires
        s.len() > 0,
        rising(s),
        !s.contains(b),
        long_enough(ranges, s),
        !long_enough(ranges, with_start(s, b)),
    ensures
        ranges.last().1 - ranges[b].0 < 180_000_000_000 || exists|i: int|
            0 <= i < s.len() && too_near(ranges, #[trigger] s[i], b),
{
    let j = lemma_start_place(s, b);
    let w = with_start(s, b);
    if ranges.last().1 - ranges[w.last()].0 < MIN_CHAPTER_NANOS {
        if j < s.len() {
            assert(w.last() == s.last());
        }
    } else {
        let k = choose|k: int|
            0 <= k < w.len() - 1 && ranges[#[trigger] w[k + 1]].0 - ranges[w[k]].0
                < MIN_CHAPTER_NANOS;
        if k + 1 < j {
            assert(w[k] == s[k] && w[k + 1] == s[k + 1]);
        } else if k + 1 == j {
            assert(w[k] == s[k] && w[k + 1] == b);
            assert(s[k] != b);
            assert(too_near(ranges, s[k], b));
        } else if k == j {
            assert(w[k] == b && w[k + 1] == s[k]);
            assert(too_near(ranges, s[k], b));
        } else {
            assert(w[k] == s[k - 1] && w[k + 1] == s[(k - 1) + 1]);
        }
    }
}

/// What is known of starts once the boundaries of an order were tried.
spec fn well_chosen(
    ranges: Seq<(i128, i128)>,
    depth: Seq<i128>,
    tc: Seq<bool>,
    order: Seq<int>,
    s: Seq<int>,
    want: int,
) -> bool {
    &&& 1 <= s.len() <= want
    &&& s[0] == 0
    &&& rising(s)
    &&& long_enough(ranges, s)
    &&& forall|i: int| 0 < i < s.len() ==> order.contains(#[trigger] s[i])
    &&& forall|i: int| 0 < i < s.len() ==> ranges[#[trigger] s[i]].0 > 0
    &&& forall|k: int|
        0 <= k < order.len() ==> s.contains(#[trigger] order[k]) || passed_over(
            ranges,
            depth,
            tc,
            s,
            want,
            order[k],
        )
}

proof fn lemma_one_more(s: Seq<int>, b: int) -> (j: int)
    requires
        s.len() > 0,
        s[0] < b,
        rising(s),
        !s.contains(b),
    ensures
        0 < j <= s.len(),
        with_start(s, b) == s.insert(j, b),
        rising(with_start(s, b)),
        forall|x: int| #[trigger] with_start(s, b).contains(x) <==> x == b || s.contains(x),
{
    let j = lemma_start_place(s, b);
    let w = with_start(s, b);
    assert(j > 0);
    assert forall|x: int, y: int| 0 <= x < y < w.len() implies #[trigger] w[x] < #[trigger] w[y] by {
        let x2 = if x < j {
            x
        } else {
            x - 1
        };
        let y2 = if y < j {
            y
        } else {
            y - 1
        };
        if x == j {
            assert(w[y] == s[y2]);
        } else if y == j {
            assert(w[x] == s[x2]);
            assert(s[j - 1] != b);
            if x < j - 1 {
                assert(s[x] < s[j - 1]);
            }
        } else {
            assert(w[x] == s[x2] && w[y] == s[y2]);
        }
    }
    assert(w[j] == b);
    assert forall|x: int| #[trigger] w.contains(x) <==> x == b || s.contains(x) by {
        if s.contains(x) {
            let i = choose|i: int| 0 <= i < s.len() && s[i] == x;
            if i < j {
                assert(w[i] == x);
            } else {
                assert(w[i + 1] == x);
            }
        }
        if w.contains(x) && x != b {
            let i = choose|i: int| 0 <= i < w.len() && w[i] == x;
            if i < j {
                assert(s[i] == x);
            } else {
                assert(s[i - 1] == x);
            }
        }
    }
    j
}

proof fn lemma_still_passed_over(
    ranges: Seq<(i128, i128)>,
    depth: Seq<i128>,
    tc: Seq<bool>,
    s: Seq<int>,
    w: Seq<int>,
    want: int,
    c: int,
)
    requires
        passed_over(ranges, depth, tc, s, want, c),
        s.len() < want,
        forall|x: int| s.contains(x) ==> #[trigger] w.contains(x),
    ensures
        passed_over(ranges, depth, tc, w, want, c),
{
    if ranges[c].0 > 0 && ranges.last().1 - ranges[c].0 >= 180_000_000_000 {
        let i = choose|i: int|
            0 <= i < s.len() && (s[i] == 0 || comes_first(depth, tc, s[i], c)) && too_near(
                ranges,
                #[trigger] s[i],
                c,
            );
        assert(s.contains(s[i]));
        assert(w.contains(s[i]));
        let k = choose|k: int| 0 <= k < w.len() && w[k] == s[i];
        assert(too_near(ranges, w[k], c));
    }
}

proof fn lemma_start_taken(
    ranges: Seq<(i128, i128)>,
    depth: Seq<i128>,
    tc: Seq<bool>,
    order: Seq<int>,
    s: Seq<int>,
    want: int,
)
    requires
        order.len() > 0,
        order.last() >= 1,
        well_chosen(ranges, depth, tc, order.drop_last(), s, want),
        !s.contains(order.last()),
        s.len() < want,
        long_enough(ranges, with_start(s, order.last())),
        ranges[order.last()].0 > 0,
    ensures
        well_chosen(ranges, depth, tc, order, with_start(s, order.last()), want),
{
    let o = order.drop_last();
    let b = order.last();
    let w = with_start(s, b);
    let j = lemma_one_more(s, b);
    assert(order[order.len() - 1] == b);
    assert(w[0] == s[0]);
    assert forall|i: int| 0 < i < w.len() implies order.contains(#[trigger] w[i])
        && ranges[w[i]].0 > 0 by {
        if i != j {
            let i2 = if i < j {
                i
            } else {
                i - 1
            };
            assert(w[i] == s[i2]);
            if i2 == 0 {
                assert(w[0] < w[i]);
            }
            assert(o.contains(s[i2]));
            let k = choose|k: int| 0 <= k < o.len() && o[k] == w[i];
            assert(order[k] == w[i]);
        }
    }
    assert forall|k: int| 0 <= k < order.len() implies w.contains(#[trigger] order[k])
        || passed_over(ranges, depth, tc, w, want, order[k]) by {
        if k < order.len() - 1 {
            assert(o[k] == order[k]);
            if !s.contains(order[k]) {
                lemma_still_passed_over(ranges, depth, tc, s, w, want, order[k]);
            }
        }
    }
}

proof fn lemma_chosen(
    ranges: Seq<(i128, i128)>,
    depth: Seq<i128>,
    tc: Seq<bool>,
    order: Seq<int>,
    want: int,
)
    requires
        ranges.len() > 0,
        want >= 2,
        ranges.last().1 - ranges[0].0 >= MIN_CHAPTER_NANOS,
        in_turn(depth, tc, order),
        forall|i: int| 0 <= i < order.len() ==> 1 <= #[trigger] order[i] < ranges.len(),
    ensures
        well_chosen(ranges, depth, tc, order, tried_all(ranges, order, want), want),
    decreases order.len(),
{
    if order.len() > 0 {
        let o = order.drop_last();
        let b = order.last();
        assert(b == order[order.len() - 1]);
        assert forall|p: int, q: int| 0 <= p < q < o.len() implies comes_first(
            depth,
            tc,
            #[trigger] o[p],
            #[trigger] o[q],
        ) by {
            assert(comes_first(depth, tc, order[p], order[q]));
        }
        assert forall|i: int| 0 <= i < o.len() implies 1 <= #[trigger] o[i] < ranges.len() by {
            assert(o[i] == order[i]);
        }
        lemma_chosen(ranges, depth, tc, o, want);
        let s = tried_all(ranges, o, want);
        let t = tried_all(ranges, order, want);
        assert forall|i: int| 0 < i < s.len() implies comes_first(depth, tc, #[trigger] s[i], b) by {
            assert(o.contains(s[i]));
            let k = choose|k: int| 0 <= k < o.len() && o[k] == s[i];
            assert(comes_first(depth, tc, order[k], order[order.len() - 1]));
        }
        assert(!s.contains(b)) by {
            if s.contains(b) {
                let i = choose|i: int| 0 <= i < s.len() && s[i] == b;
                assert(comes_first(depth, tc, s[i], b));
            }
        }
        let w = with_start(s, b);
        if s.len() < want && long_enough(ranges, w) && ranges[b].0 > 0 {
            lemma_start_taken(ranges, depth, tc, order, s, want);
        } else {
            assert forall|i: int| 0 < i < s.len() implies order.contains(#[trigger] s[i]) by {
                let k = choose|k: int| 0 <= k < o.len() && o[k] == s[i];
                assert(order[k] == s[i]);
            }
            if s.len() < want && ranges[b].0 > 0 {
                assert(!long_enough(ranges, w));
                lemma_start_refused(ranges, s, b);
                if ranges.last().1 - ranges[b].0 >= 180_000_000_000 {
                    let i = choose|i: int|
                        0 <= i < s.len() && too_near(ranges, #[trigger] s[i], b);
                    assert(s[i] == 0 || comes_first(depth, tc, s[i], b));
                }
            }
            assert(passed_over(ranges, depth, tc, s, want, b));
            assert forall|k: int| 0 <= k < order.len() implies t.contains(#[trigger] order[k])
                || passed_over(ranges, depth, tc, t, want, order[k]) by {
                if k < o.len() {
                    assert(o[k] == order[k]);
                }
            }
        }
    } else {
        let s = tried_all(ranges, order, want);
        assert(s =~= seq![0int]);
    }
}

/// The number of chapters that is aimed at is the nearest to one for every ten minutes, and at
/// least one.
pub proof fn law_chapters_aim_at_ten_minutes(total: int)
    ensures
        wanted(total) >= 1,
        wanted(total) == 1 <==> total < 900_000_000_000,
        total >= 300_000_000_000 ==> wanted(total) * 600_000_000_000 - 300_000_000_000 <= total
            < wanted(total) * 600_000_000_000 + 300_000_000_000,
{
    let w = (2 * total + 600_000_000_000) / 1_200_000_000_000;
    assert(2 * TARGET_CHAPTER_NANOS == 1_200_000_000_000);
    assert(total >= 0 && w >= 1 ==> wanted(total) == w);
}

/// Chapters start where they should: the starts rise from the first scene on; each chapter lasts
/// three minutes or more; and a scene at which none starts was passed over for a reason, so that
/// no boundary loses to one that is tried after it.
pub proof fn law_chapters_start_in_turn(ranges: Seq<(i128, i128)>, depth: Seq<i128>, tc: Seq<bool>)
    requires
        ranges.len() > 0,
        ranges.last().1 - ranges[0].0 >= 900_000_000_000,
    ensures
        ({
            let s = boundaries(ranges, depth, tc);
            &&& s.len() > 0
            &&& s[0] == 0
            &&& rising(s)
            &&& forall|i: int| 0 < i < s.len() ==> #[trigger] s[i] < ranges.len() && ranges[s[i]].0 > 0
            &&& forall|i: int|
                0 <= i < s.len() - 1 ==> ranges[s[i + 1]].0 - ranges[#[trigger] s[i]].0
                    >= 180_000_000_000
            &&& ranges.last().1 - ranges[s.last()].0 >= 180_000_000_000
            &&& forall|b: int|
                1 <= b < ranges.len() ==> #[trigger] s.contains(b) || passed_over(
                    ranges,
                    depth,
                    tc,
                    s,
                    wanted(ranges.last().1 - ranges[0].0),
                    b,
                )
        }),
{
    let n = ranges.len() as int;
    let want = wanted(ranges[n - 1].1 - ranges[0].0);
    let s = boundaries(ranges, depth, tc);
    if n >= 2 {
        let order = ranking(depth, tc, n - 1);
        law_boundaries_are_tried_in_turn(depth, tc, n - 1);
        assert forall|i: int| 0 <= i < order.len() implies 1 <= #[trigger] order[i]
            < ranges.len() by {
            assert(order.contains(order[i]));
        }
        lemma_chosen(ranges, depth, tc, order, want);
        assert forall|i: int| 0 < i < s.len() implies #[trigger] s[i] < ranges.len()
            && ranges[s[i]].0 > 0 by {
            assert(order.contains(s[i]));
        }
        assert forall|i: int| 0 <= i < s.len() - 1 implies ranges[s[i + 1]].0
            - ranges[#[trigger] s[i]].0 >= 180_000_000_000 by {
            assert(ranges[s[i + 1]].0 - ranges[s[i]].0 >= MIN_CHAPTER_NANOS);
        }
        assert forall|b: int| 1 <= b < ranges.len() implies #[trigger] s.contains(b)
            || passed_over(ranges, depth, tc, s, want, b) by {
            assert(order.contains(b));
            let k = choose|k: int| 0 <= k < order.len() && order[k] == b;
            assert(s.contains(order[k]) || passed_over(ranges, depth, tc, s, want, order[k]));
        }
    }
}

/// A chapter may start at scene `b`: it starts behind time zero, three minutes or more behind the
/// first scene, and leaves three minutes or more.
pub open spec fn may_start(ranges: Seq<(i128, i128)>, b: int) -> bool {
    &&& 1 <= b < ranges.len()
    &&& ranges[b].0 > 0
    &&& ranges[b].0 - ranges[0].0 >= 180_000_000_000
    &&& ranges.last().1 - ranges[b].0 >= 180_000_000_000
}

/// The first choice holds: where several chapters are wanted, one starts at the boundary that is
/// tried before all others at which one may start.
pub proof fn law_first_choice_starts_a_chapter(
    ranges: Seq<(i128, i128)>,
    depth: Seq<i128>,
    tc: Seq<bool>,
    b: int,
)
    requires
        ranges.len() > 0,
        ranges.last().1 - ranges[0].0 >= 900_000_000_000,
        may_start(ranges, b),
        forall|c: int|
            may_start(ranges, c) && c != b ==> #[trigger] comes_first(depth, tc, b, c),
    ensures
        boundaries(ranges, depth, tc).contains(b),
{
    law_chapters_start_in_turn(ranges, depth, tc);
    law_chapters_aim_at_ten_minutes(ranges.last().1 - ranges[0].0);
    let s = boundaries(ranges, depth, tc);
    let want = wanted(ranges.last().1 - ranges[0].0);
    assert forall|i: int| 0 < i < s.len() implies may_start(ranges, #[trigger] s[i]) by {
        lemma_starts_apart(ranges, s, 0, i);
        lemma_starts_apart(ranges, s, i, s.len() - 1);
        assert(s[0] < s[i]);
    }
    if !s.contains(b) {
        assert(passed_over(ranges, depth, tc, s, want, b));
        if exists|i: int|
            0 <= i < s.len() && (s[i] == 0 || comes_first(depth, tc, s[i], b)) && too_near(
                ranges,
                #[trigger] s[i],
                b,
            ) {
            let i = choose|i: int|
                0 <= i < s.len() && (s[i] == 0 || comes_first(depth, tc, s[i], b)) && too_near(
                    ranges,
                    #[trigger] s[i],
                    b,
                );
            if i > 0 {
                assert(may_start(ranges, s[i]));
                assert(s[0] < s[i]);
                assert(comes_first(depth, tc, b, s[i]));
            }
        } else {
            assert(may_start(ranges, s[1]));
            assert(comes_first(depth, tc, s[1], b));
            assert(comes_first(depth, tc, b, s[1]));
        }
    }
}

proof fn lemma_starts_apart(ranges: Seq<(i128, i128)>, s: Seq<int>, i: int, k: int)
    requires
        0 <= i <= k < s.len(),
        forall|i: int|
            0 <= i < s.len() - 1 ==> ranges[s[i + 1]].0 - ranges[#[trigger] s[i]].0
                >= 180_000_000_000,
    ensures
        ranges[s[k]].0 - ranges[s[i]].0 >= 180_000_000_000 * (k - i),
    decreases k - i,
{
    if i < k {
        lemma_starts_apart(ranges, s, i, k - 1);
        assert(ranges[s[(k - 1) + 1]].0 - ranges[s[k - 1]].0 >= 180_000_000_000);
    }
}

/// Where one boundary alone has a change of title, all depths are equal, several chapters are
/// wanted and one may start there, one starts there.
pub proof fn law_title_changes_start_chapters(
    ranges: Seq<(i128, i128)>,
    depth: Seq<i128>,
    tc: Seq<bool>,
    b: int,
)
    requires
        ranges.len() > 0,
        ranges.last().1 - ranges[0].0 >= 900_000_000_000,
        may_start(ranges, b),
        depth.len() >= ranges.len() - 1,
        forall|i: int, j: int|
            0 <= i < ranges.len() - 1 && 0 <= j < ranges.len() - 1 ==> #[trigger] depth[i]
                == #[trigger] depth[j],
        tc.len() >= ranges.len() - 1,
        forall|i: int| 0 <= i < ranges.len() - 1 ==> (#[trigger] tc[i] <==> i == b - 1),
    ensures
        boundaries(ranges, depth, tc).contains(b),
{
    assert forall|c: int| may_start(ranges, c) && c != b implies #[trigger] comes_first(
        depth,
        tc,
        b,
        c,
    ) by {
        assert(depth[b - 1] == depth[c - 1]);
        assert(tc[b - 1] && !tc[c - 1]);
    }
    law_first_choice_starts_a_chapter(ranges, depth, tc, b);
}

/// Where no title changes, several chapters are wanted and one may start at the boundary that is
/// deeper than all others, one starts there.
pub proof fn law_deepest_boundary_starts_a_chapter(
    ranges: Seq<(i128, i128)>,
    depth: Seq<i128>,
    tc: Seq<bool>,
    b: int,
)
    requires
        ranges.len() > 0,
        ranges.last().1 - ranges[0].0 >= 900_000_000_000,
        may_start(ranges, b),
        depth.len() >= ranges.len() - 1,
        forall|i: int|
            0 <= i < ranges.len() - 1 && i != b - 1 ==> #[trigger] depth[i] < depth[b - 1],
        forall|i: int| 0 <= i < tc.len() ==> !#[trigger] tc[i],
    ensures
        boundaries(ranges, depth, tc).contains(b),
{
    assert forall|c: int| may_start(ranges, c) && c != b implies #[trigger] comes_first(
        depth,
        tc,
        b,
        c,
    ) by {
        assert(depth[c - 1] < depth[b - 1]);
    }
    law_first_choice_starts_a_chapter(ranges, depth, tc, b);
}

proof fn lemma_left_peak(gaps: Seq<int>, i: int) -> (l: int)
    requires
        0 <= i < gaps.len(),
    ensures
        0 <= l <= i,
        left_peak(gaps, i) == gaps[l],
        forall|j: int, k: int| l <= j <= k <= i ==> #[trigger] gaps[j] >= #[trigger] gaps[k],
        l == 0 || gaps[l - 1] < gaps[l],
    decreases i,
{
    if 0 < i && gaps[i - 1] >= gaps[i] {
        let l = lemma_left_peak(gaps, i - 1);
        assert forall|j: int, k: int| l <= j <= k <= i implies #[trigger] gaps[j]
            >= #[trigger] gaps[k] by {
            if k == i && j < i {
                assert(gaps[j] >= gaps[i - 1]);
            }
        }
        l
    } else {
        i
    }
}

proof fn lemma_right_peak(gaps: Seq<int>, i: int) -> (r: int)
    requires
        0 <= i < gaps.len(),
    ensures
        i <= r < gaps.len(),
        right_peak(gaps, i) == gaps[r],
        forall|j: int, k: int| i <= j <= k <= r ==> #[trigger] gaps[j] <= #[trigger] gaps[k],
        r == gaps.len() - 1 || gaps[r + 1] < gaps[r],
    decreases gaps.len() - i,
{
    if i < gaps.len() - 1 && gaps[i + 1] >= gaps[i] {
        let r = lemma_right_peak(gaps, i + 1);
        assert forall|j: int, k: int| i <= j <= k <= r implies #[trigger] gaps[j]
            <= #[trigger] gaps[k] by {
            if j == i && k > i {
                assert(gaps[i + 1] <= gaps[k]);
            }
        }
        r
    } else {
        i
    }
}

/// Similarity does not fall from place `i` leftwards to `l`, and falls behind it or ends there.
pub open spec fn peak_on_left(gaps: Seq<int>, i: int, l: int) -> bool {
    &&& 0 <= l <= i < gaps.len()
    &&& forall|j: int, k: int| l <= j <= k <= i ==> #[trigger] gaps[j] >= #[trigger] gaps[k]
    &&& l == 0 || gaps[l - 1] < gaps[l]
}

/// Similarity does not fall from place `i` rightwards to `r`, and falls behind it or ends there.
pub open spec fn peak_on_right(gaps: Seq<int>, i: int, r: int) -> bool {
    &&& 0 <= i <= r < gaps.len()
    &&& forall|j: int, k: int| i <= j <= k <= r ==> #[trigger] gaps[j] <= #[trigger] gaps[k]
    &&& r == gaps.len() - 1 || gaps[r + 1] < gaps[r]
}

/// The depth of a boundary is how far similarity rises from it to the peak on the left, and how
/// far to the peak on the right, together.
pub proof fn law_depth_is_the_rise_to_both_peaks(gaps: Seq<int>, i: int, l: int, r: int)
    requires
        peak_on_left(gaps, i, l),
        peak_on_right(gaps, i, r),
    ensures
        depth_at(gaps, i) == (gaps[l] - gaps[i]) + (gaps[r] - gaps[i]),
{
    let a = lemma_left_peak(gaps, i);
    let b = lemma_right_peak(gaps, i);
    if a < l {
        assert(gaps[l - 1] >= gaps[l]);
    } else if l < a {
        assert(gaps[a - 1] >= gaps[a]);
    }
    if r < b {
        assert(gaps[r] <= gaps[r + 1]);
    } else if b < r {
        assert(gaps[b] <= gaps[b + 1]);
    }
}

/// The similarity across a boundary is the mean of the products of the up to two scenes before it
/// with the up to two scenes behind it; twelve times as much is the unit. A lone pair has its
/// product for a mean, and where no scene has a text it is a half.
pub proof fn law_similarity_is_a_mean(embs: Seq<Option<Vec<i32>>>, a: int)
    requires
        0 <= a,
        a + 1 < embs.len(),
    ensures
        (forall|i: int| 0 <= i < embs.len() ==> #[trigger] embs[i] is Some) && 1 <= a && a + 2
            < embs.len() ==> 4 * similarity(embs, a) == 12 * (product(
            embs[a - 1]->0@,
            embs[a + 1]->0@,
        ) + product(embs[a - 1]->0@, embs[a + 2]->0@) + product(embs[a]->0@, embs[a + 1]->0@)
            + product(embs[a]->0@, embs[a + 2]->0@)),
        (forall|i: int| 0 <= i < embs.len() ==> #[trigger] embs[i] is Some) && a == 0 && 2
            < embs.len() ==> 2 * similarity(embs, a) == 12 * (product(
            embs[0]->0@,
            embs[1]->0@,
        ) + product(embs[0]->0@, embs[2]->0@)),
        (forall|i: int| 0 <= i < embs.len() ==> #[trigger] embs[i] is Some) && a == 0 && 2
            == embs.len() ==> similarity(embs, a) == 12 * product(embs[0]->0@, embs[1]->0@),
        (forall|i: int| 0 <= i < embs.len() ==> #[trigger] embs[i] is None) ==> similarity(embs, a)
            == 6_000_000_000_000,
        forall|other: Seq<Option<Vec<i32>>>|
            other.len() == embs.len() && (forall|i: int|
                a - 1 <= i <= a + 2 && 0 <= i < embs.len() ==> #[trigger] other[i] == embs[i])
                ==> #[trigger] similarity(other, a) == similarity(embs, a),
{
    reveal_with_fuel(across, 5);
    assert forall|other: Seq<Option<Vec<i32>>>|
        other.len() == embs.len() && (forall|i: int|
            a - 1 <= i <= a + 2 && 0 <= i < embs.len() ==> #[trigger] other[i]
                == embs[i]) implies #[trigger] similarity(other, a) == similarity(embs, a) by {
        assert(across(other, a, 1) == across(embs, a, 1));
        assert(across(other, a, 2) == across(embs, a, 2));
        assert(across(other, a, 3) == across(embs, a, 3));
        assert(across(other, a, 4) == across(embs, a, 4));
    }
}

/// The product of embeddings takes them place by place: one more pair adds the product of its
/// numbers, and the order of the two does not matter.
pub proof fn law_products_go_place_by_place(x: Seq<i32>, y: Seq<i32>, a: i32, b: i32)
    requires
        x.len() == y.len(),
    ensures
        product(x.push(a), y.push(b)) == product(x, y) + a * b,
        product(x, y) == product(y, x),
    decreases x.len(),
{
    if x.len() > 0 {
        let (u, v) = (x.drop_first(), y.drop_first());
        law_products_go_place_by_place(u, v, a, b);
        assert(x.push(a).drop_first() =~= u.push(a));
        assert(y.push(b).drop_first() =~= v.push(b));
        assert(x[0] * y[0] == y[0] * x[0]) by (nonlinear_arith);
    } else {
        assert(x.push(a).drop_first() =~= x);
        assert(y.push(b).drop_first() =~= y);
    }
}

/// A character is a letter.
pub uninterp spec fn letter(c: char) -> bool;

/// Tells letters with `char::is_alphabetic`.
///
/// Claimed of it: the answer depends on the character alone. Which characters Unicode counts as
/// letters is not described.
#[verifier::external_body]
fn is_letter(c: char) -> (b: bool)
    ensures
        b == letter(c),
{
    c.is_alphabetic()
}

/// How many characters are marked.
pub open spec fn marked(m: Seq<bool>) -> int
    decreases m.len(),
{
    if m.len() == 0 {
        0
    } else {
        marked(m.drop_last()) + (if m.last() {
            1int
        } else {
            0int
        })
    }
}

/// A text looks like a slide title: a few words of mostly letters, no logo and no address. `m`
/// marks its letters.
pub open spec fn title_like(s: Seq<char>, m: Seq<bool>) -> bool {
    &&& 12 <= s.len() <= 90
    &&& text::words(s).len() >= 3
    &&& marked(m) >= s.len() as int / 2
    &&& !text::contains(s, "://"@)
    &&& !text::contains(s, "@"@)
}

/// Whether a text whose letters are marked looks like a slide title.
pub fn marked_title(s: &str, m: &Vec<bool>) -> (b: bool)
    ensures
        b == title_like(s@, m@),
{
    let c = chars_of(s);
    let n: usize = c.len();
    if n < 12 || n > 90 {
        return false;
    }
    let words = words_of(c.as_slice());
    proof {
        assert(text::texts_of(words@).len() == words@.len());
    }
    if words.len() < 3 {
        return false;
    }
    let mut k: usize = 0;
    let mut i: usize = 0;
    proof {
        assert(m@.take(0) =~= Seq::<bool>::empty());
    }
    while i < m.len()
        invariant
            i <= m@.len(),
            k <= i,
            k == marked(m@.take(i as int)),
        decreases m@.len() - i,
    {
        proof {
            assert(m@.take(i + 1).drop_last() =~= m@.take(i as int));
        }
        if m[i] {
            k = k + 1;
        }
        i = i + 1;
    }
    proof {
        assert(m@.take(i as int) =~= m@);
    }
    k >= n / 2 && !has_str(c.as_slice(), "://") && !has_str(c.as_slice(), "@")
}

/// The letters of a text, marked.
pub open spec fn letters(s: Seq<char>) -> Seq<bool> {
    s.map_values(|c: char| letter(c))
}

/// A slide title: a few words of mostly letters, not a logo or a URL.
pub fn looks_like_title(s: &str) -> (b: bool)
    ensures
        b == title_like(s@, letters(s@)),
{
    let c = chars_of(s);
    let mut m: Vec<bool> = Vec::new();
    let mut i: usize = 0;
    while i < c.len()
        invariant
            i <= c@.len(),
            c@ == s@,
            m@ == letters(s@).take(i as int),
        decreases c@.len() - i,
    {
        m.push(is_letter(c[i]));
        proof {
            assert(m@ =~= letters(s@).take(i + 1));
        }
        i = i + 1;
    }
    proof {
        assert(letters(s@).take(i as int) =~= letters(s@));
    }
    marked_title(s, &m)
}

/// A line read off the screen, its box in millionths of the frame.
#[derive(Debug)]
pub struct ScreenLine {
    /// Time.
    pub t: Timestamp,
    /// Text.
    pub text: String,
    /// Top edge and height of its box.
    pub bbox: Option<(i64, i64)>,
}

/// Where a title sits: the upper part of the frame, large enough to read.
pub open spec fn title_place(b: Option<(i64, i64)>) -> bool {
    match b {
        Some((y, h)) => y < 600_000 && h >= 30_000,
        None => true,
    }
}

/// A line may be the title of a stretch of time.
pub open spec fn title_candidate(o: ScreenLine, t0: Timestamp, t1: Timestamp) -> bool {
    &&& timestamp::le_time(t0, o.t)
    &&& !timestamp::le_time(t1, o.t)
    &&& title_like(o.text@, letters(o.text@))
    &&& title_place(o.bbox)
}

/// The height of a line's box, zero when it has none.
pub open spec fn box_height(o: ScreenLine) -> i64 {
    match o.bbox {
        Some((_, h)) => h,
        None => 0,
    }
}

/// A line makes a better title than another: it is higher, or as high and earlier.
pub open spec fn better_title(a: ScreenLine, b: ScreenLine) -> bool {
    box_height(a) > box_height(b) || (box_height(a) == box_height(b) && !timestamp::le_time(
        b.t,
        a.t,
    ))
}

/// The title of a stretch of time: the first best candidate.
pub open spec fn title_of(lines: Seq<ScreenLine>, t0: Timestamp, t1: Timestamp) -> Option<int>
    decreases lines.len(),
{
    if lines.len() == 0 {
        None
    } else {
        let i = lines.len() - 1;
        let rest = title_of(lines.drop_last(), t0, t1);
        if !title_candidate(lines[i], t0, t1) {
            rest
        } else {
            match rest {
                Some(k) => if better_title(lines[i], lines[k]) {
                    Some(i)
                } else {
                    Some(k)
                },
                None => Some(i),
            }
        }
    }
}

/// The title that a scene has on the screen.
pub open spec fn first_title(lines: Seq<ScreenLine>, t0: Timestamp, t1: Timestamp) -> Option<
    Seq<char>,
> {
    match title_of(lines, t0, t1) {
        Some(k) => Some(lines[k].text@),
        None => None,
    }
}

fn find_title(lines: &Vec<ScreenLine>, t0: Timestamp, t1: Timestamp) -> (r: Option<String>)
    ensures
        text::opt_text(r) == first_title(lines@, t0, t1),
{
    let mut best: Option<usize> = None;
    let mut i: usize = 0;
    proof {
        assert(lines@.take(0) =~= Seq::<ScreenLine>::empty());
    }
    while i < lines.len()
        invariant
            i <= lines@.len(),
            match best {
                Some(k) => k < i && title_of(lines@.take(i as int), t0, t1) == Some(k as int),
                None => title_of(lines@.take(i as int), t0, t1) is None,
            },
        decreases lines@.len() - i,
    {
        proof {
            assert(lines@.take(i + 1).drop_last() =~= lines@.take(i as int));
        }
        let o = &lines[i];
        let place: bool = match o.bbox {
            Some((y, h)) => y < 600_000 && h >= 30_000,
            None => true,
        };
        if t0.le(&o.t) && o.t.lt(&t1) && place && looks_like_title(o.text.as_str()) {
            match best {
                Some(k) => {
                    let hk: i64 = match lines[k].bbox {
                        Some((_, h)) => h,
                        None => 0,
                    };
                    let hi: i64 = match o.bbox {
                        Some((_, h)) => h,
                        None => 0,
                    };
                    if hi > hk || (hi == hk && o.t.lt(&lines[k].t)) {
                        best = Some(i);
                    }
                },
                None => {
                    best = Some(i);
                },
            }
        }
        i = i + 1;
    }
    proof {
        assert(lines@.take(i as int) =~= lines@);
    }
    match best {
        Some(k) => Some(lines[k].text.clone()),
        None => None,
    }
}

/// The titles of scenes.
pub open spec fn titles_of(scenes: Seq<Segment>, lines: Seq<ScreenLine>) -> Seq<
    Option<Seq<char>>,
> {
    scenes.map_values(|s: Segment| first_title(lines, s.t0, s.t1))
}

/// Optional texts as mathematics.
pub open spec fn opt_texts(s: Seq<Option<String>>) -> Seq<Option<Seq<char>>> {
    s.map_values(|t: Option<String>| text::opt_text(t))
}

/// The title of each scene, read off the screen.
pub fn scene_titles(scenes: &Vec<Segment>, lines: &Vec<ScreenLine>) -> (r: Vec<Option<String>>)
    ensures
        opt_texts(r@) == titles_of(scenes@, lines@),
{
    let mut out: Vec<Option<String>> = Vec::new();
    let mut i: usize = 0;
    while i < scenes.len()
        invariant
            i <= scenes@.len(),
            opt_texts(out@) == titles_of(scenes@, lines@).take(i as int),
        decreases scenes@.len() - i,
    {
        let ghost before = opt_texts(out@);
        let t = find_title(lines, scenes[i].t0, scenes[i].t1);
        out.push(t);
        proof {
            assert(opt_texts(out@) =~= before.push(text::opt_text(t)));
            assert(opt_texts(out@) =~= titles_of(scenes@, lines@).take(i + 1));
        }
        i = i + 1;
    }
    proof {
        assert(titles_of(scenes@, lines@).take(i as int) =~= titles_of(scenes@, lines@));
    }
    out
}

/// A title changes between two scenes: both have one, and they differ.
pub open spec fn title_changes(a: Option<Seq<char>>, b: Option<Seq<char>>) -> bool {
    match (a, b) {
        (Some(x), Some(y)) => x != y,
        _ => false,
    }
}

/// Between which scenes the title changes.
pub fn changes_of_title(titles: &Vec<Option<String>>) -> (r: Vec<bool>)
    ensures
        r@.len() == (if titles@.len() == 0 {
            0
        } else {
            titles@.len() - 1
        }),
        forall|i: int|
            0 <= i < r@.len() ==> #[trigger] r@[i] == title_changes(
                text::opt_text(titles@[i]),
                text::opt_text(titles@[i + 1]),
            ),
{
    let n: usize = titles.len();
    let mut out: Vec<bool> = Vec::new();
    if n > 0 {
        let mut i: usize = 0;
        while i < n - 1
            invariant
                i < n == titles@.len(),
                out@.len() == i,
                forall|j: int|
                    0 <= j < i ==> #[trigger] out@[j] == title_changes(
                        text::opt_text(titles@[j]),
                        text::opt_text(titles@[j + 1]),
                    ),
            decreases n - i,
        {
            let c: bool = match (&titles[i], &titles[i + 1]) {
                (Some(a), Some(b)) => !text::str_is(a.as_str(), b.as_str()),
                _ => false,
            };
            out.push(c);
            i = i + 1;
        }
    }
    out
}

/// The first title among scenes `s` to `e`.
pub open spec fn title_among(titles: Seq<Option<Seq<char>>>, s: int, e: int) -> Option<Seq<char>>
    decreases e + 1 - s,
{
    if s > e || s < 0 || s >= titles.len() {
        None
    } else if titles[s] is Some {
        titles[s]
    } else {
        title_among(titles, s + 1, e)
    }
}

/// The last scene of chapter `k`.
pub open spec fn last_scene(starts: Seq<int>, k: int, n: int) -> int {
    if k + 1 < starts.len() {
        starts[k + 1] - 1
    } else {
        n - 1
    }
}

/// The row of chapter `k`.
pub open spec fn is_chapter(
    c: Segment,
    scenes: Seq<Segment>,
    titles: Seq<Option<Seq<char>>>,
    starts: Seq<int>,
    k: int,
    video: u128,
    duration: Timestamp,
    id: u128,
    prov: u128,
) -> bool {
    let e = last_scene(starts, k, scenes.len() as int);
    &&& c.id == id
    &&& c.video_id == video
    &&& c.level == SegmentLevel::Chapter
    &&& c.parent_id is None
    &&& c.t0 == (if k == 0 {
        Timestamp { num: 0, den: 1 }
    } else {
        scenes[starts[k]].t0
    })
    &&& c.t1 == (if k + 1 == starts.len() && timestamp::le_time(scenes[e].t1, duration) {
        duration
    } else {
        scenes[e].t1
    })
    &&& c.keyframe_sample_id == scenes[starts[k]].keyframe_sample_id
    &&& text::opt_text(c.title) == title_among(titles, starts[k], e)
    &&& c.summary is None
    &&& c.provenance_id == prov
}

fn title_in(titles: &Vec<Option<String>>, s: usize, e: usize) -> (r: Option<String>)
    requires
        e < titles@.len(),
    ensures
        text::opt_text(r) == title_among(opt_texts(titles@), s as int, e as int),
{
    let n: usize = titles.len();
    let mut i: usize = s;
    while i <= e
        invariant
            e < titles@.len() == n,
            title_among(opt_texts(titles@), s as int, e as int) == title_among(
                opt_texts(titles@),
                i as int,
                e as int,
            ),
        decreases e + 1 - i,
    {
        proof {
            assert(opt_texts(titles@)[i as int] == text::opt_text(titles@[i as int]));
        }
        match &titles[i] {
            Some(t) => {
                return Some(t.clone());
            },
            None => {},
        }
        i = i + 1;
    }
    None
}

/// The rows of the chapters that start at the given scenes: the first reaches back to time zero,
/// the last on to the end of the video, and each has the first title seen in it.
pub fn chapter_rows(
    scenes: &Vec<Segment>,
    titles: &Vec<Option<String>>,
    starts: &Vec<usize>,
    video: u128,
    duration: Timestamp,
    ids: &Vec<u128>,
    prov: u128,
) -> (r: Vec<Segment>)
    requires
        titles@.len() == scenes@.len() > 0,
        ids@.len() >= starts@.len(),
        forall|k: int| 0 <= k < starts@.len() ==> #[trigger] starts@[k] < scenes@.len(),
        forall|k: int| 1 <= k < starts@.len() ==> 0 < #[trigger] starts@[k],
    ensures
        r@.len() == starts@.len(),
        forall|k: int|
            0 <= k < starts@.len() ==> is_chapter(
                #[trigger] r@[k],
                scenes@,
                opt_texts(titles@),
                ints(starts@),
                k,
                video,
                duration,
                ids@[k],
                prov,
            ),
{
    let m: usize = starts.len();
    let n: usize = scenes.len();
    let mut out: Vec<Segment> = Vec::new();
    let mut k: usize = 0;
    while k < m
        invariant
            k <= m == starts@.len(),
            n == scenes@.len() == titles@.len(),
            n > 0,
            ids@.len() >= m,
            forall|k: int| 0 <= k < starts@.len() ==> #[trigger] starts@[k] < scenes@.len(),
            forall|k: int| 1 <= k < starts@.len() ==> 0 < #[trigger] starts@[k],
            out@.len() == k,
            forall|j: int|
                0 <= j < k ==> is_chapter(
                    #[trigger] out@[j],
                    scenes@,
                    opt_texts(titles@),
                    ints(starts@),
                    j,
                    video,
                    duration,
                    ids@[j],
                    prov,
                ),
        decreases m - k,
    {
        let s: usize = starts[k];
        let e: usize = if k + 1 < m {
            starts[k + 1] - 1
        } else {
            n - 1
        };
        let t0 = if k == 0 {
            Timestamp::zero()
        } else {
            scenes[s].t0
        };
        let t1 = if k + 1 == m {
            scenes[e].t1.max(duration)
        } else {
            scenes[e].t1
        };
        out.push(
            Segment {
                id: ids[k],
                video_id: video,
                level: SegmentLevel::Chapter,
                parent_id: None,
                t0,
                t1,
                keyframe_sample_id: scenes[s].keyframe_sample_id,
                title: title_in(titles, s, e),
                summary: None,
                provenance_id: prov,
            },
        );
        k = k + 1;
    }
    out
}

/// What chapters are made of.
#[derive(Debug)]
pub enum ChapterStart {
    /// The video has chapters, which stay.
    Keep,
    /// There is nothing to divide.
    Nothing,
    /// These segments, in order of time.
    Divide(Vec<Segment>),
}

/// What chapters are made of: nothing when the video has `existing` ones, or else the scenes that
/// came, the scenes that are stored, or the shots that are stored, whichever there are first.
pub fn start_chapters(
    existing: usize,
    scenes: Vec<Segment>,
    stored_scenes: Vec<Segment>,
    stored_shots: Vec<Segment>,
) -> (r: ChapterStart)
    ensures
        ({
            let first = if scenes@.len() > 0 {
                scenes@
            } else if stored_scenes@.len() > 0 {
                stored_scenes@
            } else {
                stored_shots@
            };
            if existing > 0 {
                r is Keep
            } else if first.len() == 0 {
                r is Nothing
            } else {
                r matches ChapterStart::Divide(v) && v@ == model::by_start(first)
            }
        }),
{
    if existing > 0 {
        return ChapterStart::Keep;
    }
    let first = if scenes.len() > 0 {
        scenes
    } else if stored_scenes.len() > 0 {
        stored_scenes
    } else {
        stored_shots
    };
    if first.len() == 0 {
        ChapterStart::Nothing
    } else {
        ChapterStart::Divide(model::sort_segments(first))
    }
}

/// When scenes start and end, in nanoseconds.
pub open spec fn times_of(scenes: Seq<Segment>) -> Seq<(i128, i128)> {
    scenes.map_values(
        |s: Segment| (decode::nanos(s.t0) as i128, decode::nanos(s.t1) as i128),
    )
}

/// How deep each boundary between scenes is.
pub open spec fn depths_of(embs: Seq<Option<Vec<i32>>>) -> Seq<i128> {
    Seq::new(gaps_of(embs).len(), |i: int| depth_at(gaps_of(embs), i) as i128)
}

/// Between which scenes the title changes.
pub open spec fn changes_in(titles: Seq<Option<Seq<char>>>) -> Seq<bool> {
    Seq::new(
        if titles.len() == 0 {
            0
        } else {
            (titles.len() - 1) as nat
        },
        |i: int| title_changes(titles[i], titles[i + 1]),
    )
}

/// The scenes at which chapters start.
pub open spec fn chapter_starts(
    scenes: Seq<Segment>,
    embs: Seq<Option<Vec<i32>>>,
    lines: Seq<ScreenLine>,
) -> Seq<int> {
    boundaries(times_of(scenes), depths_of(embs), changes_in(titles_of(scenes, lines)))
}

proof fn lemma_starts_are_late(ranges: Seq<(i128, i128)>, starts: Seq<int>, k: int)
    requires
        starts.len() > 1,
        long_enough(ranges, starts),
        starts[0] == 0,
        1 <= k < starts.len(),
    ensures
        ranges[starts[k]].0 >= ranges[0].0 + MIN_CHAPTER_NANOS,
    decreases k,
{
    if k > 1 {
        lemma_starts_are_late(ranges, starts, k - 1);
    }
    assert(starts[(k - 1) + 1] == starts[k]);
}

proof fn lemma_starts_rise(ranges: Seq<(i128, i128)>, starts: Seq<int>, i: int, k: int)
    requires
        starts.len() > 1,
        long_enough(ranges, starts),
        0 <= i < k < starts.len(),
    ensures
        ranges[starts[k]].0 > ranges[starts[i]].0,
    decreases k - i,
{
    assert(starts[(k - 1) + 1] == starts[k]);
    if i < k - 1 {
        lemma_starts_rise(ranges, starts, i, k - 1);
    }
}

proof fn lemma_distinct_starts(ranges: Seq<(i128, i128)>, starts: Seq<int>)
    requires
        ranges.len() > 0,
        starts.len() > 1 ==> long_enough(ranges, starts),
        forall|i: int| 0 <= i < starts.len() ==> 0 <= #[trigger] starts[i] < ranges.len(),
    ensures
        starts.len() <= ranges.len(),
{
    if starts.len() > 1 {
        assert forall|i: int, k: int| 0 <= i < k < starts.len() implies #[trigger] starts[i]
            != #[trigger] starts[k] by {
            lemma_starts_rise(ranges, starts, i, k);
        }
        let all = Set::new(|x: int| 0 <= x < ranges.len());
        vstd::set_lib::lemma_int_range(0, ranges.len() as int);
        assert(all =~= vstd::set_lib::set_int_range(0, ranges.len() as int));
        assert(starts.no_duplicates());
        starts.unique_seq_to_set();
        assert(starts.to_set().subset_of(all));
        vstd::set_lib::lemma_len_subset(starts.to_set(), all);
    }
}

fn times(scenes: &Vec<Segment>) -> (r: Vec<(i128, i128)>)
    requires
        forall|i: int|
            0 <= i < scenes@.len() ==> (#[trigger] scenes@[i]).t0.wf() && scenes@[i].t1.wf(),
    ensures
        r@ == times_of(scenes@),
        bounded(r@),
{
    let mut r: Vec<(i128, i128)> = Vec::new();
    let mut i: usize = 0;
    while i < scenes.len()
        invariant
            i <= scenes@.len(),
            forall|i: int|
                0 <= i < scenes@.len() ==> (#[trigger] scenes@[i]).t0.wf() && scenes@[i].t1.wf(),
            r@ =~= times_of(scenes@).take(i as int),
            bounded(r@),
        decreases scenes@.len() - i,
    {
        let s = &scenes[i];
        proof {
            assert(scenes@[i as int].t0.wf());
        }
        r.push((decode::to_nanos(s.t0), decode::to_nanos(s.t1)));
        i = i + 1;
    }
    r
}

/// Divides scenes, in order of time, into chapters: at the boundaries where the topic changes most
/// or the title on screen changes, with the titles seen in them.
pub fn divide_chapters(
    scenes: &Vec<Segment>,
    embs: &Vec<Option<Vec<i32>>>,
    lines: &Vec<ScreenLine>,
    video: u128,
    duration: Timestamp,
    ids: &Vec<u128>,
    prov: u128,
) -> (r: Vec<Segment>)
    requires
        scenes@.len() > 0,
        forall|i: int|
            0 <= i < scenes@.len() ==> (#[trigger] scenes@[i]).t0.wf() && scenes@[i].t1.wf(),
        countable(embs@),
        ids@.len() >= scenes@.len(),
    ensures
        r@.len() == chapter_starts(scenes@, embs@, lines@).len() <= scenes@.len(),
        forall|k: int|
            0 <= k < r@.len() ==> is_chapter(
                #[trigger] r@[k],
                scenes@,
                titles_of(scenes@, lines@),
                chapter_starts(scenes@, embs@, lines@),
                k,
                video,
                duration,
                ids@[k],
                prov,
            ),
{
    let ranges = times(scenes);
    let depth = depth_scores(embs);
    let titles = scene_titles(scenes, lines);
    let changes = changes_of_title(&titles);
    proof {
        assert(titles@.len() == opt_texts(titles@).len());
        assert(depth@ =~= depths_of(embs@));
        assert forall|i: int| 0 <= i < changes@.len() implies #[trigger] changes@[i] == changes_in(
            opt_texts(titles@),
        )[i] by {
            assert(opt_texts(titles@)[i] == text::opt_text(titles@[i]));
            assert(opt_texts(titles@)[i + 1] == text::opt_text(titles@[i + 1]));
        }
        assert(changes@ =~= changes_in(titles_of(scenes@, lines@)));
    }
    let starts = choose_boundaries(&ranges, &depth, &changes);
    proof {
        let s = chapter_starts(scenes@, embs@, lines@);
        law_chapters_honour_lengths(ranges@, depth@, changes@);
        assert(ints(starts@) == s);
        lemma_distinct_starts(ranges@, s);
        assert forall|k: int| 0 <= k < starts@.len() implies #[trigger] starts@[k] < scenes@.len() by {
            assert(s[k] == starts@[k]);
        }
        assert forall|k: int| 1 <= k < starts@.len() implies 0 < #[trigger] starts@[k] by {
            assert(s[k] == starts@[k]);
            lemma_starts_are_late(ranges@, s, k);
        }
    }
    chapter_rows(scenes, &titles, &starts, video, duration, ids, prov)
}

/// The title of a span of time is the tallest line of it that reads like a title, and of lines as
/// tall the one that is shown first; where no line of it does, it has none.
pub proof fn law_titles_are_the_tallest_lines(
    lines: Seq<ScreenLine>,
    t0: Timestamp,
    t1: Timestamp,
    j: int,
)
    requires
        forall|i: int| 0 <= i < lines.len() ==> (#[trigger] lines[i]).t.wf(),
    ensures
        title_of(lines, t0, t1) matches Some(k) ==> {
            &&& 0 <= k < lines.len()
            &&& t0.num * lines[k].t.den <= lines[k].t.num * t0.den
            &&& lines[k].t.num * t1.den < t1.num * lines[k].t.den
            &&& title_like(lines[k].text@, letters(lines[k].text@))
        },
        0 <= j < lines.len() && title_candidate(lines[j], t0, t1) ==> {
            &&& title_of(lines, t0, t1) matches Some(k)
            &&& match (lines[j].bbox, lines[k].bbox) {
                (Some((_, tall)), Some((_, h))) => tall <= h && (tall == h ==> timestamp::le_time(
                    lines[k].t,
                    lines[j].t,
                )),
                (Some((_, tall)), None) => tall <= 0,
                (None, Some((_, h))) => 0 <= h,
                (None, None) => timestamp::le_time(lines[k].t, lines[j].t),
            }
        },
{
    lemma_title_of(lines, t0, t1);
}

proof fn lemma_title_of(lines: Seq<ScreenLine>, t0: Timestamp, t1: Timestamp)
    requires
        forall|i: int| 0 <= i < lines.len() ==> (#[trigger] lines[i]).t.wf(),
    ensures
        match title_of(lines, t0, t1) {
            Some(k) => 0 <= k < lines.len() && title_candidate(lines[k], t0, t1) && forall|j: int|
                0 <= j < lines.len() && title_candidate(#[trigger] lines[j], t0, t1) ==> box_height(
                    lines[j],
                ) < box_height(lines[k]) || (box_height(lines[j]) == box_height(lines[k])
                    && timestamp::le_time(lines[k].t, lines[j].t)),
            None => forall|j: int|
                0 <= j < lines.len() ==> !title_candidate(#[trigger] lines[j], t0, t1),
        },
    decreases lines.len(),
{
    if lines.len() > 0 {
        let i = lines.len() - 1;
        let rest = lines.drop_last();
        assert forall|k: int| 0 <= k < rest.len() implies (#[trigger] rest[k]).t.wf() by {
            assert(rest[k] == lines[k]);
        }
        lemma_title_of(rest, t0, t1);
        timestamp::law_time_total_preorder(lines[i].t, lines[i].t, lines[i].t);
        match title_of(rest, t0, t1) {
            Some(k) => {
                assert(rest[k] == lines[k]);
                timestamp::law_time_total_preorder(lines[i].t, lines[k].t, lines[k].t);
                let best = title_of(lines, t0, t1)->0;
                assert forall|j: int|
                    0 <= j < lines.len() && title_candidate(#[trigger] lines[j], t0, t1) implies
                    box_height(lines[j]) < box_height(lines[best]) || (box_height(lines[j])
                    == box_height(lines[best]) && timestamp::le_time(
                    lines[best].t,
                    lines[j].t,
                )) by {
                    if j < i {
                        assert(rest[j] == lines[j]);
                        timestamp::law_time_total_preorder(lines[i].t, lines[k].t, lines[j].t);
                    }
                }
            },
            None => {
                assert forall|j: int|
                    0 <= j < i implies !title_candidate(#[trigger] lines[j], t0, t1) by {
                    assert(rest[j] == lines[j]);
                }
            },
        }
    }
}

/// A chapter takes the title of the first of its scenes that has one.
pub proof fn law_chapters_take_their_first_title(
    titles: Seq<Option<Seq<char>>>,
    s: int,
    e: int,
    k: int,
)
    requires
        0 <= s <= k <= e < titles.len(),
    ensures
        titles[k] is Some && (forall|i: int| s <= i < k ==> (#[trigger] titles[i]) is None)
            ==> title_among(titles, s, e) == titles[k],
        (forall|i: int| s <= i <= e ==> (#[trigger] titles[i]) is None) ==> title_among(
            titles,
            s,
            e,
        ) is None,
    decreases e - s,
{
    if s < k {
        law_chapters_take_their_first_title(titles, s + 1, e, k);
    } else if s < e {
        law_chapters_take_their_first_title(titles, s + 1, e, s + 1);
    } else {
        assert(title_among(titles, s + 1, e) is None);
    }
}

/// Texts that hold an address of the web or of a mailbox are no titles, nor are texts of less than
/// three words.
pub proof fn law_addresses_are_no_titles(a: Seq<char>, b: Seq<char>, m: Seq<bool>)
    ensures
        !title_like(a + "://"@ + b, m),
        !title_like(a + "@"@ + b, m),
        text::words(a).len() < 3 ==> !title_like(a, m),
{
    reveal_strlit("://");
    reveal_strlit("@");
    let n = a.len() as int;
    assert((a + "://"@ + b).subrange(n, n + 3) =~= "://"@);
    assert(text::occurs_at(a + "://"@ + b, "://"@, n));
    assert((a + "@"@ + b).subrange(n, n + 1) =~= "@"@);
    assert(text::occurs_at(a + "@"@ + b, "@"@, n));
}

/// A title starts in the upper three fifths of the frame and is at least three hundredths of it
/// tall.
pub proof fn law_titles_stand_high_and_tall(y: i64, h: i64)
    ensures
        title_place(Some((y, h))) <==> 5 * y < 3 * 1_000_000 && 100 * h >= 3 * 1_000_000,
{
}

/// The title changes between two scenes only where both have one, and alike in both directions.
pub proof fn law_titles_change_both_ways(a: Option<Seq<char>>, b: Option<Seq<char>>)
    ensures
        title_changes(a, b) == title_changes(b, a),
        !title_changes(a, a),
        title_changes(a, None) == false,
        a is Some && b is Some && a != b ==> title_changes(a, b),
{
}

/// Chapters lie over the whole video: the first starts with it, the last ends no sooner than it,
/// and each ends with the scene before the next one starts.
pub proof fn law_chapter_rows_span_the_video(
    c: Segment,
    scenes: Seq<Segment>,
    titles: Seq<Option<Seq<char>>>,
    starts: Seq<int>,
    k: int,
    video: u128,
    duration: Timestamp,
    id: u128,
    prov: u128,
)
    requires
        is_chapter(c, scenes, titles, starts, k, video, duration, id, prov),
        0 <= k < starts.len(),
        duration.wf(),
        scenes.last().t1.wf(),
        scenes.len() > 0,
    ensures
        k == 0 ==> c.t0.num == 0,
        k > 0 ==> c.t0 == scenes[starts[k]].t0,
        k + 1 < starts.len() ==> c.t1 == scenes[starts[k + 1] - 1].t1,
        k + 1 == starts.len() ==> timestamp::le_time(duration, c.t1) && timestamp::le_time(
            scenes.last().t1,
            c.t1,
        ),
        c.keyframe_sample_id == scenes[starts[k]].keyframe_sample_id,
{
    let e = scenes.last().t1;
    timestamp::law_time_total_preorder(duration, e, duration);
    timestamp::law_time_total_preorder(duration, duration, duration);
    timestamp::law_time_total_preorder(e, e, duration);
}

} // verus!
