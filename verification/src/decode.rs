//! Decoding decisions: stream timing, which frames a sampling request takes,
//! how PCM is cut into chunks, and how rows are packed into slots.

use vstd::prelude::*;

use crate::error::MediaError;
use crate::frame::PixelFormat;
use crate::order;
use crate::protocol::{self, AudioDecodeRequest, VideoDecodeRequest};
use crate::text;
use crate::thumbnail;
use crate::timestamp::{self, Timestamp, MICROS};

verus! {

/// The value that marks a missing presentation time.
pub const NO_PTS: i64 = -0x8000_0000_0000_0000;

/// The nearest 64-bit number.
pub open spec fn clamped(x: int) -> i64 {
    if x < i64::MIN {
        i64::MIN
    } else if x > i64::MAX {
        i64::MAX
    } else {
        x as i64
    }
}

fn clamp_wide(x: i128) -> (r: i64)
    ensures
        r == clamped(x as int),
{
    if x < i64::MIN as i128 {
        i64::MIN
    } else if x > i64::MAX as i128 {
        i64::MAX
    } else {
        x as i64
    }
}

/// A timebase as unsigned parts; microseconds when it has none.
pub fn rational_parts(num: i32, den: i32) -> (r: (u32, u32))
    ensures
        r == (if num >= 0 && den > 0 {
            (num as u32, den as u32)
        } else {
            (1u32, MICROS)
        }),
        r.1 > 0,
{
    if num >= 0 && den > 0 {
        (num as u32, den as u32)
    } else {
        (1, MICROS)
    }
}

/// A frame rate as a fraction; none when it is not positive.
pub fn rational_rate(num: i32, den: i32) -> (r: Option<(i32, i32)>)
    ensures
        r == (if den == 0 || num <= 0 {
            None
        } else {
            Some((num, den))
        }),
{
    if den == 0 || num <= 0 {
        None
    } else {
        Some((num, den))
    }
}

/// The time of a presentation timestamp in a timebase, saturating.
pub open spec fn time_of(pts: int, tb: (u32, u32)) -> Timestamp {
    Timestamp { num: clamped(pts * tb.0), den: tb.1 }
}

/// The time of a presentation timestamp in a timebase.
pub fn ts_from(pts: i64, tb: (u32, u32)) -> (t: Timestamp)
    ensures
        t == time_of(pts as int, tb),
{
    proof {
        assert(-0x8000_0000_0000_0000 * 0x1_0000_0000 <= pts * tb.0 <= 0x8000_0000_0000_0000
            * 0x1_0000_0000) by (nonlinear_arith)
            requires
                -0x8000_0000_0000_0000 <= pts < 0x8000_0000_0000_0000,
                0 <= tb.0 < 0x1_0000_0000,
        ;
    }
    Timestamp::new(clamp_wide((pts as i128) * (tb.0 as i128)), tb.1)
}

/// The time of a frame relative to the start of its stream.
pub fn frame_time(pts: i64, start_time: i64, tb: (u32, u32)) -> (t: Timestamp)
    ensures
        t == time_of(clamped(pts - start_time) as int, tb),
{
    let rel: i64 = clamp_wide((pts as i128) - (start_time as i128));
    ts_from(rel, tb)
}

/// Output geometry for a `max_dim` request.
pub fn scaled_dims(sw: u32, sh: u32, max_dim: u32) -> (r: (u32, u32))
    ensures
        (r.0 as int, r.1 as int) == thumbnail::fitted(sw as int, sh as int, max_dim as int),
        r.0 >= 1 && r.1 >= 1,
{
    thumbnail::fit(sw, sh, max_dim)
}

/// Where packets of the probed stream stand: how many were seen, and the times of the key ones.
#[derive(Debug)]
pub struct KeyScan {
    /// Packets of the stream so far.
    pub seen: u64,
    /// Times of the key packets so far.
    pub key_pts: Vec<i64>,
}

impl KeyScan {
    /// A scan that has seen nothing.
    pub fn new() -> (k: KeyScan)
        ensures
            k.seen == 0,
            k.key_pts@.len() == 0,
    {
        KeyScan { seen: 0, key_pts: Vec::new() }
    }

    /// Takes note of a packet of the stream: a key packet counts with its presentation time, or
    /// its decoding time when it has none. Answers whether enough was seen: twelve key packets or
    /// three thousand packets.
    pub fn packet(&mut self, is_key: bool, pts: Option<i64>, dts: Option<i64>) -> (done: bool)
        requires
            old(self).seen < 3000,
        ensures
            final(self).seen == old(self).seen + 1,
            final(self).key_pts@ == (match (is_key, pts, dts) {
                (true, Some(p), _) => old(self).key_pts@.push(p),
                (true, None, Some(d)) => old(self).key_pts@.push(d),
                _ => old(self).key_pts@,
            }),
            done == (final(self).key_pts@.len() >= 12 || final(self).seen >= 3000),
    {
        self.seen = self.seen + 1;
        if is_key {
            match pts {
                Some(p) => self.key_pts.push(p),
                None => match dts {
                    Some(d) => self.key_pts.push(d),
                    None => {},
                },
            }
        }
        self.key_pts.len() >= 12 || self.seen >= 3000
    }
}

/// The positive gaps between neighbours of an ascending sequence, saturating.
pub open spec fn positive_gaps(s: Seq<i64>) -> Seq<i64>
    decreases s.len(),
{
    if s.len() < 2 {
        Seq::empty()
    } else {
        let before = positive_gaps(s.drop_last());
        let gap = s[s.len() - 1] - s[s.len() - 2];
        if gap > 0 {
            before.push(clamped(gap))
        } else {
            before
        }
    }
}

/// The median gap between key packets: the middle one of the sorted positive gaps, the upper one
/// of two.
pub open spec fn median_gap(key_pts: Seq<i64>) -> Option<i64> {
    let gaps = order::sorted(positive_gaps(order::sorted(key_pts)));
    if gaps.len() == 0 {
        None
    } else {
        Some(gaps[gaps.len() as int / 2])
    }
}

/// The median gap between key packets as a time; none where the timebase has no length.
pub open spec fn key_interval(key_pts: Seq<i64>, tb: (u32, u32)) -> Option<Timestamp> {
    match median_gap(key_pts) {
        Some(g) => if tb.0 > 0 {
            Some(time_of(g as int, tb))
        } else {
            None
        },
        None => None,
    }
}

/// The median gap between key packets in the stream's timebase.
pub fn keyframe_interval(key_pts: &Vec<i64>, tb: (u32, u32)) -> (r: Option<Timestamp>)
    ensures
        r == key_interval(key_pts@, tb),
{
    if tb.0 == 0 {
        return None;
    }
    let s = order::sort(key_pts);
    let mut gaps: Vec<i64> = Vec::new();
    let mut i: usize = 1;
    proof {
        if s@.len() > 0 {
            assert(s@.take(1).len() == 1);
        }
    }
    while i < s.len()
        invariant
            1 <= i,
            i <= s@.len() || s@.len() == 0,
            s@.len() > 0 ==> gaps@ == positive_gaps(s@.take(i as int)),
            s@.len() == 0 ==> gaps@.len() == 0,
        decreases s@.len() - i,
    {
        let gap: i128 = (s[i] as i128) - (s[i - 1] as i128);
        proof {
            assert(s@.take(i + 1).drop_last() =~= s@.take(i as int));
        }
        if gap > 0 {
            gaps.push(clamp_wide(gap));
        }
        i = i + 1;
    }
    proof {
        if s@.len() > 0 {
            assert(s@.take(i as int) =~= s@);
        } else {
            assert(gaps@ =~= positive_gaps(s@));
        }
        order::law_sorted(gaps@);
    }
    let g = order::sort(&gaps);
    if g.len() == 0 {
        None
    } else {
        Some(ts_from(g[g.len() / 2], tb))
    }
}

/// The earliest start among the streams so far and one more, which may not know its own.
pub fn earlier_start(earliest: Option<Timestamp>, start_time: i64, tb: (u32, u32)) -> (r: Option<
    Timestamp,
>)
    ensures
        r == (if start_time == NO_PTS {
            earliest
        } else {
            match earliest {
                Some(e) => if crate::timestamp::le_time(e, time_of(start_time as int, tb)) {
                    Some(e)
                } else {
                    Some(time_of(start_time as int, tb))
                },
                None => Some(time_of(start_time as int, tb)),
            }
        }),
{
    if start_time == NO_PTS {
        return earliest;
    }
    let st = ts_from(start_time, tb);
    match earliest {
        Some(e) => if e.le(&st) {
            Some(e)
        } else {
            Some(st)
        },
        None => Some(st),
    }
}

// ------------------------------------------------------------------ video

/// A time in nanoseconds, rounded down.
pub open spec fn nanos(t: Timestamp) -> int {
    (t.num * 1_000_000_000) / (t.den as int)
}

/// A time in nanoseconds, rounded down.
pub fn to_nanos(t: Timestamp) -> (n: i128)
    requires
        t.wf(),
    ensures
        n == nanos(t),
        -0x8000_0000_0000_0000 * 1_000_000_000 <= n <= 0x8000_0000_0000_0000 * 1_000_000_000,
{
    let x: i128 = (t.num as i128) * 1_000_000_000;
    let d: i128 = t.den as i128;
    proof {
        lemma_floor_bounds(x as int, d as int);
    }
    if x >= 0 {
        x / d
    } else {
        // Rust truncates towards zero; step down when a remainder was dropped.
        let m: i128 = -x;
        let q: i128 = m / d;
        let r: i128 = m % d;
        proof {
            lemma_negative_floor(m as int, d as int);
        }
        if r == 0 {
            -q
        } else {
            -q - 1
        }
    }
}

proof fn lemma_floor_bounds(x: int, d: int)
    requires
        d >= 1,
    ensures
        x >= 0 ==> 0 <= x / d <= x,
        x < 0 ==> x <= x / d < 0,
{
    assert(x >= 0 ==> 0 <= x / d <= x) by (nonlinear_arith)
        requires
            d >= 1,
    ;
    assert(x < 0 ==> x <= x / d < 0) by (nonlinear_arith)
        requires
            d >= 1,
    {
        let q = x / d;
        let r = x % d;
        assert(x == d * q + r);
        assert(0 <= r < d);
        if x < 0 && q >= 0 {
            assert(d * q >= 0);
        }
        if x < 0 && q < x {
            assert(d * q <= d * (x - 1));
            assert(d * (x - 1) <= x - 1);
            assert(r < d);
            assert(d * q + r < d * (x - 1) + d);
            assert(d * (x - 1) + d == d * x);
            assert(d * x <= x);
        }
    }
}

proof fn lemma_negative_floor(m: int, d: int)
    requires
        m > 0,
        d >= 1,
    ensures
        m % d == 0 ==> (-m) / d == -(m / d),
        m % d != 0 ==> (-m) / d == -(m / d) - 1,
        0 <= m / d <= m,
{
    let q = m / d;
    let r = m % d;
    vstd::arithmetic::div_mod::lemma_fundamental_div_mod(m, d);
    assert(0 <= q <= m) by (nonlinear_arith)
        requires
            m > 0,
            d >= 1,
            q == m / d,
    ;
    if r == 0 {
        assert(-m == (-q) * d + 0) by (nonlinear_arith)
            requires
                m == d * q + r,
                r == 0,
        ;
        vstd::arithmetic::div_mod::lemma_fundamental_div_mod_converse(-m, d, -q, 0);
    } else {
        assert(-m == (-q - 1) * d + (d - r)) by (nonlinear_arith)
            requires
                m == d * q + r,
        ;
        vstd::arithmetic::div_mod::lemma_fundamental_div_mod_converse(-m, d, -q - 1, d - r);
    }
}

/// A sampling run over one video stream, in nanoseconds.
///
/// Sample `k` is due at `t0 + k / fps`; a frame satisfies every sample that is due up to half a
/// source frame after it.
#[derive(Clone, Copy, Debug, PartialEq, Eq, Structural)]
pub struct VideoSampler {
    /// Start of the range.
    pub t0: i128,
    /// Samples per second, in thousandths.
    pub fps_milli: u64,
    /// End of the range; none when it is open.
    pub t_end: Option<i128>,
    /// Half a source frame.
    pub eps: i128,
    /// The next sample.
    pub next: u128,
}

/// What the sampler decides about a frame.
#[derive(Clone, Copy, Debug, PartialEq, Eq, Structural)]
pub struct FrameStep {
    /// Deliver the frame.
    pub emit: bool,
    /// Stop decoding.
    pub done: bool,
}

/// How far a frame can reach behind the start of a range.
pub const FARTHEST: i128 = 18_446_744_073_709_551_616_000_000_000;

/// How long after the start of the range sample `k` is due.
pub open spec fn lag(s: VideoSampler, k: int) -> int {
    (k * 1_000_000_000_000) / (s.fps_milli as int)
}

/// When sample `k` is due.
pub open spec fn due(s: VideoSampler, k: int) -> int {
    s.t0 + lag(s, k)
}

/// Sample `k` lies at or behind the end of the range.
pub open spec fn past_end(s: VideoSampler, k: int) -> bool {
    s.t_end matches Some(e) && due(s, k) >= e
}

/// How far a frame reaches: it satisfies the samples that are due by then.
pub open spec fn reach(s: VideoSampler, t: Timestamp) -> int {
    nanos(t) + s.eps
}

/// What a sampler `s` makes of a frame at `t`, becoming `s2`: nothing more is due once the next
/// sample lies past the end; a frame that reaches the next sample is delivered, and every sample
/// that it reaches is passed.
pub open spec fn takes_frame(
    s: VideoSampler,
    t: Timestamp,
    r: FrameStep,
    s2: VideoSampler,
) -> bool {
    let k = s.next as int;
    if past_end(s, k) {
        r == (FrameStep { emit: false, done: true }) && s2 == s
    } else if reach(s, t) < due(s, k) {
        r == (FrameStep { emit: false, done: false }) && s2 == s
    } else {
        &&& r.emit
        &&& s2.next > k
        &&& s2 == (VideoSampler { next: s2.next, ..s })
        &&& due(s, s2.next as int) > reach(s, t)
        &&& forall|j: int| k <= j < s2.next ==> #[trigger] due(s, j) <= reach(s, t)
        &&& r.done == past_end(s, s2.next as int)
    }
}

impl VideoSampler {
    /// Times and counts stay in range.
    pub open spec fn wf(self) -> bool {
        &&& 0 < self.fps_milli <= 0x7fff_ffff_ffff_ffff
        &&& 0 <= self.t0 <= 0x8000_0000_0000_0000 * 1_000_000_000
        &&& 0 <= self.eps <= 0x8000_0000_0000_0000 * 1_000_000_000
        &&& lag(self, self.next as int) <= 2 * FARTHEST
    }

    fn due_at(&self, k: u128) -> (t: i128)
        requires
            self.wf(),
            lag(*self, k as int) <= 2 * FARTHEST,
        ensures
            t == due(*self, k as int),
    {
        let f: u128 = self.fps_milli as u128;
        let q: u128 = k / f;
        let r: u128 = k % f;
        proof {
            let c = 1_000_000_000_000int;
            lemma_scaled_floor(k as int, c, f as int);
            assert(r * c <= 0x7fff_ffff_ffff_ffff * c) by (nonlinear_arith)
                requires
                    0 <= r < 0x7fff_ffff_ffff_ffff,
                    c > 0,
            ;
            lemma_floor_bounds(r * c, f as int);
        }
        self.t0 + (q * 1_000_000_000_000 + r * 1_000_000_000_000 / f) as i128
    }

    /// Decides about the next frame in presentation order: nothing more is due once the next
    /// sample lies past the end; a frame that satisfies the next sample is delivered, and every
    /// sample it satisfies is passed.
    pub fn frame(&mut self, t: Timestamp) -> (r: FrameStep)
        requires
            old(self).wf(),
            t.wf(),
        ensures
            takes_frame(*old(self), t, r, *final(self)),
            final(self).wf(),
    {
        let target: i128 = self.due_at(self.next);
        match self.t_end {
            Some(e) => {
                if target >= e {
                    return FrameStep { emit: false, done: true };
                }
            },
            None => {},
        }
        let reach: i128 = to_nanos(t) + self.eps;
        if reach < target {
            return FrameStep { emit: false, done: false };
        }
        let lead: i128 = reach - self.t0 + 1;
        let f: u128 = self.fps_milli as u128;
        let ghost s0 = *self;
        let a: u128 = lead as u128 / 1_000_000_000_000;
        let b: u128 = lead as u128 % 1_000_000_000_000;
        proof {
            let c = 1_000_000_000_000int;
            lemma_first_due_after(s0, reach as int, s0.next as int);
            assert(0 <= a * f <= 0x1_0000_0000_0000_0000 * 0x7fff_ffff_ffff_ffff)
                by (nonlinear_arith)
                requires
                    0 <= a <= 0x1_0000_0000_0000_0000,
                    0 < f <= 0x7fff_ffff_ffff_ffff,
            ;
            assert(0 <= b * f <= 1_000_000_000_000 * 0x7fff_ffff_ffff_ffff) by (nonlinear_arith)
                requires
                    0 <= b < 1_000_000_000_000,
                    0 < f <= 0x7fff_ffff_ffff_ffff,
            ;
            assert(lead * f + (c - 1) == (b * f + (c - 1)) + (a * f) * c) by (nonlinear_arith)
                requires
                    lead == c * a + b,
            ;
            vstd::arithmetic::div_mod::lemma_hoist_over_denominator(
                b * f + (c - 1),
                a * f,
                c as nat,
            );
        }
        self.next = a * f + (b * f + 999_999_999_999) / 1_000_000_000_000;
        let after: i128 = self.due_at(self.next);
        let done: bool = match self.t_end {
            Some(e) => after >= e,
            None => false,
        };
        proof {
            assert forall|j: int| s0.next <= j < self.next implies #[trigger] due(s0, j)
                <= reach by {
                lemma_due_monotone(s0, j, self.next - 1);
            }
        }
        FrameStep { emit: true, done }
    }
}

proof fn lemma_due_monotone(s: VideoSampler, i: int, j: int)
    requires
        i <= j,
        s.fps_milli > 0,
    ensures
        due(s, i) <= due(s, j),
{
    vstd::arithmetic::div_mod::lemma_div_is_ordered(
        i * 1_000_000_000_000,
        j * 1_000_000_000_000,
        s.fps_milli as int,
    );
}

/// A scaled quotient from the quotient and the remainder.
proof fn lemma_scaled_floor(k: int, c: int, f: int)
    requires
        k >= 0,
        c > 0,
        f > 0,
    ensures
        (k * c) / f == (k / f) * c + ((k % f) * c) / f,
        0 <= k / f,
        0 <= k % f < f,
        0 <= (k / f) * c <= (k * c) / f,
        0 <= ((k % f) * c) / f,
{
    let q = k / f;
    let r = k % f;
    vstd::arithmetic::div_mod::lemma_fundamental_div_mod(k, f);
    assert(q >= 0) by (nonlinear_arith)
        requires
            k >= 0,
            f > 0,
            q == k / f,
    ;
    assert(k * c == r * c + (q * c) * f) by (nonlinear_arith)
        requires
            k == f * q + r,
    ;
    vstd::arithmetic::div_mod::lemma_hoist_over_denominator(r * c, q * c, f as nat);
    assert(0 <= r * c && 0 <= q * c) by (nonlinear_arith)
        requires
            r >= 0,
            q >= 0,
            c > 0,
    ;
    lemma_floor_bounds(r * c, f);
}

/// The sample behind one that is not due too late is not due too late either.
proof fn lemma_next_lag(s: VideoSampler, k: int)
    requires
        s.wf(),
        0 <= k,
        lag(s, k) <= FARTHEST,
    ensures
        lag(s, k + 1) <= 2 * FARTHEST,
        k < 0x1_0000_0000_0000_0000 * 0x1_0000_0000_0000_0000 - 1,
{
    let f = s.fps_milli as int;
    let c = 1_000_000_000_000int;
    let q = (k * c) / f;
    vstd::arithmetic::div_mod::lemma_fundamental_div_mod(k * c, f);
    assert(k * c < (q + 1) * f) by (nonlinear_arith)
        requires
            k * c == f * q + (k * c) % f,
            (k * c) % f < f,
    ;
    assert((k + 1) * c < (q + 1 + c) * f) by (nonlinear_arith)
        requires
            k * c < (q + 1) * f,
            c > 0,
            f >= 1,
    ;
    lemma_floor_below((k + 1) * c, f, q + 1 + c);
    assert(k < 0x1_0000_0000_0000_0000 * 0x1_0000_0000_0000_0000 - 1) by (nonlinear_arith)
        requires
            k >= 0,
            k * c < (q + 1) * f,
            c == 1_000_000_000_000,
            q <= 18_446_744_073_709_551_616_000_000_000,
            0 < f <= 0x7fff_ffff_ffff_ffff,
    {
        assert((q + 1) * f <= 18_446_744_073_709_551_616_000_000_001 * 0x7fff_ffff_ffff_ffff)
            by (nonlinear_arith)
            requires
                0 <= q + 1 <= 18_446_744_073_709_551_616_000_000_001 || q + 1 <= 0,
                0 < f <= 0x7fff_ffff_ffff_ffff,
        ;
    }
}

/// The first sample due after `reach` in closed form.
proof fn lemma_first_due_after(s: VideoSampler, reach: int, k: int)
    requires
        s.wf(),
        0 <= k,
        due(s, k) <= reach,
        reach <= 0x1_0000_0000_0000_0000 * 1_000_000_000,
    ensures
        ({
            let f = s.fps_milli as int;
            let n = ((reach - s.t0 + 1) * f + 999_999_999_999) / 1_000_000_000_000;
            &&& 0 <= reach - s.t0
            &&& n > k
            &&& due(s, n) > reach
            &&& due(s, n - 1) <= reach
            &&& lag(s, n) <= 2 * FARTHEST
        }),
{
    let f = s.fps_milli as int;
    let c = 1_000_000_000_000int;
    let d = reach - s.t0;
    let q = (k * c) / f;
    assert(q >= 0) by (nonlinear_arith)
        requires
            q == (k * c) / f,
            k >= 0,
            c > 0,
            f > 0,
    ;
    let n = ((d + 1) * f + c - 1) / c;
    let r = ((d + 1) * f + c - 1) % c;
    vstd::arithmetic::div_mod::lemma_fundamental_div_mod((d + 1) * f + c - 1, c);
    // n * c >= (d + 1) * f and (n - 1) * c < (d + 1) * f
    assert(n * c >= (d + 1) * f) by (nonlinear_arith)
        requires
            (d + 1) * f + c - 1 == c * n + r,
            0 <= r < c,
    ;
    assert((n - 1) * c < (d + 1) * f) by (nonlinear_arith)
        requires
            (d + 1) * f + c - 1 == c * n + r,
            0 <= r < c,
    ;
    lemma_floor_at_least(n * c, f, d + 1);
    lemma_floor_below((n - 1) * c, f, d + 1);
    if n <= k {
        lemma_due_monotone(s, n, k);
    }
    // n * c <= (d + 1) * f + c - 1 < (d + 1 + c) * f
    assert(n * c < (d + 1 + c) * f) by (nonlinear_arith)
        requires
            (n - 1) * c < (d + 1) * f,
            c > 0,
            f >= 1,
    ;
    lemma_floor_below(n * c, f, d + 1 + c);
}

proof fn lemma_floor_at_least(x: int, f: int, m: int)
    requires
        f > 0,
        x >= m * f,
    ensures
        x / f >= m,
{
    let q = x / f;
    vstd::arithmetic::div_mod::lemma_fundamental_div_mod(x, f);
    assert(q >= m) by (nonlinear_arith)
        requires
            x == f * q + x % f,
            0 <= x % f < f,
            x >= m * f,
            f > 0,
    ;
}

proof fn lemma_floor_below(x: int, f: int, m: int)
    requires
        f > 0,
        x < m * f,
    ensures
        x / f < m,
{
    let q = x / f;
    vstd::arithmetic::div_mod::lemma_fundamental_div_mod(x, f);
    assert(q < m) by (nonlinear_arith)
        requires
            x == f * q + x % f,
            0 <= x % f < f,
            x < m * f,
            f > 0,
    ;
}

impl VideoSampler {
    /// Where to seek for the next sample; none when it lies past the end.
    pub fn seek_target(&self) -> (r: Option<i128>)
        requires
            self.wf(),
        ensures
            r == (if past_end(*self, self.next as int) {
                None
            } else {
                Some(due(*self, self.next as int) as i128)
            }),
    {
        let target: i128 = self.due_at(self.next);
        match self.t_end {
            Some(e) => if target >= e {
                None
            } else {
                Some(target)
            },
            None => Some(target),
        }
    }

    /// Whether a frame decoded after seeking satisfies the next sample.
    pub fn seek_accepts(&self, t: Timestamp) -> (b: bool)
        requires
            self.wf(),
            t.wf(),
        ensures
            b == (nanos(t) + self.eps >= due(*self, self.next as int)),
            b ==> lag(*self, self.next as int) <= FARTHEST,
    {
        to_nanos(t) + self.eps >= self.due_at(self.next)
    }

    /// Goes on to the next sample after one was delivered.
    pub fn seek_next(&mut self)
        requires
            old(self).wf(),
            lag(*old(self), old(self).next as int) <= FARTHEST,
        ensures
            *final(self) == (VideoSampler { next: (old(self).next + 1) as u128, ..*old(self) }),
            final(self).wf(),
    {
        let ghost s = *self;
        proof {
            lemma_next_lag(s, s.next as int);
        }
        self.next = self.next + 1;
    }
}

/// Nanoseconds as microseconds, rounded to the nearest; halves away from zero.
pub open spec fn rounded_us(x: int) -> int {
    if x >= 0 {
        (x + 500) / 1000
    } else {
        -((500 - x) / 1000)
    }
}

/// The absolute position, in microseconds, of a point `target` nanoseconds after the start of a
/// stream, rounded to the nearest.
pub fn seek_position(target: i128, start: Timestamp) -> (us: i128)
    requires
        start.wf(),
        0 <= target <= 0x80_0000_0000_0000_0000_0000_0000_0000,
    ensures
        us == rounded_us(target + nanos(start)),
{
    let x: i128 = target + to_nanos(start);
    if x >= 0 {
        (x + 500) / 1000
    } else {
        -((500 - x) / 1000)
    }
}

/// How a video stream is decoded for a request.
#[derive(Clone, Copy, Debug, PartialEq, Eq, Structural)]
pub struct VideoPlan {
    /// Which frames are delivered.
    pub sampler: VideoSampler,
    /// Frames that nothing refers to may be skipped: sampling is below half the source rate.
    pub skip_nonref: bool,
    /// Seek to every sample instead of decoding through: samples are at least two keyframe
    /// intervals apart.
    pub seeking: bool,
}

/// The source rate: the average rate if known, else the real rate, else thirty frames a second.
pub open spec fn source_rate(avg: Option<(i32, i32)>, nominal: Option<(i32, i32)>) -> (int, int) {
    match (avg, nominal) {
        (Some((n, d)), _) => (n as int, d as int),
        (None, Some((n, d))) => (n as int, d as int),
        (None, None) => (30, 1),
    }
}

/// A rate of the kind that [`rational_rate`] gives.
pub open spec fn is_rate(r: Option<(i32, i32)>) -> bool {
    r matches Some((n, d)) ==> n > 0 && d > 0
}

/// The end of the range: the requested end or the end of the media, whichever comes first.
pub open spec fn range_end(t1_us: Option<i64>, duration: Option<Timestamp>) -> Option<int> {
    match (t1_us, duration) {
        (Some(t1), Some(d)) => Some(
            if t1 * 1000 <= nanos(d) {
                t1 * 1000
            } else {
                nanos(d)
            },
        ),
        (Some(t1), None) => Some(t1 * 1000),
        (None, Some(d)) => Some(nanos(d)),
        (None, None) => None,
    }
}

/// Plans the decoding of a video stream. `kf` is the distance between keyframes, five seconds
/// when it is not known.
pub fn plan_video(
    req: &VideoDecodeRequest,
    avg: Option<(i32, i32)>,
    nominal: Option<(i32, i32)>,
    duration: Option<Timestamp>,
    kf: Option<Timestamp>,
) -> (r: Result<VideoPlan, MediaError>)
    requires
        is_rate(avg),
        is_rate(nominal),
        duration matches Some(d) ==> d.wf(),
        kf matches Some(k) ==> k.wf(),
    ensures
        r is Ok <==> req.valid() && req.format == PixelFormat::Rgb24,
        r matches Err(e) ==> (e matches MediaError::Invalid(m) && m@ == (if !req.valid() {
            req.fault()
        } else {
            "only rgb24 delivery is implemented in M0"@
        })),
        r matches Ok(p) ==> {
            let (n, d) = source_rate(avg, nominal);
            let k = match kf {
                Some(t) => t,
                None => Timestamp { num: 5, den: 1 },
            };
            &&& p.sampler.wf()
            &&& p.sampler.next == 0
            &&& p.sampler.t0 == req.t0_us * 1000
            &&& p.sampler.fps_milli == req.fps_milli
            &&& p.sampler.eps == (d * 1_000_000_000) / (2 * n)
            &&& match range_end(req.t1_us, duration) {
                Some(e) => p.sampler.t_end == Some(e as i128),
                None => p.sampler.t_end is None,
            }
            &&& p.skip_nonref == (2 * req.fps_milli * d < 1000 * n)
            &&& p.seeking == (1000 * k.den >= 2 * k.num * req.fps_milli)
        },
{
    match req.check() {
        Ok(_) => {},
        Err(e) => {
            return Err(e);
        },
    }
    if req.format != PixelFormat::Rgb24 {
        return Err(MediaError::Invalid("only rgb24 delivery is implemented in M0".to_owned()));
    }
    let (n, d): (i128, i128) = match avg {
        Some((n, d)) => (n as i128, d as i128),
        None => match nominal {
            Some((n, d)) => (n as i128, d as i128),
            None => (30, 1),
        },
    };
    let t_end: Option<i128> = match (req.t1_us, duration) {
        (Some(t1), Some(dur)) => {
            let a: i128 = (t1 as i128) * 1000;
            let b: i128 = to_nanos(dur);
            Some(
                if a <= b {
                    a
                } else {
                    b
                },
            )
        },
        (Some(t1), None) => Some((t1 as i128) * 1000),
        (None, Some(dur)) => Some(to_nanos(dur)),
        (None, None) => None,
    };
    let k: Timestamp = match kf {
        Some(t) => t,
        None => Timestamp::new(5, 1),
    };
    let f: i128 = req.fps_milli as i128;
    let x: i128 = d * 1_000_000_000;
    proof {
        assert(0 < 2 * f * d <= 2 * 0x7fff_ffff_ffff_ffff * 0x7fff_ffff) by (nonlinear_arith)
            requires
                0 < f <= 0x7fff_ffff_ffff_ffff,
                0 < d <= 0x7fff_ffff,
        ;
        let kn = k.num as int;
        assert(-2 * 0x8000_0000_0000_0000 * 0x7fff_ffff_ffff_ffff <= 2 * kn * f <= 2
            * 0x7fff_ffff_ffff_ffff * 0x7fff_ffff_ffff_ffff) by (nonlinear_arith)
            requires
                0 < f <= 0x7fff_ffff_ffff_ffff,
                -0x8000_0000_0000_0000 <= kn <= 0x7fff_ffff_ffff_ffff,
        ;
        lemma_floor_bounds(x as int, 2 * n);
    }
    Ok(
        VideoPlan {
            sampler: VideoSampler {
                t0: (req.t0_us as i128) * 1000,
                fps_milli: req.fps_milli as u64,
                t_end,
                eps: x / (2 * n),
                next: 0,
            },
            skip_nonref: 2 * f * d < 1000 * n,
            seeking: 1000 * (k.den as i128) >= 2 * (k.num as i128) * f,
        },
    )
}

/// A video stream at work.
#[derive(Clone, Copy, Debug)]
pub struct VideoRun {
    /// Which frames are delivered.
    pub sampler: VideoSampler,
    /// Seek to every sample instead of decoding through.
    pub seeking: bool,
    /// Start of the stream, in its timebase.
    pub start: i64,
    /// Timebase.
    pub tb: (u32, u32),
}

/// What becomes of a decoded frame.
#[derive(Clone, Copy, Debug, PartialEq, Eq, Structural)]
pub enum VideoStep {
    /// It is dropped.
    Pass,
    /// It is delivered with its time.
    Emit(Timestamp),
    /// It is delivered with its time, and nothing behind it is.
    EmitLast(Timestamp),
    /// It is dropped, and so is everything behind it.
    Stop,
}

/// How a sampler's answer reads as a step.
pub open spec fn step_of(r: FrameStep, t: Timestamp) -> VideoStep {
    match (r.emit, r.done) {
        (true, true) => VideoStep::EmitLast(t),
        (true, false) => VideoStep::Emit(t),
        (false, true) => VideoStep::Stop,
        (false, false) => VideoStep::Pass,
    }
}

impl VideoRun {
    /// Times and counts stay in range.
    pub open spec fn wf(self) -> bool {
        self.sampler.wf() && self.tb.1 > 0
    }

    /// The time of a frame relative to the start of the stream.
    pub open spec fn time(self, pts: i64) -> Timestamp {
        time_of(clamped(pts - self.start) as int, self.tb)
    }

    /// Starts on a stream by a plan.
    pub fn new(plan: VideoPlan, start: i64, tb: (u32, u32)) -> (v: VideoRun)
        ensures
            v == (VideoRun { sampler: plan.sampler, seeking: plan.seeking, start, tb }),
    {
        VideoRun { sampler: plan.sampler, seeking: plan.seeking, start, tb }
    }

    /// Where to seek for the next sample: the position in microseconds, none when the sample lies
    /// past the end, an error when the position cannot be written.
    pub fn seek_to(&self) -> (r: Result<Option<i64>, MediaError>)
        requires
            self.wf(),
        ensures
            ({
                let s = self.sampler;
                let us = rounded_us(
                    due(s, s.next as int) + nanos(time_of(self.start as int, self.tb)),
                );
                match r {
                    Ok(None) => past_end(s, s.next as int),
                    Ok(Some(p)) => !past_end(s, s.next as int) && p == us,
                    Err(e) => !past_end(s, s.next as int) && !(i64::MIN <= us <= i64::MAX) && (
                    e matches MediaError::Invalid(m) && m@ == "time is out of range"@),
                }
            }),
    {
        let target: i128 = match self.sampler.seek_target() {
            Some(t) => t,
            None => {
                return Ok(None);
            },
        };
        let start = ts_from(self.start, self.tb);
        let ghost s = self.sampler;
        proof {
            lemma_scaled_floor(s.next as int, 1_000_000_000_000, s.fps_milli as int);
        }
        let p: i128 = seek_position(target, start);
        if p < -0x8000_0000_0000_0000 || p > 0x7fff_ffff_ffff_ffff {
            return Err(MediaError::Invalid("time is out of range".to_owned()));
        }
        Ok(Some(p as i64))
    }

    /// Takes the next decoded frame. Where the run seeks, a frame that reaches the next sample is
    /// delivered for it alone, and the next one is sought; else the sampler decides.
    pub fn frame(&mut self, pts: i64) -> (r: VideoStep)
        requires
            old(self).wf(),
        ensures
            final(self).wf(),
            *final(self) == (VideoRun { sampler: final(self).sampler, ..*old(self) }),
            ({
                let s = old(self).sampler;
                let t = old(self).time(pts);
                if !old(self).seeking {
                    exists|a: FrameStep| #[trigger]
                        takes_frame(s, t, a, final(self).sampler) && r == step_of(a, t)
                } else if reach(s, t) < due(s, s.next as int) {
                    r == VideoStep::Pass && final(self).sampler == s
                } else {
                    r == VideoStep::Emit(t) && final(self).sampler == (VideoSampler {
                        next: (s.next + 1) as u128,
                        ..s
                    })
                }
            }),
    {
        let t = frame_time(pts, self.start, self.tb);
        if !self.seeking {
            let a = self.sampler.frame(t);
            let r = if a.emit {
                if a.done {
                    VideoStep::EmitLast(t)
                } else {
                    VideoStep::Emit(t)
                }
            } else if a.done {
                VideoStep::Stop
            } else {
                VideoStep::Pass
            };
            proof {
                assert(r == step_of(a, t));
                assert(takes_frame(old(self).sampler, old(self).time(pts), a, self.sampler));
            }
            return r;
        }
        if !self.sampler.seek_accepts(t) {
            return VideoStep::Pass;
        }
        self.sampler.seek_next();
        VideoStep::Emit(t)
    }
}

/// One of the first `n` frames reaches sample `k`.
pub open spec fn reached(s: VideoSampler, ts: Seq<Timestamp>, n: int, k: int) -> bool {
    exists|i: int| 0 <= i < n && #[trigger] reach(s, ts[i]) >= due(s, k)
}

proof fn lemma_run(states: Seq<VideoSampler>, ts: Seq<Timestamp>, rs: Seq<FrameStep>, n: int)
    requires
        is_run(states, ts, rs),
        0 <= n <= ts.len(),
    ensures
        states[n] == (VideoSampler { next: states[n].next, ..states[0] }),
        forall|k: int| 0 <= k < states[n].next ==> #[trigger] reached(states[0], ts, n, k),
        past_end(states[0], states[n].next as int) || forall|i: int|
            0 <= i < n ==> #[trigger] reach(states[0], ts[i]) < due(
                states[0],
                states[n].next as int,
            ),
    decreases n,
{
    if n > 0 {
        let m = n - 1;
        lemma_run(states, ts, rs, m);
        let s = states[0];
        let (a, b) = (states[m], states[n]);
        let t = ts[m];
        assert(takes_frame(a, t, rs[m], b));
        assert(b == (VideoSampler { next: b.next, ..s }));
        assert forall|k: int| #[trigger] due(a, k) == due(s, k) by {}
        assert(reach(a, t) == reach(s, t));
        assert forall|k: int| 0 <= k < b.next implies #[trigger] reached(s, ts, n, k) by {
            if k < a.next {
                assert(reached(s, ts, m, k));
                let i = choose|i: int| 0 <= i < m && #[trigger] reach(s, ts[i]) >= due(s, k);
                assert(reach(s, ts[i]) >= due(s, k));
            } else {
                assert(due(a, k) <= reach(a, t));
                assert(reach(s, ts[m]) >= due(s, k));
            }
        }
        if !past_end(s, b.next as int) {
            lemma_due_monotone(s, a.next as int, b.next as int);
            assert(!past_end(s, a.next as int));
            assert forall|i: int| 0 <= i < n implies #[trigger] reach(s, ts[i]) < due(
                s,
                b.next as int,
            ) by {
                if i < m {
                    assert(reach(s, ts[i]) < due(s, a.next as int));
                }
            }
        }
    }
}

/// A sampler was given frames at the times `ts`, one behind the other, and answered `rs`; it was
/// in these states before each and at the end.
pub open spec fn is_run(
    states: Seq<VideoSampler>,
    ts: Seq<Timestamp>,
    rs: Seq<FrameStep>,
) -> bool {
    &&& states.len() == ts.len() + 1
    &&& rs.len() == ts.len()
    &&& states[0].wf()
    &&& states[0].next == 0
    &&& forall|i: int|
        0 <= i < ts.len() ==> takes_frame(
            #[trigger] states[i],
            ts[i],
            rs[i],
            states[i + 1],
        )
}

/// Every sample in the range is taken from the first frame that reaches it, and nothing else is
/// delivered: a frame goes out exactly when it is the first to reach some sample that does not lie
/// past the end.
pub proof fn law_samples_take_their_first_frames(
    states: Seq<VideoSampler>,
    ts: Seq<Timestamp>,
    rs: Seq<FrameStep>,
    j: int,
)
    requires
        is_run(states, ts, rs),
        0 <= j < ts.len(),
    ensures
        rs[j].emit <==> exists|k: int|
            0 <= k && !past_end(states[0], k) && #[trigger] due(states[0], k) <= reach(
                states[0],
                ts[j],
            ) && !reached(states[0], ts, j, k),
{
    let s = states[0];
    lemma_run(states, ts, rs, j);
    let a = states[j];
    let n = a.next as int;
    assert(takes_frame(a, ts[j], rs[j], states[j + 1]));
    assert(due(a, n) == due(s, n) && reach(a, ts[j]) == reach(s, ts[j]));
    assert(past_end(a, n) == past_end(s, n));
    if rs[j].emit {
        assert(due(s, n) <= reach(s, ts[j]));
    }
    if exists|k: int|
        0 <= k && !past_end(s, k) && #[trigger] due(s, k) <= reach(s, ts[j]) && !reached(
            s,
            ts,
            j,
            k,
        ) {
        let k = choose|k: int|
            0 <= k && !past_end(s, k) && #[trigger] due(s, k) <= reach(s, ts[j]) && !reached(
                s,
                ts,
                j,
                k,
            );
        assert(k >= n) by {
            if k < n {
                assert(reached(s, ts, j, k));
            }
        }
        lemma_due_monotone(s, n, k);
    }
}

/// Samples are due one behind the other, none before the start of the range, and all behind one
/// that lies past the end lie there too. At no more than a million samples a second no two are due
/// at once.
pub proof fn law_samples_advance(s: VideoSampler, a: int, b: int)
    requires
        s.wf(),
        0 <= a < b,
    ensures
        s.t0 <= due(s, a) <= due(s, b),
        past_end(s, a) ==> past_end(s, b),
        s.fps_milli <= 1_000_000_000 ==> due(s, a) < due(s, b),
{
    lemma_due_monotone(s, a, b);
    let f = s.fps_milli as int;
    let c = 1_000_000_000_000int;
    assert((a * c) / f >= 0) by (nonlinear_arith)
        requires
            a >= 0,
            c > 0,
            f > 0,
    ;
    if s.fps_milli <= 1_000_000_000 {
        let q = (a * c) / f;
        vstd::arithmetic::div_mod::lemma_fundamental_div_mod(a * c, f);
        assert(b * c >= (q + 1) * f) by (nonlinear_arith)
            requires
                a * c == f * q + (a * c) % f,
                0 <= (a * c) % f < f,
                a < b,
                c >= f,
        ;
        lemma_floor_at_least(b * c, f, q + 1);
    }
}

// ------------------------------------------------------------------ rows

/// Rows `y` to `h` of a padded picture, packed.
pub open spec fn packed_rows(src: Seq<u8>, stride: int, row: int, y: int, h: int) -> Seq<u8>
    decreases h - y,
{
    if y >= h {
        Seq::empty()
    } else {
        src.subrange(y * stride, y * stride + row) + packed_rows(src, stride, row, y + 1, h)
    }
}

/// Packs the rows of a scaled RGB picture, dropping the padding behind each row, after checking
/// that a slot of `slot_len` bytes can hold it.
pub fn pack_frame(src: &[u8], stride: usize, width: u32, height: u32, slot_len: usize) -> (r:
    Result<Vec<u8>, MediaError>)
    requires
        width * 3 <= stride,
        stride * height <= src@.len(),
    ensures
        r is Ok <==> slot_len >= width * height * 3,
        match r {
            Ok(v) => v@ == packed_rows(src@, stride as int, width * 3, 0, height as int),
            Err(MediaError::Protocol(m)) => m@ == "shm slot of "@ + text::decimal(slot_len as nat)
                + " bytes cannot hold a "@ + text::decimal(width as nat) + "x"@ + text::decimal(
                height as nat,
            ) + " frame ("@ + text::decimal((width * height * 3) as nat) + " bytes)"@,
            Err(_) => false,
        },
{
    let n: usize = src.len();
    proof {
        assert(width * height * 3 <= stride * height) by (nonlinear_arith)
            requires
                width * 3 <= stride,
                0 <= height,
        ;
    }
    let needed: usize = PixelFormat::Rgb24.frame_size(width, height);
    if slot_len < needed {
        let mut m = "shm slot of ".to_owned();
        let a = text::decimal_string(slot_len as u64);
        m.append(a.as_str());
        m.append(" bytes cannot hold a ");
        let b = text::decimal_string(width as u64);
        m.append(b.as_str());
        m.append("x");
        let c = text::decimal_string(height as u64);
        m.append(c.as_str());
        m.append(" frame (");
        let d = text::decimal_string(needed as u64);
        m.append(d.as_str());
        m.append(" bytes)");
        return Err(MediaError::Protocol(m));
    }
    let row: usize = width as usize * 3;
    let mut out: Vec<u8> = Vec::new();
    let mut y: u32 = 0;
    proof {
        let all = packed_rows(src@, stride as int, row as int, 0, height as int);
        assert(out@ + all =~= all);
    }
    while y < height
        invariant
            y <= height,
            n == src@.len(),
            row == width * 3,
            row <= stride,
            stride * height <= n,
            out@ + packed_rows(src@, stride as int, row as int, y as int, height as int)
                == packed_rows(src@, stride as int, row as int, 0, height as int),
        decreases height - y,
    {
        proof {
            assert(y * stride + stride <= stride * height && 0 <= y * stride) by (nonlinear_arith)
                requires
                    0 <= y < height,
                    0 <= stride,
            ;
        }
        let start: usize = y as usize * stride;
        let ghost before = out@;
        let ghost this = src@.subrange(y * stride, y * stride + row);
        let mut i: usize = 0;
        proof {
            assert(before + this.take(0) =~= before);
        }
        while i < row
            invariant
                i <= row,
                n == src@.len(),
                start == y * stride,
                start + row <= n,
                this == src@.subrange(start as int, start + row),
                out@ == before + this.take(i as int),
            decreases row - i,
        {
            out.push(src[start + i]);
            proof {
                assert(out@ =~= before + this.take(i + 1));
            }
            i = i + 1;
        }
        proof {
            let rest = packed_rows(src@, stride as int, row as int, y + 1, height as int);
            assert(this.take(i as int) =~= this);
            assert(out@ + rest =~= before + (this + rest));
        }
        y = y + 1;
    }
    proof {
        assert(out@ + packed_rows(src@, stride as int, row as int, y as int, height as int)
            =~= out@);
    }
    Ok(out)
}

// ------------------------------------------------------------------ audio

/// What happens to a decoded audio frame.
#[derive(Clone, Copy, Debug, PartialEq, Eq, Structural)]
pub enum AudioGate {
    /// It ends before the range starts: drop it.
    Skip,
    /// It lies behind the range: stop.
    Done,
    /// Resample it and add it to the pending samples.
    Take,
}

/// `t` is before `us` microseconds.
pub open spec fn before_us(t: Timestamp, us: int) -> bool {
    t.num * 1_000_000 < us * t.den
}

fn is_before_us(t: Timestamp, us: i64) -> (b: bool)
    ensures
        b == before_us(t, us as int),
{
    proof {
        assert(-0x8000_0000_0000_0000 * 0x1_0000_0000 <= us * t.den <= 0x8000_0000_0000_0000
            * 0x1_0000_0000) by (nonlinear_arith)
            requires
                -0x8000_0000_0000_0000 <= us < 0x8000_0000_0000_0000,
                0 <= t.den < 0x1_0000_0000,
        ;
    }
    (t.num as i128) * 1_000_000 < (us as i128) * (t.den as i128)
}

/// What becomes of an audio frame at `t`.
pub open spec fn gate_of(t: Timestamp, t0_us: i64, t1_us: Option<i64>) -> AudioGate {
    if before_us(t, t0_us - 50_000) {
        AudioGate::Skip
    } else if t1_us matches Some(t1) && !before_us(t, t1 as int) {
        AudioGate::Done
    } else {
        AudioGate::Take
    }
}

/// Decides about an audio frame by its time: frames more than 50 ms before the range are dropped,
/// the first at or behind its end stops the run.
pub fn gate_audio(t: Timestamp, t0_us: i64, t1_us: Option<i64>) -> (g: AudioGate)
    requires
        t0_us >= 0,
    ensures
        g == gate_of(t, t0_us, t1_us),
{
    if is_before_us(t, t0_us - 50_000) {
        return AudioGate::Skip;
    }
    if let Some(t1) = t1_us {
        if !is_before_us(t, t1) {
            return AudioGate::Done;
        }
    }
    AudioGate::Take
}

/// A chunk of PCM and the index of its first sample.
#[derive(Debug)]
pub struct PcmChunk {
    /// Index of the first sample, counted from the start of the run.
    pub start: u64,
    /// The samples.
    pub samples: Vec<i16>,
}

/// A chunk as a mathematical value.
pub struct ChunkView {
    /// Index of the first sample.
    pub start: int,
    /// The samples.
    pub samples: Seq<i16>,
}

impl View for PcmChunk {
    type V = ChunkView;

    open spec fn view(&self) -> ChunkView {
        ChunkView { start: self.start as int, samples: self.samples@ }
    }
}

/// Chunks as mathematical values.
pub open spec fn chunk_views(s: Seq<PcmChunk>) -> Seq<ChunkView> {
    s.map_values(|c: PcmChunk| c@)
}

/// The full chunks of `s`, whose first sample has index `start`: one every `hop` samples while
/// `chunk` samples are left.
pub open spec fn full_chunks(s: Seq<i16>, start: int, chunk: int, hop: int) -> Seq<ChunkView>
    decreases s.len(),
{
    if chunk <= 0 || hop <= 0 || hop > chunk || s.len() < chunk {
        Seq::empty()
    } else {
        seq![ChunkView { start, samples: s.take(chunk) }] + full_chunks(
            s.skip(hop),
            start + hop,
            chunk,
            hop,
        )
    }
}

/// The samples that are left behind the full chunks.
pub open spec fn leftover(s: Seq<i16>, chunk: int, hop: int) -> Seq<i16>
    decreases s.len(),
{
    if chunk <= 0 || hop <= 0 || hop > chunk || s.len() < chunk {
        s
    } else {
        leftover(s.skip(hop), chunk, hop)
    }
}

/// What is said of a slot that cannot hold a chunk.
pub open spec fn slot_fault(bytes: nat, samples: nat) -> Seq<char> {
    "shm slot of "@ + text::decimal(bytes) + " bytes cannot hold a chunk of "@ + text::decimal(
        samples,
    ) + " samples"@
}

fn slot_error(bytes: usize, samples: u64) -> (e: MediaError)
    ensures
        e matches MediaError::Protocol(m) && m@ == slot_fault(bytes as nat, samples as nat),
{
    let mut m = "shm slot of ".to_owned();
    let a = text::decimal_string(bytes as u64);
    m.append(a.as_str());
    m.append(" bytes cannot hold a chunk of ");
    let b = text::decimal_string(samples);
    m.append(b.as_str());
    m.append(" samples");
    MediaError::Protocol(m)
}

/// Cuts a stream of samples into overlapping chunks.
#[derive(Debug)]
pub struct Chunker {
    chunk: usize,
    hop: usize,
    pending: Vec<i16>,
    start: u64,
    chunks: u64,
}

impl Chunker {
    /// Samples per chunk.
    pub closed spec fn spec_chunk(self) -> int {
        self.chunk as int
    }

    /// Samples from the start of a chunk to the start of the next.
    pub closed spec fn spec_hop(self) -> int {
        self.hop as int
    }

    /// Samples that no chunk has consumed yet.
    pub closed spec fn spec_pending(self) -> Seq<i16> {
        self.pending@
    }

    /// Index of the first pending sample.
    pub closed spec fn spec_start(self) -> int {
        self.start as int
    }

    /// Chunks cut so far.
    pub closed spec fn spec_chunks(self) -> int {
        self.chunks as int
    }

    /// Chunks have a size, move forward without gaps, and fewer samples than one chunk are kept.
    pub closed spec fn wf(self) -> bool {
        &&& 0 < self.hop <= self.chunk
        &&& self.pending@.len() < self.chunk
        &&& self.chunks <= self.start
    }

    /// A chunker for chunks of `chunk` samples that overlap by `overlap`; a slot that the chunks
    /// go to must hold one.
    pub fn new(chunk: usize, overlap: usize, slot_bytes: usize) -> (r: Result<
        Chunker,
        MediaError,
    >)
        requires
            overlap < chunk,
            chunk * 2 <= usize::MAX,
        ensures
            r is Ok <==> slot_bytes >= chunk * 2,
            match r {
                Ok(c) => c.wf() && c.spec_chunk() == chunk && c.spec_hop() == chunk - overlap
                    && c.spec_pending().len() == 0 && c.spec_start() == 0 && c.spec_chunks() == 0,
                Err(MediaError::Protocol(m)) => m@ == slot_fault(slot_bytes as nat, chunk as nat),
                Err(_) => false,
            },
    {
        if slot_bytes < chunk * 2 {
            return Err(slot_error(slot_bytes, chunk as u64));
        }
        Ok(Chunker { chunk, hop: chunk - overlap, pending: Vec::new(), start: 0, chunks: 0 })
    }

    /// Adds decoded samples and cuts off every full chunk.
    pub fn push(&mut self, samples: &[i16]) -> (out: Vec<PcmChunk>)
        requires
            old(self).wf(),
            old(self).spec_pending().len() + samples@.len() <= usize::MAX,
            old(self).spec_start() + old(self).spec_pending().len() + samples@.len() <= u64::MAX,
        ensures
            final(self).wf(),
            final(self).spec_chunk() == old(self).spec_chunk(),
            final(self).spec_hop() == old(self).spec_hop(),
            chunk_views(out@) == full_chunks(
                old(self).spec_pending() + samples@,
                old(self).spec_start(),
                old(self).spec_chunk(),
                old(self).spec_hop(),
            ),
            final(self).spec_pending() == leftover(
                old(self).spec_pending() + samples@,
                old(self).spec_chunk(),
                old(self).spec_hop(),
            ),
            final(self).spec_start() == old(self).spec_start() + out@.len()
                * old(self).spec_hop(),
            final(self).spec_chunks() == old(self).spec_chunks() + out@.len(),
    {
        let ghost s0 = self.pending@;
        let mut i: usize = 0;
        while i < samples.len()
            invariant
                i <= samples@.len(),
                self.pending@ == s0 + samples@.take(i as int),
                self.chunk == old(self).chunk,
                self.hop == old(self).hop,
                self.start == old(self).start,
                self.chunks == old(self).chunks,
            decreases samples@.len() - i,
        {
            self.pending.push(samples[i]);
            proof {
                assert(self.pending@ =~= s0 + samples@.take(i + 1));
            }
            i = i + 1;
        }
        let ghost all = s0 + samples@;
        proof {
            assert(samples@.take(i as int) =~= samples@);
        }
        let mut out: Vec<PcmChunk> = Vec::new();
        proof {
            assert(chunk_views(out@) =~= Seq::<ChunkView>::empty());
            let f = full_chunks(all, self.start as int, self.chunk as int, self.hop as int);
            assert(chunk_views(out@) + f =~= f);
        }
        while self.pending.len() >= self.chunk
            invariant
                self.chunk == old(self).chunk,
                self.hop == old(self).hop,
                0 < self.hop <= self.chunk,
                self.chunks <= self.start,
                self.start + self.pending@.len() <= u64::MAX,
                chunk_views(out@) + full_chunks(
                    self.pending@,
                    self.start as int,
                    self.chunk as int,
                    self.hop as int,
                ) == full_chunks(
                    all,
                    old(self).start as int,
                    old(self).chunk as int,
                    old(self).hop as int,
                ),
                leftover(self.pending@, self.chunk as int, self.hop as int) == leftover(
                    all,
                    old(self).chunk as int,
                    old(self).hop as int,
                ),
                self.start == old(self).start + out@.len() * old(self).hop,
                self.chunks == old(self).chunks + out@.len(),
            decreases self.pending@.len(),
        {
            let ghost p = self.pending@;
            let ghost before = out@;
            let mut piece: Vec<i16> = Vec::new();
            let mut k: usize = 0;
            while k < self.chunk
                invariant
                    k <= self.chunk <= self.pending@.len(),
                    self.pending@ == p,
                    piece@ == p.take(k as int),
                decreases self.chunk - k,
            {
                piece.push(self.pending[k]);
                proof {
                    assert(piece@ =~= p.take(k + 1));
                }
                k = k + 1;
            }
            let cut = PcmChunk { start: self.start, samples: piece };
            out.push(cut);
            let rest = self.pending.split_off(self.hop);
            self.pending = rest;
            proof {
                assert(self.pending@ =~= p.skip(self.hop as int));
                let f = full_chunks(
                    self.pending@,
                    self.start + self.hop,
                    self.chunk as int,
                    self.hop as int,
                );
                assert(chunk_views(out@) =~= chunk_views(before) + seq![cut@]);
                assert(chunk_views(out@) + f =~= chunk_views(before) + (seq![cut@] + f));
                let h = old(self).hop as int;
                assert(out@.len() * h == before.len() * h + h) by (nonlinear_arith)
                    requires
                        out@.len() == before.len() + 1,
                ;
            }
            self.start = self.start + self.hop as u64;
            self.chunks = self.chunks + 1;
        }
        proof {
            assert(chunk_views(out@) + Seq::<ChunkView>::empty() =~= chunk_views(out@));
        }
        out
    }

    /// Ends the stream: what is left becomes a last, shorter chunk, unless a chunk was cut before
    /// and already holds all of it.
    pub fn finish(self) -> (r: Option<PcmChunk>)
        requires
            self.wf(),
        ensures
            r is Some <==> self.spec_pending().len() > 0 && (self.spec_chunks() == 0
                || self.spec_pending().len() > self.spec_chunk() - self.spec_hop()),
            r matches Some(c) ==> c@ == (ChunkView {
                start: self.spec_start(),
                samples: self.spec_pending(),
            }),
    {
        if self.pending.len() > 0 && (self.chunks == 0 || self.pending.len() > self.chunk
            - self.hop) {
            Some(PcmChunk { start: self.start, samples: self.pending })
        } else {
            None
        }
    }
}

/// Where the chunks fall does not depend on how the samples were delivered: cutting a stream in
/// two steps gives the same chunks and the same leftover as cutting it at once.
pub proof fn law_chunking_ignores_delivery(
    a: Seq<i16>,
    b: Seq<i16>,
    start: int,
    chunk: int,
    hop: int,
)
    requires
        0 < hop <= chunk,
    ensures
        full_chunks(a + b, start, chunk, hop) == full_chunks(a, start, chunk, hop) + full_chunks(
            leftover(a, chunk, hop) + b,
            start + full_chunks(a, start, chunk, hop).len() * hop,
            chunk,
            hop,
        ),
        leftover(a + b, chunk, hop) == leftover(leftover(a, chunk, hop) + b, chunk, hop),
    decreases a.len(),
{
    if a.len() < chunk {
        let n = full_chunks(a, start, chunk, hop).len();
        assert(n * hop == 0) by (nonlinear_arith)
            requires
                n == 0,
        ;
        assert(full_chunks(a + b, start, chunk, hop) =~= full_chunks(a, start, chunk, hop)
            + full_chunks(a + b, start, chunk, hop));
    } else {
        law_chunking_ignores_delivery(a.skip(hop), b, start + hop, chunk, hop);
        assert((a + b).skip(hop) =~= a.skip(hop) + b);
        assert((a + b).take(chunk) =~= a.take(chunk));
        let inner = full_chunks(a.skip(hop), start + hop, chunk, hop);
        let outer = full_chunks(a, start, chunk, hop);
        assert(outer.len() == inner.len() + 1);
        assert(start + hop + inner.len() * hop == start + outer.len() * hop) by (nonlinear_arith)
            requires
                outer.len() == inner.len() + 1,
        ;
        let rest = full_chunks(
            leftover(a, chunk, hop) + b,
            start + outer.len() * hop,
            chunk,
            hop,
        );
        assert(full_chunks(a + b, start, chunk, hop) =~= outer + rest);
    }
}

/// Chunk `i` holds the samples from `i * hop` on, so neighbours overlap by exactly the part of a
/// chunk that exceeds the hop.
pub proof fn law_chunks_overlap(s: Seq<i16>, start: int, chunk: int, hop: int, i: int)
    requires
        0 < hop <= chunk,
        0 <= i < full_chunks(s, start, chunk, hop).len(),
    ensures
        i * hop + chunk <= s.len(),
        full_chunks(s, start, chunk, hop)[i] == (ChunkView {
            start: start + i * hop,
            samples: s.subrange(i * hop, i * hop + chunk),
        }),
    decreases s.len(),
{
    if i == 0 {
        assert(0 * hop == 0) by (nonlinear_arith);
        assert(s.take(chunk) =~= s.subrange(0, chunk));
    } else {
        law_chunks_overlap(s.skip(hop), start + hop, chunk, hop, i - 1);
        assert((i - 1) * hop + hop == i * hop) by (nonlinear_arith);
        assert((i - 1) * hop >= 0) by (nonlinear_arith)
            requires
                i >= 1,
                hop > 0,
        ;
        assert(s.skip(hop).subrange((i - 1) * hop, (i - 1) * hop + chunk) =~= s.subrange(
            i * hop,
            i * hop + chunk,
        ));
    }
}

/// A chunk of sound with its times.
#[derive(Debug)]
pub struct SoundChunk {
    /// Start.
    pub t0: Timestamp,
    /// End.
    pub t1: Timestamp,
    /// The samples.
    pub samples: Vec<i16>,
}

/// The time of sample `n`, counted from `base` at `rate` samples a second; none if it cannot be
/// written.
pub open spec fn sample_time(base: Timestamp, rate: u32, n: int) -> Option<Timestamp> {
    let (num, den) = timestamp::sum_parts(base, Timestamp { num: n as i64, den: rate });
    if n <= i64::MAX && i64::MIN <= num <= i64::MAX && den <= u32::MAX {
        Some(Timestamp { num: num as i64, den: den as u32 })
    } else {
        None
    }
}

/// A chunk with its times is `c`, counted from `base`.
pub open spec fn is_sound(s: SoundChunk, c: ChunkView, base: Timestamp, rate: u32) -> bool {
    &&& s.samples@ == c.samples
    &&& sample_time(base, rate, c.start) == Some(s.t0)
    &&& sample_time(base, rate, c.start + c.samples.len()) == Some(s.t1)
}

/// The times of a chunk can be written.
pub open spec fn has_times(c: ChunkView, base: Timestamp, rate: u32) -> bool {
    sample_time(base, rate, c.start) is Some && sample_time(
        base,
        rate,
        c.start + c.samples.len(),
    ) is Some
}

fn time_at(base: Timestamp, rate: u32, n: u64) -> (r: Option<Timestamp>)
    requires
        base.wf(),
        rate > 0,
    ensures
        r == sample_time(base, rate, n as int),
{
    if n > 0x7fff_ffff_ffff_ffff {
        return None;
    }
    base.plus(Timestamp::new(n as i64, rate))
}

fn late() -> (e: MediaError)
    ensures
        e matches MediaError::Invalid(m) && m@ == "time is out of range"@,
{
    MediaError::Invalid("time is out of range".to_owned())
}

fn sound_of(c: PcmChunk, base: Timestamp, rate: u32) -> (r: Option<SoundChunk>)
    requires
        base.wf(),
        rate > 0,
        c.start + c.samples@.len() <= u64::MAX,
    ensures
        match r {
            Some(s) => is_sound(s, c@, base, rate),
            None => !has_times(c@, base, rate),
        },
{
    let end: u64 = c.start + c.samples.len() as u64;
    match (time_at(base, rate, c.start), time_at(base, rate, end)) {
        (Some(t0), Some(t1)) => Some(SoundChunk { t0, t1, samples: c.samples }),
        _ => None,
    }
}

/// Gives chunks their times, or an error if one's cannot be written.
fn sounds_of(cut: Vec<PcmChunk>, base: Timestamp, rate: u32) -> (r: Result<
    Vec<SoundChunk>,
    MediaError,
>)
    requires
        base.wf(),
        rate > 0,
        forall|i: int|
            0 <= i < cut@.len() ==> (#[trigger] chunk_views(cut@)[i]).start + chunk_views(
                cut@,
            )[i].samples.len() <= u64::MAX,
    ensures
        match r {
            Ok(v) => v@.len() == cut@.len() && forall|i: int|
                0 <= i < v@.len() ==> is_sound(
                    #[trigger] v@[i],
                    chunk_views(cut@)[i],
                    base,
                    rate,
                ),
            Err(e) => (e matches MediaError::Invalid(m) && m@ == "time is out of range"@)
                && exists|i: int|
                0 <= i < cut@.len() && !has_times(#[trigger] chunk_views(cut@)[i], base, rate),
        },
{
    let ghost full = chunk_views(cut@);
    let mut rest = cut;
    let mut out: Vec<SoundChunk> = Vec::new();
    proof {
        assert(full.skip(0) =~= full);
    }
    while rest.len() > 0
        invariant
            base.wf(),
            rate > 0,
            full == chunk_views(cut@),
            full.len() == cut@.len(),
            out@.len() + rest@.len() == full.len(),
            chunk_views(rest@) == full.skip(out@.len() as int),
            forall|i: int|
                0 <= i < full.len() ==> (#[trigger] full[i]).start + full[i].samples.len()
                    <= u64::MAX,
            forall|i: int|
                0 <= i < out@.len() ==> is_sound(#[trigger] out@[i], full[i], base, rate),
        decreases rest@.len(),
    {
        let ghost before = rest@;
        let ghost k = out@.len() as int;
        let c = rest.remove(0);
        proof {
            assert(chunk_views(before)[0] == full.skip(k)[0]);
            assert(c@ == full[k]);
            assert forall|i: int| 0 <= i < rest@.len() implies chunk_views(rest@)[i] == full.skip(
                k + 1,
            )[i] by {
                assert(rest@[i] == before[i + 1]);
                assert(chunk_views(before)[i + 1] == full.skip(k)[i + 1]);
            }
            assert(chunk_views(rest@) =~= full.skip(k + 1));
        }
        match sound_of(c, base, rate) {
            Some(s) => {
                out.push(s);
            },
            None => {
                proof {
                    assert(!has_times(full[k], base, rate));
                }
                return Err(late());
            },
        }
    }
    Ok(out)
}

/// Chunks start within the stream they were cut from.
proof fn lemma_chunks_inside(s: Seq<i16>, start: int, chunk: int, hop: int, i: int)
    requires
        0 < hop <= chunk,
        0 <= i < full_chunks(s, start, chunk, hop).len(),
    ensures
        start <= full_chunks(s, start, chunk, hop)[i].start,
        full_chunks(s, start, chunk, hop)[i].start + full_chunks(
            s,
            start,
            chunk,
            hop,
        )[i].samples.len() <= start + s.len(),
{
    law_chunks_overlap(s, start, chunk, hop, i);
    assert(i * hop >= 0) by (nonlinear_arith)
        requires
            i >= 0,
            hop > 0,
    ;
}

/// Every sample is either passed by a chunk or left over.
proof fn lemma_leftover(s: Seq<i16>, start: int, chunk: int, hop: int)
    requires
        0 < hop <= chunk,
    ensures
        leftover(s, chunk, hop).len() + full_chunks(s, start, chunk, hop).len() * hop == s.len(),
    decreases s.len(),
{
    let n = full_chunks(s, start, chunk, hop).len() as int;
    if s.len() < chunk {
        assert(n * hop == 0) by (nonlinear_arith)
            requires
                n == 0,
        ;
    } else {
        lemma_leftover(s.skip(hop), start + hop, chunk, hop);
        assert(n * hop == (n - 1) * hop + hop) by (nonlinear_arith);
    }
}

/// A sound stream at work.
#[derive(Debug)]
pub struct AudioRun {
    t0_us: i64,
    t1_us: Option<i64>,
    rate: u32,
    chunker: Chunker,
    base: Option<Timestamp>,
    decoded: u64,
    chunks: u64,
}

/// A sound stream at work, as mathematics.
pub struct AudioRunView {
    /// Start of the range, in microseconds.
    pub t0_us: i64,
    /// End of the range, in microseconds.
    pub t1_us: Option<i64>,
    /// Samples a second.
    pub rate: u32,
    /// Samples in a chunk.
    pub chunk: int,
    /// Samples from one chunk to the next.
    pub hop: int,
    /// Samples that wait for a chunk.
    pub pending: Seq<i16>,
    /// Number of the first sample that waits.
    pub start: int,
    /// Time of the first frame taken.
    pub base: Option<Timestamp>,
    /// Samples taken.
    pub decoded: int,
    /// Chunks delivered.
    pub chunks: int,
}

impl View for AudioRun {
    type V = AudioRunView;

    closed spec fn view(&self) -> AudioRunView {
        AudioRunView {
            t0_us: self.t0_us,
            t1_us: self.t1_us,
            rate: self.rate,
            chunk: self.chunker.spec_chunk(),
            hop: self.chunker.spec_hop(),
            pending: self.chunker.spec_pending(),
            start: self.chunker.spec_start(),
            base: self.base,
            decoded: self.decoded as int,
            chunks: self.chunks as int,
        }
    }
}

/// The time that samples are counted from.
pub open spec fn base_of(v: AudioRunView) -> Timestamp {
    match v.base {
        Some(t) => t,
        None => Timestamp { num: 0, den: 1 },
    }
}

/// The chunks that are full once samples came.
pub open spec fn next_chunks(v: AudioRunView, pcm: Seq<i16>) -> Seq<ChunkView> {
    full_chunks(v.pending + pcm, v.start, v.chunk, v.hop)
}

/// Where a stream stands once samples came.
pub open spec fn after_samples(v: AudioRunView, pcm: Seq<i16>) -> AudioRunView {
    let n = next_chunks(v, pcm).len();
    AudioRunView {
        pending: leftover(v.pending + pcm, v.chunk, v.hop),
        start: v.start + n * v.hop,
        decoded: v.decoded + pcm.len(),
        chunks: v.chunks + n,
        ..v
    }
}

impl AudioRun {
    /// Sizes and counts fit together.
    pub closed spec fn wf(&self) -> bool {
        &&& self.chunker.wf()
        &&& self.chunker.spec_chunk() * 2 <= usize::MAX
        &&& self.rate > 0
        &&& self.t0_us >= 0
        &&& self.base matches Some(t) ==> t.wf()
        &&& self.decoded == self.chunker.spec_start() + self.chunker.spec_pending().len()
        &&& self.chunks == self.chunker.spec_chunks()
    }

    /// Starts on a request, for slots of `slot_bytes`: an error if they cannot hold a chunk.
    pub fn new(req: &AudioDecodeRequest, slot_bytes: usize) -> (r: Result<AudioRun, MediaError>)
        requires
            req.valid(),
            slot_bytes >= 2 * protocol::sample_count(req.chunk_ms as int, req.sample_rate as int)
                ==> protocol::sample_count(req.overlap_ms as int, req.sample_rate as int)
                < protocol::sample_count(req.chunk_ms as int, req.sample_rate as int),
        ensures
            ({
                let chunk = protocol::sample_count(req.chunk_ms as int, req.sample_rate as int);
                let overlap = protocol::sample_count(req.overlap_ms as int, req.sample_rate as int);
                match r {
                    Ok(a) => slot_bytes >= 2 * chunk && a.wf() && a@ == (AudioRunView {
                        t0_us: req.t0_us,
                        t1_us: req.t1_us,
                        rate: req.sample_rate,
                        chunk,
                        hop: chunk - overlap,
                        pending: Seq::empty(),
                        start: 0,
                        base: None,
                        decoded: 0,
                        chunks: 0,
                    }),
                    Err(e) => slot_bytes < 2 * chunk && (e matches MediaError::Protocol(m) && m@
                        == slot_fault(slot_bytes as nat, chunk as nat)),
                }
            }),
    {
        let samples: u64 = req.chunk_samples();
        if (slot_bytes as u128) < 2 * (samples as u128) {
            return Err(slot_error(slot_bytes, samples));
        }
        let chunk: usize = samples as usize;
        let overlap: usize = req.overlap_samples() as usize;
        match Chunker::new(chunk, overlap, slot_bytes) {
            Ok(chunker) => {
                let a = AudioRun {
                    t0_us: req.t0_us,
                    t1_us: req.t1_us,
                    rate: req.sample_rate,
                    chunker,
                    base: None,
                    decoded: 0,
                    chunks: 0,
                };
                proof {
                    assert(a@.pending =~= Seq::<i16>::empty());
                }
                Ok(a)
            },
            Err(e) => Err(e),
        }
    }

    /// What becomes of a decoded frame at `t`. The first one taken is where times are counted
    /// from.
    pub fn offer(&mut self, t: Timestamp) -> (g: AudioGate)
        requires
            old(self).wf(),
            t.wf(),
        ensures
            final(self).wf(),
            g == gate_of(t, old(self)@.t0_us, old(self)@.t1_us),
            final(self)@ == (AudioRunView {
                base: if g == AudioGate::Take && old(self)@.base is None {
                    Some(t)
                } else {
                    old(self)@.base
                },
                ..old(self)@
            }),
    {
        let g = gate_audio(t, self.t0_us, self.t1_us);
        if g == AudioGate::Take && self.base.is_none() {
            self.base = Some(t);
        }
        g
    }

    /// Takes the samples of a frame: the chunks that are full now, with their times, or an error
    /// if those cannot be written.
    pub fn take(&mut self, pcm: &[i16]) -> (r: Result<Vec<SoundChunk>, MediaError>)
        requires
            old(self).wf(),
            pcm@.len() <= usize::MAX / 2,
            old(self)@.decoded + pcm@.len() <= u64::MAX,
        ensures
            final(self).wf(),
            final(self)@ == after_samples(old(self)@, pcm@),
            ({
                let full = next_chunks(old(self)@, pcm@);
                let (base, rate) = (base_of(old(self)@), old(self)@.rate);
                match r {
                    Ok(v) => v@.len() == full.len() && forall|i: int|
                        0 <= i < full.len() ==> is_sound(#[trigger] v@[i], full[i], base, rate),
                    Err(e) => (e matches MediaError::Invalid(m) && m@ == "time is out of range"@)
                        && exists|i: int|
                        0 <= i < full.len() && !has_times(#[trigger] full[i], base, rate),
                }
            }),
    {
        let ghost v0 = self@;
        let ghost full = next_chunks(v0, pcm@);
        let base = match self.base {
            Some(t) => t,
            None => Timestamp::zero(),
        };
        let rate: u32 = self.rate;
        proof {
            lemma_leftover(v0.pending + pcm@, v0.start, v0.chunk, v0.hop);
            assert forall|i: int| 0 <= i < full.len() implies (#[trigger] full[i]).start
                + full[i].samples.len() <= u64::MAX by {
                lemma_chunks_inside(v0.pending + pcm@, v0.start, v0.chunk, v0.hop, i);
            }
        }
        let cut = self.chunker.push(pcm);
        self.decoded = self.decoded + pcm.len() as u64;
        proof {
            assert(chunk_views(cut@) == full);
            assert(cut@.len() == full.len());
        }
        self.chunks = self.chunks + cut.len() as u64;
        sounds_of(cut, base, rate)
    }

    /// Ends the stream: the last chunk, if something is left that no chunk holds, and how many
    /// chunks and samples there were.
    pub fn finish(self) -> (r: Result<(Option<SoundChunk>, (u64, u64)), MediaError>)
        requires
            self.wf(),
        ensures
            ({
                let v = self@;
                let more = v.pending.len() > 0 && (v.chunks == 0 || v.pending.len() > v.chunk
                    - v.hop);
                let last = ChunkView { start: v.start, samples: v.pending };
                match r {
                    Ok((Some(s), (n, d))) => more && is_sound(s, last, base_of(v), v.rate) && n
                        == v.chunks + 1 && d == v.decoded,
                    Ok((None, (n, d))) => !more && n == v.chunks && d == v.decoded,
                    Err(e) => more && !has_times(last, base_of(v), v.rate) && (
                    e matches MediaError::Invalid(m) && m@ == "time is out of range"@),
                }
            }),
    {
        let base = match self.base {
            Some(t) => t,
            None => Timestamp::zero(),
        };
        let (rate, chunks, decoded): (u32, u64, u64) = (self.rate, self.chunks, self.decoded);
        match self.chunker.finish() {
            Some(c) => match sound_of(c, base, rate) {
                Some(s) => Ok((Some(s), (chunks + 1, decoded))),
                None => Err(late()),
            },
            None => Ok((None, (chunks, decoded))),
        }
    }
}

/// The signed sample that two little-endian bytes stand for.
pub open spec fn sample_of(lo: u8, hi: u8) -> int {
    let u = lo + 256 * hi;
    if u < 32768 {
        u
    } else {
        u - 65536
    }
}

/// The samples that bytes hold.
pub open spec fn samples_in(b: Seq<u8>) -> Seq<i16> {
    Seq::new((b.len() / 2) as nat, |i: int| sample_of(b[2 * i], b[2 * i + 1]) as i16)
}

/// Decodes little-endian 16-bit samples; a trailing odd byte is ignored.
pub fn pcm_from_bytes(b: &[u8]) -> (v: Vec<i16>)
    ensures
        v@ == samples_in(b@),
        v@.len() == b@.len() / 2,
        forall|i: int|
            0 <= i < v@.len() ==> #[trigger] v@[i] == sample_of(b@[2 * i], b@[2 * i + 1]),
{
    let len: usize = b.len();
    let n: usize = len / 2;
    let mut v: Vec<i16> = Vec::new();
    let mut i: usize = 0;
    while i < n
        invariant
            i <= n,
            n == len / 2,
            len == b@.len(),
            v@.len() == i,
            forall|k: int|
                0 <= k < i ==> #[trigger] v@[k] == sample_of(b@[2 * k], b@[2 * k + 1]),
        decreases n - i,
    {
        let u: i32 = (b[2 * i] as i32) + 256 * (b[2 * i + 1] as i32);
        let s: i32 = if u < 32768 {
            u
        } else {
            u - 65536
        };
        v.push(s as i16);
        i = i + 1;
    }
    v
}

/// Encodes samples as little-endian bytes, from which they can be decoded again.
pub fn pcm_to_bytes(s: &[i16]) -> (b: Vec<u8>)
    requires
        2 * s@.len() <= usize::MAX,
    ensures
        b@.len() == 2 * s@.len(),
        samples_in(b@) == s@,
        forall|i: int|
            0 <= i < s@.len() ==> #[trigger] s@[i] == sample_of(b@[2 * i], b@[2 * i + 1]),
{
    let mut b: Vec<u8> = Vec::new();
    let mut i: usize = 0;
    while i < s.len()
        invariant
            i <= s@.len(),
            b@.len() == 2 * i,
            forall|k: int|
                0 <= k < i ==> #[trigger] s@[k] == sample_of(b@[2 * k], b@[2 * k + 1]),
        decreases s@.len() - i,
    {
        let x: i32 = s[i] as i32;
        let u: i32 = if x < 0 {
            x + 65536
        } else {
            x
        };
        b.push((u % 256) as u8);
        b.push((u / 256) as u8);
        i = i + 1;
    }
    b
}

/// A value that fits is kept, and a value that does not fit becomes the nearest that does.
pub proof fn law_clamping_moves_least(x: int, y: int)
    requires
        i64::MIN <= y <= i64::MAX,
    ensures
        i64::MIN <= x <= i64::MAX ==> clamped(x) == x,
        x <= y ==> x <= clamped(x) || clamped(x) == i64::MAX,
        x > i64::MAX ==> clamped(x) >= y,
        x < i64::MIN ==> clamped(x) <= y,
{
}

/// Of key frames at rising times, each gap is the time from one key frame to the next.
pub proof fn law_gaps_are_between_neighbours(s: Seq<i64>)
    requires
        s.len() > 0,
        forall|i: int, j: int| 0 <= i < j < s.len() ==> s[i] < s[j] && s[j] - s[i] <= i64::MAX,
    ensures
        positive_gaps(s).len() == s.len() - 1,
        forall|i: int|
            0 <= i < s.len() - 1 ==> #[trigger] positive_gaps(s)[i] == s[i + 1] - s[i],
    decreases s.len(),
{
    if s.len() > 1 {
        let r = s.drop_last();
        assert forall|i: int, j: int| 0 <= i < j < r.len() implies r[i] < r[j] && r[j] - r[i]
            <= i64::MAX by {
            assert(r[i] == s[i] && r[j] == s[j]);
        }
        law_gaps_are_between_neighbours(r);
        assert(s[s.len() - 2] < s[s.len() - 1]);
        assert forall|i: int| 0 <= i < s.len() - 1 implies #[trigger] positive_gaps(s)[i] == s[i
            + 1] - s[i] by {
            if i < r.len() - 1 {
                assert(positive_gaps(r)[i] == r[i + 1] - r[i]);
            }
        }
    }
}

/// A key frame that is met twice adds no gap.
pub proof fn law_repeated_keys_add_no_gap(s: Seq<i64>)
    requires
        s.len() > 0,
    ensures
        positive_gaps(s.push(s.last())) == positive_gaps(s),
{
    assert(s.push(s.last()).drop_last() =~= s);
}

/// The interval between key frames is the gap in the middle: with the gaps in ascending order, the
/// one that has half of them, rounded down, before it.
pub proof fn law_intervals_are_middle_gaps(key_pts: Seq<i64>)
    ensures
        median_gap(key_pts) is None <==> positive_gaps(order::sorted(key_pts)).len() == 0,
        median_gap(key_pts) matches Some(g) ==> exists|a: Seq<i64>|
            {
                &&& #[trigger] order::is_sorted(a)
                &&& a.to_multiset() == positive_gaps(order::sorted(key_pts)).to_multiset()
                &&& a.len() > 0
                &&& a[a.len() as int / 2] == g
            },
{
    let a = order::sorted(positive_gaps(order::sorted(key_pts)));
    order::law_sorted(positive_gaps(order::sorted(key_pts)));
    assert(order::is_sorted(a));
}

/// Where key frames come `d` ticks apart, the interval between them is `d` ticks.
pub proof fn law_regular_keys_give_their_interval(s: Seq<i64>, d: int, tb: (u32, u32))
    requires
        s.len() > 1,
        d > 0,
        tb.0 > 0,
        forall|i: int| 0 <= i < s.len() ==> #[trigger] s[i] == s[0] + i * d,
        (s.len() - 1) * d <= i64::MAX,
    ensures
        key_interval(s, tb) == Some(time_of(d, tb)),
{
    assert forall|i: int, j: int| 0 <= i < j < s.len() implies s[i] < s[j] && s[j] - s[i]
        <= i64::MAX by {
        assert(s[i] == s[0] + i * d && s[j] == s[0] + j * d);
        assert(i * d < j * d && j * d - i * d <= (s.len() - 1) * d) by (nonlinear_arith)
            requires
                0 <= i < j < s.len(),
                d > 0,
        ;
    }
    assert(order::is_sorted(s));
    order::law_ascending_sequences_stay(s);
    law_gaps_are_between_neighbours(s);
    let g = positive_gaps(s);
    assert forall|i: int| 0 <= i < g.len() implies #[trigger] g[i] == d by {
        assert(s[i] == s[0] + i * d && s[i + 1] == s[0] + (i + 1) * d);
        assert((i + 1) * d == i * d + d) by (nonlinear_arith);
    }
    assert(order::is_sorted(g));
    order::law_ascending_sequences_stay(g);
}

/// The rate of a stream is its average rate where that is known, else its nominal one, and thirty
/// frames a second where neither is.
pub proof fn law_average_rates_are_preferred(n: i32, d: i32, other: Option<(i32, i32)>)
    ensures
        source_rate(Some((n, d)), other) == (n as int, d as int),
        source_rate(None, Some((n, d))) == (n as int, d as int),
        source_rate(None, None).0 == 30 * source_rate(None, None).1,
        source_rate(None, None).1 > 0,
{
}

/// Sampling ends where the request does or where the stream does, whichever is first, and has no
/// end only where neither has one.
pub proof fn law_ranges_end_at_the_first_end(t1_us: Option<i64>, duration: Option<Timestamp>)
    ensures
        range_end(t1_us, duration) is None <==> t1_us is None && duration is None,
        range_end(t1_us, duration) matches Some(e) ==> {
            &&& t1_us matches Some(t) ==> e <= t * 1000
            &&& duration matches Some(d) ==> e <= nanos(d)
            &&& (t1_us matches Some(t) && e == t * 1000) || (duration matches Some(d) && e
                == nanos(d))
        },
{
}

/// The nanoseconds of a time are whole, and the last ones that it has reached.
pub proof fn law_nanoseconds_are_reached(t: Timestamp)
    requires
        t.wf(),
    ensures
        nanos(t) * t.den <= t.num * 1_000_000_000 < (nanos(t) + 1) * t.den,
{
    let (a, d) = (t.num * 1_000_000_000, t.den as int);
    assert((a / d) * d <= a < (a / d + 1) * d) by (nonlinear_arith)
        requires
            d > 0,
    ;
}

/// Samples come at an even pace: in a thousand seconds come as many as the rate has thousandths,
/// and each is due as soon as a whole number of nanoseconds allows.
pub proof fn law_samples_are_evenly_due(s: VideoSampler, k: int, rounds: int)
    requires
        s.wf(),
        k >= 0,
        rounds >= 0,
    ensures
        due(s, 0) == s.t0,
        due(s, k + rounds * s.fps_milli) == due(s, k) + rounds * 1_000_000_000_000,
        (due(s, k) - s.t0) * s.fps_milli <= k * 1_000_000_000_000 < (due(s, k) - s.t0 + 1)
            * s.fps_milli,
{
    let f = s.fps_milli as int;
    let a = k * 1_000_000_000_000;
    assert((a / f) * f <= a < (a / f + 1) * f) by (nonlinear_arith)
        requires
            f > 0,
    ;
    let q = rounds * 1_000_000_000_000;
    assert((k + rounds * f) * 1_000_000_000_000 == a + q * f) by (nonlinear_arith)
        requires
            a == k * 1_000_000_000_000,
            q == rounds * 1_000_000_000_000,
    ;
    vstd::arithmetic::div_mod::lemma_hoist_over_denominator(a, q, f as nat);
    assert((0int * 1_000_000_000_000) / f == 0) by (nonlinear_arith)
        requires
            f > 0,
    ;
}

/// The position to seek to is the nearest microsecond, and the same on both sides of zero.
pub proof fn law_seeks_go_to_the_nearest_microsecond(x: int)
    ensures
        -500 <= 1000 * rounded_us(x) - x <= 500,
        rounded_us(-x) == -rounded_us(x),
{
}

/// Packing a frame keeps its pixels: byte `x` of row `y` stands `y` packed rows further.
pub proof fn law_packing_keeps_pixels(
    src: Seq<u8>,
    stride: int,
    row: int,
    y0: int,
    h: int,
    y: int,
    x: int,
)
    requires
        0 <= row <= stride,
        0 <= y0 <= h,
        stride * h <= src.len(),
    ensures
        packed_rows(src, stride, row, y0, h).len() == (h - y0) * row,
        y0 <= y < h && 0 <= x < row ==> packed_rows(src, stride, row, y0, h)[(y - y0) * row + x]
            == src[y * stride + x],
    decreases h - y0,
{
    if y0 < h {
        law_packing_keeps_pixels(src, stride, row, y0 + 1, h, y, x);
        assert(0 <= y0 * stride && y0 * stride + row <= stride * h) by (nonlinear_arith)
            requires
                0 <= row <= stride,
                0 <= y0 < h,
        ;
        assert((h - y0) * row == row + (h - (y0 + 1)) * row) by (nonlinear_arith);
        let rest = packed_rows(src, stride, row, y0 + 1, h);
        if y0 <= y < h && 0 <= x < row {
            assert((y - y0) * row == (y - (y0 + 1)) * row + row) by (nonlinear_arith);
            if y > y0 {
                assert(0 <= (y - (y0 + 1)) * row && (y - (y0 + 1)) * row + x < (h - (y0 + 1))
                    * row) by (nonlinear_arith)
                    requires
                        y0 < y < h,
                        0 <= x < row,
                ;
            } else {
                assert((y - y0) * row == 0) by (nonlinear_arith)
                    requires
                        y == y0,
                ;
            }
        }
    } else {
        assert((h - y0) * row == 0) by (nonlinear_arith)
            requires
                h == y0,
        ;
    }
}

/// Sound is taken from a twentieth of a second before the range up to its end: not before, and
/// none from the end on.
pub proof fn law_sound_is_taken_inside_its_range(t: Timestamp, t0_us: i64, t1_us: Option<i64>)
    requires
        t.wf(),
    ensures
        gate_of(t, t0_us, t1_us) is Skip <==> t.num * 1_000_000 < (t0_us - 50_000) * t.den,
        gate_of(t, t0_us, t1_us) is Take <==> t.num * 1_000_000 >= (t0_us - 50_000) * t.den && (
        t1_us matches Some(t1) ==> t.num * 1_000_000 < t1 * t.den),
        t1_us is None ==> !(gate_of(t, t0_us, t1_us) is Done),
{
}

/// Samples are stored with the low byte first: a sample is at least -32768 and below 32768, and
/// differs from what its two bytes say by a multiple of 65536.
pub proof fn law_samples_are_little_endian(lo: u8, hi: u8)
    ensures
        -32768 <= sample_of(lo, hi) < 32768,
        sample_of(lo, hi) == lo + 256 * hi || sample_of(lo, hi) == lo + 256 * hi - 65536,
{
}

} // verus!
