//! Exact rational media time.

use vstd::prelude::*;

verus! {

/// A point in media time: `num / den` seconds.
///
/// A well-formed timestamp has a positive denominator.
#[derive(Clone, Copy, Debug, PartialEq, Eq, Structural)]
pub struct Timestamp {
    /// Numerator, in units of `1 / den` seconds.
    pub num: i64,
    /// Denominator: ticks per second.
    pub den: u32,
}

/// Ticks per second of a microsecond timebase.
pub const MICROS: u32 = 1_000_000;

/// `a` is no later than `b`, compared exactly by cross-multiplication.
pub open spec fn le_time(a: Timestamp, b: Timestamp) -> bool {
    a.num * b.den <= b.num * a.den
}

/// The greatest number that divides two numbers.
pub open spec fn common(a: nat, b: nat) -> nat
    decreases b,
{
    if b == 0 {
        a
    } else {
        common(b, a % b)
    }
}

fn common_of(a: u32, b: u32) -> (g: u32)
    ensures
        g == common(a as nat, b as nat),
{
    let mut x: u32 = a;
    let mut y: u32 = b;
    while y != 0
        invariant
            common(x as nat, y as nat) == common(a as nat, b as nat),
        decreases y,
    {
        let r: u32 = x % y;
        x = y;
        y = r;
    }
    x
}

/// The sum of two timestamps as a fraction, in the largest unit that both are in.
pub open spec fn sum_parts(a: Timestamp, b: Timestamp) -> (int, int) {
    let g = common(a.den as nat, b.den as nat) as int;
    (a.num * (b.den as int / g) + b.num * (a.den as int / g), (a.den as int / g) * b.den)
}

impl Timestamp {
    /// The denominator is positive.
    pub open spec fn wf(self) -> bool {
        self.den > 0
    }

    /// `num / den` seconds.
    pub fn new(num: i64, den: u32) -> (t: Timestamp)
        ensures
            t == (Timestamp { num, den }),
    {
        Timestamp { num, den }
    }

    /// Time zero.
    pub fn zero() -> (t: Timestamp)
        ensures
            t == (Timestamp { num: 0, den: 1 }),
            t.wf(),
    {
        Timestamp { num: 0, den: 1 }
    }

    /// Whole seconds.
    pub fn from_secs(secs: i64) -> (t: Timestamp)
        ensures
            t == (Timestamp { num: secs, den: 1 }),
            t.wf(),
    {
        Timestamp { num: secs, den: 1 }
    }

    /// Whole microseconds.
    pub fn from_micros(us: i64) -> (t: Timestamp)
        ensures
            t == (Timestamp { num: us, den: MICROS }),
            t.wf(),
    {
        Timestamp { num: us, den: MICROS }
    }

    /// Whether `self` is no later than `other`.
    pub fn le(&self, other: &Timestamp) -> (b: bool)
        ensures
            b == le_time(*self, *other),
    {
        proof {
            lemma_cross_bound(self.num, other.den);
            lemma_cross_bound(other.num, self.den);
        }
        (self.num as i128) * (other.den as i128) <= (other.num as i128) * (self.den as i128)
    }

    /// Whether `self` is strictly earlier than `other`.
    pub fn lt(&self, other: &Timestamp) -> (b: bool)
        ensures
            b == !le_time(*other, *self),
    {
        !other.le(self)
    }

    /// The sum of two timestamps. None if it does not fit.
    pub fn plus(self, other: Timestamp) -> (r: Option<Timestamp>)
        requires
            self.wf(),
            other.wf(),
        ensures
            ({
                let (num, den) = sum_parts(self, other);
                match r {
                    Some(t) => t.num == num && t.den == den && t.wf(),
                    None => !(i64::MIN <= num <= i64::MAX && den <= u32::MAX),
                }
            }),
    {
        let g: u32 = common_of(self.den, other.den);
        proof {
            lemma_common(self.den as nat, other.den as nat);
        }
        let ad: u32 = self.den / g;
        let bd: u32 = other.den / g;
        proof {
            lemma_cross_bound(self.num, bd);
            lemma_cross_bound(other.num, ad);
            let (x, y, z) = (self.den as int, g as int, other.den as int);
            assert(0 < x / y) by (nonlinear_arith)
                requires
                    x > 0,
                    y > 0,
                    x % y == 0,
            ;
            assert(0 < ad * z <= 0xffff_ffff * 0xffff_ffff) by (nonlinear_arith)
                requires
                    0 < ad <= 0xffff_ffff,
                    0 < z <= 0xffff_ffff,
            ;
        }
        let n: i128 = (self.num as i128) * (bd as i128) + (other.num as i128) * (ad as i128);
        let d: u128 = (ad as u128) * (other.den as u128);
        if n < -0x8000_0000_0000_0000 || n > 0x7fff_ffff_ffff_ffff || d > 0xffff_ffff {
            return None;
        }
        Some(Timestamp { num: n as i64, den: d as u32 })
    }

    /// The later of two timestamps; `other` when they are equal.
    pub fn max(self, other: Timestamp) -> (t: Timestamp)
        ensures
            t == (if le_time(self, other) { other } else { self }),
    {
        if self.le(&other) {
            other
        } else {
            self
        }
    }
}

proof fn lemma_cross_bound(n: i64, d: u32)
    ensures
        -0x8000_0000_0000_0000 * 0x1_0000_0000 <= n * d <= 0x8000_0000_0000_0000 * 0x1_0000_0000,
{
    assert(-0x8000_0000_0000_0000 * 0x1_0000_0000 <= n * d <= 0x8000_0000_0000_0000 * 0x1_0000_0000)
        by (nonlinear_arith)
        requires
            -0x8000_0000_0000_0000 <= n < 0x8000_0000_0000_0000,
            0 <= d < 0x1_0000_0000,
    ;
}

proof fn lemma_common(a: nat, b: nat)
    requires
        a > 0 || b > 0,
    ensures
        common(a, b) > 0,
        a % common(a, b) == 0,
        b % common(a, b) == 0,
    decreases b,
{
    if b > 0 {
        lemma_common(b, a % b);
        let g = common(b, a % b) as int;
        let (x, y) = (a as int, b as int);
        let (q, r) = (x / y, x % y);
        vstd::arithmetic::div_mod::lemma_fundamental_div_mod(x, y);
        vstd::arithmetic::div_mod::lemma_fundamental_div_mod(y, g);
        vstd::arithmetic::div_mod::lemma_fundamental_div_mod(r, g);
        let k = q * (y / g) + r / g;
        assert(x == k * g) by (nonlinear_arith)
            requires
                x == y * q + r,
                y == g * (y / g),
                r == g * (r / g),
                k == q * (y / g) + r / g,
        ;
        vstd::arithmetic::div_mod::lemma_mod_multiples_basic(k, g);
    }
}

/// Adding timestamps is exact.
pub proof fn law_sums_are_exact(a: Timestamp, b: Timestamp)
    requires
        a.wf(),
        b.wf(),
    ensures
        sum_parts(a, b).1 > 0,
        sum_parts(a, b).0 * (a.den * b.den) == (a.num * b.den + b.num * a.den) * sum_parts(a, b).1,
{
    lemma_common(a.den as nat, b.den as nat);
    let g = common(a.den as nat, b.den as nat) as int;
    let (ad, bd) = (a.den as int, b.den as int);
    let (x, y) = (ad / g, bd / g);
    let (n, m) = (a.num as int, b.num as int);
    vstd::arithmetic::div_mod::lemma_fundamental_div_mod(ad, g);
    vstd::arithmetic::div_mod::lemma_fundamental_div_mod(bd, g);
    assert(x * bd > 0) by (nonlinear_arith)
        requires
            ad == g * x,
            ad > 0,
            g > 0,
            bd > 0,
    ;
    let q = n * y + m * x;
    assert(n * bd + m * ad == g * q) by (nonlinear_arith)
        requires
            ad == g * x,
            bd == g * y,
            q == n * y + m * x,
    ;
    assert(q * (ad * bd) == (g * q) * (x * bd)) by (nonlinear_arith)
        requires
            ad == g * x,
    ;
}

/// Time comparison is a total preorder: any two timestamps compare one way or the other, and
/// comparisons chain.
pub proof fn law_time_total_preorder(a: Timestamp, b: Timestamp, c: Timestamp)
    requires
        a.wf(),
        b.wf(),
        c.wf(),
    ensures
        le_time(a, b) || le_time(b, a),
        le_time(a, b) && le_time(b, c) ==> le_time(a, c),
{
    if le_time(a, b) && le_time(b, c) {
        let (an, ad) = (a.num as int, a.den as int);
        let (bn, bd) = (b.num as int, b.den as int);
        let (cn, cd) = (c.num as int, c.den as int);
        assert(an * cd <= cn * ad) by (nonlinear_arith)
            requires
                an * bd <= bn * ad,
                bn * cd <= cn * bd,
                ad > 0,
                bd > 0,
                cd > 0,
        {
            assert((an * bd) * cd <= (bn * ad) * cd);
            assert((bn * cd) * ad <= (cn * bd) * ad);
            assert((an * cd) * bd <= (cn * ad) * bd);
        }
    }
}

} // verus!
