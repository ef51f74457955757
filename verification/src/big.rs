//! Whole numbers of any size, for comparisons that no fixed width holds.

use vstd::prelude::*;

verus! {

/// What a digit counts more than the one before it.
pub const BASE: u64 = 0x1_0000_0000;

/// The number that digits stand for, the lowest first.
pub open spec fn value(d: Seq<u32>) -> nat
    decreases d.len(),
{
    if d.len() == 0 {
        0
    } else {
        d[0] as nat + 0x1_0000_0000 * value(d.skip(1))
    }
}

/// A number as digits, the lowest first.
#[derive(Debug)]
pub struct Big {
    digits: Vec<u32>,
}

impl View for Big {
    type V = nat;

    closed spec fn view(&self) -> nat {
        value(self.digits@)
    }
}

proof fn lemma_step(d: Seq<u32>, i: int)
    requires
        0 <= i < d.len(),
    ensures
        value(d.skip(i)) == d[i] + 0x1_0000_0000 * value(d.skip(i + 1)),
{
    assert(d.skip(i).skip(1) =~= d.skip(i + 1));
}

fn joined(first: u32, rest: Vec<u32>) -> (r: Vec<u32>)
    ensures
        value(r@) == first + 0x1_0000_0000 * value(rest@),
{
    let ghost low = rest@;
    let mut r: Vec<u32> = Vec::new();
    r.push(first);
    let mut rest = rest;
    r.append(&mut rest);
    proof {
        assert(r@.skip(1) =~= low);
    }
    r
}

fn scale(a: &Vec<u32>, i: usize, m: u32, carry: u32) -> (r: Vec<u32>)
    requires
        i <= a@.len(),
    ensures
        value(r@) == value(a@.skip(i as int)) * m + carry,
    decreases a@.len() - i,
{
    if i == a.len() {
        let mut r: Vec<u32> = Vec::new();
        r.push(carry);
        proof {
            assert(r@.skip(1) =~= Seq::<u32>::empty());
            assert(value(r@) == carry + 0x1_0000_0000 * value(r@.skip(1)));
            assert(value(a@.skip(i as int)) * m == 0) by (nonlinear_arith)
                requires
                    value(a@.skip(i as int)) == 0,
            ;
        }
        return r;
    }
    proof {
        let (x, y) = (a@[i as int] as int, m as int);
        assert(0 <= x * y <= 0xffff_ffff * 0xffff_ffff) by (nonlinear_arith)
            requires
                0 <= x <= 0xffff_ffff,
                0 <= y <= 0xffff_ffff,
        ;
    }
    let t: u64 = a[i] as u64 * m as u64 + carry as u64;
    let rest = scale(a, i + 1, m, (t / BASE) as u32);
    let ghost v = value(rest@);
    let r = joined((t % BASE) as u32, rest);
    proof {
        lemma_step(a@, i as int);
        let (x, y, w) = (a@[i as int] as int, m as int, value(a@.skip(i + 1)) as int);
        assert((x + 0x1_0000_0000 * w) * y == x * y + 0x1_0000_0000 * (w * y))
            by (nonlinear_arith);
    }
    r
}

fn sum(a: &Vec<u32>, b: &Vec<u32>, i: usize, carry: u32) -> (r: Vec<u32>)
    requires
        i <= a@.len() || i <= b@.len(),
        carry <= 1,
    ensures
        value(r@) == value(from(a@, i as int)) + value(from(b@, i as int)) + carry,
    decreases a@.len() + b@.len() - i,
{
    if i >= a.len() && i >= b.len() {
        let mut r: Vec<u32> = Vec::new();
        r.push(carry);
        proof {
            assert(r@.skip(1) =~= Seq::<u32>::empty());
            assert(value(r@) == carry + 0x1_0000_0000 * value(r@.skip(1)));
        }
        return r;
    }
    let x: u64 = if i < a.len() {
        a[i] as u64
    } else {
        0
    };
    let y: u64 = if i < b.len() {
        b[i] as u64
    } else {
        0
    };
    let t: u64 = x + y + carry as u64;
    let rest = sum(a, b, i + 1, (t / BASE) as u32);
    let r = joined((t % BASE) as u32, rest);
    proof {
        lemma_from(a@, i as int);
        lemma_from(b@, i as int);
    }
    r
}

/// The digits from a position on; none behind the last.
pub open spec fn from(d: Seq<u32>, i: int) -> Seq<u32> {
    if 0 <= i <= d.len() {
        d.skip(i)
    } else {
        Seq::empty()
    }
}

proof fn lemma_from(d: Seq<u32>, i: int)
    requires
        0 <= i,
    ensures
        value(from(d, i)) == (if i < d.len() {
            d[i] as int
        } else {
            0
        }) + 0x1_0000_0000 * value(from(d, i + 1)),
{
    if i < d.len() {
        lemma_step(d, i);
    }
}

fn product(a: &Vec<u32>, b: &Vec<u32>, i: usize) -> (r: Vec<u32>)
    requires
        i <= b@.len(),
    ensures
        value(r@) == value(a@) * value(b@.skip(i as int)),
    decreases b@.len() - i,
{
    if i == b.len() {
        proof {
            assert(value(a@) * value(b@.skip(i as int)) == 0) by (nonlinear_arith)
                requires
                    value(b@.skip(i as int)) == 0,
            ;
        }
        return Vec::new();
    }
    let rest = product(a, b, i + 1);
    let low = scale(a, 0, b[i], 0);
    let ghost high = value(rest@);
    let up = joined(0, rest);
    let r = sum(&low, &up, 0, 0);
    proof {
        assert(a@.skip(0) =~= a@);
        assert(low@.skip(0) =~= low@);
        assert(up@.skip(0) =~= up@);
        lemma_step(b@, i as int);
        let (p, x, w) = (value(a@) as int, b@[i as int] as int, value(b@.skip(i + 1)) as int);
        assert(p * (x + 0x1_0000_0000 * w) == p * x + 0x1_0000_0000 * (p * w))
            by (nonlinear_arith);
    }
    r
}

/// Whether the digits of `a` from a position on stand for more than those of `b`, and whether they
/// stand for as much.
fn compared(a: &Vec<u32>, b: &Vec<u32>, i: usize) -> (r: (bool, bool))
    requires
        i <= a@.len() || i <= b@.len(),
    ensures
        r.0 == (value(from(a@, i as int)) > value(from(b@, i as int))),
        r.1 == (value(from(a@, i as int)) == value(from(b@, i as int))),
    decreases a@.len() + b@.len() - i,
{
    if i >= a.len() && i >= b.len() {
        return (false, true);
    }
    let x: u32 = if i < a.len() {
        a[i]
    } else {
        0
    };
    let y: u32 = if i < b.len() {
        b[i]
    } else {
        0
    };
    let (more, same) = compared(a, b, i + 1);
    proof {
        lemma_from(a@, i as int);
        lemma_from(b@, i as int);
    }
    (more || (same && x > y), same && x == y)
}

impl Big {
    /// A number as it is.
    pub fn of(x: u128) -> (b: Big)
        ensures
            b@ == x,
    {
        let mut digits: Vec<u32> = Vec::new();
        digits.push((x % 0x1_0000_0000) as u32);
        digits.push((x / 0x1_0000_0000 % 0x1_0000_0000) as u32);
        digits.push((x / 0x1_0000_0000_0000_0000 % 0x1_0000_0000) as u32);
        digits.push((x / 0x1_0000_0000_0000_0000_0000_0000) as u32);
        proof {
            let d = digits@;
            lemma_step(d, 0);
            lemma_step(d, 1);
            lemma_step(d, 2);
            lemma_step(d, 3);
            assert(d.skip(0) =~= d);
            assert(d.skip(4) =~= Seq::<u32>::empty());
        }
        Big { digits }
    }

    /// The sum of two numbers.
    pub fn plus(&self, other: &Big) -> (b: Big)
        ensures
            b@ == self@ + other@,
    {
        proof {
            assert(self.digits@.skip(0) =~= self.digits@);
            assert(other.digits@.skip(0) =~= other.digits@);
        }
        Big { digits: sum(&self.digits, &other.digits, 0, 0) }
    }

    /// The product of two numbers.
    pub fn times(&self, other: &Big) -> (b: Big)
        ensures
            b@ == self@ * other@,
    {
        proof {
            assert(other.digits@.skip(0) =~= other.digits@);
        }
        Big { digits: product(&self.digits, &other.digits, 0) }
    }

    /// Whether this number is the larger one.
    pub fn exceeds(&self, other: &Big) -> (b: bool)
        ensures
            b == (self@ > other@),
    {
        proof {
            assert(self.digits@.skip(0) =~= self.digits@);
            assert(other.digits@.skip(0) =~= other.digits@);
        }
        compared(&self.digits, &other.digits, 0).0
    }
}

} // verus!
