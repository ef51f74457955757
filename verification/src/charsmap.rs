//! Maps of characters that a tokenizer's normalizer may carry: a trie over bytes whose leaves
//! point into a text, packed into base64. A map is sound when following any text through the trie
//! stays inside it, and every leaf points to the start of a character.

use vstd::prelude::*;
use vstd::slice::slice_subrange;

use crate::text::chars_of;

verus! {

/// The number that a character of base64 stands for.
pub open spec fn sextet(c: char) -> Option<int> {
    if 'A' <= c && c <= 'Z' {
        Some(c as int - 'A' as int)
    } else if 'a' <= c && c <= 'z' {
        Some(c as int - 'a' as int + 26)
    } else if '0' <= c && c <= '9' {
        Some(c as int - '0' as int + 52)
    } else if c == '+' {
        Some(62)
    } else if c == '/' {
        Some(63)
    } else {
        None
    }
}

/// A base64 text without the one or two signs that fill it up.
pub open spec fn unfilled(s: Seq<char>) -> Seq<char> {
    let n = s.len() as int;
    if n >= 1 && s[n - 1] == '=' {
        if n >= 2 && s[n - 2] == '=' {
            s.take(n - 2)
        } else {
            s.take(n - 1)
        }
    } else {
        s
    }
}

/// The byte at a position of what numbers below 64 are packed from.
pub open spec fn packed_byte(v: Seq<u8>, j: int) -> u8 {
    let k = 4 * (j / 3);
    (if j % 3 == 0 {
        v[k] * 4 + (v[k + 1] / 16) as int
    } else if j % 3 == 1 {
        (v[k + 1] % 16) as int * 16 + (v[k + 2] / 4) as int
    } else {
        (v[k + 2] % 4) as int * 64 + v[k + 3]
    }) as u8
}

/// The numbers that the characters of a base64 text stand for.
pub open spec fn sextets(s: Seq<char>) -> Seq<u8> {
    Seq::new(s.len(), |i: int| (sextet(s[i])->0) as u8)
}

/// The bytes that a base64 text stands for.
pub open spec fn unpacked(s: Seq<char>) -> Option<Seq<u8>> {
    let body = unfilled(s);
    if s.len() % 4 == 0 && (forall|i: int|
        0 <= i < body.len() ==> sextet(#[trigger] body[i]) is Some) {
        Some(Seq::new((body.len() * 3) / 4, |j: int| packed_byte(sextets(body), j)))
    } else {
        None
    }
}

fn read_sextet(c: char) -> (r: Option<u8>)
    ensures
        match r {
            Some(n) => sextet(c) == Some(n as int) && n < 64,
            None => sextet(c) is None,
        },
{
    let x: u32 = c as u32;
    if 'A' <= c && c <= 'Z' {
        Some((x - 'A' as u32) as u8)
    } else if 'a' <= c && c <= 'z' {
        Some((x - 'a' as u32 + 26) as u8)
    } else if '0' <= c && c <= '9' {
        Some((x - '0' as u32 + 52) as u8)
    } else if c == '+' {
        Some(62)
    } else if c == '/' {
        Some(63)
    } else {
        None
    }
}

/// Reads a base64 text.
pub fn unpack(s: &str) -> (r: Option<Vec<u8>>)
    ensures
        match r {
            Some(b) => unpacked(s@) == Some(b@),
            None => unpacked(s@) is None,
        },
{
    let cs = chars_of(s);
    let n: usize = cs.len();
    if n % 4 != 0 {
        return None;
    }
    let m: usize = if n >= 1 && cs[n - 1] == '=' {
        if n >= 2 && cs[n - 2] == '=' {
            n - 2
        } else {
            n - 1
        }
    } else {
        n
    };
    let ghost body = unfilled(s@);
    proof {
        assert(body =~= s@.take(m as int));
    }
    let mut v: Vec<u8> = Vec::new();
    let mut i: usize = 0;
    while i < m
        invariant
            i <= m <= n == cs@.len(),
            cs@ == s@,
            s@.len() % 4 == 0,
            body == unfilled(s@),
            body == s@.take(m as int),
            v@.len() == i,
            forall|k: int| 0 <= k < i ==> sextet(#[trigger] body[k]) == Some(v@[k] as int),
            forall|k: int| 0 <= k < i ==> #[trigger] v@[k] < 64,
        decreases m - i,
    {
        proof {
            assert(body[i as int] == cs@[i as int]);
        }
        match read_sextet(cs[i]) {
            Some(x) => v.push(x),
            None => return None,
        }
        i = i + 1;
    }
    proof {
        assert forall|k: int| 0 <= k < m implies #[trigger] v@[k] == sextets(body)[k] by {
            assert(sextet(body[k]) == Some(v@[k] as int));
        }
        assert(v@ =~= sextets(body));
    }
    let total: usize = m / 4 * 3 + m % 4 * 3 / 4;
    let mut out: Vec<u8> = Vec::new();
    let mut j: usize = 0;
    while j < total
        invariant
            j <= total,
            total == (m * 3) / 4,
            v@.len() == m,
            v@ == sextets(body),
            forall|k: int| 0 <= k < m ==> #[trigger] v@[k] < 64,
            out@.len() == j,
            forall|k: int| 0 <= k < j ==> #[trigger] out@[k] == packed_byte(v@, k),
        decreases total - j,
    {
        let k: usize = j / 3 * 4;
        let r: usize = j % 3;
        proof {
            assert(k == 4 * (j as int / 3));
            assert(4 * (j + 1) <= 3 * m);
            assert(k + r + 1 < m);
            assert(v@[k as int] < 64 && v@[k + 1] < 64);
        }
        let b: u8 = if r == 0 {
            v[k] * 4 + v[k + 1] / 16
        } else if r == 1 {
            proof {
                assert(v@[k + 2] < 64);
            }
            (v[k + 1] % 16) * 16 + v[k + 2] / 4
        } else {
            proof {
                assert(v@[k + 2] < 64 && v@[k + 3] < 64);
            }
            (v[k + 2] % 4) * 64 + v[k + 3]
        };
        out.push(b);
        j = j + 1;
    }
    proof {
        assert(out@ =~= unpacked(s@)->0);
    }
    Some(out)
}

/// Four bytes, the lowest first, as one number.
pub open spec fn word_at(b: Seq<u8>, i: int) -> int {
    b[i] + 256 * b[i + 1] + 65_536 * b[i + 2] + 16_777_216 * b[i + 3]
}

fn read_word(b: &Vec<u8>, i: usize) -> (w: u32)
    requires
        i + 4 <= b@.len(),
    ensures
        w == word_at(b@, i as int),
{
    let n: usize = b.len();
    proof {
        assert(i + 4 <= n);
    }
    b[i] as u32 + 256 * (b[i + 1] as u32) + 65_536 * (b[i + 2] as u32) + 16_777_216 * (b[i
        + 3] as u32)
}

/// The distance that a unit of a trie gives.
pub open spec fn distance(w: u32) -> u32 {
    if (w / 512) % 2 == 1 {
        ((w / 1024) * 256) as u32
    } else {
        w / 1024
    }
}

/// Where the children of the unit at a position are counted from.
pub open spec fn base_of(units: Seq<u32>, p: int) -> int {
    (p as u32 ^ distance(units[p])) as int
}

/// A unit that a byte can lead to.
pub open spec fn is_child(w: u32) -> bool {
    w < 0x8000_0000 && w % 256 != 0
}

/// A position that a leaf may give: in the text or at its end, and not inside a character.
pub open spec fn is_start(t: Seq<u8>, v: int) -> bool {
    v == t.len() || (v < t.len() && !(128 <= t[v] < 192))
}

/// From the unit at a position, no byte leads out of the trie, and its leaf, if it has one, points
/// to the start of a character.
pub open spec fn unit_holds(units: Seq<u32>, t: Seq<u8>, p: int) -> bool {
    let w = units[p];
    let q = base_of(units, p);
    &&& p == 0 || is_child(w) ==> q / 256 * 256 + 255 < units.len()
    &&& is_child(w) && (w / 256) % 2 == 1 ==> is_start(t, (units[q] % 0x8000_0000) as int)
}

/// A trie that no text leads out of, with leaves that point to characters' starts.
pub open spec fn trie_holds(units: Seq<u32>, t: Seq<u8>) -> bool {
    units.len() > 0 && forall|p: int| 0 <= p < units.len() ==> #[trigger] unit_holds(units, t, p)
}

/// The units of a map: behind a word with their length in bytes.
pub open spec fn map_units(b: Seq<u8>) -> Seq<u32> {
    Seq::new((word_at(b, 0) / 4) as nat, |i: int| word_at(b, 4 + 4 * i) as u32)
}

/// A map of characters that every text can be looked up in: units, and behind them the text that
/// the leaves point into.
pub open spec fn map_holds(b: Seq<u8>) -> bool {
    b.len() >= 4 && 4 + 4 * (word_at(b, 0) / 4) <= b.len() && trie_holds(
        map_units(b),
        b.skip(4 + 4 * (word_at(b, 0) / 4)),
    )
}

fn check_unit(units: &Vec<u32>, t: &[u8], p: usize) -> (r: bool)
    requires
        p < units@.len() <= 0x4000_0000,
    ensures
        r == unit_holds(units@, t@, p as int),
{
    let w: u32 = units[p];
    let d: u32 = if (w / 512) % 2 == 1 {
        (w / 1024) * 256
    } else {
        w / 1024
    };
    let q: u32 = p as u32 ^ d;
    let child = w < 0x8000_0000 && w % 256 != 0;
    if p == 0 || child {
        if (q / 256) as u64 * 256 + 255 >= units.len() as u64 {
            return false;
        }
    }
    if child && (w / 256) % 2 == 1 {
        let v: usize = (units[q as usize] % 0x8000_0000) as usize;
        v == t.len() || (v < t.len() && !(128 <= t[v] && t[v] < 192))
    } else {
        true
    }
}

/// Whether every text can be looked up in a map of characters.
pub fn check_map(b: &Vec<u8>) -> (r: bool)
    ensures
        r == map_holds(b@),
{
    if b.len() < 4 {
        return false;
    }
    let n: u32 = read_word(b, 0) / 4;
    if (b.len() - 4) as u64 / 4 < n as u64 {
        return false;
    }
    let n: usize = n as usize;
    let ghost us = map_units(b@);
    let mut units: Vec<u32> = Vec::new();
    let mut i: usize = 0;
    while i < n
        invariant
            i <= n,
            4 + 4 * n <= b@.len(),
            n == word_at(b@, 0) / 4,
            us == map_units(b@),
            units@.len() == i,
            forall|k: int| 0 <= k < i ==> #[trigger] units@[k] == us[k],
        decreases n - i,
    {
        units.push(read_word(b, 4 + 4 * i));
        i = i + 1;
    }
    proof {
        assert(units@ =~= us);
    }
    if n == 0 {
        return false;
    }
    let t: &[u8] = slice_subrange(b.as_slice(), 4 + 4 * n, b.len());
    proof {
        assert(t@ =~= b@.skip(4 + 4 * (word_at(b@, 0) / 4)));
    }
    let mut p: usize = 0;
    while p < n
        invariant
            p <= n == units@.len(),
            n <= 0x4000_0000,
            units@ == map_units(b@),
            t@ == b@.skip(4 + 4 * (word_at(b@, 0) / 4)),
            forall|k: int| 0 <= k < p ==> #[trigger] unit_holds(units@, t@, k),
        decreases n - p,
    {
        if !check_unit(&units, t, p) {
            return false;
        }
        p = p + 1;
    }
    true
}

/// The characters of packed bytes stand for the numbers below 64, each for another one: first the
/// capital letters, then the small ones, then the digits.
pub proof fn law_characters_stand_for_numbers(c: char, d: char)
    ensures
        sextet(c) matches Some(n) ==> 0 <= n < 64,
        sextet(c) is Some && sextet(c) == sextet(d) ==> c == d,
        'A' <= c <= 'Z' && d as int == c as int + 32 ==> sextet(d) == Some(sextet(c)->0 + 26),
        'A' <= c <= d <= 'Z' ==> sextet(d)->0 - sextet(c)->0 == d as int - c as int,
        '0' <= c <= '9' ==> sextet(c)->0 == 52 + (c as int - '0' as int),
{
}

/// Four numbers below 64 and the three bytes that they stand for are one number, written to base
/// 64 and to base 256.
pub proof fn law_four_characters_are_three_bytes(v: Seq<u8>, k: int)
    requires
        0 <= k,
        4 * k + 3 < v.len(),
        forall|i: int| 0 <= i < v.len() ==> #[trigger] v[i] < 64,
    ensures
        packed_byte(v, 3 * k) * 65_536 + packed_byte(v, 3 * k + 1) * 256 + packed_byte(v, 3 * k + 2)
            == v[4 * k] * 262_144 + v[4 * k + 1] * 4096 + v[4 * k + 2] * 64 + v[4 * k + 3],
{
    assert((3 * k) / 3 == k && (3 * k + 1) / 3 == k && (3 * k + 2) / 3 == k);
    let (a, b, c, d) = (v[4 * k], v[4 * k + 1], v[4 * k + 2], v[4 * k + 3]);
    assert(a < 64 && b < 64 && c < 64 && d < 64);
}

} // verus!
