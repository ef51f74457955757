//! Text primitives over characters: trimming, searching, splitting and number
//! syntax, each stated as a function on `Seq<char>`.

use vstd::prelude::*;
use vstd::slice::slice_subrange;

verus! {

/// Appends one character.
///
/// Specifies `String::push`: the string gains exactly that character at its end.
pub assume_specification[ String::push ](s: &mut String, c: char)
    ensures
        final(s)@ == old(s)@.push(c),
;

/// Characters with the Unicode `White_Space` property.
pub open spec fn whitespace(c: char) -> bool {
    ||| 0x09 <= c as u32 <= 0x0d
    ||| c as u32 == 0x20
    ||| c as u32 == 0x85
    ||| c as u32 == 0xa0
    ||| c as u32 == 0x1680
    ||| 0x2000 <= c as u32 <= 0x200a
    ||| c as u32 == 0x2028
    ||| c as u32 == 0x2029
    ||| c as u32 == 0x202f
    ||| c as u32 == 0x205f
    ||| c as u32 == 0x3000
}

/// Whether a character is Unicode white space.
pub fn is_whitespace(c: char) -> (b: bool)
    ensures
        b == whitespace(c),
{
    let u: u32 = c as u32;
    (0x09 <= u && u <= 0x0d) || u == 0x20 || u == 0x85 || u == 0xa0 || u == 0x1680 || (0x2000 <= u
        && u <= 0x200a) || u == 0x2028 || u == 0x2029 || u == 0x202f || u == 0x205f || u == 0x3000
}

/// ASCII upper-case letters become lower case; everything else stays.
pub open spec fn lower_char(c: char) -> char {
    if 'A' <= c <= 'Z' {
        ((c as u32 + 32) as u32) as char
    } else {
        c
    }
}

/// ASCII lower-casing of a whole text.
pub open spec fn ascii_lower(s: Seq<char>) -> Seq<char> {
    s.map_values(|c: char| lower_char(c))
}

/// ASCII lower case of one character.
pub fn to_lower_char(c: char) -> (r: char)
    ensures
        r == lower_char(c),
{
    if 'A' <= c && c <= 'Z' {
        ((c as u8) + 32) as char
    } else {
        c
    }
}

/// ASCII lower case of a text.
pub fn to_ascii_lower(s: &[char]) -> (r: Vec<char>)
    ensures
        r@ == ascii_lower(s@),
{
    let mut out: Vec<char> = Vec::new();
    let mut i: usize = 0;
    while i < s.len()
        invariant
            i <= s@.len(),
            out@ == ascii_lower(s@.take(i as int)),
        decreases s@.len() - i,
    {
        out.push(to_lower_char(s[i]));
        proof {
            assert(out@ =~= ascii_lower(s@.take(i + 1)));
        }
        i = i + 1;
    }
    proof {
        assert(s@.take(i as int) =~= s@);
    }
    out
}

/// The characters of a string slice.
pub fn chars_of(s: &str) -> (v: Vec<char>)
    ensures
        v@ == s@,
{
    let mut v: Vec<char> = Vec::new();
    for c in it: s.chars()
        invariant
            it.seq() == s@,
            v@ == s@.take(it.index() as int),
    {
        v.push(c);
        proof {
            assert(v@ =~= s@.take(it.index() + 1));
        }
    }
    proof {
        assert(v@ =~= s@);
    }
    v
}

/// The string made of these characters.
pub fn string_of(v: &[char]) -> (s: String)
    ensures
        s@ == v@,
{
    let mut s: String = String::new();
    let mut i: usize = 0;
    while i < v.len()
        invariant
            i <= v@.len(),
            s@ == v@.take(i as int),
        decreases v@.len() - i,
    {
        s.push(v[i]);
        proof {
            assert(s@ =~= v@.take(i + 1));
        }
        i = i + 1;
    }
    proof {
        assert(s@ =~= v@);
    }
    s
}

/// Without leading white space.
pub open spec fn trim_start(s: Seq<char>) -> Seq<char>
    decreases s.len(),
{
    if s.len() > 0 && whitespace(s[0]) {
        trim_start(s.drop_first())
    } else {
        s
    }
}

/// Without trailing white space.
pub open spec fn trim_end(s: Seq<char>) -> Seq<char>
    decreases s.len(),
{
    if s.len() > 0 && whitespace(s.last()) {
        trim_end(s.drop_last())
    } else {
        s
    }
}

/// Without leading and trailing white space.
pub open spec fn trimmed(s: Seq<char>) -> Seq<char> {
    trim_end(trim_start(s))
}

/// Trimming takes away white space at both ends and nothing else: what is left starts and ends
/// with something visible, and it is empty only where there was nothing visible.
pub proof fn law_trimming(s: Seq<char>)
    ensures
        trimmed(s).len() > 0 <==> exists|i: int| 0 <= i < s.len() && !whitespace(#[trigger] s[i]),
        trimmed(s).len() > 0 ==> !whitespace(trimmed(s)[0]) && !whitespace(trimmed(s).last()),
        exists|a: int, b: int| #[trigger]
            cut_from(s, a, b) == trimmed(s) && 0 <= a <= b <= s.len() && (forall|i: int|
                0 <= i < a || b <= i < s.len() ==> whitespace(#[trigger] s[i])),
{
    let a = lemma_trim_start(s);
    let t = trim_start(s);
    let n = lemma_trim_end(t);
    let b = a + n;
    assert(cut_from(s, a, b) =~= trimmed(s));
    assert forall|i: int| 0 <= i < a || b <= i < s.len() implies whitespace(#[trigger] s[i]) by {
        if i >= b {
            assert(t[i - a] == s[i]);
        }
    }
    if trimmed(s).len() > 0 {
        assert(trimmed(s)[0] == s[a]);
        assert(!whitespace(s[a]));
        assert(trimmed(s).last() == t[n - 1]);
    } else {
        assert forall|i: int| 0 <= i < s.len() implies whitespace(#[trigger] s[i]) by {}
    }
}

/// The part of a text from `a` up to, but not with, `b`.
pub open spec fn cut_from(s: Seq<char>, a: int, b: int) -> Seq<char> {
    s.subrange(a, b)
}

proof fn lemma_trim_start(s: Seq<char>) -> (a: int)
    ensures
        0 <= a <= s.len(),
        trim_start(s) == s.skip(a),
        forall|i: int| 0 <= i < a ==> whitespace(#[trigger] s[i]),
        a < s.len() ==> !whitespace(s[a]),
    decreases s.len(),
{
    if s.len() > 0 && whitespace(s[0]) {
        let t = s.drop_first();
        let a = lemma_trim_start(t);
        assert(s.skip(a + 1) =~= t.skip(a));
        assert forall|i: int| 0 <= i < a + 1 implies whitespace(#[trigger] s[i]) by {
            if i > 0 {
                assert(t[i - 1] == s[i]);
            }
        }
        if a < t.len() {
            assert(t[a] == s[a + 1]);
        }
        a + 1
    } else {
        assert(s.skip(0) =~= s);
        0
    }
}

proof fn lemma_trim_end(s: Seq<char>) -> (n: int)
    ensures
        0 <= n <= s.len(),
        trim_end(s) == s.take(n),
        forall|i: int| n <= i < s.len() ==> whitespace(#[trigger] s[i]),
        n > 0 ==> !whitespace(s[n - 1]),
    decreases s.len(),
{
    if s.len() > 0 && whitespace(s.last()) {
        let t = s.drop_last();
        let n = lemma_trim_end(t);
        assert(s.take(n) =~= t.take(n));
        assert forall|i: int| n <= i < s.len() implies whitespace(#[trigger] s[i]) by {
            if i < t.len() {
                assert(t[i] == s[i]);
            }
        }
        if n > 0 {
            assert(t[n - 1] == s[n - 1]);
        }
        n
    } else {
        assert(s.take(s.len() as int) =~= s);
        s.len() as int
    }
}

/// Trimming the end takes away the white space there and nothing else.
pub proof fn law_trimming_the_end(s: Seq<char>)
    ensures
        exists|n: int|
            0 <= n <= s.len() && #[trigger] s.take(n) == trim_end(s) && (n > 0 ==> !whitespace(
                s[n - 1],
            )) && (forall|i: int| n <= i < s.len() ==> whitespace(#[trigger] s[i])),
{
    let n = lemma_trim_end(s);
    assert(s.take(n) == trim_end(s));
}

/// Drops leading white space.
pub fn trim_start_of<'a>(s: &'a [char]) -> (r: &'a [char])
    ensures
        r@ == trim_start(s@),
{
    let mut i: usize = 0;
    proof {
        assert(s@.skip(0) =~= s@);
    }
    while i < s.len() && is_whitespace(s[i])
        invariant
            i <= s@.len(),
            trim_start(s@) == trim_start(s@.skip(i as int)),
        decreases s@.len() - i,
    {
        proof {
            assert(s@.skip(i as int).drop_first() =~= s@.skip(i + 1));
        }
        i = i + 1;
    }
    proof {
        assert(s@.skip(i as int) =~= s@.subrange(i as int, s@.len() as int));
    }
    slice_subrange(s, i, s.len())
}

/// Drops trailing white space.
pub fn trim_end_of<'a>(s: &'a [char]) -> (r: &'a [char])
    ensures
        r@ == trim_end(s@),
{
    let mut i: usize = s.len();
    proof {
        assert(s@.take(i as int) =~= s@);
    }
    while i > 0 && is_whitespace(s[i - 1])
        invariant
            i <= s@.len(),
            trim_end(s@) == trim_end(s@.take(i as int)),
        decreases i,
    {
        proof {
            assert(s@.take(i as int).drop_last() =~= s@.take(i - 1));
        }
        i = i - 1;
    }
    proof {
        assert(s@.take(i as int) =~= s@.subrange(0, i as int));
    }
    slice_subrange(s, 0, i)
}

/// Drops white space at both ends.
pub fn trim_of<'a>(s: &'a [char]) -> (r: &'a [char])
    ensures
        r@ == trimmed(s@),
{
    trim_end_of(trim_start_of(s))
}

/// `p` occurs in `s` at position `i`.
pub open spec fn occurs_at(s: Seq<char>, p: Seq<char>, i: int) -> bool {
    0 <= i && i + p.len() <= s.len() && s.subrange(i, i + p.len()) == p
}

/// `p` occurs somewhere in `s`.
pub open spec fn contains(s: Seq<char>, p: Seq<char>) -> bool {
    exists|i: int| #[trigger] occurs_at(s, p, i)
}

/// `s` begins with `p`.
pub open spec fn starts_with(s: Seq<char>, p: Seq<char>) -> bool {
    occurs_at(s, p, 0)
}

/// `s` ends with `p`.
pub open spec fn ends_with(s: Seq<char>, p: Seq<char>) -> bool {
    occurs_at(s, p, s.len() - p.len())
}

/// The first position at or after `i` where `p` occurs.
pub open spec fn find_from(s: Seq<char>, p: Seq<char>, i: int) -> Option<int>
    decreases s.len() + 1 - i,
{
    if i < 0 || i + p.len() > s.len() {
        None
    } else if occurs_at(s, p, i) {
        Some(i)
    } else {
        find_from(s, p, i + 1)
    }
}

/// Whether `p` occurs in `s` at `i`.
pub fn matches_at(s: &[char], p: &[char], i: usize) -> (b: bool)
    ensures
        b == occurs_at(s@, p@, i as int),
{
    if p.len() > s.len() || i > s.len() - p.len() {
        return false;
    }
    let mut k: usize = 0;
    while k < p.len()
        invariant
            k <= p@.len(),
            i + p@.len() <= s@.len() <= usize::MAX,
            forall|j: int| 0 <= j < k ==> s@[i + j] == p@[j],
        decreases p@.len() - k,
    {
        if s[i + k] != p[k] {
            proof {
                if occurs_at(s@, p@, i as int) {
                    assert(s@.subrange(i as int, i + p@.len())[k as int] == p@[k as int]);
                }
            }
            return false;
        }
        k = k + 1;
    }
    proof {
        assert(s@.subrange(i as int, i + p@.len()) =~= p@);
    }
    true
}

/// The first position at or after `from` where `p` occurs.
pub fn find_at(s: &[char], p: &[char], from: usize) -> (r: Option<usize>)
    ensures
        match r {
            Some(i) => find_from(s@, p@, from as int) == Some(i as int) && occurs_at(
                s@,
                p@,
                i as int,
            ) && from <= i,
            None => find_from(s@, p@, from as int) is None,
        },
{
    let mut i: usize = from;
    while p.len() <= s.len() && i <= s.len() - p.len()
        invariant
            from <= i,
            i <= s@.len() + 1 || i == from,
            find_from(s@, p@, from as int) == find_from(s@, p@, i as int),
        decreases s@.len() + 1 - i,
    {
        if matches_at(s, p, i) {
            return Some(i);
        }
        if i == s.len() {
            proof {
                assert(find_from(s@, p@, i + 1) is None);
            }
            return None;
        }
        i = i + 1;
    }
    None
}

/// Whether `s` begins with `p`.
pub fn has_prefix(s: &[char], p: &[char]) -> (b: bool)
    ensures
        b == starts_with(s@, p@),
{
    matches_at(s, p, 0)
}

/// Whether `s` ends with `p`.
pub fn has_suffix(s: &[char], p: &[char]) -> (b: bool)
    ensures
        b == ends_with(s@, p@),
{
    if p.len() > s.len() {
        false
    } else {
        matches_at(s, p, s.len() - p.len())
    }
}

/// Finding nothing means nothing is there.
pub proof fn lemma_find_from(s: Seq<char>, p: Seq<char>, i: int)
    requires
        0 <= i,
    ensures
        match find_from(s, p, i) {
            Some(k) => i <= k && occurs_at(s, p, k) && forall|j: int|
                i <= j < k ==> !occurs_at(s, p, j),
            None => forall|j: int| i <= j ==> !occurs_at(s, p, j),
        },
    decreases s.len() + 1 - i,
{
    if i + p.len() > s.len() {
    } else if occurs_at(s, p, i) {
    } else {
        lemma_find_from(s, p, i + 1);
    }
}

/// Whether `p` occurs in `s`.
pub fn has_sub(s: &[char], p: &[char]) -> (b: bool)
    ensures
        b == contains(s@, p@),
{
    let r = find_at(s, p, 0);
    proof {
        lemma_find_from(s@, p@, 0);
    }
    r.is_some()
}

/// Whether two texts hold the same characters.
pub fn same_text(a: &[char], b: &[char]) -> (r: bool)
    ensures
        r == (a@ == b@),
{
    if a.len() != b.len() {
        return false;
    }
    let mut k: usize = 0;
    while k < a.len()
        invariant
            k <= a@.len(),
            a@.len() == b@.len(),
            forall|j: int| 0 <= j < k ==> a@[j] == b@[j],
        decreases a@.len() - k,
    {
        if a[k] != b[k] {
            return false;
        }
        k = k + 1;
    }
    proof {
        assert(a@ =~= b@);
    }
    true
}

/// The sequence of texts that a sequence of slices stands for.
pub open spec fn texts_of(v: Seq<&[char]>) -> Seq<Seq<char>> {
    v.map_values(|p: &[char]| p@)
}

/// The sequence of texts that a sequence of strings stands for.
pub open spec fn strings_of(v: Seq<String>) -> Seq<Seq<char>> {
    v.map_values(|p: String| p@)
}

/// The pieces of `s` between non-overlapping occurrences of `sep`, left to right.
pub open spec fn split(s: Seq<char>, sep: Seq<char>) -> Seq<Seq<char>>
    decreases s.len(),
{
    match find_from(s, sep, 0) {
        Some(i) if sep.len() > 0 && 0 <= i && i + sep.len() <= s.len() => seq![s.take(i)] + split(
            s.skip(i + sep.len()),
            sep,
        ),
        _ => seq![s],
    }
}

proof fn lemma_find_skip(s: Seq<char>, p: Seq<char>, k: int, i: int)
    requires
        0 <= k <= s.len(),
        k <= i,
    ensures
        find_from(s.skip(k), p, i - k) == match find_from(s, p, i) {
            Some(j) => Some(j - k),
            None => None,
        },
    decreases s.len() + 1 - i,
{
    if i + p.len() > s.len() {
    } else {
        assert(s.skip(k).subrange(i - k, i - k + p.len()) =~= s.subrange(i, i + p.len()));
        if occurs_at(s, p, i) {
        } else {
            lemma_find_skip(s, p, k, i + 1);
        }
    }
}

/// Splits a text at every occurrence of a non-empty separator.
pub fn split_at_all<'a>(s: &'a [char], sep: &[char]) -> (r: Vec<&'a [char]>)
    requires
        sep@.len() > 0,
    ensures
        texts_of(r@) == split(s@, sep@),
        r@.len() > 0,
{
    let mut out: Vec<&'a [char]> = Vec::new();
    let mut from: usize = 0;
    let n: usize = s.len();
    proof {
        assert(s@.skip(0) =~= s@);
        assert(texts_of(out@) + split(s@, sep@) =~= split(s@, sep@));
    }
    loop
        invariant
            sep@.len() > 0,
            from <= s@.len(),
            n == s@.len(),
            texts_of(out@) + split(s@.skip(from as int), sep@) == split(s@, sep@),
        decreases s@.len() - from,
    {
        let found = find_at(s, sep, from);
        proof {
            lemma_find_skip(s@, sep@, from as int, from as int);
            assert(s@.skip(from as int) =~= s@.subrange(from as int, s@.len() as int));
        }
        match found {
            None => {
                let piece = slice_subrange(s, from, s.len());
                let ghost before = out@;
                out.push(piece);
                proof {
                    assert(texts_of(out@) =~= texts_of(before) + seq![s@.skip(from as int)]);
                }
                return out;
            },
            Some(i) => {
                let piece = slice_subrange(s, from, i);
                let ghost before = out@;
                out.push(piece);
                proof {
                    let rest = s@.skip(from as int);
                    assert(rest.take(i - from) =~= s@.subrange(from as int, i as int));
                    assert(rest.skip(i - from + sep@.len()) =~= s@.skip(i + sep@.len()));
                    assert(texts_of(out@) =~= texts_of(before) + seq![rest.take(i - from)]);
                    assert(texts_of(out@) + split(s@.skip(i + sep@.len()), sep@)
                        =~= texts_of(before) + (seq![rest.take(i - from)] + split(
                        s@.skip(i + sep@.len()),
                        sep@,
                    )));
                }
                from = i + sep.len();
            },
        }
    }
}

/// Every non-overlapping occurrence of `p`, left to right, replaced by `r`.
pub open spec fn replaced(s: Seq<char>, p: Seq<char>, r: Seq<char>) -> Seq<char>
    decreases s.len(),
{
    if p.len() == 0 || s.len() < p.len() {
        s
    } else if occurs_at(s, p, 0) {
        r + replaced(s.skip(p.len() as int), p, r)
    } else {
        seq![s[0]] + replaced(s.drop_first(), p, r)
    }
}

/// Appends a slice of characters.
pub fn push_all(out: &mut Vec<char>, s: &[char])
    ensures
        final(out)@ == old(out)@ + s@,
{
    let mut i: usize = 0;
    proof {
        assert(old(out)@ + s@.take(0) =~= old(out)@);
    }
    while i < s.len()
        invariant
            i <= s@.len(),
            out@ == old(out)@ + s@.take(i as int),
        decreases s@.len() - i,
    {
        out.push(s[i]);
        proof {
            assert(out@ =~= old(out)@ + s@.take(i + 1));
        }
        i = i + 1;
    }
    proof {
        assert(s@.take(i as int) =~= s@);
    }
}

/// Replaces every occurrence of a non-empty pattern.
pub fn replace_all(s: &[char], p: &[char], r: &[char]) -> (out: Vec<char>)
    requires
        p@.len() > 0,
    ensures
        out@ == replaced(s@, p@, r@),
{
    let mut out: Vec<char> = Vec::new();
    let mut i: usize = 0;
    proof {
        assert(s@.skip(0) =~= s@);
        assert(out@ + replaced(s@, p@, r@) =~= replaced(s@, p@, r@));
    }
    while p.len() <= s.len() && i <= s.len() - p.len()
        invariant
            p@.len() > 0,
            i <= s@.len(),
            out@ + replaced(s@.skip(i as int), p@, r@) == replaced(s@, p@, r@),
        decreases s@.len() - i,
    {
        let ghost rest = s@.skip(i as int);
        let ghost before = out@;
        proof {
            assert(rest.subrange(0, p@.len() as int) =~= s@.subrange(i as int, i + p@.len()));
        }
        if matches_at(s, p, i) {
            push_all(&mut out, r);
            proof {
                assert(rest.skip(p@.len() as int) =~= s@.skip(i + p@.len()));
                assert(out@ + replaced(s@.skip(i + p@.len()), p@, r@) =~= before + (r@ + replaced(
                    s@.skip(i + p@.len()),
                    p@,
                    r@,
                )));
            }
            i = i + p.len();
        } else {
            out.push(s[i]);
            proof {
                assert(rest.drop_first() =~= s@.skip(i + 1));
                assert(out@ + replaced(s@.skip(i + 1), p@, r@) =~= before + (seq![rest[0]]
                    + replaced(s@.skip(i + 1), p@, r@)));
            }
            i = i + 1;
        }
    }
    let tail = slice_subrange(s, i, s.len());
    push_all(&mut out, tail);
    proof {
        assert(s@.skip(i as int) =~= tail@);
    }
    out
}

/// Number of leading characters that are not white space.
pub open spec fn word_len(s: Seq<char>) -> nat
    decreases s.len(),
{
    if s.len() == 0 || whitespace(s[0]) {
        0
    } else {
        1 + word_len(s.drop_first())
    }
}

/// The maximal runs of non-white-space characters, left to right.
pub open spec fn words(s: Seq<char>) -> Seq<Seq<char>>
    decreases s.len(),
{
    if s.len() == 0 {
        Seq::empty()
    } else if whitespace(s[0]) {
        words(s.drop_first())
    } else {
        let n = word_len(s);
        if 0 < n <= s.len() {
            seq![s.take(n as int)] + words(s.skip(n as int))
        } else {
            Seq::empty()
        }
    }
}

/// The first word reaches as far as nothing is white space.
pub proof fn lemma_word_len(s: Seq<char>, n: int)
    requires
        0 <= n <= s.len(),
        forall|j: int| 0 <= j < n ==> !whitespace(#[trigger] s[j]),
        n < s.len() ==> whitespace(s[n]),
    ensures
        word_len(s) == n,
    decreases s.len(),
{
    if n > 0 {
        let t = s.drop_first();
        assert forall|j: int| 0 <= j < n - 1 implies !whitespace(#[trigger] t[j]) by {
            assert(t[j] == s[j + 1]);
        }
        lemma_word_len(t, n - 1);
    }
}

/// The words of a text.
pub fn words_of<'a>(s: &'a [char]) -> (r: Vec<&'a [char]>)
    ensures
        texts_of(r@) == words(s@),
{
    let mut out: Vec<&'a [char]> = Vec::new();
    let mut i: usize = 0;
    proof {
        assert(s@.skip(0) =~= s@);
        assert(texts_of(out@) + words(s@) =~= words(s@));
    }
    while i < s.len()
        invariant
            i <= s@.len(),
            texts_of(out@) + words(s@.skip(i as int)) == words(s@),
        decreases s@.len() - i,
    {
        let ghost rest = s@.skip(i as int);
        if is_whitespace(s[i]) {
            proof {
                assert(rest.drop_first() =~= s@.skip(i + 1));
            }
            i = i + 1;
        } else {
            let mut k: usize = i;
            while k < s.len() && !is_whitespace(s[k])
                invariant
                    i <= k <= s@.len(),
                    forall|j: int| i <= j < k ==> !whitespace(#[trigger] s@[j]),
                decreases s@.len() - k,
            {
                k = k + 1;
            }
            let piece = slice_subrange(s, i, k);
            let ghost before = out@;
            out.push(piece);
            proof {
                assert forall|j: int| 0 <= j < k - i implies !whitespace(#[trigger] rest[j]) by {
                    assert(rest[j] == s@[i + j]);
                }
                lemma_word_len(rest, k - i);
                assert(rest.take(k - i) =~= piece@);
                assert(rest.skip(k - i) =~= s@.skip(k as int));
                assert(texts_of(out@) =~= texts_of(before) + seq![piece@]);
                assert(texts_of(out@) + words(s@.skip(k as int)) =~= texts_of(before) + (
                seq![piece@] + words(s@.skip(k as int))));
            }
            i = k;
        }
    }
    proof {
        assert(s@.skip(i as int) =~= Seq::<char>::empty());
        assert(texts_of(out@) + words(s@.skip(i as int)) =~= texts_of(out@));
    }
    out
}

/// Texts put end to end with `sep` between neighbours.
pub open spec fn joined(parts: Seq<Seq<char>>, sep: Seq<char>) -> Seq<char>
    decreases parts.len(),
{
    if parts.len() == 0 {
        Seq::empty()
    } else if parts.len() == 1 {
        parts[0]
    } else {
        joined(parts.drop_last(), sep) + sep + parts.last()
    }
}

/// Joins texts with a separator.
pub fn join_texts(parts: &[&[char]], sep: &[char]) -> (out: Vec<char>)
    ensures
        out@ == joined(texts_of(parts@), sep@),
{
    let mut out: Vec<char> = Vec::new();
    let mut i: usize = 0;
    proof {
        assert(texts_of(parts@).take(0) =~= Seq::<Seq<char>>::empty());
    }
    while i < parts.len()
        invariant
            i <= parts@.len(),
            out@ == joined(texts_of(parts@).take(i as int), sep@),
        decreases parts@.len() - i,
    {
        let ghost t = texts_of(parts@);
        let ghost before = out@;
        if i > 0 {
            push_all(&mut out, sep);
        }
        push_all(&mut out, parts[i]);
        proof {
            assert(t.take(i + 1).drop_last() =~= t.take(i as int));
            assert(t.take(i + 1).last() == parts@[i as int]@);
            if i == 0 {
                assert(out@ =~= parts@[i as int]@);
            }
        }
        i = i + 1;
    }
    proof {
        assert(texts_of(parts@).take(i as int) =~= texts_of(parts@));
    }
    out
}

/// An ASCII decimal digit.
pub open spec fn digit(c: char) -> bool {
    '0' <= c <= '9'
}

/// Only digits.
pub open spec fn all_digits(s: Seq<char>) -> bool {
    forall|i: int| 0 <= i < s.len() ==> digit(#[trigger] s[i])
}

/// The number that a run of digits stands for.
pub open spec fn digits_value(s: Seq<char>) -> nat
    decreases s.len(),
{
    if s.len() == 0 {
        0
    } else {
        (digits_value(s.drop_last()) * 10 + (s.last() as int - '0' as int)) as nat
    }
}

/// The number that a decimal integer with an optional sign stands for.
pub open spec fn int_value(s: Seq<char>) -> Option<int> {
    let signed = s.len() > 0 && (s[0] == '-' || s[0] == '+');
    let body = if signed {
        s.drop_first()
    } else {
        s
    };
    if body.len() > 0 && all_digits(body) {
        if signed && s[0] == '-' {
            Some(-(digits_value(body) as int))
        } else {
            Some(digits_value(body) as int)
        }
    } else {
        None
    }
}

proof fn lemma_digits_grow(s: Seq<char>, i: int)
    requires
        0 <= i <= s.len(),
        all_digits(s),
    ensures
        digits_value(s.take(i)) <= digits_value(s),
    decreases s.len(),
{
    if i == s.len() {
        assert(s.take(i) =~= s);
    } else {
        assert(s.drop_last().take(i) =~= s.take(i));
        assert forall|k: int| 0 <= k < s.drop_last().len() implies digit(
            #[trigger] s.drop_last()[k],
        ) by {
            assert(s[k] == s.drop_last()[k]);
        }
        assert(digit(s[s.len() - 1]));
        lemma_digits_grow(s.drop_last(), i);
    }
}

/// Reads a run of digits whose value is at most `limit`.
pub fn parse_digits(s: &[char], limit: u64) -> (r: Option<u64>)
    ensures
        match r {
            Some(v) => s@.len() > 0 && all_digits(s@) && v == digits_value(s@) && v <= limit,
            None => !(s@.len() > 0 && all_digits(s@) && digits_value(s@) <= limit),
        },
{
    if s.len() == 0 {
        return None;
    }
    let mut v: u64 = 0;
    let mut i: usize = 0;
    proof {
        assert(s@.take(0) =~= Seq::<char>::empty());
    }
    while i < s.len()
        invariant
            i <= s@.len(),
            v == digits_value(s@.take(i as int)),
            v <= limit,
            forall|k: int| 0 <= k < i ==> digit(#[trigger] s@[k]),
        decreases s@.len() - i,
    {
        let c = s[i];
        if !('0' <= c && c <= '9') {
            proof {
                assert(!digit(s@[i as int]));
            }
            return None;
        }
        let d: u64 = (c as u8 - 48) as u64;
        let wide: u128 = (v as u128) * 10 + (d as u128);
        proof {
            assert(s@.take(i + 1).drop_last() =~= s@.take(i as int));
            assert(digits_value(s@.take(i + 1)) == wide);
        }
        if wide > limit as u128 {
            proof {
                if all_digits(s@) {
                    lemma_digits_grow(s@, i + 1);
                }
            }
            return None;
        }
        v = wide as u64;
        i = i + 1;
    }
    proof {
        assert(s@.take(i as int) =~= s@);
    }
    Some(v)
}

/// Reads a signed decimal integer that fits in 64 bits.
pub fn parse_i64(s: &[char]) -> (r: Option<i64>)
    ensures
        match r {
            Some(v) => int_value(s@) == Some(v as int),
            None => match int_value(s@) {
                Some(w) => w < i64::MIN || w > i64::MAX,
                None => true,
            },
        },
{
    if s.len() == 0 {
        return None;
    }
    let first = s[0];
    if first == '-' || first == '+' {
        let body = slice_subrange(s, 1, s.len());
        proof {
            assert(body@ =~= s@.drop_first());
        }
        if first == '-' {
            match parse_digits(body, 0x8000_0000_0000_0000) {
                Some(v) => {
                    if v == 0x8000_0000_0000_0000 {
                        Some(i64::MIN)
                    } else {
                        Some(-(v as i64))
                    }
                },
                None => None,
            }
        } else {
            match parse_digits(body, 0x7fff_ffff_ffff_ffff) {
                Some(v) => Some(v as i64),
                None => None,
            }
        }
    } else {
        match parse_digits(s, 0x7fff_ffff_ffff_ffff) {
            Some(v) => Some(v as i64),
            None => None,
        }
    }
}

/// The position of the first `c`.
pub open spec fn first_index(s: Seq<char>, c: char) -> Option<int>
    decreases s.len(),
{
    if s.len() == 0 {
        None
    } else if s[0] == c {
        Some(0)
    } else {
        match first_index(s.drop_first(), c) {
            Some(i) => Some(i + 1),
            None => None,
        }
    }
}

/// The position of the last `c`.
pub open spec fn last_index(s: Seq<char>, c: char) -> Option<int>
    decreases s.len(),
{
    if s.len() == 0 {
        None
    } else if s.last() == c {
        Some(s.len() - 1)
    } else {
        last_index(s.drop_last(), c)
    }
}

/// Finds the first `c`.
pub fn find_char(s: &[char], c: char) -> (r: Option<usize>)
    ensures
        match r {
            Some(i) => first_index(s@, c) == Some(i as int) && i < s@.len() && s@[i as int] == c,
            None => first_index(s@, c) is None,
        },
{
    let mut i: usize = 0;
    proof {
        assert(s@.skip(0) =~= s@);
    }
    while i < s.len()
        invariant
            i <= s@.len(),
            first_index(s@, c) == match first_index(s@.skip(i as int), c) {
                Some(k) => Some(k + i),
                None => None,
            },
        decreases s@.len() - i,
    {
        if s[i] == c {
            return Some(i);
        }
        proof {
            assert(s@.skip(i as int).drop_first() =~= s@.skip(i + 1));
        }
        i = i + 1;
    }
    None
}

/// Finds the last `c`.
pub fn rfind_char(s: &[char], c: char) -> (r: Option<usize>)
    ensures
        match r {
            Some(i) => last_index(s@, c) == Some(i as int) && i < s@.len() && s@[i as int] == c,
            None => last_index(s@, c) is None,
        },
{
    let mut i: usize = s.len();
    proof {
        assert(s@.take(i as int) =~= s@);
    }
    while i > 0
        invariant
            i <= s@.len(),
            last_index(s@, c) == last_index(s@.take(i as int), c),
        decreases i,
    {
        if s[i - 1] == c {
            return Some(i - 1);
        }
        proof {
            assert(s@.take(i as int).drop_last() =~= s@.take(i - 1));
        }
        i = i - 1;
    }
    None
}

/// How often `c` occurs.
pub open spec fn count_of(s: Seq<char>, c: char) -> nat
    decreases s.len(),
{
    if s.len() == 0 {
        0
    } else {
        count_of(s.drop_last(), c) + if s.last() == c {
            1nat
        } else {
            0nat
        }
    }
}

/// Counts the occurrences of `c`.
pub fn count_char(s: &[char], c: char) -> (n: usize)
    ensures
        n == count_of(s@, c),
{
    let mut n: usize = 0;
    let mut i: usize = 0;
    while i < s.len()
        invariant
            i <= s@.len(),
            n <= i,
            n == count_of(s@.take(i as int), c),
        decreases s@.len() - i,
    {
        proof {
            assert(s@.take(i + 1).drop_last() =~= s@.take(i as int));
        }
        if s[i] == c {
            n = n + 1;
        }
        i = i + 1;
    }
    proof {
        assert(s@.take(i as int) =~= s@);
    }
    n
}

/// `a` comes before `b` in code point order, character by character; a proper prefix comes first.
pub open spec fn lex_lt(a: Seq<char>, b: Seq<char>) -> bool
    decreases a.len(),
{
    if b.len() == 0 {
        false
    } else if a.len() == 0 {
        true
    } else if a[0] == b[0] {
        lex_lt(a.drop_first(), b.drop_first())
    } else {
        a[0] < b[0]
    }
}

/// Code point order is total on texts.
pub proof fn lemma_lex_total(a: Seq<char>, b: Seq<char>)
    ensures
        lex_lt(a, b) || lex_lt(b, a) || a == b,
        !(lex_lt(a, b) && lex_lt(b, a)),
        lex_lt(a, b) ==> a != b,
    decreases a.len(),
{
    if a.len() == 0 || b.len() == 0 {
        if a.len() == 0 && b.len() == 0 {
            assert(a =~= b);
        }
    } else if a[0] == b[0] {
        lemma_lex_total(a.drop_first(), b.drop_first());
        if a.drop_first() == b.drop_first() {
            assert(a =~= seq![a[0]] + a.drop_first());
            assert(b =~= seq![b[0]] + b.drop_first());
        }
    }
}

/// Code point order is transitive.
pub proof fn lemma_lex_transitive(a: Seq<char>, b: Seq<char>, c: Seq<char>)
    requires
        lex_lt(a, b),
        lex_lt(b, c),
    ensures
        lex_lt(a, c),
    decreases a.len(),
{
    if a.len() > 0 && a[0] == b[0] && b[0] == c[0] {
        lemma_lex_transitive(a.drop_first(), b.drop_first(), c.drop_first());
    }
}

/// Whether `a` comes before `b`.
pub fn lex_less(a: &[char], b: &[char]) -> (r: bool)
    ensures
        r == lex_lt(a@, b@),
{
    let mut i: usize = 0;
    proof {
        assert(a@.skip(0) =~= a@);
        assert(b@.skip(0) =~= b@);
    }
    while i < a.len() && i < b.len()
        invariant
            i <= a@.len(),
            i <= b@.len(),
            lex_lt(a@, b@) == lex_lt(a@.skip(i as int), b@.skip(i as int)),
        decreases a@.len() - i,
    {
        if a[i] != b[i] {
            return a[i] < b[i];
        }
        proof {
            assert(a@.skip(i as int).drop_first() =~= a@.skip(i + 1));
            assert(b@.skip(i as int).drop_first() =~= b@.skip(i + 1));
        }
        i = i + 1;
    }
    i < b.len()
}

/// Strictly ascending in code point order.
pub open spec fn ascending(v: Seq<Seq<char>>) -> bool {
    forall|i: int, j: int| 0 <= i < j < v.len() ==> lex_lt(#[trigger] v[i], #[trigger] v[j])
}

/// Adds a text to an ascending list unless it is there.
pub fn insert_ascending(v: &mut Vec<String>, s: String)
    requires
        ascending(strings_of(old(v)@)),
    ensures
        ascending(strings_of(final(v)@)),
        forall|t: Seq<char>| #[trigger]
            strings_of(final(v)@).contains(t) <==> strings_of(old(v)@).contains(t) || t == s@,
{
    let sc = chars_of(s.as_str());
    let ghost old_texts = strings_of(old(v)@);
    let mut i: usize = 0;
    while i < v.len()
        invariant
            i <= v@.len(),
            *v == *old(v),
            sc@ == s@,
            old_texts == strings_of(v@),
            ascending(old_texts),
            forall|k: int| 0 <= k < i ==> lex_lt(#[trigger] old_texts[k], s@),
        decreases v@.len() - i,
    {
        let c = chars_of(v[i].as_str());
        proof {
            assert(old_texts[i as int] == v@[i as int]@);
            lemma_lex_total(c@, s@);
        }
        if !lex_less(c.as_slice(), sc.as_slice()) {
            if same_text(c.as_slice(), sc.as_slice()) {
                proof {
                    assert(old_texts[i as int] == s@);
                }
                return ;
            }
            proof {
                assert forall|k: int| i <= k < old_texts.len() implies lex_lt(
                    s@,
                    #[trigger] old_texts[k],
                ) by {
                    if k > i {
                        lemma_lex_transitive(s@, old_texts[i as int], old_texts[k]);
                    }
                }
            }
            v.insert(i, s);
            proof {
                lemma_insert_ascending(old_texts, s@, i as int);
                assert(strings_of(v@) =~= old_texts.insert(i as int, s@));
            }
            return ;
        }
        i = i + 1;
    }
    v.push(s);
    proof {
        lemma_insert_ascending(old_texts, s@, i as int);
        assert(strings_of(v@) =~= old_texts.insert(i as int, s@));
    }
}

proof fn lemma_insert_ascending(v: Seq<Seq<char>>, s: Seq<char>, i: int)
    requires
        ascending(v),
        0 <= i <= v.len(),
        forall|k: int| 0 <= k < i ==> lex_lt(#[trigger] v[k], s),
        forall|k: int| i <= k < v.len() ==> lex_lt(s, #[trigger] v[k]),
    ensures
        ascending(v.insert(i, s)),
        forall|t: Seq<char>| #[trigger] v.insert(i, s).contains(t) <==> v.contains(t) || t == s,
{
    let w = v.insert(i, s);
    assert forall|a: int, b: int| 0 <= a < b < w.len() implies lex_lt(#[trigger] w[a], #[trigger] w[b]) by {
        let fa = if a < i { a } else { a - 1 };
        let fb = if b < i { b } else { b - 1 };
        if a == i {
            assert(w[b] == v[fb]);
        } else if b == i {
            assert(w[a] == v[fa]);
        } else {
            assert(w[a] == v[fa]);
            assert(w[b] == v[fb]);
        }
    }
    assert forall|t: Seq<char>| #[trigger] w.contains(t) <==> v.contains(t) || t == s by {
        if v.contains(t) {
            let k = choose|k: int| 0 <= k < v.len() && v[k] == t;
            if k < i {
                assert(w[k] == t);
            } else {
                assert(w[k + 1] == t);
            }
        }
        assert(w[i] == s);
        if w.contains(t) && t != s {
            let k = choose|k: int| 0 <= k < w.len() && w[k] == t;
            if k < i {
                assert(v[k] == t);
            } else {
                assert(v[k - 1] == t);
            }
        }
    }
}

/// The digit character of a number below ten.
pub open spec fn digit_char(d: int) -> char {
    (('0' as int + d) as u8) as char
}

/// A number in decimal.
pub open spec fn decimal(n: nat) -> Seq<char>
    decreases n,
{
    if n < 10 {
        seq![digit_char(n as int)]
    } else {
        decimal(n / 10).push(digit_char((n % 10) as int))
    }
}

/// Writes a number in decimal.
pub fn decimal_of(n: u64) -> (s: Vec<char>)
    ensures
        s@ == decimal(n as nat),
    decreases n,
{
    let d: u8 = (n % 10) as u8;
    let c = (48 + d) as char;
    proof {
        assert(c == digit_char((n % 10) as int));
    }
    if n < 10 {
        let mut out: Vec<char> = Vec::new();
        out.push(c);
        proof {
            assert(out@ =~= seq![c]);
        }
        out
    } else {
        let mut out = decimal_of(n / 10);
        out.push(c);
        out
    }
}

/// Writes a number in decimal as a string.
pub fn decimal_string(n: u64) -> (s: String)
    ensures
        s@ == decimal(n as nat),
{
    let d = decimal_of(n);
    string_of(d.as_slice())
}

/// A decimal number reads back as the number.
pub proof fn law_decimal_reads_back(n: nat)
    ensures
        decimal(n).len() > 0,
        all_digits(decimal(n)),
        digits_value(decimal(n)) == n,
    decreases n,
{
    if n < 10 {
        let s = decimal(n);
        assert(s.drop_last() =~= Seq::<char>::empty());
        assert(digits_value(s.drop_last()) == 0);
        assert(s.last() as int == '0' as int + n);
        assert(digit(s[0]));
    } else {
        law_decimal_reads_back(n / 10);
        let s = decimal(n);
        let head = decimal(n / 10);
        assert(s.drop_last() =~= head);
        assert(s.last() as int == '0' as int + n % 10);
        assert forall|i: int| 0 <= i < s.len() implies digit(#[trigger] s[i]) by {
            if i < head.len() {
                assert(digit(head[i]));
            }
        }
    }
}

/// Whether a string slice holds exactly this text.
pub fn str_is(s: &str, t: &str) -> (b: bool)
    ensures
        b == (s@ == t@),
{
    let a = chars_of(s);
    let c = chars_of(t);
    same_text(a.as_slice(), c.as_slice())
}

/// Whether two texts are equal but for the case of ASCII letters.
pub fn same_ignoring_case(a: &[char], b: &[char]) -> (r: bool)
    ensures
        r == (ascii_lower(a@) == ascii_lower(b@)),
{
    let x = to_ascii_lower(a);
    let y = to_ascii_lower(b);
    same_text(x.as_slice(), y.as_slice())
}

/// Whether a text begins with a string.
pub fn has_str_prefix(s: &[char], p: &str) -> (b: bool)
    ensures
        b == starts_with(s@, p@),
{
    let pc = chars_of(p);
    has_prefix(s, pc.as_slice())
}

/// Whether a text ends with a string.
pub fn has_str_suffix(s: &[char], p: &str) -> (b: bool)
    ensures
        b == ends_with(s@, p@),
{
    let pc = chars_of(p);
    has_suffix(s, pc.as_slice())
}

/// Whether a string occurs in a text.
pub fn has_str(s: &[char], p: &str) -> (b: bool)
    ensures
        b == contains(s@, p@),
{
    let pc = chars_of(p);
    has_sub(s, pc.as_slice())
}

/// A list of texts with one more, put behind those that do not come after it.
pub open spec fn placed(s: Seq<Seq<char>>, x: Seq<char>) -> Seq<Seq<char>>
    decreases s.len(),
{
    if s.len() == 0 || !lex_lt(x, s.last()) {
        s.push(x)
    } else {
        placed(s.drop_last(), x).push(s.last())
    }
}

/// A list of texts in code point order.
pub open spec fn ordered(s: Seq<Seq<char>>) -> Seq<Seq<char>>
    decreases s.len(),
{
    if s.len() == 0 {
        s
    } else {
        placed(ordered(s.drop_last()), s.last())
    }
}

/// Adds a text to a list, behind those that do not come after it.
pub fn place_text(v: &mut Vec<String>, x: String)
    ensures
        strings_of(final(v)@) == placed(strings_of(old(v)@), x@),
{
    let xc = chars_of(x.as_str());
    let ghost all = strings_of(v@);
    let ghost before = v@;
    let mut i: usize = v.len();
    proof {
        assert(all.take(i as int) =~= all);
        assert(all.skip(i as int) =~= Seq::<Seq<char>>::empty());
        assert(placed(all, x@) =~= placed(all, x@) + Seq::<Seq<char>>::empty());
    }
    while i > 0
        invariant
            i <= v@.len(),
            v@ == before,
            all == strings_of(before),
            xc@ == x@,
            placed(all, x@) == placed(all.take(i as int), x@) + all.skip(i as int),
        ensures
            i <= v@.len(),
            v@ == before,
            placed(all, x@) == all.take(i as int).push(x@) + all.skip(i as int),
        decreases i,
    {
        let c = chars_of(v[i - 1].as_str());
        proof {
            assert(all.take(i as int).last() == v@[i - 1]@);
            assert(all.take(i as int).drop_last() =~= all.take(i - 1));
        }
        if !lex_less(xc.as_slice(), c.as_slice()) {
            break;
        }
        proof {
            let p = placed(all.take(i - 1), x@);
            assert(p.push(all[i - 1]) + all.skip(i as int) =~= p + all.skip(i - 1));
        }
        i = i - 1;
    }
    v.insert(i, x);
    proof {
        assert(strings_of(v@) =~= all.take(i as int).push(x@) + all.skip(i as int));
    }
}

/// In code point order, with repetitions.
pub open spec fn non_descending(s: Seq<Seq<char>>) -> bool {
    forall|i: int, j: int| 0 <= i < j < s.len() ==> !lex_lt(#[trigger] s[j], #[trigger] s[i])
}

proof fn lemma_placed(s: Seq<Seq<char>>, x: Seq<char>)
    requires
        non_descending(s),
    ensures
        non_descending(placed(s, x)),
        placed(s, x).to_multiset() == s.to_multiset().insert(x),
        placed(s, x).len() == s.len() + 1,
        forall|i: int|
            0 <= i < placed(s, x).len() ==> #[trigger] placed(s, x)[i] == x || s.contains(
                placed(s, x)[i],
            ),
    decreases s.len(),
{
    broadcast use vstd::seq_lib::group_to_multiset_ensures;

    let p = placed(s, x);
    if s.len() == 0 || !lex_lt(x, s.last()) {
        assert forall|i: int, j: int| 0 <= i < j < p.len() implies !lex_lt(
            #[trigger] p[j],
            #[trigger] p[i],
        ) by {
            if j == s.len() && lex_lt(x, s[i]) {
                if i < s.len() - 1 {
                    lemma_lex_total(s[i], s.last());
                    if s[i] != s.last() {
                        lemma_lex_transitive(x, s[i], s.last());
                    }
                }
            }
        }
        assert forall|i: int| 0 <= i < p.len() implies #[trigger] p[i] == x || s.contains(p[i]) by {
            if i < s.len() {
                assert(p[i] == s[i]);
            }
        }
    } else {
        let head = s.drop_last();
        assert(non_descending(head));
        lemma_placed(head, x);
        let q = placed(head, x);
        assert(p == q.push(s.last()));
        assert(s =~= head.push(s.last()));
        assert(s.to_multiset() =~= head.to_multiset().insert(s.last()));
        assert(p.to_multiset() =~= s.to_multiset().insert(x));
        assert forall|i: int, j: int| 0 <= i < j < p.len() implies !lex_lt(
            #[trigger] p[j],
            #[trigger] p[i],
        ) by {
            if j == q.len() {
                assert(p[i] == q[i]);
                if q[i] == x {
                    if lex_lt(s.last(), x) {
                        lemma_lex_transitive(s.last(), x, s.last());
                        lemma_lex_irreflexive(s.last());
                    }
                } else {
                    let k = choose|k: int| 0 <= k < head.len() && head[k] == q[i];
                    assert(s[k] == q[i]);
                }
            } else {
                assert(p[i] == q[i] && p[j] == q[j]);
            }
        }
        assert forall|i: int| 0 <= i < p.len() implies #[trigger] p[i] == x || s.contains(p[i]) by {
            if i < q.len() {
                assert(p[i] == q[i]);
                if q[i] != x {
                    let k = choose|k: int| 0 <= k < head.len() && head[k] == q[i];
                    assert(s[k] == p[i]);
                }
            } else {
                assert(s[s.len() - 1] == p[i]);
            }
        }
    }
}

proof fn lemma_lex_irreflexive(a: Seq<char>)
    ensures
        !lex_lt(a, a),
    decreases a.len(),
{
    if a.len() > 0 {
        lemma_lex_irreflexive(a.drop_first());
    }
}

/// Ordering texts loses and invents none, and leaves them in code point order.
pub proof fn law_ordered(s: Seq<Seq<char>>)
    ensures
        non_descending(ordered(s)),
        ordered(s).to_multiset() == s.to_multiset(),
    decreases s.len(),
{
    broadcast use vstd::seq_lib::group_to_multiset_ensures;

    if s.len() > 0 {
        law_ordered(s.drop_last());
        lemma_placed(ordered(s.drop_last()), s.last());
        assert(s =~= s.drop_last().push(s.last()));
        assert(s.to_multiset() =~= s.drop_last().to_multiset().insert(s.last()));
    }
}

/// Joins strings with a separator.
pub fn join_strings(parts: &Vec<String>, sep: &str) -> (r: String)
    ensures
        r@ == joined(strings_of(parts@), sep@),
{
    let ghost all = strings_of(parts@);
    let mut out = string_of(&[]);
    let mut i: usize = 0;
    proof {
        assert(all.take(0) =~= Seq::<Seq<char>>::empty());
        assert(out@ =~= Seq::<char>::empty());
    }
    while i < parts.len()
        invariant
            i <= parts@.len(),
            all == strings_of(parts@),
            out@ == joined(all.take(i as int), sep@),
        decreases parts@.len() - i,
    {
        proof {
            assert(all.take(i + 1).drop_last() =~= all.take(i as int));
            assert(all.take(i + 1).last() == parts@[i as int]@);
        }
        if i > 0 {
            out.append(sep);
        } else {
            proof {
                assert(out@ + all[0] =~= all[0]);
            }
        }
        out.append(parts[i].as_str());
        i = i + 1;
    }
    proof {
        assert(all.take(i as int) =~= all);
    }
    out
}

/// The value of a text that is an unsigned number up to `limit`, with or without a plus sign.
pub open spec fn unsigned(s: Seq<char>, limit: int) -> Option<int> {
    match int_value(s) {
        Some(n) => if 0 <= n <= limit && s[0] != '-' {
            Some(n)
        } else {
            None
        },
        None => None,
    }
}

/// Reads an unsigned number up to `limit`.
pub fn parse_unsigned(s: &[char], limit: u64) -> (r: Option<u64>)
    ensures
        match r {
            Some(v) => unsigned(s@, limit as int) == Some(v as int),
            None => unsigned(s@, limit as int) is None,
        },
{
    let n: usize = s.len();
    if n == 0 || s[0] == '-' {
        return None;
    }
    if s[0] == '+' {
        let body = slice_subrange(s, 1, n);
        proof {
            assert(body@ =~= s@.drop_first());
        }
        parse_digits(body, limit)
    } else {
        parse_digits(s, limit)
    }
}

/// At most the first `n` characters.
pub open spec fn head(s: Seq<char>, n: int) -> Seq<char> {
    if s.len() <= n {
        s
    } else {
        s.take(n)
    }
}

/// At most the first `n` characters of a text.
pub fn head_text(s: &str, n: usize) -> (r: String)
    ensures
        r@ == head(s@, n as int),
{
    let c = chars_of(s);
    if c.len() <= n {
        return string_of(c.as_slice());
    }
    let h = slice_subrange(c.as_slice(), 0, n);
    proof {
        assert(h@ =~= s@.take(n as int));
    }
    string_of(h)
}

/// Every character is an ASCII character.
pub open spec fn all_ascii(s: Seq<char>) -> bool {
    forall|i: int| 0 <= i < s.len() ==> (#[trigger] s[i]) as u32 <= 127
}

/// The Unicode lower case of a text.
pub uninterp spec fn unicode_lower(s: Seq<char>) -> Seq<char>;

/// A text in lower case.
pub open spec fn lower_text(s: Seq<char>) -> Seq<char> {
    if all_ascii(s) {
        ascii_lower(s)
    } else {
        unicode_lower(s)
    }
}

/// Turns a text to lower case with `str::to_lowercase`.
///
/// Claimed of it: in a text of ASCII characters the letters `A` to `Z` become `a` to `z`, and any
/// other result depends on the text alone. The Unicode case mapping is not described.
#[verifier::external_body]
pub(crate) fn lowercase(s: &str) -> (r: String)
    ensures
        all_ascii(s@) ==> r@ == ascii_lower(s@),
        !all_ascii(s@) ==> r@ == unicode_lower(s@),
{
    s.to_lowercase()
}

/// The text of bytes, with what is not UTF-8 replaced.
pub uninterp spec fn lossy_text(bytes: Seq<u8>) -> Seq<char>;

/// Decodes bytes with `String::from_utf8_lossy`.
///
/// Claimed of it: the text depends on the bytes alone, and bytes that are UTF-8 decode to the
/// text that they encode. How other bytes are replaced is not described.
#[verifier::external_body]
pub(crate) fn decode_lossy(bytes: &[u8]) -> (r: String)
    ensures
        r@ == lossy_text(bytes@),
        vstd::utf8::valid_utf8(bytes@) ==> vstd::utf8::encode_utf8(r@) == bytes@,
{
    String::from_utf8_lossy(bytes).to_string()
}

/// Decodes bytes with `std::str::from_utf8`.
///
/// Claimed of it: bytes that are UTF-8, and only those, decode, and to the text that they encode.
#[verifier::external_body]
pub(crate) fn decode_utf8(bytes: &[u8]) -> (r: Option<String>)
    ensures
        match r {
            Some(s) => vstd::utf8::valid_utf8(bytes@) && s@ == vstd::utf8::decode_utf8(bytes@),
            None => !vstd::utf8::valid_utf8(bytes@),
        },
{
    match std::str::from_utf8(bytes) {
        Ok(s) => Some(s.to_string()),
        Err(_) => None,
    }
}

/// The text of an optional string.
pub open spec fn opt_text(s: Option<String>) -> Option<Seq<char>> {
    match s {
        Some(t) => Some(t@),
        None => None,
    }
}

/// A character does not occur in a text.
pub open spec fn free_of(s: Seq<char>, c: char) -> bool {
    forall|i: int| 0 <= i < s.len() ==> #[trigger] s[i] != c
}

/// A text is split at every occurrence of a character: a part without it is the first, and what is
/// behind the first occurrence is split alike.
pub proof fn law_splitting_at_a_character(a: Seq<char>, b: Seq<char>, c: char)
    requires
        free_of(a, c),
    ensures
        split(a, seq![c]) == seq![a],
        split(a + seq![c] + b, seq![c]) == seq![a] + split(b, seq![c]),
{
    let p = seq![c];
    lemma_find_from(a, p, 0);
    if let Some(k) = find_from(a, p, 0) {
        assert(a.subrange(k, k + 1)[0] == a[k]);
        assert(p[0] == c);
    }
    let s = a + p + b;
    let n = a.len() as int;
    lemma_find_from(s, p, 0);
    assert(s.subrange(n, n + 1) =~= p);
    assert(occurs_at(s, p, n));
    match find_from(s, p, 0) {
        Some(k) => {
            assert(s.subrange(k, k + 1)[0] == s[k]);
            assert(p[0] == c);
            if k < n {
                assert(s[k] == a[k]);
            }
            assert(k <= n);
            assert(k == n);
            assert(s.take(n) =~= a);
            assert(s.skip(n + 1) =~= b);
        },
        None => {},
    }
}

/// Replacing a character by another changes it everywhere, and nothing else.
pub proof fn law_replacing_a_character(s: Seq<char>, x: char, y: char)
    ensures
        replaced(s, seq![x], seq![y]).len() == s.len(),
        forall|i: int|
            0 <= i < s.len() ==> #[trigger] replaced(s, seq![x], seq![y])[i] == (if s[i] == x {
                y
            } else {
                s[i]
            }),
    decreases s.len(),
{
    if s.len() > 0 {
        let t = s.drop_first();
        law_replacing_a_character(t, x, y);
        let r = replaced(s, seq![x], seq![y]);
        let q = replaced(t, seq![x], seq![y]);
        assert(s.subrange(0, 1) =~= seq![s[0]]);
        assert(seq![s[0]][0] == s[0] && seq![x][0] == x);
        assert(occurs_at(s, seq![x], 0) <==> s[0] == x);
        assert(s.skip(1) =~= t);
        assert forall|i: int| 0 <= i < s.len() implies #[trigger] r[i] == (if s[i] == x {
            y
        } else {
            s[i]
        }) by {
            if i > 0 {
                assert(r[i] == q[i - 1]);
                assert(t[i - 1] == s[i]);
            }
        }
    }
}

/// The first place of a character is where it occurs, and it occurs nowhere before; the last place
/// is where it occurs, and it occurs nowhere behind.
pub proof fn law_places_of_a_character(s: Seq<char>, c: char)
    ensures
        match first_index(s, c) {
            Some(i) => 0 <= i < s.len() && s[i] == c && forall|j: int|
                0 <= j < i ==> #[trigger] s[j] != c,
            None => free_of(s, c),
        },
        match last_index(s, c) {
            Some(i) => 0 <= i < s.len() && s[i] == c && forall|j: int|
                i < j < s.len() ==> #[trigger] s[j] != c,
            None => free_of(s, c),
        },
    decreases s.len(),
{
    if s.len() > 0 {
        lemma_first_place(s, c);
        lemma_last_place(s, c);
    }
}

proof fn lemma_first_place(s: Seq<char>, c: char)
    ensures
        match first_index(s, c) {
            Some(i) => 0 <= i < s.len() && s[i] == c && forall|j: int|
                0 <= j < i ==> #[trigger] s[j] != c,
            None => free_of(s, c),
        },
    decreases s.len(),
{
    if s.len() > 0 && s[0] != c {
        let t = s.drop_first();
        lemma_first_place(t, c);
        match first_index(t, c) {
            Some(i) => {
                assert(s[i + 1] == t[i]);
                assert forall|j: int| 0 <= j < i + 1 implies #[trigger] s[j] != c by {
                    if j > 0 {
                        assert(t[j - 1] == s[j]);
                    }
                }
            },
            None => {
                assert forall|j: int| 0 <= j < s.len() implies #[trigger] s[j] != c by {
                    if j > 0 {
                        assert(t[j - 1] == s[j]);
                    }
                }
            },
        }
    }
}

proof fn lemma_last_place(s: Seq<char>, c: char)
    ensures
        match last_index(s, c) {
            Some(i) => 0 <= i < s.len() && s[i] == c && forall|j: int|
                i < j < s.len() ==> #[trigger] s[j] != c,
            None => free_of(s, c),
        },
    decreases s.len(),
{
    if s.len() > 0 && s.last() != c {
        let t = s.drop_last();
        lemma_last_place(t, c);
        match last_index(t, c) {
            Some(i) => {
                assert(s[i] == t[i]);
                assert forall|j: int| i < j < s.len() implies #[trigger] s[j] != c by {
                    if j < t.len() {
                        assert(t[j] == s[j]);
                    }
                }
            },
            None => {
                assert forall|j: int| 0 <= j < s.len() implies #[trigger] s[j] != c by {
                    if j < t.len() {
                        assert(t[j] == s[j]);
                    }
                }
            },
        }
    }
}

/// Joined texts follow each other with the separator between each two: a list of two is both with
/// the separator between them, and a text more adds the separator and the text.
pub proof fn law_joining(parts: Seq<Seq<char>>, a: Seq<char>, b: Seq<char>, sep: Seq<char>)
    ensures
        joined(seq![a], sep) == a,
        joined(seq![a, b], sep) == a + sep + b,
        parts.len() > 0 ==> joined(parts.push(b), sep) == joined(parts, sep) + sep + b,
        joined(Seq::<Seq<char>>::empty(), sep) == Seq::<char>::empty(),
{
    reveal_with_fuel(joined, 2);
    assert(seq![a, b].drop_last() =~= seq![a]);
    assert(parts.push(b).drop_last() =~= parts);
}

/// Splitting at a character goes part by part: what stands on both sides of one is split on its
/// own.
pub proof fn law_splitting_goes_part_by_part(a: Seq<char>, b: Seq<char>, c: char)
    ensures
        split(a + seq![c] + b, seq![c]) == split(a, seq![c]) + split(b, seq![c]),
    decreases a.len(),
{
    law_places_of_a_character(a, c);
    match first_index(a, c) {
        None => {
            law_splitting_at_a_character(a, b, c);
        },
        Some(i) => {
            let (x, y) = (a.take(i), a.skip(i + 1));
            assert(free_of(x, c));
            assert(a =~= x + seq![c] + y);
            assert(a + seq![c] + b =~= x + seq![c] + (y + seq![c] + b));
            law_splitting_at_a_character(x, y, c);
            law_splitting_at_a_character(x, y + seq![c] + b, c);
            law_splitting_goes_part_by_part(y, b, c);
            assert(seq![x] + (split(y, seq![c]) + split(b, seq![c])) =~= (seq![x] + split(
                y,
                seq![c],
            )) + split(b, seq![c]));
        },
    }
}

/// The head of a text is its beginning, as far as it is allowed to go.
pub proof fn law_heads_are_beginnings(s: Seq<char>, n: int)
    requires
        n >= 0,
    ensures
        head(s, n).len() <= n,
        head(s, n).len() == n || head(s, n) == s,
        forall|i: int| 0 <= i < head(s, n).len() ==> #[trigger] head(s, n)[i] == s[i],
{
}

/// A number that is written out reads back, with either sign; without a sign it is read as far as
/// the limit goes, and behind a minus sign not at all.
pub proof fn law_numbers_read_back(n: nat, limit: int)
    ensures
        int_value(decimal(n)) == Some(n as int),
        int_value(seq!['+'] + decimal(n)) == Some(n as int),
        int_value(seq!['-'] + decimal(n)) == Some(-(n as int)),
        unsigned(decimal(n), limit) == (if n <= limit {
            Some(n as int)
        } else {
            None
        }),
        unsigned(seq!['-'] + decimal(n), limit) is None,
{
    law_decimal_reads_back(n);
    let d = decimal(n);
    assert(digit(d[0]));
    assert((seq!['+'] + d).drop_first() =~= d);
    assert((seq!['-'] + d).drop_first() =~= d);
}

/// Occurrences of a character add up over the parts of a text.
pub proof fn law_occurrences_add_up(a: Seq<char>, b: Seq<char>, c: char)
    ensures
        count_of(a + b, c) == count_of(a, c) + count_of(b, c),
        count_of(seq![c], c) == 1,
        free_of(a, c) ==> count_of(a, c) == 0,
    decreases a.len() + b.len(),
{
    reveal_with_fuel(count_of, 2);
    assert(seq![c].drop_last() =~= Seq::<char>::empty());
    if b.len() > 0 {
        law_occurrences_add_up(a, b.drop_last(), c);
        assert((a + b).drop_last() =~= a + b.drop_last());
    } else {
        assert(a + b =~= a);
        if a.len() > 0 && free_of(a, c) {
            assert(free_of(a.drop_last(), c));
            law_occurrences_add_up(a.drop_last(), b, c);
            assert(a.last() != c);
        }
    }
}

} // verus!
