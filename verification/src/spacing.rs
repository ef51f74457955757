//! Words and the spaces between them: a text with single spaces between its words, and in which
//! texts the words are the same.

use vstd::prelude::*;

use crate::text;

verus! {

/// Words joined by single spaces.
pub open spec fn single_spaced(s: Seq<char>) -> Seq<char> {
    text::joined(text::words(s), " "@)
}

/// A word: not empty, and without white space.
pub open spec fn is_word(w: Seq<char>) -> bool {
    w.len() > 0 && forall|i: int| 0 <= i < w.len() ==> !text::whitespace(#[trigger] w[i])
}

/// A list of words.
pub open spec fn all_words(ws: Seq<Seq<char>>) -> bool {
    forall|i: int| 0 <= i < ws.len() ==> is_word(#[trigger] ws[i])
}

/// White space is single spaces between words: none at the ends, and no two together.
pub open spec fn is_spaced(s: Seq<char>) -> bool {
    &&& s.len() > 0 ==> !text::whitespace(s[0]) && !text::whitespace(s[s.len() - 1])
    &&& forall|i: int|
        0 <= i < s.len() - 1 ==> (text::whitespace(#[trigger] s[i]) ==> s[i] == ' ' && !text::whitespace(
            s[i + 1],
        ))
}

proof fn lemma_words_front(w: Seq<char>, r: Seq<char>)
    requires
        is_word(w),
        r.len() > 0 ==> text::whitespace(r[0]),
    ensures
        text::words(w + r) == seq![w] + text::words(r),
{
    let s = w + r;
    assert forall|j: int| 0 <= j < w.len() implies !text::whitespace(#[trigger] s[j]) by {
        assert(s[j] == w[j]);
    }
    text::lemma_word_len(s, w.len() as int);
    assert(s[0] == w[0]);
    assert(s.take(w.len() as int) =~= w);
    assert(s.skip(w.len() as int) =~= r);
}

/// The words of a text are words.
pub proof fn lemma_words_are_words(s: Seq<char>)
    ensures
        all_words(text::words(s)),
    decreases s.len(),
{
    if s.len() > 0 {
        if text::whitespace(s[0]) {
            lemma_words_are_words(s.drop_first());
        } else {
            let n = text::word_len(s);
            lemma_run(s);
            lemma_words_are_words(s.skip(n as int));
            let rest = text::words(s.skip(n as int));
            assert forall|i: int| 0 <= i < text::words(s).len() implies is_word(#[trigger] text::words(s)[i]) by {
                if i > 0 {
                    assert(text::words(s)[i] == rest[i - 1]);
                } else {
                    assert(text::words(s)[0] == s.take(n as int));
                }
            }
        }
    }
}

proof fn lemma_run(s: Seq<char>)
    ensures
        text::word_len(s) <= s.len(),
        forall|j: int| 0 <= j < text::word_len(s) ==> !text::whitespace(#[trigger] s[j]),
        text::word_len(s) < s.len() ==> text::whitespace(s[text::word_len(s) as int]),
        s.len() > 0 && !text::whitespace(s[0]) ==> text::word_len(s) > 0,
    decreases s.len(),
{
    if s.len() > 0 && !text::whitespace(s[0]) {
        let t = s.drop_first();
        lemma_run(t);
        assert forall|j: int| 0 <= j < text::word_len(s) implies !text::whitespace(#[trigger] s[j]) by {
            if j > 0 {
                assert(s[j] == t[j - 1]);
            }
        }
    }
}

proof fn lemma_joined_front(ws: Seq<Seq<char>>, sep: Seq<char>)
    requires
        ws.len() > 1,
    ensures
        text::joined(ws, sep) == ws[0] + sep + text::joined(ws.drop_first(), sep),
    decreases ws.len(),
{
    let head = ws.drop_last();
    let tail = ws.drop_first();
    if ws.len() == 2 {
        assert(text::joined(head, sep) == head[0]);
        assert(text::joined(tail, sep) == tail[0]);
    } else {
        lemma_joined_front(head, sep);
        assert(head.drop_first() =~= tail.drop_last());
        assert(text::joined(ws, sep) =~= ws[0] + sep + (text::joined(tail.drop_last(), sep) + sep + tail.last()));
    }
}

/// Words joined by single spaces are the words of what they make up, and the text is spaced.
pub proof fn lemma_words_joined(ws: Seq<Seq<char>>)
    requires
        all_words(ws),
    ensures
        text::words(text::joined(ws, " "@)) == ws,
        is_spaced(text::joined(ws, " "@)),
        ws.len() > 0 ==> text::joined(ws, " "@).len() > 0,
    decreases ws.len(),
{
    reveal_strlit(" ");
    let sep = " "@;
    if ws.len() == 0 {
        assert(text::joined(ws, sep) =~= Seq::<char>::empty());
        assert(ws =~= Seq::<Seq<char>>::empty());
    } else if ws.len() == 1 {
        let w = ws[0];
        assert(is_word(w));
        lemma_words_front(w, Seq::empty());
        assert(w + Seq::<char>::empty() =~= w);
        assert(text::words(Seq::<char>::empty()) =~= Seq::<Seq<char>>::empty());
        assert(ws =~= seq![w] + Seq::<Seq<char>>::empty());
        assert(!text::whitespace(w[0]) && !text::whitespace(w[w.len() - 1]));
    } else {
        let w = ws[0];
        let tail = ws.drop_first();
        assert(is_word(w));
        assert forall|i: int| 0 <= i < tail.len() implies is_word(#[trigger] tail[i]) by {
            assert(tail[i] == ws[i + 1]);
        }
        lemma_words_joined(tail);
        lemma_joined_front(ws, sep);
        let t = text::joined(tail, sep);
        let r = sep + t;
        assert(r[0] == ' ');
        lemma_words_front(w, r);
        assert(r.drop_first() =~= t);
        let all = text::joined(ws, sep);
        assert(all =~= w + r);
        assert(ws =~= seq![w] + tail);
        let n = w.len() as int;
        assert(!text::whitespace(w[0]));
        assert(all[all.len() - 1] == t[t.len() - 1]);
        assert forall|i: int|
            0 <= i < all.len() - 1 && text::whitespace(#[trigger] all[i]) implies all[i] == ' '
            && !text::whitespace(all[i + 1]) by {
            if i < n {
                assert(all[i] == w[i]);
            } else if i == n {
                assert(all[i] == ' ' && all[i + 1] == t[0]);
            } else {
                assert(all[i] == t[i - n - 1] && all[i + 1] == t[i - n]);
            }
        }
    }
}

/// Single spacing leaves the words as they are, and no white space but single spaces between them.
/// It depends on the words alone, and doing it twice is doing it once.
pub proof fn law_single_spacing(s: Seq<char>, t: Seq<char>)
    ensures
        text::words(single_spaced(s)) == text::words(s),
        is_spaced(single_spaced(s)),
        single_spaced(single_spaced(s)) == single_spaced(s),
        text::words(s) == text::words(t) ==> single_spaced(s) == single_spaced(t),
        single_spaced(s) == single_spaced(t) ==> text::words(s) == text::words(t),
{
    lemma_words_are_words(s);
    lemma_words_are_words(t);
    lemma_words_joined(text::words(s));
    lemma_words_joined(text::words(t));
}

proof fn lemma_words_blank_end(s: Seq<char>, c: char)
    requires
        text::whitespace(c),
    ensures
        text::words(s.push(c)) == text::words(s),
    decreases s.len(),
{
    let p = s.push(c);
    if s.len() == 0 {
        assert(p.drop_first() =~= s);
    } else if text::whitespace(s[0]) {
        lemma_words_blank_end(s.drop_first(), c);
        assert(p.drop_first() =~= s.drop_first().push(c));
    } else {
        let n = text::word_len(s) as int;
        lemma_run(s);
        assert forall|j: int| 0 <= j < n implies !text::whitespace(#[trigger] p[j]) by {
            assert(p[j] == s[j]);
        }
        text::lemma_word_len(p, n);
        lemma_words_blank_end(s.skip(n), c);
        assert(p.skip(n) =~= s.skip(n).push(c));
        assert(p.take(n) =~= s.take(n));
    }
}

proof fn lemma_trim_end(s: Seq<char>)
    ensures
        text::words(text::trim_end(s)) == text::words(s),
        text::all_ascii(s) ==> text::all_ascii(text::trim_end(s)),
    decreases s.len(),
{
    if s.len() > 0 && text::whitespace(s.last()) {
        lemma_trim_end(s.drop_last());
        assert(s.drop_last().push(s.last()) =~= s);
        lemma_words_blank_end(s.drop_last(), s.last());
    }
}

proof fn lemma_trim_start(s: Seq<char>)
    ensures
        text::words(text::trim_start(s)) == text::words(s),
        text::all_ascii(s) ==> text::all_ascii(text::trim_start(s)),
    decreases s.len(),
{
    if s.len() > 0 && text::whitespace(s[0]) {
        lemma_trim_start(s.drop_first());
    }
}

/// A text has the words that it has without the white space around it.
pub proof fn lemma_trimmed_words(s: Seq<char>)
    ensures
        text::words(text::trimmed(s)) == text::words(s),
        text::all_ascii(s) ==> text::all_ascii(text::trimmed(s)),
{
    lemma_trim_start(s);
    lemma_trim_end(text::trim_start(s));
}

/// Words in ASCII lower case.
pub open spec fn lower_words(ws: Seq<Seq<char>>) -> Seq<Seq<char>> {
    ws.map_values(|w: Seq<char>| text::ascii_lower(w))
}

/// The words of a text in ASCII lower case are its words in ASCII lower case.
pub proof fn lemma_lower_words(s: Seq<char>)
    ensures
        text::words(text::ascii_lower(s)) == lower_words(text::words(s)),
    decreases s.len(),
{
    let l = text::ascii_lower(s);
    if s.len() == 0 {
        assert(lower_words(text::words(s)) =~= Seq::<Seq<char>>::empty());
    } else if text::whitespace(s[0]) {
        lemma_lower_words(s.drop_first());
        assert(l.drop_first() =~= text::ascii_lower(s.drop_first()));
    } else {
        let n = text::word_len(s) as int;
        lemma_run(s);
        assert forall|j: int| 0 <= j < n implies !text::whitespace(#[trigger] l[j]) by {
            assert(!text::whitespace(s[j]));
        }
        text::lemma_word_len(l, n);
        lemma_lower_words(s.skip(n));
        assert(l.skip(n) =~= text::ascii_lower(s.skip(n)));
        assert(l.take(n) =~= text::ascii_lower(s.take(n)));
        assert(lower_words(seq![s.take(n)] + text::words(s.skip(n))) =~= seq![text::ascii_lower(s.take(n))]
            + lower_words(text::words(s.skip(n))));
    }
}

/// Lower case twice is lower case once.
pub proof fn lemma_lower_twice(ws: Seq<Seq<char>>)
    ensures
        lower_words(lower_words(ws)) == lower_words(ws),
{
    assert forall|i: int| 0 <= i < ws.len() implies text::ascii_lower(text::ascii_lower(#[trigger] ws[i]))
        == text::ascii_lower(ws[i]) by {
        let w = ws[i];
        assert(text::ascii_lower(text::ascii_lower(w)) =~= text::ascii_lower(w));
    }
    assert(lower_words(lower_words(ws)) =~= lower_words(ws));
}

/// The words of an ASCII text are ASCII, and so is what single spaces join of them.
pub proof fn lemma_ascii_joined(s: Seq<char>)
    requires
        text::all_ascii(s),
    ensures
        text::all_ascii(single_spaced(s)),
        text::all_ascii(text::ascii_lower(s)),
{
    assert forall|i: int| 0 <= i < s.len() implies (#[trigger] text::ascii_lower(s)[i]) as u32 <= 127 by {
        assert(s[i] as u32 <= 127);
        assert(text::ascii_lower(s)[i] == text::lower_char(s[i]));
    }
    lemma_ascii_words(s);
    lemma_ascii_parts(text::words(s));
}

proof fn lemma_ascii_words(s: Seq<char>)
    requires
        text::all_ascii(s),
    ensures
        forall|i: int| 0 <= i < text::words(s).len() ==> text::all_ascii(#[trigger] text::words(s)[i]),
    decreases s.len(),
{
    if s.len() > 0 {
        if text::whitespace(s[0]) {
            lemma_ascii_words(s.drop_first());
            assert(text::words(s) == text::words(s.drop_first()));
        } else {
            let n = text::word_len(s) as int;
            lemma_run(s);
            lemma_ascii_words(s.skip(n));
            let rest = text::words(s.skip(n));
            assert forall|i: int| 0 <= i < text::words(s).len() implies text::all_ascii(#[trigger] text::words(s)[i]) by {
                if i > 0 {
                    assert(text::words(s)[i] == rest[i - 1]);
                } else {
                    assert(text::words(s)[0] == s.take(n));
                }
            }
        }
    }
}

proof fn lemma_ascii_parts(ws: Seq<Seq<char>>)
    requires
        forall|i: int| 0 <= i < ws.len() ==> text::all_ascii(#[trigger] ws[i]),
    ensures
        text::all_ascii(text::joined(ws, " "@)),
    decreases ws.len(),
{
    reveal_strlit(" ");
    if ws.len() > 1 {
        let head = ws.drop_last();
        assert forall|i: int| 0 <= i < head.len() implies text::all_ascii(#[trigger] head[i]) by {
            assert(head[i] == ws[i]);
        }
        lemma_ascii_parts(head);
        let a = text::joined(head, " "@);
        let b = ws[ws.len() - 1];
        let all = a + " "@ + b;
        assert forall|i: int| 0 <= i < all.len() implies (#[trigger] all[i]) as u32 <= 127 by {
            if i < a.len() {
                assert(all[i] == a[i]);
            } else if i > a.len() {
                assert(all[i] == b[i - a.len() - 1]);
            }
        }
    } else if ws.len() == 1 {
        assert(text::all_ascii(ws[0]));
    }
}

} // verus!
