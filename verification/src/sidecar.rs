//! Subtitle sidecars next to a media file: SubRip and WebVTT text becomes timed
//! cues, rolling captions collapse, and short cues group into spans.

use vstd::prelude::*;
use vstd::slice::slice_subrange;

use crate::error::MediaError;
use crate::text;
use crate::text::{
    has_str_prefix, insert_ascending, to_ascii_lower, chars_of, count_char, find_at, find_char,
    has_prefix, has_suffix, join_texts, parse_i64, push_all, replace_all, rfind_char, same_text,
    split_at_all, string_of, trim_of, words_of,
};
use crate::timestamp::Timestamp;

verus! {

/// Subtitle file format.
#[derive(Clone, Copy, Debug, PartialEq, Eq, Structural)]
pub enum SubtitleFormat {
    /// SubRip.
    Srt,
    /// WebVTT.
    Vtt,
}

/// A timed caption.
#[derive(Debug)]
pub struct Cue {
    /// Start.
    pub t0: Timestamp,
    /// End.
    pub t1: Timestamp,
    /// Text with markup removed and lines joined by spaces.
    pub text: String,
}

/// A cue as a mathematical value.
pub struct CueView {
    /// Start.
    pub t0: Timestamp,
    /// End.
    pub t1: Timestamp,
    /// Text.
    pub text: Seq<char>,
}

impl View for Cue {
    type V = CueView;

    open spec fn view(&self) -> CueView {
        CueView { t0: self.t0, t1: self.t1, text: self.text@ }
    }
}

/// The cues that a vector holds.
pub open spec fn cue_views(cues: Seq<Cue>) -> Seq<CueView> {
    cues.map_values(|c: Cue| c@)
}

impl Cue {
    /// A copy of the cue.
    pub fn copy(&self) -> (c: Cue)
        ensures
            c@ == self@,
    {
        Cue { t0: self.t0, t1: self.t1, text: self.text.clone() }
    }
}

/// The milliseconds that a fraction of a second stands for: its first three characters, read as
/// an integer and padded to thousandths.
pub open spec fn fraction_ms(frac: Seq<char>) -> Option<int> {
    let f = frac.take(if frac.len() < 3 { frac.len() as int } else { 3 });
    if f.len() == 0 {
        Some(0)
    } else {
        match text::int_value(f) {
            Some(n) => Some(n * (if f.len() == 1 {
                100
            } else if f.len() == 2 {
                10
            } else {
                1int
            })),
            None => None,
        }
    }
}

/// The milliseconds that `seconds[.fraction]` stands for.
pub open spec fn seconds_ms(s: Seq<char>) -> Option<int> {
    let (whole, frac) = match text::first_index(s, '.') {
        Some(i) => (s.take(i), s.skip(i + 1)),
        None => (s, Seq::empty()),
    };
    match (text::int_value(whole), fraction_ms(frac)) {
        (Some(w), Some(f)) => if i64::MIN <= w <= i64::MAX {
            Some(w * 1000 + f)
        } else {
            None
        },
        _ => None,
    }
}

/// The milliseconds that `[hours:]minutes:seconds[.fraction]` stands for; a comma may stand for
/// the point.
pub open spec fn clock_ms(s: Seq<char>) -> Option<int> {
    let parts = text::split(text::replaced(s, seq![','], seq!['.']), seq![':']);
    if parts.len() == 2 {
        match (text::int_value(parts[0]), seconds_ms(parts[1])) {
            (Some(m), Some(ms)) => if i64::MIN <= m <= i64::MAX {
                Some(m * 60_000 + ms)
            } else {
                None
            },
            _ => None,
        }
    } else if parts.len() == 3 {
        match (text::int_value(parts[0]), text::int_value(parts[1]), seconds_ms(parts[2])) {
            (Some(h), Some(m), Some(ms)) => if i64::MIN <= m <= i64::MAX && i64::MIN <= h
                <= i64::MAX {
                Some(h * 3_600_000 + m * 60_000 + ms)
            } else {
                None
            },
            _ => None,
        }
    } else {
        None
    }
}

/// The time that a clock reading stands for, in milliseconds; none when it is not a reading or
/// does not fit.
pub open spec fn clock_time(s: Seq<char>) -> Option<Timestamp> {
    match clock_ms(s) {
        Some(ms) => if i64::MIN <= ms <= i64::MAX {
            Some(Timestamp { num: ms as i64, den: 1000 })
        } else {
            None
        },
        None => None,
    }
}

/// The two times of a line such as `00:01:02,345 --> 00:01:04,000` or
/// `01:02.345 --> 01:04.000 position:10%`.
pub open spec fn timing(line: Seq<char>) -> Option<(Timestamp, Timestamp)> {
    match text::find_from(line, seq!['-', '-', '>'], 0) {
        Some(i) => {
            let after = text::words(line.skip(i + 3));
            if after.len() == 0 {
                None
            } else {
                match (clock_time(text::trimmed(line.take(i))), clock_time(after[0])) {
                    (Some(a), Some(b)) => Some((a, b)),
                    _ => None,
                }
            }
        },
        None => None,
    }
}

fn parse_fraction(frac: &[char]) -> (r: Option<i64>)
    ensures
        match r {
            Some(v) => fraction_ms(frac@) == Some(v as int) && -1000 < v < 1000,
            None => fraction_ms(frac@) is None,
        },
{
    let n: usize = if frac.len() < 3 {
        frac.len()
    } else {
        3
    };
    let f = slice_subrange(frac, 0, n);
    proof {
        assert(f@ =~= frac@.take(n as int));
    }
    if n == 0 {
        return Some(0);
    }
    let parsed = parse_i64(f);
    proof {
        lemma_short_int(f@);
    }
    match parsed {
        Some(v) => {
            if n == 1 {
                Some(v * 100)
            } else if n == 2 {
                Some(v * 10)
            } else {
                Some(v)
            }
        },
        None => None,
    }
}

proof fn lemma_digits_bound(s: Seq<char>)
    requires
        text::all_digits(s),
        s.len() <= 3,
    ensures
        s.len() == 0 ==> text::digits_value(s) == 0,
        s.len() == 1 ==> text::digits_value(s) < 10,
        s.len() == 2 ==> text::digits_value(s) < 100,
        s.len() == 3 ==> text::digits_value(s) < 1000,
    decreases s.len(),
{
    if s.len() > 0 {
        assert forall|k: int| 0 <= k < s.drop_last().len() implies text::digit(
            #[trigger] s.drop_last()[k],
        ) by {
            assert(s[k] == s.drop_last()[k]);
        }
        assert(text::digit(s[s.len() - 1]));
        lemma_digits_bound(s.drop_last());
    }
}

proof fn lemma_short_int(s: Seq<char>)
    requires
        s.len() <= 3,
    ensures
        text::int_value(s) matches Some(v) ==> (s.len() == 1 ==> -10 < v < 10) && (s.len() == 2 ==> -100
            < v < 100) && (s.len() == 3 ==> -1000 < v < 1000),
{
    if text::int_value(s) is Some {
        let signed = s.len() > 0 && (s[0] == '-' || s[0] == '+');
        let body = if signed {
            s.drop_first()
        } else {
            s
        };
        lemma_digits_bound(body);
    }
}

fn parse_seconds(s: &[char]) -> (r: Option<i128>)
    ensures
        match r {
            Some(v) => seconds_ms(s@) == Some(v as int) && -0x8000_0000_0000_0000 * 1000 - 1000 <= v
                <= 0x8000_0000_0000_0000 * 1000 + 1000,
            None => seconds_ms(s@) is None,
        },
{
    let n: usize = s.len();
    let (whole, frac) = match find_char(s, '.') {
        Some(i) => (slice_subrange(s, 0, i), slice_subrange(s, i + 1, n)),
        None => (s, slice_subrange(s, n, n)),
    };
    proof {
        match text::first_index(s@, '.') {
            Some(i) => {
                assert(whole@ =~= s@.take(i));
                assert(frac@ =~= s@.skip(i + 1));
            },
            None => {
                assert(frac@ =~= Seq::<char>::empty());
            },
        }
    }
    match (parse_i64(whole), parse_fraction(frac)) {
        (Some(w), Some(f)) => Some((w as i128) * 1000 + (f as i128)),
        _ => None,
    }
}

fn parse_time(s: &[char]) -> (r: Option<Timestamp>)
    ensures
        r == clock_time(s@),
{
    let comma: [char; 1] = [','];
    let point: [char; 1] = ['.'];
    let colon: [char; 1] = [':'];
    let plain = replace_all(s, &comma, &point);
    proof {
        assert(comma@ =~= seq![',']);
        assert(point@ =~= seq!['.']);
        assert(colon@ =~= seq![':']);
    }
    let parts = split_at_all(plain.as_slice(), &colon);
    let ghost texts = text::split(plain@, colon@);
    proof {
        assert(texts.len() == parts@.len());
        assert(forall|i: int| 0 <= i < parts@.len() ==> texts[i] == #[trigger] parts@[i]@);
    }
    let total: i128 = if parts.len() == 2 {
        match (parse_i64(parts[0]), parse_seconds(parts[1])) {
            (Some(m), Some(ms)) => (m as i128) * 60_000 + ms,
            _ => {
                return None;
            },
        }
    } else if parts.len() == 3 {
        match (parse_i64(parts[0]), parse_i64(parts[1]), parse_seconds(parts[2])) {
            (Some(h), Some(m), Some(ms)) => (h as i128) * 3_600_000 + (m as i128) * 60_000 + ms,
            _ => {
                return None;
            },
        }
    } else {
        return None;
    };
    if total < i64::MIN as i128 || total > i64::MAX as i128 {
        None
    } else {
        Some(Timestamp::new(total as i64, 1000))
    }
}

fn parse_timing_line(line: &[char]) -> (r: Option<(Timestamp, Timestamp)>)
    ensures
        r == timing(line@),
{
    let arrow: [char; 3] = ['-', '-', '>'];
    let n: usize = line.len();
    proof {
        assert(arrow@ =~= seq!['-', '-', '>']);
    }
    match find_at(line, &arrow, 0) {
        Some(i) => {
            let before = slice_subrange(line, 0, i);
            let after = slice_subrange(line, i + 3, n);
            proof {
                assert(before@ =~= line@.take(i as int));
                assert(after@ =~= line@.skip(i + 3));
            }
            let rest = words_of(after);
            proof {
                assert(text::texts_of(rest@).len() == rest@.len());
            }
            if rest.len() == 0 {
                return None;
            }
            proof {
                assert(text::texts_of(rest@)[0] == rest@[0]@);
            }
            match (parse_time(trim_of(before)), parse_time(rest[0])) {
                (Some(a), Some(b)) => Some((a, b)),
                _ => None,
            }
        },
        None => None,
    }
}

/// The characters of a line that are neither tags nor brace directives.
pub open spec fn outside_markup(s: Seq<char>, in_tag: bool, in_brace: bool) -> Seq<char>
    decreases s.len(),
{
    if s.len() == 0 {
        Seq::empty()
    } else if s[0] == '<' {
        outside_markup(s.drop_first(), true, in_brace)
    } else if s[0] == '>' && in_tag {
        outside_markup(s.drop_first(), false, in_brace)
    } else if s[0] == '{' {
        outside_markup(s.drop_first(), in_tag, true)
    } else if s[0] == '}' && in_brace {
        outside_markup(s.drop_first(), in_tag, false)
    } else if in_tag || in_brace {
        outside_markup(s.drop_first(), in_tag, in_brace)
    } else {
        seq![s[0]] + outside_markup(s.drop_first(), in_tag, in_brace)
    }
}

/// HTML entities that occur in captions, replaced by what they stand for.
pub open spec fn unescaped(s: Seq<char>) -> Seq<char> {
    let a = text::replaced(s, "&amp;"@, "&"@);
    let b = text::replaced(a, "&lt;"@, "<"@);
    let c = text::replaced(b, "&gt;"@, ">"@);
    let d = text::replaced(c, "&nbsp;"@, " "@);
    let e = text::replaced(d, "&quot;"@, "\""@);
    text::replaced(e, "&#39;"@, "'"@)
}

/// A caption line without `<i>`, `<c.color>`, `<00:00:01.000>` word timings, `{\an8}` and HTML
/// entities.
pub open spec fn plain_line(s: Seq<char>) -> Seq<char> {
    text::trimmed(unescaped(outside_markup(s, false, false)))
}

fn replace_str(s: &[char], p: &str, r: &str) -> (out: Vec<char>)
    requires
        p@.len() > 0,
    ensures
        out@ == text::replaced(s@, p@, r@),
{
    let pc = chars_of(p);
    let rc = chars_of(r);
    replace_all(s, pc.as_slice(), rc.as_slice())
}

fn strip_markup(line: &[char]) -> (out: Vec<char>)
    ensures
        out@ == plain_line(line@),
{
    let mut kept: Vec<char> = Vec::new();
    let mut in_tag: bool = false;
    let mut in_brace: bool = false;
    let mut i: usize = 0;
    proof {
        assert(line@.skip(0) =~= line@);
        assert(kept@ + outside_markup(line@, false, false) =~= outside_markup(line@, false, false));
    }
    while i < line.len()
        invariant
            i <= line@.len(),
            kept@ + outside_markup(line@.skip(i as int), in_tag, in_brace) == outside_markup(
                line@,
                false,
                false,
            ),
        decreases line@.len() - i,
    {
        let ghost rest = line@.skip(i as int);
        let ghost before = kept@;
        let c = line[i];
        proof {
            assert(rest.drop_first() =~= line@.skip(i + 1));
        }
        if c == '<' {
            in_tag = true;
        } else if c == '>' && in_tag {
            in_tag = false;
        } else if c == '{' {
            in_brace = true;
        } else if c == '}' && in_brace {
            in_brace = false;
        } else if in_tag || in_brace {
        } else {
            kept.push(c);
            proof {
                assert(kept@ + outside_markup(line@.skip(i + 1), in_tag, in_brace) =~= before + (
                seq![c] + outside_markup(line@.skip(i + 1), in_tag, in_brace)));
            }
        }
        i = i + 1;
    }
    proof {
        assert(line@.skip(i as int) =~= Seq::<char>::empty());
        assert(kept@ + Seq::<char>::empty() =~= kept@);
        reveal_strlit("&amp;");
        reveal_strlit("&lt;");
        reveal_strlit("&gt;");
        reveal_strlit("&nbsp;");
        reveal_strlit("&quot;");
        reveal_strlit("&#39;");
    }
    let a = replace_str(kept.as_slice(), "&amp;", "&");
    let b = replace_str(a.as_slice(), "&lt;", "<");
    let c = replace_str(b.as_slice(), "&gt;", ">");
    let d = replace_str(c.as_slice(), "&nbsp;", " ");
    let e = replace_str(d.as_slice(), "&quot;", "\"");
    let f = replace_str(e.as_slice(), "&#39;", "'");
    let t = trim_of(f.as_slice());
    let mut out: Vec<char> = Vec::new();
    push_all(&mut out, t);
    proof {
        assert(out@ =~= t@);
    }
    out
}

/// A text without leading byte-order marks.
pub open spec fn without_marks(s: Seq<char>) -> Seq<char>
    decreases s.len(),
{
    if s.len() > 0 && s[0] == '\u{feff}' {
        without_marks(s.drop_first())
    } else {
        s
    }
}

/// The trimmed, non-empty texts of a list.
pub open spec fn non_empty_trimmed(s: Seq<Seq<char>>) -> Seq<Seq<char>>
    decreases s.len(),
{
    if s.len() == 0 {
        Seq::empty()
    } else {
        let before = non_empty_trimmed(s.drop_last());
        let t = text::trimmed(s.last());
        if t.len() == 0 {
            before
        } else {
            before.push(t)
        }
    }
}

/// The trimmed, non-empty lines of a text.
pub open spec fn lines(s: Seq<char>) -> Seq<Seq<char>> {
    non_empty_trimmed(text::split(s, seq!['\n']))
}

/// The first line at or after `i` that holds cue timing.
pub open spec fn first_timing(ls: Seq<Seq<char>>, i: int) -> Option<int>
    decreases ls.len() - i,
{
    if i < 0 || i >= ls.len() {
        None
    } else if timing(ls[i]) is Some {
        Some(i)
    } else {
        first_timing(ls, i + 1)
    }
}

/// A block of WebVTT that is not a cue.
pub open spec fn vtt_meta(line: Seq<char>) -> bool {
    text::starts_with(line, "WEBVTT"@) || text::starts_with(line, "NOTE"@) || text::starts_with(
        line,
        "STYLE"@,
    ) || text::starts_with(line, "REGION"@)
}

/// Lines without markup.
pub open spec fn plain_lines(ls: Seq<Seq<char>>) -> Seq<Seq<char>> {
    ls.map_values(|l: Seq<char>| plain_line(l))
}

/// White space runs become single spaces.
pub open spec fn single_spaced(s: Seq<char>) -> Seq<char> {
    text::joined(text::words(s), seq![' '])
}

/// The cue that a block of lines holds: the first timing line gives the times, the lines after it
/// the text; lines before it are identifiers.
pub open spec fn block_cue(ls: Seq<Seq<char>>, vtt: bool) -> Option<CueView> {
    if vtt && ls.len() > 0 && vtt_meta(ls[0]) {
        None
    } else {
        match first_timing(ls, 0) {
            Some(i) => {
                let (t0, t1) = timing(ls[i])->0;
                let body = single_spaced(text::joined(plain_lines(ls.skip(i + 1)), seq![' ']));
                if body.len() > 0 && !crate::timestamp::le_time(t1, t0) {
                    Some(CueView { t0, t1, text: body })
                } else {
                    None
                }
            },
            None => None,
        }
    }
}

/// The cues of a list of blocks, in order.
pub open spec fn block_cues(blocks: Seq<Seq<char>>, vtt: bool) -> Seq<CueView>
    decreases blocks.len(),
{
    if blocks.len() == 0 {
        Seq::empty()
    } else {
        let before = block_cues(blocks.drop_last(), vtt);
        match block_cue(lines(blocks.last()), vtt) {
            Some(c) => before.push(c),
            None => before,
        }
    }
}

/// The blocks of a subtitle text: the pieces between blank lines.
pub open spec fn blocks(s: Seq<char>) -> Seq<Seq<char>> {
    text::split(text::replaced(without_marks(s), seq!['\r', '\n'], seq!['\n']), seq!['\n', '\n'])
}

/// The later of two times.
pub open spec fn later(a: Timestamp, b: Timestamp) -> Timestamp {
    if crate::timestamp::le_time(a, b) {
        b
    } else {
        a
    }
}

/// The last cue lasts at least until `t`.
pub open spec fn extended(out: Seq<CueView>, t: Timestamp) -> Seq<CueView> {
    out.update(
        out.len() - 1,
        CueView { t1: later(out.last().t1, t), ..out.last() },
    )
}

/// `tail` is the last line of the two-line caption `full`.
pub open spec fn is_second_line(full: Seq<char>, tail: Seq<char>) -> bool {
    full.len() > tail.len() && text::ends_with(full, tail) && full[full.len() - tail.len() - 1]
        == ' '
}

/// `next` repeats the caption `full` and goes on with a new word.
pub open spec fn continues(full: Seq<char>, next: Seq<char>) -> bool {
    next.len() > full.len() && text::starts_with(next, full) && next[full.len() as int] == ' '
}

/// One more cue of rolling captions: `st` holds the cues so far and the full text of the cue
/// before. An exact repeat or the second line of the one before extends it; a cue that continues
/// the one before keeps only the new material.
pub open spec fn roll(st: (Seq<CueView>, Option<Seq<char>>), cue: CueView) -> (
    Seq<CueView>,
    Option<Seq<char>>,
) {
    let (out, prev) = st;
    if prev is Some && out.len() > 0 {
        let full = prev->0;
        if full == cue.text {
            (extended(out, cue.t1), prev)
        } else if is_second_line(full, cue.text) {
            (extended(out, cue.t1), Some(cue.text))
        } else if continues(full, cue.text) {
            let rest = text::trimmed(cue.text.skip(full.len() as int));
            (
                if rest.len() > 0 {
                    out.push(CueView { t0: cue.t0, t1: cue.t1, text: rest })
                } else {
                    out
                },
                Some(cue.text),
            )
        } else {
            (out.push(cue), Some(cue.text))
        }
    } else {
        (out.push(cue), Some(cue.text))
    }
}

/// Rolling captions collapsed.
pub open spec fn rolled(cues: Seq<CueView>) -> (Seq<CueView>, Option<Seq<char>>)
    decreases cues.len(),
{
    if cues.len() == 0 {
        (Seq::empty(), None)
    } else {
        roll(rolled(cues.drop_last()), cues.last())
    }
}

/// The cues of a subtitle text.
pub open spec fn parsed(s: Seq<char>, vtt: bool) -> Seq<CueView> {
    rolled(block_cues(blocks(s), vtt)).0
}

pub fn lines_of<'a>(s: &'a [char]) -> (r: Vec<&'a [char]>)
    ensures
        text::texts_of(r@) == lines(s@),
{
    let nl: [char; 1] = ['\n'];
    proof {
        assert(nl@ =~= seq!['\n']);
    }
    let pieces = split_at_all(s, &nl);
    let mut out: Vec<&'a [char]> = Vec::new();
    let ghost all = text::texts_of(pieces@);
    let mut i: usize = 0;
    proof {
        assert(all.take(0) =~= Seq::<Seq<char>>::empty());
        assert(text::texts_of(out@) =~= Seq::<Seq<char>>::empty());
    }
    while i < pieces.len()
        invariant
            i <= pieces@.len(),
            all == text::texts_of(pieces@),
            text::texts_of(out@) == non_empty_trimmed(all.take(i as int)),
        decreases pieces@.len() - i,
    {
        let t = trim_of(pieces[i]);
        let ghost before = out@;
        proof {
            assert(all.take(i + 1).drop_last() =~= all.take(i as int));
            assert(all.take(i + 1).last() == pieces@[i as int]@);
        }
        if t.len() > 0 {
            out.push(t);
            proof {
                assert(text::texts_of(out@) =~= text::texts_of(before).push(t@));
            }
        }
        i = i + 1;
    }
    proof {
        assert(all.take(i as int) =~= all);
    }
    out
}

fn parse_block(block: &[char], vtt: bool) -> (r: Option<Cue>)
    ensures
        match r {
            Some(c) => block_cue(lines(block@), vtt) == Some(c@),
            None => block_cue(lines(block@), vtt) is None,
        },
{
    let ls = lines_of(block);
    let ghost all = text::texts_of(ls@);
    proof {
        assert(forall|k: int| 0 <= k < ls@.len() ==> all[k] == #[trigger] ls@[k]@);
        assert(all.len() == ls@.len());
    }
    if vtt && ls.len() > 0 && (has_str_prefix(ls[0], "WEBVTT") || has_str_prefix(ls[0], "NOTE")
        || has_str_prefix(ls[0], "STYLE") || has_str_prefix(ls[0], "REGION")) {
        return None;
    }
    let mut i: usize = 0;
    while i < ls.len()
        invariant
            i <= ls@.len(),
            all == text::texts_of(ls@),
            all == lines(block@),
            !(vtt && all.len() > 0 && vtt_meta(all[0])),
            forall|k: int| 0 <= k < ls@.len() ==> all[k] == #[trigger] ls@[k]@,
            all.len() == ls@.len(),
            first_timing(all, 0) == first_timing(all, i as int),
        decreases ls@.len() - i,
    {
        match parse_timing_line(ls[i]) {
            Some((t0, t1)) => {
                let mut bodies: Vec<Vec<char>> = Vec::new();
                let mut k: usize = i + 1;
                while k < ls.len()
                    invariant
                        i + 1 <= k <= ls@.len(),
                        all.len() == ls@.len(),
                        forall|x: int| 0 <= x < ls@.len() ==> all[x] == #[trigger] ls@[x]@,
                        bodies@.len() == k - (i + 1),
                        forall|x: int|
                            0 <= x < bodies@.len() ==> #[trigger] bodies@[x]@ == plain_line(
                                all[i + 1 + x],
                            ),
                    decreases ls@.len() - k,
                {
                    bodies.push(strip_markup(ls[k]));
                    k = k + 1;
                }
                let mut parts: Vec<&[char]> = Vec::new();
                let mut k: usize = 0;
                while k < bodies.len()
                    invariant
                        k <= bodies@.len(),
                        parts@.len() == k,
                        forall|x: int| 0 <= x < k ==> #[trigger] parts@[x]@ == bodies@[x]@,
                    decreases bodies@.len() - k,
                {
                    parts.push(bodies[k].as_slice());
                    k = k + 1;
                }
                let sp: [char; 1] = [' '];
                proof {
                    assert(sp@ =~= seq![' ']);
                    assert(text::texts_of(parts@) =~= plain_lines(all.skip(i + 1)));
                }
                let whole = join_texts(parts.as_slice(), &sp);
                let ws = words_of(whole.as_slice());
                let body = join_texts(ws.as_slice(), &sp);
                if body.len() > 0 && t0.lt(&t1) {
                    return Some(Cue { t0, t1, text: string_of(body.as_slice()) });
                }
                return None;
            },
            None => {},
        }
        i = i + 1;
    }
    None
}

fn skip_marks<'a>(s: &'a [char]) -> (r: &'a [char])
    ensures
        r@ == without_marks(s@),
{
    let mut i: usize = 0;
    proof {
        assert(s@.skip(0) =~= s@);
    }
    while i < s.len() && s[i] == '\u{feff}'
        invariant
            i <= s@.len(),
            without_marks(s@) == without_marks(s@.skip(i as int)),
        decreases s@.len() - i,
    {
        proof {
            assert(s@.skip(i as int).drop_first() =~= s@.skip(i + 1));
        }
        i = i + 1;
    }
    proof {
        assert(s@.skip(i as int) =~= s@.subrange(i as int, s@.len() as int));
    }
    slice_subrange(s, i, s.len())
}

fn extend_last(out: &mut Vec<Cue>, t: Timestamp)
    requires
        old(out)@.len() > 0,
    ensures
        cue_views(final(out)@) == extended(cue_views(old(out)@), t),
{
    let last = out.pop();
    match last {
        Some(c) => {
            let longer = Cue { t0: c.t0, t1: c.t1.max(t), text: c.text };
            out.push(longer);
            proof {
                assert(cue_views(out@) =~= extended(cue_views(old(out)@), t));
            }
        },
        None => {},
    }
}

/// Collapses rolling captions.
fn dedup_rolling_captions(cues: Vec<Cue>) -> (out: Vec<Cue>)
    ensures
        cue_views(out@) == rolled(cue_views(cues@)).0,
{
    let mut out: Vec<Cue> = Vec::new();
    let mut prev: Option<Vec<char>> = None;
    let ghost all = cue_views(cues@);
    let mut i: usize = 0;
    proof {
        assert(all.take(0) =~= Seq::<CueView>::empty());
        assert(cue_views(out@) =~= Seq::<CueView>::empty());
    }
    while i < cues.len()
        invariant
            i <= cues@.len(),
            all == cue_views(cues@),
            cue_views(out@) == rolled(all.take(i as int)).0,
            match prev {
                Some(p) => rolled(all.take(i as int)).1 == Some(p@),
                None => rolled(all.take(i as int)).1 is None,
            },
        decreases cues@.len() - i,
    {
        let cue = &cues[i];
        let body = chars_of(cue.text.as_str());
        let ghost before = out@;
        proof {
            assert(all.take(i + 1).drop_last() =~= all.take(i as int));
            assert(all.take(i + 1).last() == cue@);
            assert(cue_views(before).len() == before.len());
        }
        let mut fresh: bool = true;
        match &prev {
            Some(full) => {
                if out.len() > 0 {
                    fresh = false;
                    if same_text(full.as_slice(), body.as_slice()) {
                        extend_last(&mut out, cue.t1);
                    } else if full.len() > body.len() && has_suffix(
                        full.as_slice(),
                        body.as_slice(),
                    ) && full[full.len() - body.len() - 1] == ' ' {
                        extend_last(&mut out, cue.t1);
                        prev = Some(body);
                    } else if body.len() > full.len() && has_prefix(
                        body.as_slice(),
                        full.as_slice(),
                    ) && body[full.len()] == ' ' {
                        let tail = slice_subrange(body.as_slice(), full.len(), body.len());
                        let rest = trim_of(tail);
                        proof {
                            assert(tail@ =~= cue@.text.skip(full@.len() as int));
                        }
                        if rest.len() > 0 {
                            out.push(Cue { t0: cue.t0, t1: cue.t1, text: string_of(rest) });
                            proof {
                                assert(cue_views(out@) =~= cue_views(before).push(
                                    CueView { t0: cue.t0, t1: cue.t1, text: rest@ },
                                ));
                            }
                        }
                        prev = Some(body);
                    } else {
                        out.push(cue.copy());
                        proof {
                            assert(cue_views(out@) =~= cue_views(before).push(cue@));
                        }
                        prev = Some(body);
                    }
                } else {
                }
            },
            None => {},
        }
        if fresh {
            out.push(cues[i].copy());
            proof {
                assert(cue_views(out@) =~= cue_views(before).push(cue@));
            }
            prev = Some(chars_of(cues[i].text.as_str()));
        }
        i = i + 1;
    }
    proof {
        assert(all.take(i as int) =~= all);
    }
    out
}

fn parse_blocks(source: &str, vtt: bool) -> (out: Vec<Cue>)
    ensures
        cue_views(out@) == parsed(source@, vtt),
{
    let all = chars_of(source);
    let crlf: [char; 2] = ['\r', '\n'];
    let nl: [char; 1] = ['\n'];
    let blank: [char; 2] = ['\n', '\n'];
    proof {
        assert(crlf@ =~= seq!['\r', '\n']);
        assert(nl@ =~= seq!['\n']);
        assert(blank@ =~= seq!['\n', '\n']);
    }
    let clean = replace_all(skip_marks(all.as_slice()), &crlf, &nl);
    let bs = split_at_all(clean.as_slice(), &blank);
    let ghost texts = text::texts_of(bs@);
    let mut cues: Vec<Cue> = Vec::new();
    let mut i: usize = 0;
    proof {
        assert(texts.take(0) =~= Seq::<Seq<char>>::empty());
        assert(cue_views(cues@) =~= Seq::<CueView>::empty());
    }
    while i < bs.len()
        invariant
            i <= bs@.len(),
            texts == text::texts_of(bs@),
            cue_views(cues@) == block_cues(texts.take(i as int), vtt),
        decreases bs@.len() - i,
    {
        let ghost before = cues@;
        proof {
            assert(texts.take(i + 1).drop_last() =~= texts.take(i as int));
            assert(texts.take(i + 1).last() == bs@[i as int]@);
        }
        match parse_block(bs[i], vtt) {
            Some(c) => {
                cues.push(c);
                proof {
                    assert(cue_views(cues@) =~= cue_views(before).push(c@));
                }
            },
            None => {},
        }
        i = i + 1;
    }
    proof {
        assert(texts.take(i as int) =~= texts);
    }
    dedup_rolling_captions(cues)
}

/// Parses SubRip text.
pub fn parse_srt(source: &str) -> (cues: Vec<Cue>)
    ensures
        cue_views(cues@) == parsed(source@, false),
{
    parse_blocks(source, false)
}

/// Parses WebVTT text.
pub fn parse_vtt(source: &str) -> (cues: Vec<Cue>)
    ensures
        cue_views(cues@) == parsed(source@, true),
{
    parse_blocks(source, true)
}

/// Parses the text of a subtitle file by its format.
pub fn parse_text(source: &str, format: SubtitleFormat) -> (cues: Vec<Cue>)
    ensures
        cue_views(cues@) == parsed(source@, format == SubtitleFormat::Vtt),
{
    match format {
        SubtitleFormat::Srt => parse_srt(source),
        SubtitleFormat::Vtt => parse_vtt(source),
    }
}

/// Parses the content of a subtitle file. Bytes that are not UTF-8 are an error.
pub fn parse_file(content: &[u8], format: SubtitleFormat) -> (r: Result<Vec<Cue>, MediaError>)
    ensures
        match r {
            Ok(cues) => vstd::utf8::valid_utf8(content@) && cue_views(cues@) == parsed(
                vstd::utf8::decode_utf8(content@),
                format == SubtitleFormat::Vtt,
            ),
            Err(MediaError::Io(m)) => !vstd::utf8::valid_utf8(content@) && m@
                == "stream did not contain valid UTF-8"@,
            Err(_) => false,
        },
{
    match text::decode_utf8(content) {
        Some(source) => Ok(parse_text(source.as_str(), format)),
        None => Err(MediaError::Io("stream did not contain valid UTF-8".to_owned())),
    }
}

/// A cue that shows something for some time.
pub open spec fn solid(c: CueView) -> bool {
    c.text.len() > 0 && !crate::timestamp::le_time(c.t1, c.t0) && c.t0.wf() && c.t1.wf()
}

proof fn lemma_first_timing(ls: Seq<Seq<char>>, i: int)
    ensures
        first_timing(ls, i) matches Some(k) ==> i <= k < ls.len() && timing(ls[k]) is Some,
    decreases ls.len() - i,
{
    if 0 <= i < ls.len() && timing(ls[i]) is None {
        lemma_first_timing(ls, i + 1);
    }
}

proof fn lemma_block_cues_solid(bs: Seq<Seq<char>>, vtt: bool)
    ensures
        forall|k: int|
            0 <= k < block_cues(bs, vtt).len() ==> solid(#[trigger] block_cues(bs, vtt)[k]),
    decreases bs.len(),
{
    reveal_with_fuel(block_cues, 2);
    if bs.len() > 0 {
        lemma_block_cues_solid(bs.drop_last(), vtt);
        let ls = lines(bs.last());
        lemma_first_timing(ls, 0);
        match block_cue(ls, vtt) {
            Some(c) => {
                let i = first_timing(ls, 0)->0;
                assert(timing(ls[i]) == Some((c.t0, c.t1)));
                assert(solid(c));
                let before = block_cues(bs.drop_last(), vtt);
                assert forall|k: int| 0 <= k < block_cues(bs, vtt).len() implies solid(
                    #[trigger] block_cues(bs, vtt)[k],
                ) by {
                    assert(block_cues(bs, vtt) == before.push(c));
                    if k < before.len() {
                        assert(solid(before[k]));
                    }
                }
            },
            None => {
                assert(block_cues(bs, vtt) == block_cues(bs.drop_last(), vtt));
            },
        }
    }
}

proof fn lemma_rolled_solid(cues: Seq<CueView>)
    requires
        forall|k: int| 0 <= k < cues.len() ==> solid(#[trigger] cues[k]),
    ensures
        forall|k: int| 0 <= k < rolled(cues).0.len() ==> solid(#[trigger] rolled(cues).0[k]),
    decreases cues.len(),
{
    if cues.len() > 0 {
        let cut = cues.drop_last();
        assert forall|k: int| 0 <= k < cut.len() implies solid(#[trigger] cut[k]) by {
            assert(cues[k] == cut[k]);
        }
        lemma_rolled_solid(cut);
        let (out, prev) = rolled(cut);
        let cue = cues.last();
        assert(solid(cues[cues.len() - 1]));
        if out.len() > 0 {
            let last = out.last();
            assert(solid(out[out.len() - 1]));
            crate::timestamp::law_time_total_preorder(last.t1, cue.t1, last.t0);
            crate::timestamp::law_time_total_preorder(last.t1, last.t0, cue.t1);
            crate::timestamp::law_time_total_preorder(last.t0, last.t1, cue.t1);
            crate::timestamp::law_time_total_preorder(cue.t1, last.t0, last.t1);
        }
    }
}

/// Every cue of a parsed subtitle text has some text and ends after it starts.
pub proof fn law_parsed_cues_are_solid(s: Seq<char>, vtt: bool)
    ensures
        forall|k: int| 0 <= k < parsed(s, vtt).len() ==> solid(#[trigger] parsed(s, vtt)[k]),
{
    lemma_block_cues_solid(blocks(s), vtt);
    lemma_rolled_solid(block_cues(blocks(s), vtt));
}

/// `a` is at most `ms` milliseconds after `b`.
pub open spec fn within_ms(a: Timestamp, b: Timestamp, ms: u32) -> bool {
    (a.num * b.den - b.num * a.den) * 1000 <= ms * (a.den * b.den)
}

fn is_within(a: Timestamp, b: Timestamp, ms: u32) -> (r: bool)
    ensures
        r == within_ms(a, b, ms),
{
    proof {
        lemma_product_bounds(a.num, b.den);
        lemma_product_bounds(b.num, a.den);
        assert(0 <= a.den * b.den <= 0xffff_ffff * 0xffff_ffff) by (nonlinear_arith)
            requires
                0 <= a.den <= 0xffff_ffff,
                0 <= b.den <= 0xffff_ffff,
        ;
        let d = a.den * b.den;
        assert(0 <= ms * d <= 0xffff_ffff * (0xffff_ffff * 0xffff_ffff)) by (nonlinear_arith)
            requires
                0 <= ms <= 0xffff_ffff,
                0 <= d <= 0xffff_ffff * 0xffff_ffff,
        ;
    }
    let lead: i128 = (a.num as i128) * (b.den as i128) - (b.num as i128) * (a.den as i128);
    let unit: i128 = (a.den as i128) * (b.den as i128);
    lead * 1000 <= (ms as i128) * unit
}

proof fn lemma_product_bounds(n: i64, d: u32)
    ensures
        -0x8000_0000_0000_0000 * 0x1_0000_0000 <= n * d <= 0x8000_0000_0000_0000 * 0x1_0000_0000,
{
    assert(-0x8000_0000_0000_0000 * 0x1_0000_0000 <= n * d <= 0x8000_0000_0000_0000 * 0x1_0000_0000)
        by (nonlinear_arith)
        requires
            -0x8000_0000_0000_0000 <= n < 0x8000_0000_0000_0000,
            0 <= d < 0x1_0000_0000,
    ;
}

/// One more cue for the spans so far: it joins the last span when that span stays within
/// `target_ms` and the gap between them is at most `gap_ms`; else it starts a span.
pub open spec fn group_step(
    out: Seq<CueView>,
    c: CueView,
    target_ms: u32,
    gap_ms: u32,
) -> Seq<CueView> {
    if out.len() > 0 && within_ms(c.t1, out.last().t0, target_ms) && within_ms(
        c.t0,
        out.last().t1,
        gap_ms,
    ) {
        out.update(
            out.len() - 1,
            CueView {
                t0: out.last().t0,
                t1: later(out.last().t1, c.t1),
                text: out.last().text + seq![' '] + c.text,
            },
        )
    } else {
        out.push(c)
    }
}

/// Cues grouped into spans.
pub open spec fn grouped(cues: Seq<CueView>, target_ms: u32, gap_ms: u32) -> Seq<CueView>
    decreases cues.len(),
{
    if cues.len() == 0 {
        Seq::empty()
    } else {
        group_step(grouped(cues.drop_last(), target_ms, gap_ms), cues.last(), target_ms, gap_ms)
    }
}

/// Groups consecutive cues into spans of at most about `target_ms` for retrieval (short cues are
/// too small to search well). A gap longer than `gap_ms` starts a new span.
pub fn group_cues(cues: &[Cue], target_ms: u32, gap_ms: u32) -> (out: Vec<Cue>)
    ensures
        cue_views(out@) == grouped(cue_views(cues@), target_ms, gap_ms),
{
    let mut out: Vec<Cue> = Vec::new();
    let ghost all = cue_views(cues@);
    let mut i: usize = 0;
    proof {
        assert(all.take(0) =~= Seq::<CueView>::empty());
        assert(cue_views(out@) =~= Seq::<CueView>::empty());
    }
    while i < cues.len()
        invariant
            i <= cues@.len(),
            all == cue_views(cues@),
            cue_views(out@) == grouped(all.take(i as int), target_ms, gap_ms),
        decreases cues@.len() - i,
    {
        let c = &cues[i];
        let ghost before = out@;
        proof {
            assert(all.take(i + 1).drop_last() =~= all.take(i as int));
            assert(all.take(i + 1).last() == c@);
            assert(cue_views(before).len() == before.len());
        }
        let mut merge: bool = false;
        if out.len() > 0 {
            let last = &out[out.len() - 1];
            merge = is_within(c.t1, last.t0, target_ms) && is_within(c.t0, last.t1, gap_ms);
        }
        if merge {
            match out.pop() {
                Some(last) => {
                    let mut t = last.text;
                    t.push(' ');
                    t.append(c.text.as_str());
                    let span = Cue { t0: last.t0, t1: last.t1.max(c.t1), text: t };
                    out.push(span);
                    proof {
                        let joint = CueView {
                            t0: before.last().t0,
                            t1: later(before.last().t1, c.t1),
                            text: before.last().text@ + seq![' '] + c.text@,
                        };
                        assert(t@ =~= joint.text);
                        assert(span@ == joint);
                        assert(cue_views(out@) =~= cue_views(before).update(
                            before.len() - 1,
                            joint,
                        ));
                    }
                },
                None => {},
            }
        } else {
            out.push(c.copy());
            proof {
                assert(cue_views(out@) =~= cue_views(before).push(c@));
            }
        }
        i = i + 1;
    }
    proof {
        assert(all.take(i as int) =~= all);
    }
    out
}

/// All texts of a list of cues with single spaces between them.
pub open spec fn all_text(cues: Seq<CueView>) -> Seq<char> {
    text::joined(cues.map_values(|c: CueView| c.text), seq![' '])
}

/// Grouping loses no words and adds none: the texts of the spans, joined by spaces, are the texts
/// of the cues, joined by spaces.
pub proof fn law_grouping_keeps_text(cues: Seq<CueView>, target_ms: u32, gap_ms: u32)
    ensures
        all_text(grouped(cues, target_ms, gap_ms)) == all_text(cues),
        cues.len() > 0 ==> grouped(cues, target_ms, gap_ms).len() > 0,
    decreases cues.len(),
{
    let f = |c: CueView| c.text;
    if cues.len() == 0 {
    } else {
        let cut = cues.drop_last();
        law_grouping_keeps_text(cut, target_ms, gap_ms);
        let before = grouped(cut, target_ms, gap_ms);
        let after = grouped(cues, target_ms, gap_ms);
        let c = cues.last();
        assert(cues.map_values(f).drop_last() =~= cut.map_values(f));
        assert(cues.map_values(f).last() == c.text);
        if after.len() == before.len() + 1 {
            assert(after.map_values(f).drop_last() =~= before.map_values(f));
            assert(after.map_values(f).last() == c.text);
            if cut.len() == 0 {
                assert(before.len() == 0);
            }
        } else {
            // the last span grew by a space and the new text
            let head = before.map_values(f).drop_last();
            assert(after.map_values(f).drop_last() =~= head);
            assert(after.map_values(f).last() == before.last().text + seq![' '] + c.text);
            assert(before.map_values(f).last() == before.last().text);
            assert(cut.len() > 0);
            if before.len() == 1 {
                assert(all_text(after) =~= all_text(before) + seq![' '] + c.text);
            } else {
                assert(all_text(after) =~= text::joined(head, seq![' ']) + seq![' ']
                    + before.last().text + seq![' '] + c.text);
                assert(all_text(after) =~= all_text(before) + seq![' '] + c.text);
            }
        }
    }
}

/// A span holds several cues only when it lasts at most `target_ms` up to the last cue joined to
/// it; in particular a cue that is more than `gap_ms` after a span never joins it.
pub proof fn law_spans_respect_limits(
    out: Seq<CueView>,
    c: CueView,
    target_ms: u32,
    gap_ms: u32,
)
    requires
        out.len() > 0,
    ensures
        group_step(out, c, target_ms, gap_ms).len() == out.len() ==> within_ms(
            c.t1,
            group_step(out, c, target_ms, gap_ms).last().t0,
            target_ms,
        ),
        !within_ms(c.t0, out.last().t1, gap_ms) ==> group_step(out, c, target_ms, gap_ms)
            == out.push(c),
{
}

/// A subtitle sidecar.
#[derive(Debug)]
pub struct SubtitleFile {
    /// Path.
    pub path: String,
    /// Language tag from the file name (`en`, `en-US`, `en-orig`), if any.
    pub language: Option<String>,
    /// Format from the extension.
    pub format: SubtitleFormat,
}

/// A text without leading dots.
pub open spec fn without_dots(s: Seq<char>) -> Seq<char>
    decreases s.len(),
{
    if s.len() > 0 && s[0] == '.' {
        without_dots(s.drop_first())
    } else {
        s
    }
}

/// The format and language of a subtitle file `name` next to a media file whose name without
/// extension is `stem`: `<stem>.srt`, `<stem>.<lang>.vtt` and the like.
pub open spec fn subtitle_name(stem: Seq<char>, name: Seq<char>) -> Option<
    (SubtitleFormat, Option<Seq<char>>),
> {
    let format = match crate::path::extension(name) {
        Some(e) => if e == "srt"@ {
            Some(SubtitleFormat::Srt)
        } else if e == "vtt"@ {
            Some(SubtitleFormat::Vtt)
        } else {
            None
        },
        None => None,
    };
    if !text::starts_with(name, stem) || format is None {
        None
    } else {
        let rest = name.skip(stem.len() as int);
        if rest.len() == 0 || rest[0] != '.' || text::count_of(rest, '.') > 2 {
            None
        } else {
            let inner = without_dots(rest);
            let language = match text::last_index(inner, '.') {
                Some(d) => if d > 0 {
                    Some(inner.take(d))
                } else {
                    None
                },
                None => None,
            };
            Some((format->0, language))
        }
    }
}

/// Reads format and language off a file name next to a media file.
pub fn classify_subtitle(stem: &str, name: &str) -> (r: Option<(SubtitleFormat, Option<String>)>)
    ensures
        match r {
            Some((f, l)) => subtitle_name(stem@, name@) == Some(
                (
                    f,
                    match l {
                        Some(t) => Some(t@),
                        None => None,
                    },
                ),
            ),
            None => subtitle_name(stem@, name@) is None,
        },
{
    let sc = chars_of(stem);
    let nc = chars_of(name);
    let n: usize = nc.len();
    if !has_prefix(nc.as_slice(), sc.as_slice()) {
        return None;
    }
    let format = match rfind_char(nc.as_slice(), '.') {
        Some(d) => {
            if d == 0 {
                return None;
            }
            let e = slice_subrange(nc.as_slice(), d + 1, n);
            let srt = chars_of("srt");
            let vtt = chars_of("vtt");
            proof {
                assert(e@ =~= name@.skip(d + 1));
            }
            if same_text(e, srt.as_slice()) {
                SubtitleFormat::Srt
            } else if same_text(e, vtt.as_slice()) {
                SubtitleFormat::Vtt
            } else {
                return None;
            }
        },
        None => {
            return None;
        },
    };
    let rest = slice_subrange(nc.as_slice(), sc.len(), n);
    proof {
        assert(rest@ =~= name@.skip(stem@.len() as int));
    }
    if rest.len() == 0 || rest[0] != '.' || count_char(rest, '.') > 2 {
        return None;
    }
    let mut i: usize = 0;
    proof {
        assert(rest@.skip(0) =~= rest@);
    }
    while i < rest.len() && rest[i] == '.'
        invariant
            i <= rest@.len(),
            without_dots(rest@) == without_dots(rest@.skip(i as int)),
        decreases rest@.len() - i,
    {
        proof {
            assert(rest@.skip(i as int).drop_first() =~= rest@.skip(i + 1));
        }
        i = i + 1;
    }
    let inner = slice_subrange(rest, i, rest.len());
    proof {
        assert(inner@ =~= rest@.skip(i as int));
    }
    match rfind_char(inner, '.') {
        Some(d) => {
            if d > 0 {
                let lang = slice_subrange(inner, 0, d);
                proof {
                    assert(lang@ =~= inner@.take(d as int));
                }
                Some((format, Some(string_of(lang))))
            } else {
                Some((format, None))
            }
        },
        None => Some((format, None)),
    }
}

/// Language tags, lower-cased, each once, in code point order.
pub fn language_set(langs: &[String]) -> (set: Vec<String>)
    ensures
        text::ascending(text::strings_of(set@)),
        forall|t: Seq<char>| #[trigger]
            text::strings_of(set@).contains(t) <==> exists|i: int|
                0 <= i < langs@.len() && text::ascii_lower(#[trigger] langs@[i]@) == t,
{
    let mut set: Vec<String> = Vec::new();
    let mut i: usize = 0;
    while i < langs.len()
        invariant
            i <= langs@.len(),
            text::ascending(text::strings_of(set@)),
            forall|t: Seq<char>| #[trigger]
                text::strings_of(set@).contains(t) <==> exists|k: int|
                    0 <= k < i && text::ascii_lower(#[trigger] langs@[k]@) == t,
        decreases langs@.len() - i,
    {
        let c = chars_of(langs[i].as_str());
        let lower = to_ascii_lower(c.as_slice());
        let ghost before = text::strings_of(set@);
        insert_ascending(&mut set, string_of(lower.as_slice()));
        proof {
            assert forall|t: Seq<char>| #[trigger]
                text::strings_of(set@).contains(t) <==> exists|k: int|
                    0 <= k < i + 1 && text::ascii_lower(#[trigger] langs@[k]@) == t by {
                if before.contains(t) {
                    let k = choose|k: int|
                        0 <= k < i && text::ascii_lower(#[trigger] langs@[k]@) == t;
                    assert(text::ascii_lower(langs@[k]@) == t);
                }
                assert(text::ascii_lower(langs@[i as int]@) == lower@);
            }
        }
        i = i + 1;
    }
    set
}

/// A text of digits is read as a number.
pub open spec fn is_number(s: Seq<char>) -> bool {
    s.len() > 0 && text::all_digits(s) && text::digits_value(s) <= i64::MAX
}

proof fn lemma_number(s: Seq<char>)
    requires
        is_number(s),
    ensures
        text::int_value(s) == Some(text::digits_value(s) as int),
        text::free_of(s, ':'),
        text::free_of(s, '.'),
        text::free_of(s, ','),
{
    assert(text::digit(s[0]));
    assert forall|i: int| 0 <= i < s.len() implies #[trigger] s[i] != ':' && s[i] != '.' && s[i]
        != ',' by {
        assert(text::digit(s[i]));
    }
}

proof fn lemma_seconds(s: Seq<char>, f: Seq<char>)
    requires
        is_number(s),
        f.len() == 3,
        text::all_digits(f),
    ensures
        seconds_ms(s + seq!['.'] + f) == Some(
            text::digits_value(s) * 1000 + text::digits_value(f) as int,
        ),
{
    let t = s + seq!['.'] + f;
    lemma_number(s);
    text::law_places_of_a_character(t, '.');
    let n = s.len() as int;
    assert(t[n] == '.');
    match text::first_index(t, '.') {
        Some(i) => {
            if i < n {
                assert(t[i] == s[i]);
            }
            assert(i == n);
            assert(t.take(n) =~= s);
            assert(t.skip(n + 1) =~= f);
        },
        None => {},
    }
    assert(f.take(3) =~= f);
    assert(text::digit(f[0]));
    assert(text::int_value(f) == Some(text::digits_value(f) as int));
}

/// Times are read as hours, minutes and seconds with thousandths, behind a comma or a point, or as
/// minutes and seconds alone.
pub proof fn law_clocks_are_read(
    h: Seq<char>,
    m: Seq<char>,
    s: Seq<char>,
    f: Seq<char>,
    point: char,
)
    requires
        is_number(h),
        is_number(m),
        is_number(s),
        f.len() == 3,
        text::all_digits(f),
        point == ',' || point == '.',
    ensures
        clock_ms(h + seq![':'] + (m + seq![':'] + (s + seq![point] + f))) == Some(
            ((text::digits_value(h) * 60 + text::digits_value(m)) * 60 + text::digits_value(s))
                * 1000 + text::digits_value(f) as int,
        ),
        clock_ms(m + seq![':'] + (s + seq![point] + f)) == Some(
            (text::digits_value(m) * 60 + text::digits_value(s)) * 1000 + text::digits_value(
                f,
            ) as int,
        ),
{
    lemma_number(h);
    lemma_number(m);
    lemma_number(s);
    lemma_seconds(s, f);
    let c = seq![':'];
    let last = s + seq!['.'] + f;
    let short = m + c + (s + seq![point] + f);
    let long = h + c + short;
    assert forall|i: int| 0 <= i < f.len() implies #[trigger] f[i] != ',' && f[i] != ':' by {
        assert(text::digit(f[i]));
    }
    text::law_replacing_a_character(short, ',', '.');
    text::law_replacing_a_character(long, ',', '.');
    let a = text::replaced(short, seq![','], seq!['.']);
    let b = text::replaced(long, seq![','], seq!['.']);
    assert(a =~= m + c + last) by {
        assert forall|i: int| 0 <= i < a.len() implies #[trigger] a[i] == (m + c + last)[i] by {
            let x = short[i];
            if i < m.len() {
                assert(x == m[i]);
            } else if m.len() < i < m.len() + 1 + s.len() {
                assert(x == s[i - m.len() - 1]);
            } else if i > m.len() + 1 + s.len() {
                assert(x == f[i - m.len() - 2 - s.len()]);
            }
        }
    }
    assert(b =~= h + c + a) by {
        assert forall|i: int| 0 <= i < b.len() implies #[trigger] b[i] == (h + c + a)[i] by {
            if i < h.len() {
                assert(long[i] == h[i]);
            } else if i > h.len() {
                assert(long[i] == short[i - h.len() - 1]);
            }
        }
    }
    assert(text::free_of(last, ':')) by {
        assert forall|i: int| 0 <= i < last.len() implies #[trigger] last[i] != ':' by {
            if i < s.len() {
                assert(last[i] == s[i]);
            } else if i > s.len() {
                assert(last[i] == f[i - s.len() - 1]);
            }
        }
    }
    text::law_splitting_at_a_character(last, Seq::empty(), ':');
    text::law_splitting_at_a_character(m, last, ':');
    text::law_splitting_at_a_character(h, a, ':');
    let two = text::split(a, c);
    let three = text::split(b, c);
    assert(two =~= seq![m, last]);
    assert(three =~= seq![h, m, last]);
}

/// The digits of a fraction are tenths, hundredths and thousandths; what follows is cut off.
pub proof fn law_fractions_are_thousandths(a: char, b: char, c: char, more: Seq<char>)
    requires
        text::digit(a),
        text::digit(b),
        text::digit(c),
    ensures
        fraction_ms(seq![a]) == Some((a as int - '0' as int) * 100),
        fraction_ms(seq![a, b]) == Some(
            (a as int - '0' as int) * 100 + (b as int - '0' as int) * 10,
        ),
        fraction_ms(seq![a, b, c] + more) == Some(
            (a as int - '0' as int) * 100 + (b as int - '0' as int) * 10 + (c as int - '0' as int),
        ),
        fraction_ms(Seq::<char>::empty()) == Some(0int),
{
    reveal_with_fuel(text::digits_value, 4);
    let (x, y, z) = (seq![a], seq![a, b], seq![a, b, c]);
    assert(x.drop_last() =~= Seq::<char>::empty());
    assert(y.drop_last() =~= x);
    assert(z.drop_last() =~= y);
    assert(x.take(1) =~= x);
    assert(y.take(2) =~= y);
    assert((z + more).take(3) =~= z);
    assert(text::all_digits(x) && text::all_digits(y) && text::all_digits(z));
}

/// Markup is left out: a text without brackets and braces stays, and a tag or a block in braces in
/// front of a text falls away.
pub proof fn law_markup_is_left_out(t: Seq<char>, s: Seq<char>)
    ensures
        text::free_of(t, '<') && text::free_of(t, '{') ==> outside_markup(t + s, false, false) == t
            + outside_markup(s, false, false),
        text::free_of(t, '<') && text::free_of(t, '>') && text::free_of(t, '{')
            ==> outside_markup(seq!['<'] + t + seq!['>'] + s, false, false) == outside_markup(
            s,
            false,
            false,
        ),
        text::free_of(t, '<') && text::free_of(t, '{') && text::free_of(t, '}')
            ==> outside_markup(seq!['{'] + t + seq!['}'] + s, false, false) == outside_markup(
            s,
            false,
            false,
        ),
        outside_markup(Seq::<char>::empty(), false, false) == Seq::<char>::empty(),
{
    lemma_plain_stays(t, s);
    lemma_markup_falls(t, s, true);
    lemma_markup_falls(t, s, false);
    let a = seq!['<'] + t + seq!['>'] + s;
    let b = seq!['{'] + t + seq!['}'] + s;
    assert(a.drop_first() =~= t + seq!['>'] + s);
    assert(b.drop_first() =~= t + seq!['}'] + s);
    assert(a[0] == '<' && b[0] == '{');
}

proof fn lemma_plain_stays(t: Seq<char>, s: Seq<char>)
    ensures
        text::free_of(t, '<') && text::free_of(t, '{') ==> outside_markup(t + s, false, false) == t
            + outside_markup(s, false, false),
    decreases t.len(),
{
    if text::free_of(t, '<') && text::free_of(t, '{') {
        if t.len() == 0 {
            assert(t + s =~= s);
            assert(t + outside_markup(s, false, false) =~= outside_markup(s, false, false));
        } else {
            let r = t.drop_first();
            assert forall|i: int| 0 <= i < r.len() implies #[trigger] r[i] != '<' && r[i] != '{' by {
                assert(r[i] == t[i + 1]);
            }
            lemma_plain_stays(r, s);
            assert((t + s).drop_first() =~= r + s);
            assert((t + s)[0] == t[0]);
            assert(seq![t[0]] + (r + outside_markup(s, false, false)) =~= t + outside_markup(
                s,
                false,
                false,
            ));
        }
    }
}

proof fn lemma_markup_falls(t: Seq<char>, s: Seq<char>, tag: bool)
    ensures
        tag && text::free_of(t, '<') && text::free_of(t, '>') && text::free_of(t, '{')
            ==> outside_markup(t + seq!['>'] + s, true, false) == outside_markup(s, false, false),
        !tag && text::free_of(t, '<') && text::free_of(t, '{') && text::free_of(t, '}')
            ==> outside_markup(t + seq!['}'] + s, false, true) == outside_markup(s, false, false),
    decreases t.len(),
{
    let end = if tag {
        '>'
    } else {
        '}'
    };
    let w = t + seq![end] + s;
    if t.len() == 0 {
        assert(w[0] == end);
        assert(w.drop_first() =~= s);
    } else {
        let r = t.drop_first();
        assert forall|i: int| 0 <= i < r.len() implies r[i] == #[trigger] t[i + 1] by {}
        if text::free_of(t, '<') && text::free_of(t, '{') && text::free_of(t, end) {
            assert(t[0] != '<' && t[0] != '{' && t[0] != end);
            assert forall|i: int| 0 <= i < r.len() implies #[trigger] r[i] != '<' && r[i] != '{'
                && r[i] != end by {
                assert(r[i] == t[i + 1]);
            }
        }
        lemma_markup_falls(r, s, tag);
        assert(w.drop_first() =~= r + seq![end] + s);
        assert(w[0] == t[0]);
    }
}

/// Captions that roll: a cue that repeats the one before it makes that one last as long; one that
/// goes on behind it adds only what is new; one that holds only its last words adds nothing, and
/// any other is a cue of its own.
pub proof fn law_rolling_captions_are_said_once(a: CueView, b: CueView, more: Seq<char>)
    ensures
        b.text == a.text ==> rolled(seq![a, b]).0 == seq![
            CueView { t1: later(a.t1, b.t1), ..a },
        ],
        b.text == a.text + seq![' '] + more && text::trimmed(more).len() > 0 ==> rolled(
            seq![a, b],
        ).0 == seq![a, CueView { text: text::trimmed(more), ..b }],
        a.text == more + seq![' '] + b.text ==> rolled(seq![a, b]).0 == seq![
            CueView { t1: later(a.t1, b.t1), ..a },
        ],
        !text::starts_with(b.text, a.text) && !text::ends_with(a.text, b.text) ==> rolled(
            seq![a, b],
        ).0 == seq![a, b],
        rolled(seq![a]).0 == seq![a],
{
    reveal_with_fuel(rolled, 3);
    let one = seq![a];
    let two = seq![a, b];
    assert(one.drop_last() =~= Seq::<CueView>::empty());
    assert(two.drop_last() =~= one);
    assert(Seq::<CueView>::empty().push(a) =~= one);
    assert(rolled(one) == (one, Some(a.text)));
    assert(one.update(0, CueView { t1: later(a.t1, b.t1), ..a }) =~= seq![
        CueView { t1: later(a.t1, b.t1), ..a },
    ]);
    assert(extended(one, b.t1) =~= seq![CueView { t1: later(a.t1, b.t1), ..a }]);
    if b.text == a.text + seq![' '] + more && text::trimmed(more).len() > 0 {
        let n = a.text.len() as int;
        assert(b.text.len() > n);
        assert(b.text.subrange(0, n) =~= a.text);
        assert(b.text[n] == ' ');
        let rest = b.text.skip(n);
        assert(rest =~= seq![' '] + more);
        assert(rest.drop_first() =~= more);
        assert(text::whitespace(' '));
        assert(text::trim_start(rest) == text::trim_start(more));
        assert(one.push(CueView { t0: b.t0, t1: b.t1, text: text::trimmed(more) }) =~= seq![
            a,
            CueView { text: text::trimmed(more), ..b },
        ]);
    }
    if a.text == more + seq![' '] + b.text {
        let k = a.text.len() - b.text.len();
        assert(a.text.subrange(k, a.text.len() as int) =~= b.text);
        assert(a.text[k - 1] == ' ');
    }
    if a.text == b.text {
        assert(b.text.subrange(0, a.text.len() as int) =~= a.text);
        assert(text::starts_with(b.text, a.text));
    }
    assert(one.push(b) =~= two);
}

} // verus!
