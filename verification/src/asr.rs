//! Transcripts: long segments of recognised speech are cut at sentence ends
//! or pauses, short ones are grouped into spans.
//!
//! Times are in microseconds, probabilities and confidences in millionths.

use vstd::prelude::*;

use crate::text;
use crate::text::{chars_of, string_of, trim_end_of, trim_of};
use crate::timestamp::Timestamp;

verus! {

/// A recognised word.
#[derive(Debug)]
pub struct AsrWord {
    /// The word, with the white space before it.
    pub word: String,
    /// Start.
    pub start: i64,
    /// End.
    pub end: i64,
    /// Probability.
    pub probability: Option<i64>,
}

/// A segment of recognised speech.
#[derive(Debug)]
pub struct AsrSegment {
    /// Start.
    pub start: i64,
    /// End.
    pub end: i64,
    /// Text.
    pub text: String,
    /// Words with their times.
    pub words: Vec<AsrWord>,
    /// Confidence.
    pub confidence: Option<i64>,
    /// Probability that there is no speech.
    pub no_speech_prob: Option<i64>,
}

/// A word as mathematics.
pub struct WordView {
    /// The word.
    pub word: Seq<char>,
    /// Start.
    pub start: int,
    /// End.
    pub end: int,
    /// Probability.
    pub probability: Option<i64>,
}

/// A segment as mathematics.
#[verifier::ext_equal]
pub struct SegmentView {
    /// Start.
    pub start: int,
    /// End.
    pub end: int,
    /// Text.
    pub text: Seq<char>,
    /// Words.
    pub words: Seq<WordView>,
    /// Confidence.
    pub confidence: Option<i64>,
    /// Probability that there is no speech.
    pub no_speech_prob: Option<i64>,
}

impl View for AsrWord {
    type V = WordView;

    open spec fn view(&self) -> WordView {
        WordView {
            word: self.word@,
            start: self.start as int,
            end: self.end as int,
            probability: self.probability,
        }
    }
}

/// Words as mathematics.
pub open spec fn word_views(s: Seq<AsrWord>) -> Seq<WordView> {
    s.map_values(|w: AsrWord| w@)
}

impl View for AsrSegment {
    type V = SegmentView;

    open spec fn view(&self) -> SegmentView {
        SegmentView {
            start: self.start as int,
            end: self.end as int,
            text: self.text@,
            words: word_views(self.words@),
            confidence: self.confidence,
            no_speech_prob: self.no_speech_prob,
        }
    }
}

/// Segments as mathematics.
pub open spec fn segment_views(s: Seq<AsrSegment>) -> Seq<SegmentView> {
    s.map_values(|g: AsrSegment| g@)
}

/// A word ends a sentence.
pub open spec fn ends_sentence(w: Seq<char>) -> bool {
    let t = text::trim_end(w);
    t.len() > 0 && (t.last() == '.' || t.last() == '?' || t.last() == '!')
}

/// The last word from `k` on that keeps a piece that starts with word `s` within the limit, when
/// those up to `k` do.
pub open spec fn last_fit(words: Seq<WordView>, s: int, k: int, span: int) -> int
    decreases words.len() - k,
{
    if k + 1 < words.len() && words[k + 1].end - words[s].start <= span {
        last_fit(words, s, k + 1, span)
    } else {
        k
    }
}

/// The last word from `lo` to `hi` that ends a sentence.
pub open spec fn last_sentence_end(words: Seq<WordView>, lo: int, hi: int) -> Option<int>
    decreases hi + 1 - lo,
{
    if hi < lo {
        None
    } else if ends_sentence(words[hi].word) {
        Some(hi)
    } else {
        last_sentence_end(words, lo, hi - 1)
    }
}

/// The pause behind a word.
pub open spec fn pause(words: Seq<WordView>, i: int) -> int {
    words[i + 1].start - words[i].end
}

/// The word from `lo` up to, but not with, `hi` that has the longest pause behind it: the last
/// such word.
pub open spec fn longest_pause(words: Seq<WordView>, lo: int, hi: int) -> Option<int>
    decreases hi - lo,
{
    if hi <= lo {
        None
    } else {
        match longest_pause(words, lo, hi - 1) {
            Some(b) => if pause(words, hi - 1) >= pause(words, b) {
                Some(hi - 1)
            } else {
                Some(b)
            },
            None => Some(hi - 1),
        }
    }
}

/// The last word of the piece that starts with word `s`: the rest when it fits; else a sentence
/// end in the second half of what fits, else the longest pause there, else all that fits.
pub open spec fn piece_end(words: Seq<WordView>, s: int, span: int) -> int {
    let f = last_fit(words, s, s, span);
    if f + 1 >= words.len() {
        words.len() - 1
    } else {
        let lo = s + (f - s) / 2;
        match last_sentence_end(words, lo, f) {
            Some(i) => i,
            None => match longest_pause(words, lo, f) {
                Some(i) => i,
                None => f,
            },
        }
    }
}

/// The words of a piece run together.
pub open spec fn run_together(words: Seq<WordView>) -> Seq<char>
    decreases words.len(),
{
    if words.len() == 0 {
        Seq::empty()
    } else {
        run_together(words.drop_last()) + words.last().word
    }
}

/// The piece of a segment that holds words `s` to `e`.
pub open spec fn piece(g: SegmentView, s: int, e: int) -> SegmentView {
    let ws = g.words.subrange(s, e + 1);
    SegmentView {
        start: g.words[s].start,
        end: g.words[e].end,
        text: text::trimmed(run_together(ws)),
        words: ws,
        confidence: g.confidence,
        no_speech_prob: g.no_speech_prob,
    }
}

proof fn lemma_last_fit(words: Seq<WordView>, s: int, k: int, span: int)
    requires
        0 <= s <= k < words.len(),
    ensures
        k <= last_fit(words, s, k, span) < words.len(),
    decreases words.len() - k,
{
    if k + 1 < words.len() && words[k + 1].end - words[s].start <= span {
        lemma_last_fit(words, s, k + 1, span);
    }
}

proof fn lemma_sentence_end(words: Seq<WordView>, lo: int, hi: int)
    ensures
        last_sentence_end(words, lo, hi) matches Some(i) ==> lo <= i <= hi,
    decreases hi + 1 - lo,
{
    if hi >= lo && !ends_sentence(words[hi].word) {
        lemma_sentence_end(words, lo, hi - 1);
    }
}

proof fn lemma_pause(words: Seq<WordView>, lo: int, hi: int)
    ensures
        match longest_pause(words, lo, hi) {
            Some(i) => lo <= i < hi,
            None => hi <= lo,
        },
    decreases hi - lo,
{
    if hi > lo {
        lemma_pause(words, lo, hi - 1);
    }
}

/// A piece holds at least its first word.
pub proof fn lemma_piece_end(words: Seq<WordView>, s: int, span: int)
    requires
        0 <= s < words.len(),
    ensures
        s <= piece_end(words, s, span) < words.len(),
{
    lemma_last_fit(words, s, s, span);
    let f = last_fit(words, s, s, span);
    let lo = s + (f - s) / 2;
    lemma_sentence_end(words, lo, f);
    lemma_pause(words, lo, f);
}

/// The pieces of a segment from word `s` on.
pub open spec fn pieces_from(g: SegmentView, s: int, span: int) -> Seq<SegmentView>
    decreases g.words.len() - s,
{
    if s < 0 || s >= g.words.len() {
        Seq::empty()
    } else {
        proof {
            lemma_piece_end(g.words, s, span);
        }
        let e = piece_end(g.words, s, span);
        seq![piece(g, s, e)] + pieces_from(g, e + 1, span)
    }
}

/// What becomes of a segment: one that is short or has few words stays whole.
pub open spec fn split_segment(g: SegmentView, span: int) -> Seq<SegmentView> {
    if g.end - g.start <= span || g.words.len() < 4 {
        seq![g]
    } else {
        pieces_from(g, 0, span)
    }
}

/// What becomes of segments.
pub open spec fn split_all(gs: Seq<SegmentView>, span: int) -> Seq<SegmentView>
    decreases gs.len(),
{
    if gs.len() == 0 {
        Seq::empty()
    } else {
        split_all(gs.drop_last(), span) + split_segment(gs.last(), span)
    }
}

fn copy_word(w: &AsrWord) -> (r: AsrWord)
    ensures
        r@ == w@,
{
    AsrWord { word: w.word.clone(), start: w.start, end: w.end, probability: w.probability }
}

fn copy_words(words: &Vec<AsrWord>, s: usize, e: usize) -> (r: Vec<AsrWord>)
    requires
        s <= e <= words@.len(),
    ensures
        word_views(r@) == word_views(words@).subrange(s as int, e as int),
{
    let mut out: Vec<AsrWord> = Vec::new();
    let ghost all = word_views(words@);
    let mut i: usize = s;
    while i < e
        invariant
            s <= i <= e <= words@.len(),
            all == word_views(words@),
            word_views(out@) == all.subrange(s as int, i as int),
        decreases e - i,
    {
        let w = copy_word(&words[i]);
        let ghost before = word_views(out@);
        out.push(w);
        proof {
            assert(word_views(out@) =~= before.push(all[i as int]));
            assert(all.subrange(s as int, i + 1) =~= all.subrange(s as int, i as int).push(
                all[i as int],
            ));
        }
        i = i + 1;
    }
    out
}

fn copy_segment(g: &AsrSegment) -> (r: AsrSegment)
    ensures
        r@ == g@,
{
    let words = copy_words(&g.words, 0, g.words.len());
    proof {
        assert(word_views(g.words@).subrange(0, g.words@.len() as int) =~= word_views(g.words@));
    }
    AsrSegment {
        start: g.start,
        end: g.end,
        text: g.text.clone(),
        words,
        confidence: g.confidence,
        no_speech_prob: g.no_speech_prob,
    }
}

fn closes_sentence(w: &str) -> (b: bool)
    ensures
        b == ends_sentence(w@),
{
    let c = chars_of(w);
    let t = trim_end_of(c.as_slice());
    let n: usize = t.len();
    n > 0 && (t[n - 1] == '.' || t[n - 1] == '?' || t[n - 1] == '!')
}

/// A difference of times.
fn minus(a: i64, b: i64) -> (d: i128)
    ensures
        d == a - b,
{
    a as i128 - b as i128
}

fn find_piece_end(words: &Vec<AsrWord>, s: usize, span: i64) -> (e: usize)
    requires
        s < words@.len(),
    ensures
        e == piece_end(word_views(words@), s as int, span as int),
        s <= e < words@.len(),
{
    let ghost ws = word_views(words@);
    let n: usize = words.len();
    let mut f: usize = s;
    proof {
        lemma_piece_end(ws, s as int, span as int);
    }
    while n - f > 1 && minus(words[f + 1].end, words[s].start) <= span as i128
        invariant
            s <= f < n == words@.len(),
            ws == word_views(words@),
            last_fit(ws, s as int, s as int, span as int) == last_fit(
                ws,
                s as int,
                f as int,
                span as int,
            ),
        decreases n - f,
    {
        f = f + 1;
    }
    if n - f <= 1 {
        return n - 1;
    }
    let lo: usize = s + (f - s) / 2;
    let mut i: usize = f + 1;
    while i > lo
        invariant
            lo <= i <= f + 1 <= n == words@.len(),
            ws == word_views(words@),
            s <= f,
            lo == s + (f - s) / 2,
            f + 1 < ws.len(),
            f == last_fit(ws, s as int, s as int, span as int),
            last_sentence_end(ws, lo as int, f as int) == last_sentence_end(ws, lo as int, i - 1),
        decreases i,
    {
        proof {
            assert(ws[i - 1] == words@[i - 1]@);
        }
        if closes_sentence(words[i - 1].word.as_str()) {
            proof {
                lemma_sentence_end(ws, lo as int, f as int);
            }
            return i - 1;
        }
        i = i - 1;
    }
    let mut best: Option<usize> = None;
    let mut k: usize = lo;
    while k < f
        invariant
            lo <= k <= f < n == words@.len(),
            f + 1 < n,
            ws == word_views(words@),
            match best {
                Some(b) => lo <= b < k && longest_pause(ws, lo as int, k as int) == Some(b as int),
                None => longest_pause(ws, lo as int, k as int) is None && k == lo,
            },
        decreases f - k,
    {
        proof {
            assert(ws[k as int] == words@[k as int]@);
            assert(ws[k + 1] == words@[k + 1]@);
        }
        match best {
            Some(b) => {
                proof {
                    assert(ws[b as int] == words@[b as int]@);
                    assert(ws[b + 1] == words@[b + 1]@);
                }
                if minus(words[k + 1].start, words[k].end) >= minus(
                    words[b + 1].start,
                    words[b].end,
                ) {
                    best = Some(k);
                }
            },
            None => {
                best = Some(k);
            },
        }
        k = k + 1;
    }
    match best {
        Some(b) => b,
        None => f,
    }
}

fn join_words(words: &Vec<AsrWord>) -> (r: String)
    ensures
        r@ == run_together(word_views(words@)),
{
    let ghost all = word_views(words@);
    let mut out = string_of(&[]);
    let mut i: usize = 0;
    proof {
        assert(all.take(0) =~= Seq::<WordView>::empty());
        assert(out@ =~= Seq::<char>::empty());
    }
    while i < words.len()
        invariant
            i <= words@.len(),
            all == word_views(words@),
            out@ == run_together(all.take(i as int)),
        decreases words@.len() - i,
    {
        proof {
            assert(all.take(i + 1).drop_last() =~= all.take(i as int));
            assert(all.take(i + 1).last() == words@[i as int]@);
        }
        out.append(words[i].word.as_str());
        i = i + 1;
    }
    proof {
        assert(all.take(i as int) =~= all);
    }
    out
}

fn make_piece(g: &AsrSegment, s: usize, e: usize) -> (r: AsrSegment)
    requires
        s <= e < g.words@.len(),
    ensures
        r@ == piece(g@, s as int, e as int),
{
    let n: usize = g.words.len();
    let words = copy_words(&g.words, s, e + 1);
    let joined = join_words(&words);
    let c = chars_of(joined.as_str());
    let said = string_of(trim_of(c.as_slice()));
    let r = AsrSegment {
        start: g.words[s].start,
        end: g.words[e].end,
        text: said,
        words,
        confidence: g.confidence,
        no_speech_prob: g.no_speech_prob,
    };
    proof {
        assert(r@ =~= piece(g@, s as int, e as int));
    }
    r
}

/// Splits segments longer than `span` that carry word timings, cutting after sentence-final
/// punctuation when one falls in the second half of a piece, else at the largest pause.
pub fn split_long_segments(segments: &Vec<AsrSegment>, span: i64) -> (r: Vec<AsrSegment>)
    ensures
        segment_views(r@) == split_all(segment_views(segments@), span as int),
{
    let ghost all = segment_views(segments@);
    let mut out: Vec<AsrSegment> = Vec::new();
    let mut i: usize = 0;
    proof {
        assert(all.take(0) =~= Seq::<SegmentView>::empty());
        assert(segment_views(out@) =~= Seq::<SegmentView>::empty());
    }
    while i < segments.len()
        invariant
            i <= segments@.len(),
            all == segment_views(segments@),
            segment_views(out@) == split_all(all.take(i as int), span as int),
        decreases segments@.len() - i,
    {
        let g = &segments[i];
        let ghost gv = g@;
        let ghost before = segment_views(out@);
        proof {
            assert(all.take(i + 1).drop_last() =~= all.take(i as int));
            assert(all.take(i + 1).last() == gv);
        }
        if minus(g.end, g.start) <= span as i128 || g.words.len() < 4 {
            let copy = copy_segment(g);
            out.push(copy);
            proof {
                assert(segment_views(out@) =~= before + seq![gv]);
            }
        } else {
            let mut s: usize = 0;
            proof {
                assert(before + pieces_from(gv, 0, span as int) =~= segment_views(out@)
                    + pieces_from(gv, 0, span as int));
            }
            while s < g.words.len()
                invariant
                    s <= g.words@.len(),
                    gv == g@,
                    segment_views(out@) + pieces_from(gv, s as int, span as int) == before
                        + pieces_from(gv, 0, span as int),
                decreases g.words@.len() - s,
            {
                let e: usize = find_piece_end(&g.words, s, span);
                let p = make_piece(g, s, e);
                let ghost had = segment_views(out@);
                out.push(p);
                proof {
                    let rest = pieces_from(gv, e + 1, span as int);
                    assert(segment_views(out@) =~= had.push(p@));
                    assert(had.push(p@) + rest =~= had + (seq![p@] + rest));
                }
                s = e + 1;
            }
            proof {
                assert(segment_views(out@) + Seq::<SegmentView>::empty() =~= segment_views(out@));
            }
        }
        i = i + 1;
    }
    proof {
        assert(all.take(i as int) =~= all);
    }
    out
}

/// The words of segments, in order.
pub open spec fn all_words(gs: Seq<SegmentView>) -> Seq<WordView>
    decreases gs.len(),
{
    if gs.len() == 0 {
        Seq::empty()
    } else {
        all_words(gs.drop_last()) + gs.last().words
    }
}

proof fn lemma_words_front(p: SegmentView, rest: Seq<SegmentView>)
    ensures
        all_words(seq![p] + rest) == p.words + all_words(rest),
    decreases rest.len(),
{
    let whole = seq![p] + rest;
    reveal_with_fuel(all_words, 2);
    if rest.len() == 0 {
        assert(whole =~= seq![p]);
        assert(whole.drop_last() =~= Seq::<SegmentView>::empty());
        assert(all_words(whole) =~= p.words + all_words(rest));
    } else {
        lemma_words_front(p, rest.drop_last());
        assert(whole.drop_last() =~= seq![p] + rest.drop_last());
        assert(all_words(whole) =~= p.words + all_words(rest));
    }
}

proof fn lemma_words_concat(a: Seq<SegmentView>, b: Seq<SegmentView>)
    ensures
        all_words(a + b) == all_words(a) + all_words(b),
    decreases b.len(),
{
    if b.len() == 0 {
        assert(a + b =~= a);
        assert(all_words(a) + all_words(b) =~= all_words(a));
    } else {
        lemma_words_concat(a, b.drop_last());
        assert((a + b).drop_last() =~= a + b.drop_last());
        assert(all_words(a + b) =~= all_words(a) + all_words(b));
    }
}

proof fn lemma_pieces_keep_words(g: SegmentView, s: int, span: int)
    requires
        0 <= s <= g.words.len(),
    ensures
        all_words(pieces_from(g, s, span)) == g.words.skip(s),
    decreases g.words.len() - s,
{
    if s < g.words.len() {
        lemma_piece_end(g.words, s, span);
        let e = piece_end(g.words, s, span);
        lemma_pieces_keep_words(g, e + 1, span);
        lemma_words_front(piece(g, s, e), pieces_from(g, e + 1, span));
        assert(g.words.subrange(s, e + 1) + g.words.skip(e + 1) =~= g.words.skip(s));
    } else {
        assert(g.words.skip(s) =~= Seq::<WordView>::empty());
    }
}

/// Splitting loses no word and invents none, and keeps their order.
pub proof fn law_splitting_keeps_words(gs: Seq<SegmentView>, span: int)
    ensures
        all_words(split_all(gs, span)) == all_words(gs),
    decreases gs.len(),
{
    if gs.len() > 0 {
        law_splitting_keeps_words(gs.drop_last(), span);
        let g = gs.last();
        lemma_words_concat(split_all(gs.drop_last(), span), split_segment(g, span));
        if g.end - g.start <= span || g.words.len() < 4 {
            let one = seq![g];
            reveal_with_fuel(all_words, 2);
            assert(one.drop_last() =~= Seq::<SegmentView>::empty());
            assert(all_words(one) =~= g.words);
        } else {
            lemma_pieces_keep_words(g, 0, span);
            assert(g.words.skip(0) =~= g.words);
        }
    }
}

proof fn lemma_fit_is_short(words: Seq<WordView>, s: int, k: int, span: int)
    requires
        0 <= s <= k < words.len(),
        forall|j: int| s < j <= k ==> (#[trigger] words[j]).end - words[s].start <= span,
    ensures
        forall|j: int|
            s < j <= last_fit(words, s, k, span) ==> (#[trigger] words[j]).end - words[s].start
                <= span,
    decreases words.len() - k,
{
    if k + 1 < words.len() && words[k + 1].end - words[s].start <= span {
        lemma_fit_is_short(words, s, k + 1, span);
    }
}

/// A piece of more than one word lasts no longer than the limit.
pub proof fn law_pieces_fit(words: Seq<WordView>, s: int, span: int)
    requires
        0 <= s < words.len(),
        piece_end(words, s, span) > s,
    ensures
        words[piece_end(words, s, span)].end - words[s].start <= span,
{
    lemma_fit_is_short(words, s, s, span);
    lemma_last_fit(words, s, s, span);
    let f = last_fit(words, s, s, span);
    let lo = s + (f - s) / 2;
    lemma_sentence_end(words, lo, f);
    lemma_pause(words, lo, f);
    let e = piece_end(words, s, span);
    assert(e <= f || f + 1 >= words.len());
}

/// The last visible character of a word is a full stop, a question mark or an exclamation mark.
pub open spec fn stops(w: Seq<char>) -> bool {
    exists|n: int|
        0 <= n < w.len() && (#[trigger] w[n] == '.' || w[n] == '?' || w[n] == '!') && (forall|i: int|
            n < i < w.len() ==> text::whitespace(#[trigger] w[i]))
}

/// A word ends a sentence if its last visible character is one that ends sentences.
pub proof fn law_sentences_end_with_a_mark(w: Seq<char>)
    ensures
        ends_sentence(w) <==> stops(w),
{
    text::law_trimming_the_end(w);
    let t = text::trim_end(w);
    let k = choose|k: int|
        0 <= k <= w.len() && #[trigger] w.take(k) == t && (k > 0 ==> !text::whitespace(w[k - 1]))
            && (forall|i: int| k <= i < w.len() ==> text::whitespace(#[trigger] w[i]));
    assert(t.len() == k);
    if k > 0 {
        assert(t.last() == w[k - 1]);
    }
    if stops(w) {
        let n = choose|n: int|
            0 <= n < w.len() && (#[trigger] w[n] == '.' || w[n] == '?' || w[n] == '!') && (forall|
                i: int,
            |
                n < i < w.len() ==> text::whitespace(#[trigger] w[i]));
        assert(!text::whitespace(w[n]));
        assert(n < k);
        if n < k - 1 {
            assert(text::whitespace(w[k - 1]));
        }
    }
}

proof fn lemma_fits(words: Seq<WordView>, s: int, k: int, f: int, span: int)
    requires
        0 <= s <= k <= f < words.len(),
        forall|j: int| s < j <= f ==> (#[trigger] words[j]).end - words[s].start <= span,
        f + 1 < words.len() ==> words[f + 1].end - words[s].start > span,
    ensures
        last_fit(words, s, k, span) == f,
    decreases f - k,
{
    if k < f {
        assert(words[k + 1].end - words[s].start <= span);
        lemma_fits(words, s, k + 1, f, span);
    }
}

proof fn lemma_last_sentence_end(words: Seq<WordView>, lo: int, hi: int)
    ensures
        match last_sentence_end(words, lo, hi) {
            Some(e) => lo <= e <= hi && stops(words[e].word) && forall|j: int|
                e < j <= hi ==> !stops((#[trigger] words[j]).word),
            None => forall|j: int| lo <= j <= hi ==> !stops((#[trigger] words[j]).word),
        },
    decreases hi + 1 - lo,
{
    if hi >= lo {
        law_sentences_end_with_a_mark(words[hi].word);
        if !ends_sentence(words[hi].word) {
            lemma_last_sentence_end(words, lo, hi - 1);
        }
    }
}

proof fn lemma_longest_pause(words: Seq<WordView>, lo: int, hi: int)
    requires
        0 <= lo,
        hi < words.len(),
    ensures
        match longest_pause(words, lo, hi) {
            Some(e) => lo <= e < hi && forall|j: int|
                lo <= j < hi ==> words[j + 1].start - (#[trigger] words[j]).end <= words[e + 1].start
                    - words[e].end && (e < j ==> words[j + 1].start - words[j].end < words[e
                    + 1].start - words[e].end),
            None => hi <= lo,
        },
    decreases hi - lo,
{
    if hi > lo {
        lemma_longest_pause(words, lo, hi - 1);
    }
}

/// A piece that starts with word `s` ends where it should. `f` is the last word up to which every
/// word ends within the limit. The piece takes all words when none is left behind `f`. Otherwise
/// it ends in the second half of what fits: with the last word there that ends a sentence; where
/// none does, with the word behind which the pause is longest, the last of equals; and with `f`
/// where the half has no pause.
pub proof fn law_pieces_end_well(words: Seq<WordView>, s: int, f: int, span: int)
    requires
        0 <= s <= f < words.len(),
        forall|j: int| s < j <= f ==> (#[trigger] words[j]).end - words[s].start <= span,
        f + 1 < words.len() ==> words[f + 1].end - words[s].start > span,
    ensures
        ({
            let e = piece_end(words, s, span);
            let lo = s + (f - s) / 2;
            &&& f + 1 == words.len() ==> e == f
            &&& f + 1 < words.len() ==> lo <= e <= f
            &&& f + 1 < words.len() && (exists|j: int|
                lo <= j <= f && stops((#[trigger] words[j]).word)) ==> stops(words[e].word)
                && forall|j: int| e < j <= f ==> !stops((#[trigger] words[j]).word)
            &&& f + 1 < words.len() && (forall|j: int|
                lo <= j <= f ==> !stops((#[trigger] words[j]).word)) ==> {
                &&& lo == f ==> e == f
                &&& lo < f ==> e < f && forall|j: int|
                    lo <= j < f ==> words[j + 1].start - (#[trigger] words[j]).end <= words[e
                        + 1].start - words[e].end
                &&& lo < f ==> forall|j: int|
                    e < j < f ==> words[j + 1].start - (#[trigger] words[j]).end < words[e
                        + 1].start - words[e].end
            }
        }),
{
    lemma_fits(words, s, s, f, span);
    let lo = s + (f - s) / 2;
    lemma_last_sentence_end(words, lo, f);
    if f + 1 < words.len() {
        lemma_longest_pause(words, lo, f);
    }
}

/// Words run together without anything between them.
pub proof fn law_words_run_together(a: Seq<WordView>, b: Seq<WordView>, w: WordView)
    ensures
        run_together(a + b) == run_together(a) + run_together(b),
        run_together(seq![w]) == w.word,
        run_together(Seq::<WordView>::empty()) == Seq::<char>::empty(),
    decreases b.len(),
{
    reveal_with_fuel(run_together, 2);
    assert(seq![w].drop_last() =~= Seq::<WordView>::empty());
    assert(Seq::<char>::empty() + w.word =~= w.word);
    if b.len() == 0 {
        assert(a + b =~= a);
        assert(run_together(a) + Seq::<char>::empty() =~= run_together(a));
    } else {
        law_words_run_together(a, b.drop_last(), w);
        assert((a + b).drop_last() =~= a + b.drop_last());
        assert(run_together(a + b) =~= run_together(a) + run_together(b));
    }
}

/// A segment holds words `s` to `e` of another, from the start of the first to the end of the
/// last, and keeps what is known of the whole.
pub open spec fn holds_words(p: SegmentView, g: SegmentView, s: int, e: int) -> bool {
    &&& 0 <= s <= e < g.words.len()
    &&& p.words == g.words.subrange(s, e + 1)
    &&& p.start == g.words[s].start
    &&& p.end == g.words[e].end
    &&& p.text == text::trimmed(run_together(p.words))
    &&& p.confidence == g.confidence
    &&& p.no_speech_prob == g.no_speech_prob
}

proof fn lemma_pieces_follow(g: SegmentView, s: int, span: int, k: int)
    requires
        0 <= s,
        0 <= k < pieces_from(g, s, span).len(),
    ensures
        ({
            let r = pieces_from(g, s, span);
            let from = s + all_words(r.take(k)).len();
            &&& from < g.words.len()
            &&& holds_words(r[k], g, from, piece_end(g.words, from, span))
        }),
    decreases g.words.len() - s,
{
    let r = pieces_from(g, s, span);
    lemma_piece_end(g.words, s, span);
    let e = piece_end(g.words, s, span);
    let p = piece(g, s, e);
    let rest = pieces_from(g, e + 1, span);
    assert(r == seq![p] + rest);
    if k == 0 {
        assert(r.take(0) =~= Seq::<SegmentView>::empty());
    } else {
        lemma_pieces_follow(g, e + 1, span, k - 1);
        assert(r[k] == rest[k - 1]);
        assert(r.take(k) =~= seq![p] + rest.take(k - 1));
        lemma_words_front(p, rest.take(k - 1));
    }
}

/// A segment that is no longer than the limit, or has fewer than four words, stays whole. Any
/// other is cut into pieces that follow each other; each starts behind the words of those before
/// it and ends where a piece that starts there ends.
pub proof fn law_long_segments_are_cut(g: SegmentView, span: int, k: int)
    ensures
        g.end - g.start <= span || g.words.len() <= 3 ==> split_segment(g, span) == seq![g],
        g.end - g.start > span && g.words.len() >= 4 && 0 <= k < split_segment(g, span).len() ==> {
            let r = split_segment(g, span);
            let from = all_words(r.take(k)).len() as int;
            holds_words(r[k], g, from, piece_end(g.words, from, span))
        },
        g.end - g.start > span && g.words.len() >= 4 ==> all_words(split_segment(g, span))
            == g.words,
{
    if g.end - g.start > span && g.words.len() >= 4 {
        if 0 <= k < pieces_from(g, 0, span).len() {
            lemma_pieces_follow(g, 0, span, k);
        }
        lemma_pieces_keep_words(g, 0, span);
        assert(g.words.skip(0) =~= g.words);
    }
}

/// Segments are split one by one, in their order.
pub proof fn law_segments_are_split_one_by_one(
    a: Seq<SegmentView>,
    b: Seq<SegmentView>,
    g: SegmentView,
    span: int,
)
    ensures
        split_all(a + b, span) == split_all(a, span) + split_all(b, span),
        split_all(seq![g], span) == split_segment(g, span),
    decreases b.len(),
{
    reveal_with_fuel(split_all, 2);
    assert(seq![g].drop_last() =~= Seq::<SegmentView>::empty());
    assert(Seq::<SegmentView>::empty() + split_segment(g, span) =~= split_segment(g, span));
    if b.len() == 0 {
        assert(a + b =~= a);
        assert(split_all(a, span) + split_all(b, span) =~= split_all(a, span));
    } else {
        law_segments_are_split_one_by_one(a, b.drop_last(), g, span);
        assert((a + b).drop_last() =~= a + b.drop_last());
        assert(split_all(a + b, span) =~= split_all(a, span) + split_all(b, span));
    }
}

/// Pause that starts a new span.
pub const GAP_MICROS: i64 = 1_500_000;

/// A segment has something to say.
pub open spec fn spoken(g: SegmentView) -> bool {
    text::trimmed(g.text).len() > 0
}

/// A segment starts a new span behind others: the pause before it is too long, or the span would
/// get too long.
pub open spec fn starts_span(group: Seq<SegmentView>, g: SegmentView, span: int) -> bool {
    g.start - group.last().end > GAP_MICROS || g.end - group[0].start > span
}

/// Segments grouped into spans; those with nothing to say are left out.
pub open spec fn groups(gs: Seq<SegmentView>, span: int) -> Seq<Seq<SegmentView>>
    decreases gs.len(),
{
    if gs.len() == 0 {
        Seq::empty()
    } else {
        let rest = groups(gs.drop_last(), span);
        let g = gs.last();
        if !spoken(g) {
            rest
        } else if rest.len() == 0 || starts_span(rest.last(), g, span) {
            rest.push(seq![g])
        } else {
            rest.drop_last().push(rest.last().push(g))
        }
    }
}

/// A word with its times in milliseconds and its probability in thousandths.
#[derive(Debug)]
pub struct SpokenWord {
    /// The word.
    pub w: String,
    /// Start.
    pub s: i64,
    /// End.
    pub e: i64,
    /// Probability.
    pub p: Option<i64>,
}

/// A span of a transcript, as it is stored; its id is given when it is written.
#[derive(Debug)]
pub struct SpeechSpan {
    /// Track that was transcribed.
    pub track_id: u128,
    /// Start.
    pub t0: Timestamp,
    /// End.
    pub t1: Timestamp,
    /// Text.
    pub text: String,
    /// Who speaks; not known here.
    pub speaker: Option<String>,
    /// Language.
    pub language: Option<String>,
    /// Mean confidence: the sum in millionths, and of how many.
    pub confidence: Option<(i128, u64)>,
    /// Words, if any came.
    pub words: Option<Vec<SpokenWord>>,
    /// Provenance.
    pub provenance_id: u128,
}

/// What the spans of one transcription share.
#[derive(Debug)]
pub struct SpokenIn<'a> {
    /// Track that was transcribed.
    pub track_id: u128,
    /// Language, if it is known.
    pub language: Option<&'a str>,
    /// Provenance.
    pub provenance_id: u128,
}

/// A thousandth of a number, rounded to the nearest; halves go away from zero.
pub open spec fn thousandth(x: int) -> int {
    if x >= 0 {
        (x + 500) / 1000
    } else {
        -((-x + 500) / 1000)
    }
}

fn to_thousandth(x: i128) -> (r: i64)
    requires
        -0x2_0000_0000_0000_0000 <= x <= 0x2_0000_0000_0000_0000,
    ensures
        r == thousandth(x as int),
{
    if x >= 0 {
        ((x + 500) / 1000) as i64
    } else {
        -(((-x + 500) / 1000) as i64)
    }
}

/// The texts of segments, trimmed.
pub open spec fn trimmed_texts(gs: Seq<SegmentView>) -> Seq<Seq<char>> {
    gs.map_values(|g: SegmentView| text::trimmed(g.text))
}

/// The sum of the confidences that segments have, and how many have one.
pub open spec fn confidences(gs: Seq<SegmentView>) -> (int, int)
    decreases gs.len(),
{
    if gs.len() == 0 {
        (0, 0)
    } else {
        let (s, n) = confidences(gs.drop_last());
        match gs.last().confidence {
            Some(c) => (s + c, n + 1),
            None => (s, n),
        }
    }
}

/// A word in absolute time.
pub open spec fn spoken_word(w: SpokenWord, v: WordView, offset: int) -> bool {
    &&& w.w@ == text::trimmed(v.word)
    &&& w.s == thousandth(v.start + offset)
    &&& w.e == thousandth(v.end + offset)
    &&& w.p == (match v.probability {
        Some(p) => Some(thousandth(p as int) as i64),
        None => None,
    })
}

/// A span says what a group of segments says, `offset` later.
pub open spec fn span_of(
    s: SpeechSpan,
    group: Seq<SegmentView>,
    offset: int,
    within: SpokenIn,
) -> bool {
    let t0 = group[0].start + offset;
    let end = if group.last().end < group[0].start {
        group[0].start
    } else {
        group.last().end
    };
    let t1 = if end + offset < t0 + 1000 {
        t0 + 1000
    } else {
        end + offset
    };
    &&& s.t0 == (Timestamp { num: thousandth(t0) as i64, den: 1000 })
    &&& s.t1 == (Timestamp { num: thousandth(t1) as i64, den: 1000 })
    &&& s.text@ == text::joined(trimmed_texts(group), " "@)
    &&& s.confidence == (if confidences(group).1 == 0 {
        None
    } else {
        Some((confidences(group).0 as i128, confidences(group).1 as u64))
    })
    &&& match s.words {
        Some(words) => words@.len() == all_words(group).len() > 0 && forall|i: int|
            0 <= i < words@.len() ==> spoken_word(
                #[trigger] words@[i],
                all_words(group)[i],
                offset,
            ),
        None => all_words(group).len() == 0,
    }
    &&& s.track_id == within.track_id
    &&& s.speaker is None
    &&& text::opt_text(s.language) == (match within.language {
        Some(l) => Some(l@),
        None => None,
    })
    &&& s.provenance_id == within.provenance_id
}

/// Spans say what groups say.
pub open spec fn spans_of(
    ss: Seq<SpeechSpan>,
    gs: Seq<Seq<SegmentView>>,
    offset: int,
    within: SpokenIn,
) -> bool {
    ss.len() == gs.len() && forall|i: int|
        0 <= i < ss.len() ==> span_of(#[trigger] ss[i], gs[i], offset, within)
}

fn absolute_word(w: &AsrWord, offset: i64) -> (r: SpokenWord)
    ensures
        spoken_word(r, w@, offset as int),
{
    let c = chars_of(w.word.as_str());
    SpokenWord {
        w: string_of(trim_of(c.as_slice())),
        s: to_thousandth(w.start as i128 + offset as i128),
        e: to_thousandth(w.end as i128 + offset as i128),
        p: match w.probability {
            Some(p) => Some(to_thousandth(p as i128)),
            None => None,
        },
    }
}

fn make_span(
    gs: &Vec<AsrSegment>,
    from: usize,
    to: usize,
    offset: i64,
    within: &SpokenIn,
) -> (s: SpeechSpan)
    requires
        from < to <= gs@.len(),
    ensures
        span_of(s, segment_views(gs@).subrange(from as int, to as int), offset as int, *within),
{
    let ghost all = segment_views(gs@);
    let ghost group = all.subrange(from as int, to as int);
    let mut texts: Vec<String> = Vec::new();
    let mut words: Vec<SpokenWord> = Vec::new();
    let mut sum: i128 = 0;
    let mut count: u64 = 0;
    let mut i: usize = from;
    let len: usize = gs.len();
    proof {
        assert(group.take(0) =~= Seq::<SegmentView>::empty());
        assert(text::strings_of(texts@) =~= trimmed_texts(group.take(0)));
    }
    while i < to
        invariant
            from <= i <= to <= gs@.len() == len,
            all == segment_views(gs@),
            group == all.subrange(from as int, to as int),
            text::strings_of(texts@) == trimmed_texts(group.take(i - from)),
            (sum as int, count as int) == confidences(group.take(i - from)),
            count <= i - from,
            -0x8000_0000_0000_0000 * (i - from) <= sum <= 0x8000_0000_0000_0000 * (i - from),
            words@.len() == all_words(group.take(i - from)).len(),
            forall|k: int|
                0 <= k < words@.len() ==> spoken_word(
                    #[trigger] words@[k],
                    all_words(group.take(i - from))[k],
                    offset as int,
                ),
        decreases to - i,
    {
        let g = &gs[i];
        let ghost had = group.take(i - from);
        let ghost has = group.take(i + 1 - from);
        proof {
            assert(has.drop_last() =~= had);
            assert(has.last() == g@);
            assert(-0x8000_0000_0000_0000 * 0x1_0000_0000_0000_0000 <= sum <= 0x8000_0000_0000_0000
                * 0x1_0000_0000_0000_0000) by (nonlinear_arith)
                requires
                    -0x8000_0000_0000_0000 * (i - from) <= sum <= 0x8000_0000_0000_0000 * (i
                        - from),
                    0 <= i - from <= 0xffff_ffff_ffff_ffff,
            ;
        }
        let c = chars_of(g.text.as_str());
        let t = string_of(trim_of(c.as_slice()));
        let ghost texts_before = text::strings_of(texts@);
        texts.push(t);
        proof {
            assert(text::strings_of(texts@) =~= texts_before.push(t@));
            assert(trimmed_texts(has) =~= trimmed_texts(had).push(t@));
        }
        match g.confidence {
            Some(x) => {
                sum = sum + x as i128;
                count = count + 1;
            },
            None => {},
        }
        let ghost words_before = words@;
        let mut k: usize = 0;
        while k < g.words.len()
            invariant
                k <= g.words@.len(),
                words@.len() == words_before.len() + k,
                words_before.len() == all_words(had).len(),
                all_words(has) == all_words(had) + word_views(g.words@),
                forall|j: int|
                    0 <= j < words@.len() ==> spoken_word(
                        #[trigger] words@[j],
                        all_words(has)[j],
                        offset as int,
                    ),
            decreases g.words@.len() - k,
        {
            let w = absolute_word(&g.words[k], offset);
            words.push(w);
            proof {
                assert(all_words(has)[words_before.len() + k] == g.words@[k as int]@);
            }
            k = k + 1;
        }
        i = i + 1;
    }
    proof {
        assert(group.take(to - from) =~= group);
        assert(group[0] == gs@[from as int]@);
        assert(group.last() == gs@[to - 1]@);
    }
    let start: i64 = gs[from].start;
    let last: i64 = gs[to - 1].end;
    let end: i64 = if last < start {
        start
    } else {
        last
    };
    let t0: i128 = start as i128 + offset as i128;
    let t1: i128 = if end as i128 + (offset as i128) < t0 + 1000 {
        t0 + 1000
    } else {
        end as i128 + offset as i128
    };
    SpeechSpan {
        track_id: within.track_id,
        t0: Timestamp::new(to_thousandth(t0), 1000),
        t1: Timestamp::new(to_thousandth(t1), 1000),
        text: text::join_strings(&texts, " "),
        speaker: None,
        language: match within.language {
            Some(l) => Some(l.to_owned()),
            None => None,
        },
        confidence: if count == 0 {
            None
        } else {
            Some((sum, count))
        },
        words: if words.len() == 0 {
            None
        } else {
            Some(words)
        },
        provenance_id: within.provenance_id,
    }
}

fn speaks(g: &AsrSegment) -> (b: bool)
    ensures
        b == spoken(g@),
{
    let c = chars_of(g.text.as_str());
    trim_of(c.as_slice()).len() > 0
}

/// The segments that have something to say.
pub open spec fn speaking(gs: Seq<SegmentView>) -> Seq<SegmentView>
    decreases gs.len(),
{
    if gs.len() == 0 {
        Seq::empty()
    } else if spoken(gs.last()) {
        speaking(gs.drop_last()).push(gs.last())
    } else {
        speaking(gs.drop_last())
    }
}

proof fn lemma_groups_of_speaking(gs: Seq<SegmentView>, span: int)
    ensures
        groups(speaking(gs), span) == groups(gs, span),
    decreases gs.len(),
{
    if gs.len() > 0 {
        lemma_groups_of_speaking(gs.drop_last(), span);
        if spoken(gs.last()) {
            let s = speaking(gs);
            assert(s.drop_last() =~= speaking(gs.drop_last()));
        }
    }
}

fn drop_silent(gs: Vec<AsrSegment>) -> (r: Vec<AsrSegment>)
    ensures
        segment_views(r@) == speaking(segment_views(gs@)),
        forall|i: int| 0 <= i < r@.len() ==> spoken((#[trigger] r@[i])@),
{
    let ghost all = segment_views(gs@);
    let mut out: Vec<AsrSegment> = Vec::new();
    proof {
        assert(all.take(0) =~= Seq::<SegmentView>::empty());
        assert(segment_views(out@) =~= Seq::<SegmentView>::empty());
    }
    for g in it: gs
        invariant
            all == segment_views(it.seq()),
            segment_views(out@) == speaking(all.take(it.index() as int)),
            forall|i: int| 0 <= i < out@.len() ==> spoken((#[trigger] out@[i])@),
    {
        proof {
            let k = it.index() as int;
            assert(all.take(k + 1).drop_last() =~= all.take(k));
            assert(all.take(k + 1).last() == g@);
        }
        if speaks(&g) {
            let ghost before = segment_views(out@);
            out.push(g);
            proof {
                assert(segment_views(out@) =~= before.push(g@));
            }
        }
    }
    proof {
        assert(all.take(all.len() as int) =~= all);
    }
    out
}

/// Groups short segments into spans of about `span`, starting a new span at long pauses. Segments
/// that are too long are split first. Times are moved by `offset`.
pub fn group_segments(
    segments: &Vec<AsrSegment>,
    offset: i64,
    span: i64,
    within: &SpokenIn,
) -> (r: Vec<SpeechSpan>)
    ensures
        spans_of(
            r@,
            groups(split_all(segment_views(segments@), span as int), span as int),
            offset as int,
            *within,
        ),
{
    let pieces = split_long_segments(segments, span);
    let ghost split = segment_views(pieces@);
    let gs = drop_silent(pieces);
    let ghost all = segment_views(gs@);
    proof {
        lemma_groups_of_speaking(split, span as int);
        assert(all.take(0) =~= Seq::<SegmentView>::empty());
    }
    let mut out: Vec<SpeechSpan> = Vec::new();
    let n: usize = gs.len();
    let mut from: usize = 0;
    let mut i: usize = 0;
    while i < n
        invariant
            from <= i <= n == gs@.len(),
            all == segment_views(gs@),
            forall|k: int| 0 <= k < gs@.len() ==> spoken((#[trigger] gs@[k])@),
            i > 0 ==> from < i,
            i == 0 ==> from == 0 && out@.len() == 0,
            ({
                let g = groups(all.take(i as int), span as int);
                if i == 0 {
                    g.len() == 0
                } else {
                    &&& g.len() == out@.len() + 1
                    &&& g.last() == all.subrange(from as int, i as int)
                    &&& spans_of(out@, g.drop_last(), offset as int, *within)
                }
            }),
        decreases n - i,
    {
        let ghost had = groups(all.take(i as int), span as int);
        let ghost has = groups(all.take(i + 1), span as int);
        proof {
            assert(all.take(i + 1).drop_last() =~= all.take(i as int));
            assert(all.take(i + 1).last() == gs@[i as int]@);
            assert(spoken(gs@[i as int]@));
        }
        if i > 0 {
            proof {
                assert(had.last().last() == gs@[i - 1]@);
                assert(had.last()[0] == gs@[from as int]@);
            }
            if minus(gs[i].start, gs[i - 1].end) > GAP_MICROS as i128 || minus(
                gs[i].end,
                gs[from].start,
            ) > span as i128 {
                let s = make_span(&gs, from, i, offset, within);
                let ghost before = out@;
                out.push(s);
                proof {
                    assert(has.drop_last() =~= had);
                    assert forall|k: int| 0 <= k < out@.len() implies span_of(
                        #[trigger] out@[k],
                        had[k],
                        offset as int,
                        *within,
                    ) by {
                        if k < before.len() {
                            assert(out@[k] == before[k]);
                            assert(had.drop_last()[k] == had[k]);
                        }
                    }
                    assert(all.subrange(i as int, i + 1) =~= seq![gs@[i as int]@]);
                }
                from = i;
            } else {
                proof {
                    assert(has.drop_last() =~= had.drop_last());
                    assert(all.subrange(from as int, i + 1) =~= had.last().push(gs@[i as int]@));
                }
            }
        } else {
            proof {
                assert(has =~= seq![seq![gs@[0]@]]);
                assert(all.subrange(0, 1) =~= seq![gs@[0]@]);
                assert(has.drop_last() =~= Seq::<Seq<SegmentView>>::empty());
            }
        }
        i = i + 1;
    }
    proof {
        assert(all.take(i as int) =~= all);
    }
    if n > 0 {
        let s = make_span(&gs, from, n, offset, within);
        let ghost g = groups(all, span as int);
        let ghost before = out@;
        out.push(s);
        proof {
            assert forall|k: int| 0 <= k < out@.len() implies span_of(
                #[trigger] out@[k],
                g[k],
                offset as int,
                *within,
            ) by {
                if k < before.len() {
                    assert(out@[k] == before[k]);
                    assert(g.drop_last()[k] == g[k]);
                }
            }
        }
    }
    out
}

/// The segments of groups, in order.
pub open spec fn ungrouped(gs: Seq<Seq<SegmentView>>) -> Seq<SegmentView>
    decreases gs.len(),
{
    if gs.len() == 0 {
        Seq::empty()
    } else {
        ungrouped(gs.drop_last()) + gs.last()
    }
}

/// Grouping keeps every segment that has something to say, in order, and no group is empty.
pub proof fn law_grouping_keeps_segments(gs: Seq<SegmentView>, span: int)
    ensures
        ungrouped(groups(gs, span)) == speaking(gs),
        forall|i: int| 0 <= i < groups(gs, span).len() ==> (#[trigger] groups(gs, span)[i]).len() > 0,
    decreases gs.len(),
{
    if gs.len() > 0 {
        law_grouping_keeps_segments(gs.drop_last(), span);
        let rest = groups(gs.drop_last(), span);
        let g = gs.last();
        let all = groups(gs, span);
        if spoken(g) {
            if rest.len() == 0 || starts_span(rest.last(), g, span) {
                assert(all.drop_last() =~= rest);
                assert(ungrouped(rest) + seq![g] =~= ungrouped(rest).push(g));
                assert forall|i: int| 0 <= i < all.len() implies (#[trigger] all[i]).len() > 0 by {
                    if i < rest.len() {
                        assert(all[i] == rest[i]);
                    }
                }
            } else {
                assert(all.drop_last() =~= rest.drop_last());
                assert(ungrouped(rest.drop_last()) + rest.last().push(g) =~= (ungrouped(
                    rest.drop_last(),
                ) + rest.last()).push(g));
                assert forall|i: int| 0 <= i < all.len() implies (#[trigger] all[i]).len() > 0 by {
                    if i < rest.len() - 1 {
                        assert(all[i] == rest[i]);
                    }
                }
            }
        }
    }
}

/// Behind a segment, another one still belongs to the span that starts at `start`: the pause
/// between them is a second and a half or shorter, and the span gets no longer than the limit.
pub open spec fn goes_on(start: int, before: SegmentView, g: SegmentView, span: int) -> bool {
    g.start - before.end <= 1_500_000 && g.end - start <= span
}

/// Segments share a span exactly as long as each goes on from the one before it: within a group
/// every segment does, and the first segment of the next group does not.
pub proof fn law_spans_part_at_pauses_and_limits(gs: Seq<SegmentView>, span: int)
    ensures
        forall|i: int, j: int|
            #![trigger groups(gs, span)[i][j]]
            0 <= i < groups(gs, span).len() && 1 <= j < groups(gs, span)[i].len() ==> goes_on(
                groups(gs, span)[i][0].start,
                groups(gs, span)[i][j - 1],
                groups(gs, span)[i][j],
                span,
            ),
        forall|i: int|
            1 <= i < groups(gs, span).len() ==> (#[trigger] groups(gs, span)[i]).len() > 0
                && groups(gs, span)[i - 1].len() > 0 && !goes_on(
                groups(gs, span)[i - 1][0].start,
                groups(gs, span)[i - 1].last(),
                groups(gs, span)[i][0],
                span,
            ),
    decreases gs.len(),
{
    if gs.len() > 0 {
        law_spans_part_at_pauses_and_limits(gs.drop_last(), span);
        law_grouping_keeps_segments(gs.drop_last(), span);
        let rest = groups(gs.drop_last(), span);
        let g = gs.last();
        let all = groups(gs, span);
        if spoken(g) {
            if rest.len() == 0 || starts_span(rest.last(), g, span) {
                assert forall|i: int, j: int|
                    #![trigger all[i][j]]
                    0 <= i < all.len() && 1 <= j < all[i].len() implies goes_on(
                    all[i][0].start,
                    all[i][j - 1],
                    all[i][j],
                    span,
                ) by {
                    assert(i < rest.len());
                    assert(all[i] == rest[i]);
                    assert(rest[i][j] == all[i][j]);
                }
                assert forall|i: int| 1 <= i < all.len() implies (#[trigger] all[i]).len() > 0
                    && all[i - 1].len() > 0 && !goes_on(
                    all[i - 1][0].start,
                    all[i - 1].last(),
                    all[i][0],
                    span,
                ) by {
                    assert(all[i - 1] == rest[i - 1]);
                    assert(rest[i - 1].len() > 0);
                    if i < rest.len() {
                        assert(all[i] == rest[i]);
                    }
                }
            } else {
                let l = rest.len() - 1;
                assert(rest[l].len() > 0);
                assert forall|i: int, j: int|
                    #![trigger all[i][j]]
                    0 <= i < all.len() && 1 <= j < all[i].len() implies goes_on(
                    all[i][0].start,
                    all[i][j - 1],
                    all[i][j],
                    span,
                ) by {
                    if i < l {
                        assert(all[i] == rest[i]);
                        assert(rest[i][j] == all[i][j]);
                    } else {
                        assert(all[i] == rest[l].push(g));
                        if j < rest[l].len() {
                            assert(rest[l][j] == all[i][j]);
                        }
                    }
                }
                assert forall|i: int| 1 <= i < all.len() implies (#[trigger] all[i]).len() > 0
                    && all[i - 1].len() > 0 && !goes_on(
                    all[i - 1][0].start,
                    all[i - 1].last(),
                    all[i][0],
                    span,
                ) by {
                    assert(all[i - 1] == rest[i - 1]);
                    assert(rest[i].len() > 0);
                    assert(all[i][0] == rest[i][0]);
                }
            }
        }
    }
}

/// A segment is left out of the spans only if nothing in its text is visible.
pub proof fn law_visible_segments_speak(g: SegmentView)
    ensures
        spoken(g) <==> exists|i: int|
            0 <= i < g.text.len() && !text::whitespace(#[trigger] g.text[i]),
        speaking(seq![g]) == (if spoken(g) {
            seq![g]
        } else {
            Seq::empty()
        }),
{
    text::law_trimming(g.text);
    reveal_with_fuel(speaking, 2);
    assert(seq![g].drop_last() =~= Seq::<SegmentView>::empty());
    assert(Seq::<SegmentView>::empty().push(g) =~= seq![g]);
}

/// What speaks among segments is what speaks among the first of them and what speaks among the
/// others.
pub proof fn law_speaking_goes_one_by_one(a: Seq<SegmentView>, b: Seq<SegmentView>)
    ensures
        speaking(a + b) == speaking(a) + speaking(b),
    decreases b.len(),
{
    if b.len() == 0 {
        assert(a + b =~= a);
        assert(speaking(a) + speaking(b) =~= speaking(a));
    } else {
        law_speaking_goes_one_by_one(a, b.drop_last());
        assert((a + b).drop_last() =~= a + b.drop_last());
        assert(speaking(a + b) =~= speaking(a) + speaking(b));
    }
}

/// Times in milliseconds are the nearest.
pub proof fn law_thousandths_are_nearest(x: int)
    ensures
        -500 <= 1000 * thousandth(x) - x <= 500,
{
}

/// The confidences of segments add up, and only segments that have one count.
pub proof fn law_confidences_add_up(a: Seq<SegmentView>, b: Seq<SegmentView>, g: SegmentView)
    ensures
        confidences(a + b).0 == confidences(a).0 + confidences(b).0,
        confidences(a + b).1 == confidences(a).1 + confidences(b).1,
        confidences(seq![g]) == (match g.confidence {
            Some(c) => (c as int, 1int),
            None => (0int, 0int),
        }),
    decreases b.len(),
{
    reveal_with_fuel(confidences, 2);
    assert(seq![g].drop_last() =~= Seq::<SegmentView>::empty());
    if b.len() == 0 {
        assert(a + b =~= a);
    } else {
        law_confidences_add_up(a, b.drop_last(), g);
        assert((a + b).drop_last() =~= a + b.drop_last());
    }
}

/// A span starts when its first segment starts and ends when its last one ends, a millisecond
/// later than its start at least, each to the nearest millisecond. It has one word for every word
/// of its segments, at the same times.
pub proof fn law_spans_keep_times(
    s: SpeechSpan,
    group: Seq<SegmentView>,
    offset: i64,
    within: SpokenIn,
    k: int,
)
    requires
        group.len() > 0,
        span_of(s, group, offset as int, within),
        i64::MIN <= group[0].start <= i64::MAX,
        i64::MIN <= group.last().end <= i64::MAX,
        0 <= k < all_words(group).len(),
        i64::MIN <= all_words(group)[k].start <= i64::MAX,
        i64::MIN <= all_words(group)[k].end <= i64::MAX,
    ensures
        s.t0.den == 1000 && s.t1.den == 1000,
        -500 <= 1000 * s.t0.num - (group[0].start + offset) <= 500,
        s.t1.num >= s.t0.num + 1,
        group.last().end >= group[0].start + 1000 ==> -500 <= 1000 * s.t1.num - (group.last().end
            + offset) <= 500,
        s.words matches Some(words) && words@.len() == all_words(group).len() && {
            &&& -500 <= 1000 * words@[k].s - (all_words(group)[k].start + offset) <= 500
            &&& -500 <= 1000 * words@[k].e - (all_words(group)[k].end + offset) <= 500
            &&& words@[k].w@ == text::trimmed(all_words(group)[k].word)
        },
        group.len() == 1 ==> s.text@ == text::trimmed(group[0].text),
{
    assert(spoken_word(s.words->0@[k], all_words(group)[k], offset as int));
    if group.len() == 1 {
        assert(trimmed_texts(group) =~= seq![text::trimmed(group[0].text)]);
        reveal_with_fuel(text::joined, 2);
    }
}

} // verus!
