//! Which frames and lines are worth the work: frames that look like the last one are not read or
//! embedded again, lines that were on the last frame read are not stored again, and what is
//! embedded goes out in batches.

use vstd::prelude::*;

use crate::model::{BoxText, OcrSpan, TargetKind};
use crate::phash::{self, hamming};
use crate::text::{chars_of, decimal_string, same_text, trim_of};
use crate::timestamp::Timestamp;
use crate::{model, text, timestamp};

verus! {

/// The frame that was read last.
#[derive(Clone, Copy, Debug, PartialEq, Eq, Structural)]
pub struct LastRead {
    /// Hash.
    pub hash: u64,
    /// Time.
    pub t: Timestamp,
}

/// At least `gap` milliseconds lie between two times.
pub open spec fn apart(from: Timestamp, to: Timestamp, gap: int) -> bool {
    (to.num * from.den - from.num * to.den) * 1000 >= gap * (to.den * from.den)
}

/// Whether a frame is read: it is the first, or looks different, or enough time has passed.
pub open spec fn worth_reading(
    last: Option<LastRead>,
    hash: u64,
    t: Timestamp,
    pixels_changed: bool,
    max_gap_ms: int,
) -> bool {
    match last {
        None => true,
        Some(l) => phash::differing_bits(l.hash, hash, 64) > phash::PHASH_DEDUP_DISTANCE
            || pixels_changed || apart(l.t, t, max_gap_ms),
    }
}

fn are_apart(from: Timestamp, to: Timestamp, gap: u32) -> (b: bool)
    ensures
        b == apart(from, to, gap as int),
{
    proof {
        let (a, d) = (to.num as int, from.den as int);
        assert(-0x8000_0000_0000_0000 * 0x1_0000_0000 <= a * d <= 0x8000_0000_0000_0000
            * 0x1_0000_0000) by (nonlinear_arith)
            requires
                -0x8000_0000_0000_0000 <= a <= 0x8000_0000_0000_0000,
                0 <= d <= 0x1_0000_0000,
        ;
        let (b, e) = (from.num as int, to.den as int);
        assert(-0x8000_0000_0000_0000 * 0x1_0000_0000 <= b * e <= 0x8000_0000_0000_0000
            * 0x1_0000_0000) by (nonlinear_arith)
            requires
                -0x8000_0000_0000_0000 <= b <= 0x8000_0000_0000_0000,
                0 <= e <= 0x1_0000_0000,
        ;
        assert(0 <= e * d <= 0x1_0000_0000 * 0x1_0000_0000) by (nonlinear_arith)
            requires
                0 <= d <= 0x1_0000_0000,
                0 <= e <= 0x1_0000_0000,
        ;
        let (g, p) = (gap as int, e * d);
        assert(0 <= g * p <= 0x1_0000_0000 * (0x1_0000_0000 * 0x1_0000_0000)) by (nonlinear_arith)
            requires
                0 <= g <= 0x1_0000_0000,
                0 <= p <= 0x1_0000_0000 * 0x1_0000_0000,
        ;
    }
    let passed: i128 = (to.num as i128) * (from.den as i128) - (from.num as i128) * (
    to.den as i128);
    passed * 1000 >= (gap as i128) * ((to.den as i128) * (from.den as i128))
}

/// A line that was read on a frame.
#[derive(Debug)]
pub struct SeenLine {
    /// Text.
    pub text: String,
    /// Where.
    pub bbox: Option<BoxText>,
    /// Confidence, as a number's text.
    pub confidence: Option<String>,
}

/// The texts of the first `n` lines with at least `min` characters.
pub open spec fn long_texts(lines: Seq<SeenLine>, min: int, n: int) -> Seq<Seq<char>>
    decreases n,
{
    if n <= 0 {
        Seq::empty()
    } else if lines[n - 1].text@.len() >= min {
        long_texts(lines, min, n - 1).push(lines[n - 1].text@)
    } else {
        long_texts(lines, min, n - 1)
    }
}

/// Which of the first `n` lines are long enough and were not there before.
pub open spec fn fresh_lines(lines: Seq<SeenLine>, last: Seq<Seq<char>>, min: int, n: int) -> Seq<
    int,
>
    decreases n,
{
    if n <= 0 {
        Seq::empty()
    } else if lines[n - 1].text@.len() >= min && !last.contains(lines[n - 1].text@) {
        fresh_lines(lines, last, min, n - 1).push(n - 1)
    } else {
        fresh_lines(lines, last, min, n - 1)
    }
}

proof fn lemma_long_texts(lines: Seq<SeenLine>, min: int, n: int, m: int)
    requires
        0 <= n <= m,
    ensures
        forall|i: int|
            0 <= i < n && (#[trigger] lines[i]).text@.len() >= min ==> long_texts(
                lines,
                min,
                m,
            ).contains(lines[i].text@),
    decreases m,
{
    if m > 0 {
        let rest = long_texts(lines, min, m - 1);
        let now = long_texts(lines, min, m);
        if n == m {
            lemma_long_texts(lines, min, n - 1, m - 1);
        } else {
            lemma_long_texts(lines, min, n, m - 1);
        }
        assert forall|i: int| 0 <= i < n && (#[trigger] lines[i]).text@.len()
            >= min implies now.contains(lines[i].text@) by {
            if i == m - 1 {
                assert(now[now.len() - 1] == lines[i].text@);
            } else {
                assert(rest.contains(lines[i].text@));
                let k = choose|k: int| 0 <= k < rest.len() && rest[k] == lines[i].text@;
                assert(now[k] == lines[i].text@);
            }
        }
    }
}

/// A line that stays on screen is stored once: nothing on a frame is new when the last frame
/// read showed the same lines.
pub proof fn law_lines_are_stored_once(lines: Seq<SeenLine>, min: int, n: int)
    requires
        0 <= n <= lines.len(),
    ensures
        fresh_lines(
            lines,
            long_texts(lines, min, lines.len() as int),
            min,
            n,
        ).len() == 0,
    decreases n,
{
    if n > 0 {
        law_lines_are_stored_once(lines, min, n - 1);
        lemma_long_texts(lines, min, n, lines.len() as int);
        assert(lines[n - 1].text@.len() >= min ==> long_texts(
            lines,
            min,
            lines.len() as int,
        ).contains(lines[n - 1].text@));
    }
}

/// What the reading of on-screen text remembers.
#[derive(Debug)]
pub struct OcrGate {
    /// The last frame read.
    pub last: Option<LastRead>,
    /// The lines on it.
    pub last_lines: Vec<String>,
    /// Frames offered.
    pub frames: u64,
    /// Frames read.
    pub read: u64,
    /// Lines stored.
    pub stored: u64,
}

/// A span of on-screen text made of a line.
pub open spec fn is_span(
    s: OcrSpan,
    l: SeenLine,
    sample: u128,
    t: Timestamp,
    id: u128,
    prov: u128,
) -> bool {
    &&& s.id == id
    &&& s.frame_sample_id == sample
    &&& s.t == t
    &&& s.text@ == l.text@
    &&& model::box_texts(s.bbox) == model::box_texts(l.bbox)
    &&& text::opt_text(s.confidence) == text::opt_text(l.confidence)
    &&& s.provenance_id == prov
}

fn copy_box(b: &Option<BoxText>) -> (r: Option<BoxText>)
    ensures
        model::box_texts(r) == model::box_texts(*b),
{
    match b {
        Some(b) => Some(
            BoxText {
                x: b.x.as_str().to_owned(),
                y: b.y.as_str().to_owned(),
                w: b.w.as_str().to_owned(),
                h: b.h.as_str().to_owned(),
            },
        ),
        None => None,
    }
}

fn has_text(v: &Vec<String>, t: &[char]) -> (b: bool)
    ensures
        b == text::strings_of(v@).contains(t@),
{
    let ghost all = text::strings_of(v@);
    let mut i: usize = 0;
    while i < v.len()
        invariant
            i <= v@.len(),
            all == text::strings_of(v@),
            forall|k: int| 0 <= k < i ==> #[trigger] all[k] != t@,
        decreases v@.len() - i,
    {
        let c = chars_of(v[i].as_str());
        proof {
            assert(all[i as int] == v@[i as int]@);
        }
        if same_text(c.as_slice(), t) {
            return true;
        }
        i = i + 1;
    }
    false
}

impl OcrGate {
    /// Nothing was read yet.
    pub fn new() -> (g: OcrGate)
        ensures
            g.last is None,
            g.last_lines@.len() == 0,
            g.frames == 0,
            g.read == 0,
            g.stored == 0,
    {
        OcrGate { last: None, last_lines: Vec::new(), frames: 0, read: 0, stored: 0 }
    }

    /// Whether the next frame is read; if so, later frames are held against it.
    /// `pixels_changed` says whether its pixels differ enough from the last one read.
    pub fn offer(&mut self, hash: u64, t: Timestamp, pixels_changed: bool, max_gap_ms: u32) -> (r:
        bool)
        requires
            old(self).frames < u64::MAX,
            old(self).read < u64::MAX,
        ensures
            r == worth_reading(old(self).last, hash, t, pixels_changed, max_gap_ms as int),
            final(self).frames == old(self).frames + 1,
            final(self).last == (if r {
                Some(LastRead { hash, t })
            } else {
                old(self).last
            }),
            final(self).read == old(self).read + (if r {
                1int
            } else {
                0int
            }),
            final(self).last_lines == old(self).last_lines,
            final(self).stored == old(self).stored,
    {
        self.frames = self.frames + 1;
        let changed: bool = match self.last {
            None => true,
            Some(l) => hamming(l.hash, hash) > phash::PHASH_DEDUP_DISTANCE || pixels_changed
                || are_apart(l.t, t, max_gap_ms),
        };
        if changed {
            self.last = Some(LastRead { hash, t });
            self.read = self.read + 1;
        }
        changed
    }

    /// The spans of the lines read on a frame: those of at least `min_chars` characters that
    /// were not on the last frame read. `ids` has an id for each line.
    pub fn take_lines(
        &mut self,
        lines: &Vec<SeenLine>,
        min_chars: usize,
        sample: u128,
        t: Timestamp,
        ids: &Vec<u128>,
        prov: u128,
    ) -> (r: Vec<OcrSpan>)
        requires
            ids@.len() >= lines@.len(),
            old(self).stored + lines@.len() <= u64::MAX,
        ensures
            ({
                let fresh = fresh_lines(
                    lines@,
                    text::strings_of(old(self).last_lines@),
                    min_chars as int,
                    lines@.len() as int,
                );
                &&& r@.len() == fresh.len()
                &&& forall|k: int|
                    0 <= k < r@.len() ==> is_span(
                        #[trigger] r@[k],
                        lines@[fresh[k]],
                        sample,
                        t,
                        ids@[fresh[k]],
                        prov,
                    )
            }),
            text::strings_of(final(self).last_lines@) == long_texts(
                lines@,
                min_chars as int,
                lines@.len() as int,
            ),
            final(self).stored == old(self).stored + r@.len(),
            final(self).last == old(self).last,
            final(self).frames == old(self).frames,
            final(self).read == old(self).read,
    {
        let ghost last = text::strings_of(self.last_lines@);
        let ghost start = *self;
        let mut out: Vec<OcrSpan> = Vec::new();
        let mut current: Vec<String> = Vec::new();
        let n: usize = lines.len();
        let mut i: usize = 0;
        proof {
            assert(text::strings_of(current@) =~= Seq::<Seq<char>>::empty());
        }
        while i < n
            invariant
                i <= n == lines@.len(),
                ids@.len() >= n,
                *self == start,
                last == text::strings_of(self.last_lines@),
                text::strings_of(current@) == long_texts(lines@, min_chars as int, i as int),
                out@.len() <= i,
                ({
                    let fresh = fresh_lines(lines@, last, min_chars as int, i as int);
                    &&& out@.len() == fresh.len()
                    &&& forall|k: int|
                        0 <= k < out@.len() ==> is_span(
                            #[trigger] out@[k],
                            lines@[fresh[k]],
                            sample,
                            t,
                            ids@[fresh[k]],
                            prov,
                        )
                }),
            decreases n - i,
        {
            let l = &lines[i];
            let c = chars_of(l.text.as_str());
            if c.len() >= min_chars {
                let ghost had = text::strings_of(current@);
                current.push(l.text.as_str().to_owned());
                proof {
                    assert(text::strings_of(current@) =~= had.push(l.text@));
                }
                if !has_text(&self.last_lines, c.as_slice()) {
                    let ghost before = fresh_lines(lines@, last, min_chars as int, i as int);
                    let ghost made = out@;
                    out.push(
                        OcrSpan {
                            id: ids[i],
                            frame_sample_id: sample,
                            t,
                            text: l.text.as_str().to_owned(),
                            bbox: copy_box(&l.bbox),
                            confidence: match &l.confidence {
                                Some(s) => Some(s.as_str().to_owned()),
                                None => None,
                            },
                            provenance_id: prov,
                        },
                    );
                    proof {
                        let now = fresh_lines(lines@, last, min_chars as int, i + 1);
                        assert(now == before.push(i as int));
                        assert forall|k: int| 0 <= k < out@.len() implies is_span(
                            #[trigger] out@[k],
                            lines@[now[k]],
                            sample,
                            t,
                            ids@[now[k]],
                            prov,
                        ) by {
                            if k < made.len() {
                                assert(out@[k] == made[k]);
                            }
                        }
                    }
                }
            }
            i = i + 1;
        }
        self.last_lines = current;
        self.stored = self.stored + out.len() as u64;
        out
    }
}

/// What the embedding of frames remembers.
#[derive(Clone, Copy, Debug, PartialEq, Eq, Structural)]
pub struct ImageGate {
    /// Hash of the last frame taken.
    pub last_hash: Option<u64>,
    /// Frames offered.
    pub seen: u64,
    /// Frames passed over as duplicates.
    pub skipped: u64,
}

impl ImageGate {
    /// Nothing was offered yet.
    pub fn new() -> (g: ImageGate)
        ensures
            g == (ImageGate { last_hash: None, seen: 0, skipped: 0 }),
    {
        ImageGate { last_hash: None, seen: 0, skipped: 0 }
    }

    /// Whether the next frame is embedded: not if it looks like the last one taken.
    pub fn offer(&mut self, hash: u64) -> (r: bool)
        requires
            old(self).seen < u64::MAX,
            old(self).skipped < u64::MAX,
        ensures
            r == !(old(self).last_hash matches Some(h) && phash::differing_bits(h, hash, 64)
                <= phash::PHASH_DEDUP_DISTANCE),
            *final(self) == (ImageGate {
                last_hash: if r {
                    Some(hash)
                } else {
                    old(self).last_hash
                },
                seen: (old(self).seen + 1) as u64,
                skipped: if r {
                    old(self).skipped
                } else {
                    (old(self).skipped + 1) as u64
                },
            }),
    {
        self.seen = self.seen + 1;
        if phash::is_duplicate(self.last_hash, hash) {
            self.skipped = self.skipped + 1;
            false
        } else {
            self.last_hash = Some(hash);
            true
        }
    }
}

/// How many images go out together: what the provider takes, from 1 to 16.
pub fn image_batch(max_batch: usize) -> (n: usize)
    ensures
        n == (if max_batch < 1 {
            1
        } else if max_batch > 16 {
            16
        } else {
            max_batch as int
        }),
{
    if max_batch < 1 {
        1
    } else if max_batch > 16 {
        16
    } else {
        max_batch
    }
}

/// How many texts go out together.
pub fn text_batch(max_batch: usize) -> (n: usize)
    ensures
        n == (if max_batch < 1 {
            1
        } else {
            max_batch as int
        }),
{
    if max_batch < 1 {
        1
    } else {
        max_batch
    }
}

/// Whether a text is worth embedding: one that is not blank.
pub fn embeds_text(s: &str) -> (b: bool)
    ensures
        b == (text::trimmed(s@).len() > 0),
{
    let c = chars_of(s);
    trim_of(c.as_slice()).len() > 0
}

/// The earliest of the first `n` times.
pub open spec fn earliest(times: Seq<Timestamp>, n: int) -> Timestamp
    decreases n,
{
    if n <= 0 {
        Timestamp { num: 0, den: 1 }
    } else if n == 1 {
        times[0]
    } else {
        let e = earliest(times, n - 1);
        if timestamp::le_time(e, times[n - 1]) {
            e
        } else {
            times[n - 1]
        }
    }
}

/// The latest of the first `n` times.
pub open spec fn latest(times: Seq<Timestamp>, n: int) -> Timestamp
    decreases n,
{
    if n <= 0 {
        Timestamp { num: 0, den: 1 }
    } else if n == 1 {
        times[0]
    } else {
        let e = latest(times, n - 1);
        if timestamp::le_time(e, times[n - 1]) {
            times[n - 1]
        } else {
            e
        }
    }
}

/// The stretch of time that a failed batch covers.
pub fn failed_range(times: &Vec<Timestamp>) -> (r: (Timestamp, Timestamp))
    ensures
        r.0 == earliest(times@, times@.len() as int),
        r.1 == latest(times@, times@.len() as int),
{
    let n: usize = times.len();
    if n == 0 {
        return (Timestamp::zero(), Timestamp::zero());
    }
    let mut a = times[0];
    let mut b = times[0];
    let mut i: usize = 1;
    while i < n
        invariant
            1 <= i <= n == times@.len(),
            a == earliest(times@, i as int),
            b == latest(times@, i as int),
        decreases n - i,
    {
        let t = times[i];
        if !a.le(&t) {
            a = t;
        }
        b = b.max(t);
        i = i + 1;
    }
    (a, b)
}

/// Checks that a provider gave one vector for each of `want` things (`images` or `texts`).
pub fn check_vectors(got: usize, want: usize, things: &str) -> (r: Result<(), String>)
    ensures
        r is Ok <==> got == want,
        r matches Err(m) ==> m@ == "provider returned "@ + text::decimal(got as nat)
            + " vectors for "@ + text::decimal(want as nat) + " "@ + things@,
{
    if got != want {
        let mut m = "provider returned ".to_owned();
        m.append(decimal_string(got as u64).as_str());
        m.append(" vectors for ");
        m.append(decimal_string(want as u64).as_str());
        m.append(" ");
        m.append(things);
        return Err(m);
    }
    Ok(())
}

/// A stored embedding, but for its vector.
#[derive(Debug)]
pub struct EmbeddingRow {
    /// Id.
    pub id: u128,
    /// What was embedded.
    pub target_kind: TargetKind,
    /// Which one.
    pub target_id: u128,
    /// Model.
    pub model: String,
    /// Length of the vectors of the batch.
    pub dim: u32,
    /// Which vector of the batch.
    pub vector: usize,
    /// Where it came from.
    pub provenance_id: u128,
}

/// The row of vector `i` of a batch.
pub open spec fn is_embedding(
    r: EmbeddingRow,
    targets: Seq<(TargetKind, u128)>,
    lens: Seq<usize>,
    model: Seq<char>,
    ids: Seq<u128>,
    prov: u128,
    i: int,
) -> bool {
    &&& r.id == ids[i]
    &&& r.target_kind == targets[i].0
    &&& r.target_id == targets[i].1
    &&& r.model@ == model
    &&& r.dim == lens[0]
    &&& r.vector == i
    &&& r.provenance_id == prov
}

/// The rows of a batch of embeddings, or why the provider's answer does not do. `lens` has the
/// length of each vector that came back.
pub fn embedding_rows(
    targets: &Vec<(TargetKind, u128)>,
    lens: &Vec<usize>,
    things: &str,
    model: &str,
    ids: &Vec<u128>,
    prov: u128,
) -> (r: Result<Vec<EmbeddingRow>, String>)
    requires
        ids@.len() >= targets@.len(),
        forall|i: int| 0 <= i < lens@.len() ==> #[trigger] lens@[i] <= u32::MAX,
    ensures
        r is Ok <==> lens@.len() == targets@.len(),
        r matches Ok(v) ==> v@.len() == targets@.len() && forall|i: int|
            0 <= i < v@.len() ==> is_embedding(
                #[trigger] v@[i],
                targets@,
                lens@,
                model@,
                ids@,
                prov,
                i,
            ),
        r matches Err(m) ==> m@ == "provider returned "@ + text::decimal(lens@.len() as nat)
            + " vectors for "@ + text::decimal(targets@.len() as nat) + " "@ + things@,
{
    let n: usize = targets.len();
    match check_vectors(lens.len(), n, things) {
        Err(m) => {
            return Err(m);
        },
        Ok(_) => {},
    }
    let mut out: Vec<EmbeddingRow> = Vec::new();
    let mut i: usize = 0;
    while i < n
        invariant
            i <= n == targets@.len() == lens@.len(),
            ids@.len() >= n,
            forall|i: int| 0 <= i < lens@.len() ==> #[trigger] lens@[i] <= u32::MAX,
            out@.len() == i,
            forall|k: int|
                0 <= k < i ==> is_embedding(
                    #[trigger] out@[k],
                    targets@,
                    lens@,
                    model@,
                    ids@,
                    prov,
                    k,
                ),
        decreases n - i,
    {
        out.push(
            EmbeddingRow {
                id: ids[i],
                target_kind: targets[i].0,
                target_id: targets[i].1,
                model: model.to_owned(),
                dim: lens[0] as u32,
                vector: i,
                provenance_id: prov,
            },
        );
        i = i + 1;
    }
    Ok(out)
}

/// The lines that are stored are those that are long enough and were not read the last time, in
/// their order.
pub proof fn law_fresh_lines_are_stored(lines: Seq<SeenLine>, last: Seq<Seq<char>>, min: int, n: int)
    requires
        0 <= n <= lines.len(),
    ensures
        forall|k: int| #[trigger]
            fresh_lines(lines, last, min, n).contains(k) <==> 0 <= k < n && lines[k].text@.len()
                >= min && !last.contains(lines[k].text@),
        forall|i: int, j: int|
            0 <= i < j < fresh_lines(lines, last, min, n).len() ==> #[trigger] fresh_lines(
                lines,
                last,
                min,
                n,
            )[i] < #[trigger] fresh_lines(lines, last, min, n)[j],
        forall|t: Seq<char>| #[trigger]
            long_texts(lines, min, n).contains(t) <==> t.len() >= min && exists|k: int|
                0 <= k < n && (#[trigger] lines[k]).text@ == t,
    decreases n,
{
    if n > 0 {
        law_fresh_lines_are_stored(lines, last, min, n - 1);
        let rest = fresh_lines(lines, last, min, n - 1);
        let r = fresh_lines(lines, last, min, n);
        assert forall|k: int| #[trigger] r.contains(k) <==> rest.contains(k) || (r.len()
            > rest.len() && k == n - 1) by {
            if rest.contains(k) {
                let i = choose|i: int| 0 <= i < rest.len() && rest[i] == k;
                assert(r[i] == k);
            }
            if r.len() > rest.len() {
                assert(r[r.len() - 1] == n - 1);
            }
            if r.contains(k) {
                let i = choose|i: int| 0 <= i < r.len() && r[i] == k;
                if i < rest.len() {
                    assert(rest[i] == k);
                }
            }
        }
        assert forall|i: int, j: int| 0 <= i < j < r.len() implies #[trigger] r[i] < #[trigger] r[j] by {
            if j < rest.len() {
                assert(rest[i] < rest[j]);
            } else {
                assert(rest.contains(rest[i]));
            }
        }
        let old_texts = long_texts(lines, min, n - 1);
        let texts = long_texts(lines, min, n);
        let x = lines[n - 1].text@;
        assert forall|t: Seq<char>| #[trigger] texts.contains(t) <==> t.len() >= min && exists|
            k: int,
        |
            0 <= k < n && (#[trigger] lines[k]).text@ == t by {
            if old_texts.contains(t) {
                let i = choose|i: int| 0 <= i < old_texts.len() && old_texts[i] == t;
                assert(texts[i] == t);
                let k = choose|k: int| 0 <= k < n - 1 && (#[trigger] lines[k]).text@ == t;
                assert(lines[k].text@ == t);
            }
            if texts.contains(t) {
                let i = choose|i: int| 0 <= i < texts.len() && texts[i] == t;
                if i < old_texts.len() {
                    assert(old_texts[i] == t);
                    assert(old_texts.contains(t));
                } else {
                    assert(lines[n - 1].text@ == t);
                }
            }
            if t.len() >= min && exists|k: int| 0 <= k < n && (#[trigger] lines[k]).text@ == t {
                let k = choose|k: int| 0 <= k < n && (#[trigger] lines[k]).text@ == t;
                if k < n - 1 {
                    assert(lines[k].text@ == t);
                    assert(old_texts.contains(t));
                } else {
                    assert(texts[texts.len() - 1] == t);
                }
            }
        }
    }
}

/// A frame is read if it is the first, if it looks different from the last that was read, if its
/// pixels changed, or if the last reading is long enough ago; and only then.
pub proof fn law_frames_are_read_when_they_change(
    l: LastRead,
    hash: u64,
    t: Timestamp,
    pixels_changed: bool,
    max_gap_ms: int,
)
    ensures
        worth_reading(None, hash, t, pixels_changed, max_gap_ms),
        phash::differing_bits(l.hash, hash, 64) >= 7 ==> worth_reading(
            Some(l),
            hash,
            t,
            pixels_changed,
            max_gap_ms,
        ),
        pixels_changed ==> worth_reading(Some(l), hash, t, pixels_changed, max_gap_ms),
        l.t.den == t.den && t.den > 0 && (t.num - l.t.num) * 1000 >= max_gap_ms * t.den
            ==> worth_reading(Some(l), hash, t, pixels_changed, max_gap_ms),
        phash::differing_bits(l.hash, hash, 64) <= 6 && !pixels_changed && l.t.den == t.den && t.den
            > 0 && (t.num - l.t.num) * 1000 < max_gap_ms * t.den ==> !worth_reading(
            Some(l),
            hash,
            t,
            pixels_changed,
            max_gap_ms,
        ),
{
    let (a, b, d, g) = (t.num as int, l.t.num as int, t.den as int, max_gap_ms);
    if l.t.den == t.den && t.den > 0 {
        assert((a * d - b * d) * 1000 >= g * (d * d) <==> (a - b) * 1000 >= g * d)
            by (nonlinear_arith)
            requires
                d > 0,
        {
            assert((a * d - b * d) * 1000 == ((a - b) * 1000) * d);
            assert(g * (d * d) == (g * d) * d);
        }
    }
}

/// A failed batch reaches from the earliest of its times to the latest.
pub proof fn law_failures_reach_over_all_times(times: Seq<Timestamp>, n: int, i: int)
    requires
        1 <= n <= times.len(),
        0 <= i < n,
        forall|i: int| 0 <= i < times.len() ==> (#[trigger] times[i]).wf(),
    ensures
        timestamp::le_time(earliest(times, n), times[i]),
        timestamp::le_time(times[i], latest(times, n)),
        times.contains(earliest(times, n)),
        times.contains(latest(times, n)),
        earliest(times, n).wf() && latest(times, n).wf(),
    decreases n,
{
    assert(times[n - 1].wf() && times[i].wf() && times[0].wf());
    if n > 1 {
        law_failures_reach_over_all_times(
            times,
            n - 1,
            if i < n - 1 {
                i
            } else {
                0
            },
        );
        let (e, l, x) = (earliest(times, n - 1), latest(times, n - 1), times[n - 1]);
        timestamp::law_time_total_preorder(x, e, times[i]);
        timestamp::law_time_total_preorder(times[i], l, x);
        timestamp::law_time_total_preorder(e, x, x);
        timestamp::law_time_total_preorder(l, x, x);
        timestamp::law_time_total_preorder(x, x, x);
        assert(times.contains(x));
    } else {
        timestamp::law_time_total_preorder(times[0], times[0], times[0]);
        assert(times.contains(times[0]));
    }
}

} // verus!
