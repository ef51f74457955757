//! Rows of the index: spans, segments and descriptions.

use vstd::prelude::*;

use crate::text;
use crate::timestamp;
use crate::timestamp::Timestamp;

verus! {

/// Levels of segments.
#[derive(Clone, Copy, Debug, PartialEq, Eq, Structural)]
pub enum SegmentLevel {
    /// One camera take.
    Shot,
    /// Shots that belong together.
    Scene,
    /// A few minutes about one thing.
    Chapter,
}

/// What a description or an embedding is about.
#[derive(Clone, Copy, Debug, PartialEq, Eq, Structural)]
pub enum TargetKind {
    /// A segment.
    Segment,
    /// A frame sample.
    Frame,
    /// A span of a transcript.
    TranscriptSpan,
    /// A line of text on screen.
    OcrSpan,
}

/// Kinds of descriptions.
#[derive(Clone, Copy, Debug, PartialEq, Eq, Structural)]
pub enum DescriptionKind {
    /// A caption.
    Caption,
    /// A summary.
    Summary,
    /// A question and its answer.
    Qa,
    /// A text with structured data.
    Structured,
}

/// Timed speech text on a track.
#[derive(Debug)]
pub struct TranscriptSpan {
    /// Id.
    pub id: u128,
    /// Track.
    pub track_id: u128,
    /// Start.
    pub t0: Timestamp,
    /// End.
    pub t1: Timestamp,
    /// Text.
    pub text: String,
    /// Speaker.
    pub speaker: Option<String>,
    /// Language.
    pub language: Option<String>,
    /// Confidence, as a number's text.
    pub confidence: Option<String>,
    /// Words, as JSON text.
    pub words: Option<String>,
    /// Where it came from.
    pub provenance_id: u128,
}

/// A box on a frame, its numbers as texts.
#[derive(Debug)]
pub struct BoxText {
    /// Left edge.
    pub x: String,
    /// Top edge.
    pub y: String,
    /// Width.
    pub w: String,
    /// Height.
    pub h: String,
}

/// The numbers of a box.
pub open spec fn box_texts(b: Option<BoxText>) -> Option<(Seq<char>, Seq<char>, Seq<char>, Seq<char>)> {
    match b {
        Some(b) => Some((b.x@, b.y@, b.w@, b.h@)),
        None => None,
    }
}

/// On-screen text on a frame sample.
#[derive(Debug)]
pub struct OcrSpan {
    /// Id.
    pub id: u128,
    /// Frame sample.
    pub frame_sample_id: u128,
    /// Time.
    pub t: Timestamp,
    /// Text.
    pub text: String,
    /// Where on the frame.
    pub bbox: Option<BoxText>,
    /// Confidence, as a number's text.
    pub confidence: Option<String>,
    /// Where it came from.
    pub provenance_id: u128,
}

/// A span of text.
#[derive(Debug)]
pub enum Span {
    /// Speech.
    Transcript(TranscriptSpan),
    /// On-screen text.
    Ocr(OcrSpan),
}

/// A stretch of a video.
#[derive(Debug)]
pub struct Segment {
    /// Id.
    pub id: u128,
    /// Video.
    pub video_id: u128,
    /// Level.
    pub level: SegmentLevel,
    /// Segment it lies in.
    pub parent_id: Option<u128>,
    /// Start.
    pub t0: Timestamp,
    /// End.
    pub t1: Timestamp,
    /// Frame sample that stands for it.
    pub keyframe_sample_id: Option<u128>,
    /// Title.
    pub title: Option<String>,
    /// Summary.
    pub summary: Option<String>,
    /// Where it came from.
    pub provenance_id: u128,
}

/// Two segments that differ in nothing a reader can see.
pub open spec fn same_segment(a: Segment, b: Segment) -> bool {
    &&& a.id == b.id
    &&& a.video_id == b.video_id
    &&& a.level == b.level
    &&& a.parent_id == b.parent_id
    &&& a.t0 == b.t0
    &&& a.t1 == b.t1
    &&& a.keyframe_sample_id == b.keyframe_sample_id
    &&& text::opt_text(a.title) == text::opt_text(b.title)
    &&& text::opt_text(a.summary) == text::opt_text(b.summary)
    &&& a.provenance_id == b.provenance_id
}

/// Text about a segment or a frame.
#[derive(Debug)]
pub struct Description {
    /// Id.
    pub id: u128,
    /// What it is about.
    pub target_kind: TargetKind,
    /// The segment's or frame sample's id.
    pub target_id: String,
    /// Kind.
    pub kind: DescriptionKind,
    /// Text.
    pub text: String,
    /// Structured data, as JSON text.
    pub structured: Option<String>,
    /// Where it came from.
    pub provenance_id: u128,
}

/// Segments with one more, put behind those that do not start later.
pub open spec fn segment_placed(s: Seq<Segment>, x: Segment) -> Seq<Segment>
    decreases s.len(),
{
    if s.len() == 0 || timestamp::le_time(s.last().t0, x.t0) {
        s.push(x)
    } else {
        segment_placed(s.drop_last(), x).push(s.last())
    }
}

/// Segments in the order of their starts; those of one start stay in the order given.
pub open spec fn by_start(s: Seq<Segment>) -> Seq<Segment>
    decreases s.len(),
{
    if s.len() == 0 {
        s
    } else {
        segment_placed(by_start(s.drop_last()), s.last())
    }
}

fn place_segment(v: &mut Vec<Segment>, x: Segment)
    ensures
        final(v)@ == segment_placed(old(v)@, x),
{
    let ghost all = v@;
    let mut i: usize = v.len();
    proof {
        assert(all.take(i as int) =~= all);
        assert(segment_placed(all, x) =~= segment_placed(all, x) + all.skip(i as int));
    }
    while i > 0
        invariant
            i <= v@.len(),
            v@ == all,
            segment_placed(all, x) == segment_placed(all.take(i as int), x) + all.skip(i as int),
        ensures
            i <= v@.len(),
            v@ == all,
            segment_placed(all, x) == all.take(i as int).push(x) + all.skip(i as int),
        decreases i,
    {
        proof {
            assert(all.take(i as int).last() == all[i - 1]);
            assert(all.take(i as int).drop_last() =~= all.take(i - 1));
        }
        if v[i - 1].t0.le(&x.t0) {
            break;
        }
        proof {
            let p = segment_placed(all.take(i - 1), x);
            assert(p.push(all[i - 1]) + all.skip(i as int) =~= p + all.skip(i - 1));
        }
        i = i - 1;
    }
    v.insert(i, x);
    proof {
        assert(v@ =~= all.take(i as int).push(x) + all.skip(i as int));
    }
}

/// Sorts segments by their starts.
pub fn sort_segments(segments: Vec<Segment>) -> (r: Vec<Segment>)
    ensures
        r@ == by_start(segments@),
{
    let ghost all = segments@;
    let mut out: Vec<Segment> = Vec::new();
    proof {
        assert(all.take(0) =~= Seq::<Segment>::empty());
    }
    for s in it: segments
        invariant
            it.seq() == all,
            out@ == by_start(all.take(it.index() as int)),
    {
        proof {
            let k = it.index() as int;
            assert(all.take(k + 1).drop_last() =~= all.take(k));
        }
        place_segment(&mut out, s);
    }
    proof {
        assert(all.take(all.len() as int) =~= all);
    }
    out
}

proof fn lemma_segment_placed(s: Seq<Segment>, x: Segment)
    requires
        x.t0.wf(),
        forall|i: int| 0 <= i < s.len() ==> (#[trigger] s[i]).t0.wf(),
        forall|i: int, j: int|
            0 <= i < j < s.len() ==> timestamp::le_time((#[trigger] s[i]).t0, (
            #[trigger] s[j]).t0),
    ensures
        segment_placed(s, x).len() == s.len() + 1,
        segment_placed(s, x).to_multiset() == s.to_multiset().insert(x),
        forall|i: int|
            0 <= i < s.len() + 1 ==> (#[trigger] segment_placed(s, x)[i]).t0.wf() && (segment_placed(
                s,
                x,
            )[i] == x || s.contains(segment_placed(s, x)[i])),
        forall|i: int, j: int|
            0 <= i < j < s.len() + 1 ==> timestamp::le_time(
                (#[trigger] segment_placed(s, x)[i]).t0,
                (#[trigger] segment_placed(s, x)[j]).t0,
            ),
    decreases s.len(),
{
    broadcast use vstd::seq_lib::group_to_multiset_ensures;

    let r = segment_placed(s, x);
    if s.len() == 0 || timestamp::le_time(s.last().t0, x.t0) {
        assert forall|i: int| 0 <= i < r.len() implies (#[trigger] r[i]).t0.wf() && (r[i] == x
            || s.contains(r[i])) by {
            if i < s.len() {
                assert(r[i] == s[i]);
            }
        }
        assert forall|i: int, j: int| 0 <= i < j < r.len() implies timestamp::le_time(
            (#[trigger] r[i]).t0,
            (#[trigger] r[j]).t0,
        ) by {
            if j == s.len() {
                assert(r[i] == s[i]);
                if i < s.len() - 1 {
                    assert(timestamp::le_time(s[i].t0, s[s.len() - 1].t0));
                    timestamp::law_time_total_preorder(s[i].t0, s.last().t0, x.t0);
                }
            } else {
                assert(r[i] == s[i] && r[j] == s[j]);
            }
        }
    } else {
        let head = s.drop_last();
        lemma_segment_placed(head, x);
        let q = segment_placed(head, x);
        assert(s =~= head.push(s.last()));
        assert(s.to_multiset() =~= head.to_multiset().insert(s.last()));
        assert(r.to_multiset() =~= s.to_multiset().insert(x));
        assert(s[s.len() - 1].t0.wf());
        timestamp::law_time_total_preorder(s.last().t0, x.t0, x.t0);
        assert forall|i: int| 0 <= i < r.len() implies (#[trigger] r[i]).t0.wf() && (r[i] == x
            || s.contains(r[i])) by {
            if i < q.len() {
                assert(r[i] == q[i]);
                if q[i] != x {
                    let k = choose|k: int| 0 <= k < head.len() && head[k] == q[i];
                    assert(s[k] == r[i]);
                }
            } else {
                assert(r[i] == s[s.len() - 1]);
            }
        }
        assert forall|i: int, j: int| 0 <= i < j < r.len() implies timestamp::le_time(
            (#[trigger] r[i]).t0,
            (#[trigger] r[j]).t0,
        ) by {
            if j == q.len() {
                assert(r[i] == q[i]);
                if q[i] != x {
                    let k = choose|k: int| 0 <= k < head.len() && head[k] == q[i];
                    assert(s[k] == q[i]);
                    assert(timestamp::le_time(s[k].t0, s[s.len() - 1].t0));
                }
            } else {
                assert(r[i] == q[i] && r[j] == q[j]);
            }
        }
    }
}

/// Sorting segments loses and invents none, and leaves them in the order of their starts.
pub proof fn law_sorted_segments(s: Seq<Segment>)
    requires
        forall|i: int| 0 <= i < s.len() ==> (#[trigger] s[i]).t0.wf(),
    ensures
        by_start(s).len() == s.len(),
        by_start(s).to_multiset() == s.to_multiset(),
        forall|i: int| 0 <= i < s.len() ==> (#[trigger] by_start(s)[i]).t0.wf(),
        forall|i: int, j: int|
            0 <= i < j < s.len() ==> timestamp::le_time((#[trigger] by_start(s)[i]).t0, (
            #[trigger] by_start(s)[j]).t0),
    decreases s.len(),
{
    broadcast use vstd::seq_lib::group_to_multiset_ensures;

    if s.len() > 0 {
        let head = s.drop_last();
        assert forall|i: int| 0 <= i < head.len() implies (#[trigger] head[i]).t0.wf() by {
            assert(s[i].t0.wf());
        }
        assert(s[s.len() - 1].t0.wf());
        law_sorted_segments(head);
        lemma_segment_placed(by_start(head), s.last());
        assert(s =~= head.push(s.last()));
        assert(s.to_multiset() =~= head.to_multiset().insert(s.last()));
    }
}

} // verus!
