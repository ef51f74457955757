//! Rows that operators outside this crate produce: parsing them, checking
//! them against what the operator declared, and turning them into rows of the
//! index.

use vstd::prelude::*;

use crate::json;
use crate::json::{Json, JsonView, Number};
use crate::model;
use crate::model::{
    BoxText, Description, DescriptionKind, OcrSpan, Segment, SegmentLevel, Span, TargetKind,
    TranscriptSpan,
};
use crate::operator;
use crate::operator::ItemKind;
use crate::probe::{Track, TrackKind};
use crate::text;
use crate::text::str_is;
use crate::timestamp::Timestamp;

verus! {

/// Nanoseconds in one tick of the timebase of times that arrive as seconds.
pub const TICK_NANOS: u32 = 1000;

/// Segment fields that an operator supplies.
#[derive(Debug)]
pub struct CallbackSegment {
    /// Start.
    pub t0: Timestamp,
    /// End.
    pub t1: Timestamp,
    /// Title.
    pub title: Option<String>,
    /// Summary.
    pub summary: Option<String>,
    /// Frame sample that stands for it.
    pub keyframe_sample_id: Option<String>,
    /// Segment it lies in.
    pub parent_id: Option<String>,
}

/// Transcript fields that an operator supplies.
#[derive(Debug)]
pub struct TranscriptRow {
    /// Start.
    pub t0: Timestamp,
    /// End.
    pub t1: Timestamp,
    /// Text.
    pub text: String,
    /// Speaker.
    pub speaker: Option<String>,
    /// Language.
    pub language: Option<String>,
    /// Confidence, as a number's text.
    pub confidence: Option<String>,
    /// Words, as JSON text.
    pub words: Option<String>,
}

/// On-screen text fields that an operator supplies.
#[derive(Debug)]
pub struct OcrRow {
    /// Frame sample.
    pub frame_sample_id: String,
    /// Time.
    pub t: Timestamp,
    /// Text.
    pub text: String,
    /// Where on the frame.
    pub bbox: Option<BoxText>,
    /// Confidence, as a number's text.
    pub confidence: Option<String>,
}

/// Description fields that an operator supplies.
#[derive(Debug)]
pub struct DescriptionRow {
    /// `segment` or `frame`.
    pub target_kind: String,
    /// The segment's or frame sample's id.
    pub target_id: String,
    /// Text.
    pub text: String,
    /// `caption` (default), `summary`, `qa` or `structured`.
    pub description_kind: Option<String>,
    /// Structured data, as JSON text.
    pub structured: Option<String>,
}

/// A row that an operator may produce. Ids and provenance are filled in later; the operator
/// supplies content and times.
#[derive(Debug)]
pub enum CallbackRow {
    /// Timed speech text on the audio track.
    TranscriptSpan(TranscriptRow),
    /// On-screen text on a frame sample.
    OcrSpan(OcrRow),
    /// A shot segment.
    Shot(CallbackSegment),
    /// A scene segment.
    Scene(CallbackSegment),
    /// A chapter segment.
    Chapter(CallbackSegment),
    /// Text about a segment or a frame.
    Description(DescriptionRow),
}

/// The kind of item that a row becomes.
pub open spec fn row_kind(r: CallbackRow) -> ItemKind {
    match r {
        CallbackRow::TranscriptSpan(_) => ItemKind::TranscriptSpan,
        CallbackRow::OcrSpan(_) => ItemKind::OcrSpan,
        CallbackRow::Shot(_) => ItemKind::Shot,
        CallbackRow::Scene(_) => ItemKind::Scene,
        CallbackRow::Chapter(_) => ItemKind::Chapter,
        CallbackRow::Description(_) => ItemKind::Description,
    }
}

impl CallbackRow {
    /// The kind of item that this row becomes.
    pub fn kind(&self) -> (k: ItemKind)
        ensures
            k == row_kind(*self),
    {
        match self {
            CallbackRow::TranscriptSpan(_) => ItemKind::TranscriptSpan,
            CallbackRow::OcrSpan(_) => ItemKind::OcrSpan,
            CallbackRow::Shot(_) => ItemKind::Shot,
            CallbackRow::Scene(_) => ItemKind::Scene,
            CallbackRow::Chapter(_) => ItemKind::Chapter,
            CallbackRow::Description(_) => ItemKind::Description,
        }
    }
}

/// The time under a key, in microseconds; nothing when there is no number.
pub open spec fn row_time(v: JsonView, k: Seq<char>) -> Option<Timestamp> {
    match v.get_num(k) {
        Some((t, n)) => Some(
            Timestamp {
                num: json::to_ticks(json::time_nanos(t, n), TICK_NANOS as int) as i64,
                den: 1_000_000,
            },
        ),
        None => None,
    }
}

/// The optional string under a key: absent or null is no string, anything but a string is an
/// error.
pub open spec fn row_text(v: JsonView, k: Seq<char>) -> Result<Option<Seq<char>>, ()> {
    match v.get(k) {
        None => Ok(None),
        Some(JsonView::Null) => Ok(None),
        Some(JsonView::Str(s)) => Ok(Some(s)),
        Some(_) => Err(()),
    }
}

/// The optional number under a key, as its text.
pub open spec fn row_number(v: JsonView, k: Seq<char>) -> Result<Option<Seq<char>>, ()> {
    match v.get(k) {
        None => Ok(None),
        Some(JsonView::Null) => Ok(None),
        Some(JsonView::Num(t, _)) => Ok(Some(t)),
        Some(_) => Err(()),
    }
}

/// The optional value under a key, as JSON text.
pub open spec fn row_value(v: JsonView, k: Seq<char>) -> Option<Seq<char>> {
    match v.get(k) {
        None => None,
        Some(JsonView::Null) => None,
        Some(j) => Some(json::shown(j)),
    }
}

/// The optional box under a key: all four of its numbers must be there.
pub open spec fn row_box(v: JsonView, k: Seq<char>) -> Result<
    Option<(Seq<char>, Seq<char>, Seq<char>, Seq<char>)>,
    (),
> {
    match v.get(k) {
        None => Ok(None),
        Some(JsonView::Null) => Ok(None),
        Some(b) => match (b.get_num("x"@), b.get_num("y"@), b.get_num("w"@), b.get_num("h"@)) {
            (Some(x), Some(y), Some(w), Some(h)) => Ok(Some((x.0, y.0, w.0, h.0))),
            _ => Err(()),
        },
    }
}

/// A segment row says what a JSON object says.
pub open spec fn segment_reads(v: JsonView, r: CallbackSegment) -> bool {
    &&& row_time(v, "t0"@) == Some(r.t0)
    &&& row_time(v, "t1"@) == Some(r.t1)
    &&& row_text(v, "title"@) == Ok::<_, ()>(text::opt_text(r.title))
    &&& row_text(v, "summary"@) == Ok::<_, ()>(text::opt_text(r.summary))
    &&& row_text(v, "keyframe_sample_id"@) == Ok::<_, ()>(text::opt_text(r.keyframe_sample_id))
    &&& row_text(v, "parent_id"@) == Ok::<_, ()>(text::opt_text(r.parent_id))
}

/// A JSON object can be read as a segment row.
pub open spec fn segment_readable(v: JsonView) -> bool {
    &&& row_time(v, "t0"@) is Some
    &&& row_time(v, "t1"@) is Some
    &&& row_text(v, "title"@) is Ok
    &&& row_text(v, "summary"@) is Ok
    &&& row_text(v, "keyframe_sample_id"@) is Ok
    &&& row_text(v, "parent_id"@) is Ok
}

/// A row says what a JSON object says.
pub open spec fn row_reads(v: JsonView, r: CallbackRow) -> bool {
    match r {
        CallbackRow::TranscriptSpan(t) => {
            &&& v.get_str("kind"@) == Some("transcript_span"@)
            &&& row_time(v, "t0"@) == Some(t.t0)
            &&& row_time(v, "t1"@) == Some(t.t1)
            &&& v.get_str("text"@) == Some(t.text@)
            &&& row_text(v, "speaker"@) == Ok::<_, ()>(text::opt_text(t.speaker))
            &&& row_text(v, "language"@) == Ok::<_, ()>(text::opt_text(t.language))
            &&& row_number(v, "confidence"@) == Ok::<_, ()>(text::opt_text(t.confidence))
            &&& row_value(v, "words"@) == text::opt_text(t.words)
        },
        CallbackRow::OcrSpan(o) => {
            &&& v.get_str("kind"@) == Some("ocr_span"@)
            &&& v.get_str("frame_sample_id"@) == Some(o.frame_sample_id@)
            &&& row_time(v, "t"@) == Some(o.t)
            &&& v.get_str("text"@) == Some(o.text@)
            &&& row_box(v, "bbox"@) == Ok::<_, ()>(model::box_texts(o.bbox))
            &&& row_number(v, "confidence"@) == Ok::<_, ()>(text::opt_text(o.confidence))
        },
        CallbackRow::Shot(s) => v.get_str("kind"@) == Some("shot"@) && segment_reads(v, s),
        CallbackRow::Scene(s) => v.get_str("kind"@) == Some("scene"@) && segment_reads(v, s),
        CallbackRow::Chapter(s) => v.get_str("kind"@) == Some("chapter"@) && segment_reads(v, s),
        CallbackRow::Description(d) => {
            &&& v.get_str("kind"@) == Some("description"@)
            &&& v.get_str("target_kind"@) == Some(d.target_kind@)
            &&& v.get_str("target_id"@) == Some(d.target_id@)
            &&& v.get_str("text"@) == Some(d.text@)
            &&& row_text(v, "description_kind"@) == Ok::<_, ()>(text::opt_text(d.description_kind))
            &&& row_value(v, "structured"@) == text::opt_text(d.structured)
        },
    }
}

/// A JSON object can be read as a row: it has a known kind and that kind's fields, each of its
/// type.
pub open spec fn row_readable(v: JsonView) -> bool {
    match v.get_str("kind"@) {
        Some(k) => if k == "transcript_span"@ {
            row_time(v, "t0"@) is Some && row_time(v, "t1"@) is Some && v.get_str("text"@) is Some
                && row_text(v, "speaker"@) is Ok && row_text(v, "language"@) is Ok && row_number(
                v,
                "confidence"@,
            ) is Ok
        } else if k == "ocr_span"@ {
            v.get_str("frame_sample_id"@) is Some && row_time(v, "t"@) is Some && v.get_str(
                "text"@,
            ) is Some && row_box(v, "bbox"@) is Ok && row_number(v, "confidence"@) is Ok
        } else if k == "shot"@ || k == "scene"@ || k == "chapter"@ {
            segment_readable(v)
        } else if k == "description"@ {
            v.get_str("target_kind"@) is Some && v.get_str("target_id"@) is Some && v.get_str(
                "text"@,
            ) is Some && row_text(v, "description_kind"@) is Ok
        } else {
            false
        },
        None => false,
    }
}

fn read_time(v: &Json, k: &str) -> (r: Option<Timestamp>)
    ensures
        r == row_time(v@, k@),
{
    match v.get_num(k) {
        Some(n) => Some(Timestamp::new(n.ticks(TICK_NANOS), 1_000_000)),
        None => None,
    }
}

fn read_text(v: &Json, k: &str) -> (r: Result<Option<String>, ()>)
    ensures
        match r {
            Ok(s) => row_text(v@, k@) == Ok::<_, ()>(text::opt_text(s)),
            Err(_) => row_text(v@, k@) is Err,
        },
{
    match v.get(k) {
        None => Ok(None),
        Some(Json::Null) => Ok(None),
        Some(Json::Str(s)) => Ok(Some(s.clone())),
        Some(_) => Err(()),
    }
}

fn read_number(v: &Json, k: &str) -> (r: Result<Option<String>, ()>)
    ensures
        match r {
            Ok(s) => row_number(v@, k@) == Ok::<_, ()>(text::opt_text(s)),
            Err(_) => row_number(v@, k@) is Err,
        },
{
    match v.get(k) {
        None => Ok(None),
        Some(Json::Null) => Ok(None),
        Some(Json::Num(n)) => Ok(Some(n.text.clone())),
        Some(_) => Err(()),
    }
}

fn read_value(v: &Json, k: &str) -> (r: Option<String>)
    ensures
        row_value(v@, k@) == text::opt_text(r),
{
    match v.get(k) {
        None => None,
        Some(Json::Null) => None,
        Some(j) => Some(json::show(j)),
    }
}

fn read_box(v: &Json, k: &str) -> (r: Result<Option<BoxText>, ()>)
    ensures
        match r {
            Ok(b) => row_box(v@, k@) == Ok::<_, ()>(model::box_texts(b)),
            Err(_) => row_box(v@, k@) is Err,
        },
{
    match v.get(k) {
        None => Ok(None),
        Some(Json::Null) => Ok(None),
        Some(b) => match (b.get_num("x"), b.get_num("y"), b.get_num("w"), b.get_num("h")) {
            (Some(x), Some(y), Some(w), Some(h)) => Ok(
                Some(
                    BoxText {
                        x: x.text.clone(),
                        y: y.text.clone(),
                        w: w.text.clone(),
                        h: h.text.clone(),
                    },
                ),
            ),
            _ => Err(()),
        },
    }
}

fn read_segment(v: &Json) -> (r: Option<CallbackSegment>)
    ensures
        match r {
            Some(s) => segment_reads(v@, s),
            None => !segment_readable(v@),
        },
{
    match (
        read_time(v, "t0"),
        read_time(v, "t1"),
        read_text(v, "title"),
        read_text(v, "summary"),
        read_text(v, "keyframe_sample_id"),
        read_text(v, "parent_id"),
    ) {
        (
            Some(t0),
            Some(t1),
            Ok(title),
            Ok(summary),
            Ok(keyframe_sample_id),
            Ok(parent_id),
        ) => Some(CallbackSegment { t0, t1, title, summary, keyframe_sample_id, parent_id }),
        _ => None,
    }
}

fn read_transcript(v: &Json) -> (r: Option<CallbackRow>)
    requires
        v@.get_str("kind"@) == Some("transcript_span"@),
    ensures
        match r {
            Some(row) => row_reads(v@, row) && row_readable(v@),
            None => !row_readable(v@),
        },
{
    match (
        read_time(v, "t0"),
        read_time(v, "t1"),
        v.get_str("text"),
        read_text(v, "speaker"),
        read_text(v, "language"),
        read_number(v, "confidence"),
    ) {
        (Some(t0), Some(t1), Some(said), Ok(speaker), Ok(language), Ok(confidence)) => Some(
            CallbackRow::TranscriptSpan(
                TranscriptRow {
                    t0,
                    t1,
                    text: said.clone(),
                    speaker,
                    language,
                    confidence,
                    words: read_value(v, "words"),
                },
            ),
        ),
        _ => None,
    }
}

fn read_ocr(v: &Json) -> (r: Option<CallbackRow>)
    requires
        v@.get_str("kind"@) == Some("ocr_span"@),
    ensures
        match r {
            Some(row) => row_reads(v@, row) && row_readable(v@),
            None => !row_readable(v@),
        },
{
    proof {
        operator::lemma_names_differ();
    }
    match (
        v.get_str("frame_sample_id"),
        read_time(v, "t"),
        v.get_str("text"),
        read_box(v, "bbox"),
        read_number(v, "confidence"),
    ) {
        (Some(f), Some(t), Some(said), Ok(bbox), Ok(confidence)) => Some(
            CallbackRow::OcrSpan(
                OcrRow { frame_sample_id: f.clone(), t, text: said.clone(), bbox, confidence },
            ),
        ),
        _ => None,
    }
}

fn read_description(v: &Json) -> (r: Option<CallbackRow>)
    requires
        v@.get_str("kind"@) == Some("description"@),
    ensures
        match r {
            Some(row) => row_reads(v@, row) && row_readable(v@),
            None => !row_readable(v@),
        },
{
    proof {
        operator::lemma_names_differ();
    }
    match (
        v.get_str("target_kind"),
        v.get_str("target_id"),
        v.get_str("text"),
        read_text(v, "description_kind"),
    ) {
        (Some(k), Some(id), Some(said), Ok(description_kind)) => Some(
            CallbackRow::Description(
                DescriptionRow {
                    target_kind: k.clone(),
                    target_id: id.clone(),
                    text: said.clone(),
                    description_kind,
                    structured: read_value(v, "structured"),
                },
            ),
        ),
        _ => None,
    }
}

impl CallbackRow {
    /// Reads a row from its JSON form; `kind` tells which.
    pub fn from_json(v: &Json) -> (r: Option<CallbackRow>)
        ensures
            match r {
                Some(row) => row_reads(v@, row) && row_readable(v@),
                None => !row_readable(v@),
            },
    {
        proof {
            operator::lemma_names_differ();
        }
        let kind: &String = match v.get_str("kind") {
            Some(k) => k,
            None => {
                return None;
            },
        };
        let k = kind.as_str();
        if str_is(k, "transcript_span") {
            read_transcript(v)
        } else if str_is(k, "ocr_span") {
            read_ocr(v)
        } else if str_is(k, "shot") {
            match read_segment(v) {
                Some(s) => Some(CallbackRow::Shot(s)),
                None => None,
            }
        } else if str_is(k, "scene") {
            match read_segment(v) {
                Some(s) => Some(CallbackRow::Scene(s)),
                None => None,
            }
        } else if str_is(k, "chapter") {
            match read_segment(v) {
                Some(s) => Some(CallbackRow::Chapter(s)),
                None => None,
            }
        } else if str_is(k, "description") {
            read_description(v)
        } else {
            None
        }
    }
}

/// Where an operator's rows go: the video, and the track that transcript spans attach to.
#[derive(Clone, Copy, Debug, PartialEq, Eq, Structural)]
pub struct RowTarget {
    /// The video being indexed.
    pub video: u128,
    /// Track for transcript spans: the audio track, else the video track.
    pub transcript_track: Option<u128>,
}

/// Track `i` is the first of a kind with the lowest stream index.
pub open spec fn lowest_track(tracks: Seq<Track>, kind: TrackKind, i: int) -> bool {
    &&& 0 <= i < tracks.len()
    &&& tracks[i].kind == kind
    &&& forall|j: int|
        0 <= j < tracks.len() && (#[trigger] tracks[j]).kind == kind ==> if j < i {
            tracks[j].stream_index > tracks[i].stream_index
        } else {
            tracks[j].stream_index >= tracks[i].stream_index
        }
}

/// No track is of a kind.
pub open spec fn without_kind(tracks: Seq<Track>, kind: TrackKind) -> bool {
    forall|j: int| 0 <= j < tracks.len() ==> (#[trigger] tracks[j]).kind != kind
}

/// The track of a kind that is picked.
pub open spec fn picked(tracks: Seq<Track>, kind: TrackKind, r: Option<u128>) -> bool {
    match r {
        Some(id) => exists|i: int| #[trigger] lowest_track(tracks, kind, i) && tracks[i].id == id,
        None => without_kind(tracks, kind),
    }
}

fn pick(tracks: &Vec<Track>, kind: TrackKind) -> (r: Option<u128>)
    ensures
        picked(tracks@, kind, r),
{
    let mut best: Option<usize> = None;
    let mut i: usize = 0;
    while i < tracks.len()
        invariant
            i <= tracks@.len(),
            match best {
                Some(b) => b < i && lowest_track(tracks@.take(i as int), kind, b as int),
                None => without_kind(tracks@.take(i as int), kind),
            },
        decreases tracks@.len() - i,
    {
        let ghost before = tracks@.take(i as int);
        let ghost now = tracks@.take(i + 1);
        proof {
            assert(now =~= before.push(tracks@[i as int]));
        }
        if tracks[i].kind == kind {
            match best {
                Some(b) => {
                    proof {
                        assert(now[b as int] == before[b as int]);
                        assert forall|j: int|
                            0 <= j < now.len() && (#[trigger] now[j]).kind == kind && j
                                < i implies if j < b {
                            now[j].stream_index > now[b as int].stream_index
                        } else {
                            now[j].stream_index >= now[b as int].stream_index
                        } by {
                            assert(now[j] == before[j]);
                        }
                    }
                    if tracks[i].stream_index < tracks[b].stream_index {
                        best = Some(i);
                    }
                },
                None => {
                    best = Some(i);
                    proof {
                        assert forall|j: int| 0 <= j < i implies (#[trigger] now[j]).kind
                            != kind by {
                            assert(now[j] == before[j]);
                        }
                    }
                },
            }
        } else {
            proof {
                match best {
                    Some(b) => {
                        assert(now[b as int] == before[b as int]);
                        assert forall|j: int|
                            0 <= j < now.len() && (#[trigger] now[j]).kind == kind implies if j
                            < b {
                            now[j].stream_index > now[b as int].stream_index
                        } else {
                            now[j].stream_index >= now[b as int].stream_index
                        } by {
                            assert(now[j] == before[j]);
                        }
                    },
                    None => {
                        assert forall|j: int| 0 <= j < now.len() implies (#[trigger] now[j]).kind
                            != kind by {
                            if j < i {
                                assert(now[j] == before[j]);
                            }
                        }
                    },
                }
            }
        }
        i = i + 1;
    }
    proof {
        assert(tracks@.take(i as int) =~= tracks@);
    }
    match best {
        Some(b) => {
            proof {
                assert(lowest_track(tracks@, kind, b as int));
            }
            Some(tracks[b].id)
        },
        None => None,
    }
}

impl RowTarget {
    /// The target for a video with these tracks.
    pub fn load(video: u128, tracks: &Vec<Track>) -> (r: RowTarget)
        ensures
            r.video == video,
            if without_kind(tracks@, TrackKind::Audio) {
                picked(tracks@, TrackKind::Video, r.transcript_track)
            } else {
                r.transcript_track is Some && picked(
                    tracks@,
                    TrackKind::Audio,
                    r.transcript_track,
                )
            },
    {
        let audio = pick(tracks, TrackKind::Audio);
        let transcript_track: Option<u128> = match audio {
            Some(id) => {
                proof {
                    let i = choose|i: int| #[trigger] lowest_track(tracks@, TrackKind::Audio, i);
                    assert(tracks@[i].kind == TrackKind::Audio);
                }
                Some(id)
            },
            None => pick(tracks, TrackKind::Video),
        };
        RowTarget { video, transcript_track }
    }
}

/// Ids for one row: the one it gets, and what the ids that it names stand for, if they are valid.
#[derive(Clone, Copy, Debug, PartialEq, Eq, Structural)]
pub struct RowIds {
    /// The row's own id.
    pub id: u128,
    /// The frame sample that the row names.
    pub frame: Option<u128>,
    /// The segment that the row names as its parent.
    pub parent: Option<u128>,
}

/// A row of the index made from an operator's row.
#[derive(Debug)]
pub enum StoredRow {
    /// A span.
    Span(Span),
    /// A segment.
    Segment(Segment),
    /// A description.
    Description(Description),
}

/// The names of kinds in a list.
pub open spec fn kind_list(ks: Seq<ItemKind>) -> Seq<char> {
    "["@ + text::joined(ks.map_values(|k: ItemKind| operator::kind_label(k)), ", "@) + "]"@
}

/// The target kind that a name stands for.
pub open spec fn target_named(s: Seq<char>) -> Option<TargetKind> {
    if s == "segment"@ {
        Some(TargetKind::Segment)
    } else if s == "frame"@ {
        Some(TargetKind::Frame)
    } else {
        None
    }
}

/// The description kind that a name stands for; no name stands for a caption.
pub open spec fn description_named(s: Option<Seq<char>>) -> Option<DescriptionKind> {
    match s {
        None => Some(DescriptionKind::Caption),
        Some(k) => if k == "caption"@ {
            Some(DescriptionKind::Caption)
        } else if k == "summary"@ {
            Some(DescriptionKind::Summary)
        } else if k == "qa"@ {
            Some(DescriptionKind::Qa)
        } else if k == "structured"@ {
            Some(DescriptionKind::Structured)
        } else {
            None
        },
    }
}

/// The message about an id that is not valid.
pub open spec fn bad_id(what: Seq<char>, s: Seq<char>) -> Seq<char> {
    what + " '"@ + s + "' is not a valid id"@
}

/// Why a segment row is refused, if it is.
pub open spec fn segment_refusal(s: CallbackSegment, ids: RowIds) -> Option<Seq<char>> {
    if s.keyframe_sample_id is Some && ids.frame is None {
        Some(bad_id("keyframe_sample_id"@, s.keyframe_sample_id->0@))
    } else if s.parent_id is Some && ids.parent is None {
        Some(bad_id("parent_id"@, s.parent_id->0@))
    } else {
        None
    }
}

/// Why a row is refused, if it is: its kind was not declared, there is no track for it, an id is
/// not valid, or a name is unknown.
pub open spec fn refusal(
    target: RowTarget,
    outputs: Seq<ItemKind>,
    row: CallbackRow,
    ids: RowIds,
) -> Option<Seq<char>> {
    if !outputs.contains(row_kind(row)) {
        Some(
            "operator emitted a "@ + operator::kind_label(row_kind(row))
                + " row but declares outputs "@ + kind_list(outputs),
        )
    } else {
        match row {
            CallbackRow::TranscriptSpan(_) => if target.transcript_track is None {
                Some("video has no track for transcript spans"@)
            } else {
                None
            },
            CallbackRow::OcrSpan(o) => if ids.frame is None {
                Some(bad_id("frame_sample_id"@, o.frame_sample_id@))
            } else {
                None
            },
            CallbackRow::Shot(s) => segment_refusal(s, ids),
            CallbackRow::Scene(s) => segment_refusal(s, ids),
            CallbackRow::Chapter(s) => segment_refusal(s, ids),
            CallbackRow::Description(d) => if target_named(d.target_kind@) is None {
                Some(
                    "description target_kind must be 'segment' or 'frame', got '"@ + d.target_kind@
                        + "'"@,
                )
            } else if description_named(text::opt_text(d.description_kind)) is None {
                Some("unknown description kind '"@ + d.description_kind->0@ + "'"@)
            } else {
                None
            },
        }
    }
}

/// A time of a row as it is stored: one before the start of the video is its start.
pub open spec fn from_start(t: Timestamp) -> Timestamp {
    if t.num < 0 {
        Timestamp { num: 0, den: t.den }
    } else {
        t
    }
}

/// The end of a row from `t0` to `t1` as it is stored: no earlier than its start, as times go.
pub open spec fn end_after(t0: Timestamp, t1: Timestamp) -> Timestamp {
    if crate::timestamp::le_time(from_start(t0), from_start(t1)) {
        from_start(t1)
    } else {
        from_start(t0)
    }
}

/// A segment is made from a segment row.
pub open spec fn segment_from(
    out: Segment,
    level: SegmentLevel,
    target: RowTarget,
    prov: u128,
    s: CallbackSegment,
    ids: RowIds,
) -> bool {
    &&& out.id == ids.id
    &&& out.video_id == target.video
    &&& out.level == level
    &&& out.parent_id == (if s.parent_id is Some {
        ids.parent
    } else {
        None
    })
    &&& out.t0 == from_start(s.t0)
    &&& out.t1 == end_after(s.t0, s.t1)
    &&& out.keyframe_sample_id == (if s.keyframe_sample_id is Some {
        ids.frame
    } else {
        None
    })
    &&& out.title == s.title
    &&& out.summary == s.summary
    &&& out.provenance_id == prov
}

/// A row of the index is made from an operator's row.
pub open spec fn stored_from(
    out: StoredRow,
    target: RowTarget,
    prov: u128,
    row: CallbackRow,
    ids: RowIds,
) -> bool {
    match row {
        CallbackRow::TranscriptSpan(t) => out matches StoredRow::Span(Span::Transcript(s)) && {
            &&& s.id == ids.id
            &&& target.transcript_track == Some(s.track_id)
            &&& s.t0 == from_start(t.t0)
            &&& s.t1 == end_after(t.t0, t.t1)
            &&& s.text == t.text
            &&& s.speaker == t.speaker
            &&& s.language == t.language
            &&& s.confidence == t.confidence
            &&& s.words == t.words
            &&& s.provenance_id == prov
        },
        CallbackRow::OcrSpan(o) => out matches StoredRow::Span(Span::Ocr(s)) && {
            &&& s.id == ids.id
            &&& ids.frame == Some(s.frame_sample_id)
            &&& s.t == from_start(o.t)
            &&& s.text == o.text
            &&& s.bbox == o.bbox
            &&& s.confidence == o.confidence
            &&& s.provenance_id == prov
        },
        CallbackRow::Shot(s) => out matches StoredRow::Segment(g) && segment_from(
            g,
            SegmentLevel::Shot,
            target,
            prov,
            s,
            ids,
        ),
        CallbackRow::Scene(s) => out matches StoredRow::Segment(g) && segment_from(
            g,
            SegmentLevel::Scene,
            target,
            prov,
            s,
            ids,
        ),
        CallbackRow::Chapter(s) => out matches StoredRow::Segment(g) && segment_from(
            g,
            SegmentLevel::Chapter,
            target,
            prov,
            s,
            ids,
        ),
        CallbackRow::Description(d) => out matches StoredRow::Description(o) && {
            &&& o.id == ids.id
            &&& target_named(d.target_kind@) == Some(o.target_kind)
            &&& o.target_id == d.target_id
            &&& description_named(text::opt_text(d.description_kind)) == Some(o.kind)
            &&& o.text == d.text
            &&& o.structured == d.structured
            &&& o.provenance_id == prov
        },
    }
}

fn declared(outputs: &Vec<ItemKind>, kind: ItemKind) -> (b: bool)
    ensures
        b == outputs@.contains(kind),
{
    let mut i: usize = 0;
    while i < outputs.len()
        invariant
            i <= outputs@.len(),
            forall|j: int| 0 <= j < i ==> #[trigger] outputs@[j] != kind,
        decreases outputs@.len() - i,
    {
        if outputs[i] == kind {
            proof {
                assert(outputs@[i as int] == kind);
            }
            return true;
        }
        i = i + 1;
    }
    false
}

fn list_kinds(outputs: &Vec<ItemKind>) -> (r: String)
    ensures
        r@ == kind_list(outputs@),
{
    let ghost labels = outputs@.map_values(|k: ItemKind| operator::kind_label(k));
    let mut names: Vec<String> = Vec::new();
    let mut i: usize = 0;
    while i < outputs.len()
        invariant
            i <= outputs@.len(),
            labels == outputs@.map_values(|k: ItemKind| operator::kind_label(k)),
            text::strings_of(names@) == labels.take(i as int),
        decreases outputs@.len() - i,
    {
        let ghost before = text::strings_of(names@);
        names.push(outputs[i].label().to_owned());
        proof {
            assert(text::strings_of(names@) =~= before.push(labels[i as int]));
            assert(labels.take(i + 1) =~= labels.take(i as int).push(labels[i as int]));
        }
        i = i + 1;
    }
    proof {
        assert(labels.take(i as int) =~= labels);
    }
    let mut s = "[".to_owned();
    let inner = text::join_strings(&names, ", ");
    s.append(inner.as_str());
    s.append("]");
    s
}

fn invalid_id(what: &str, id: &str) -> (r: String)
    ensures
        r@ == bad_id(what@, id@),
{
    let mut m = what.to_owned();
    m.append(" '");
    m.append(id);
    m.append("' is not a valid id");
    m
}

fn clamped(t: Timestamp) -> (r: Timestamp)
    ensures
        r == from_start(t),
{
    if t.num < 0 {
        Timestamp { num: 0, den: t.den }
    } else {
        t
    }
}

fn end_of(t0: Timestamp, t1: Timestamp) -> (t: Timestamp)
    ensures
        t == end_after(t0, t1),
{
    let a = clamped(t0);
    let b = clamped(t1);
    if a.le(&b) {
        b
    } else {
        a
    }
}

fn make_segment(
    level: SegmentLevel,
    target: RowTarget,
    prov: u128,
    s: CallbackSegment,
    ids: RowIds,
) -> (r: Result<StoredRow, String>)
    ensures
        match r {
            Ok(out) => segment_refusal(s, ids) is None && (out matches StoredRow::Segment(g)
                && segment_from(g, level, target, prov, s, ids)),
            Err(m) => segment_refusal(s, ids) == Some(m@),
        },
{
    let keyframe_sample_id: Option<u128> = match &s.keyframe_sample_id {
        Some(k) => {
            if ids.frame.is_none() {
                return Err(invalid_id("keyframe_sample_id", k.as_str()));
            }
            ids.frame
        },
        None => None,
    };
    let parent_id: Option<u128> = match &s.parent_id {
        Some(p) => {
            if ids.parent.is_none() {
                return Err(invalid_id("parent_id", p.as_str()));
            }
            ids.parent
        },
        None => None,
    };
    Ok(
        StoredRow::Segment(
            Segment {
                id: ids.id,
                video_id: target.video,
                level,
                parent_id,
                t0: clamped(s.t0),
                t1: end_of(s.t0, s.t1),
                keyframe_sample_id,
                title: s.title,
                summary: s.summary,
                provenance_id: prov,
            },
        ),
    )
}

fn make_description(target: RowTarget, prov: u128, d: DescriptionRow, ids: RowIds) -> (r: Result<
    StoredRow,
    String,
>)
    ensures
        match r {
            Ok(out) => target_named(d.target_kind@) is Some && description_named(
                text::opt_text(d.description_kind),
            ) is Some && stored_from(out, target, prov, CallbackRow::Description(d), ids),
            Err(m) => if target_named(d.target_kind@) is None {
                m@ == "description target_kind must be 'segment' or 'frame', got '"@
                    + d.target_kind@ + "'"@
            } else {
                description_named(text::opt_text(d.description_kind)) is None && m@
                    == "unknown description kind '"@ + d.description_kind->0@ + "'"@
            },
        },
{
    let target_kind: TargetKind = if str_is(d.target_kind.as_str(), "segment") {
        TargetKind::Segment
    } else if str_is(d.target_kind.as_str(), "frame") {
        TargetKind::Frame
    } else {
        let mut m = "description target_kind must be 'segment' or 'frame', got '".to_owned();
        m.append(d.target_kind.as_str());
        m.append("'");
        return Err(m);
    };
    let kind: DescriptionKind = match &d.description_kind {
        None => DescriptionKind::Caption,
        Some(k) => {
            if str_is(k.as_str(), "caption") {
                DescriptionKind::Caption
            } else if str_is(k.as_str(), "summary") {
                DescriptionKind::Summary
            } else if str_is(k.as_str(), "qa") {
                DescriptionKind::Qa
            } else if str_is(k.as_str(), "structured") {
                DescriptionKind::Structured
            } else {
                let mut m = "unknown description kind '".to_owned();
                m.append(k.as_str());
                m.append("'");
                return Err(m);
            }
        },
    };
    Ok(
        StoredRow::Description(
            Description {
                id: ids.id,
                target_kind,
                target_id: d.target_id,
                kind,
                text: d.text,
                structured: d.structured,
                provenance_id: prov,
            },
        ),
    )
}

/// Turns one row into a row of the index, or says why it is refused.
pub fn store_row(
    target: RowTarget,
    prov: u128,
    outputs: &Vec<ItemKind>,
    row: CallbackRow,
    ids: RowIds,
) -> (r: Result<StoredRow, String>)
    ensures
        match r {
            Ok(out) => refusal(target, outputs@, row, ids) is None && stored_from(
                out,
                target,
                prov,
                row,
                ids,
            ),
            Err(m) => refusal(target, outputs@, row, ids) == Some(m@),
        },
{
    let kind = row.kind();
    if !declared(outputs, kind) {
        let mut m = "operator emitted a ".to_owned();
        m.append(kind.label());
        m.append(" row but declares outputs ");
        let l = list_kinds(outputs);
        m.append(l.as_str());
        return Err(m);
    }
    match row {
        CallbackRow::TranscriptSpan(t) => match target.transcript_track {
            Some(track_id) => Ok(
                StoredRow::Span(
                    Span::Transcript(
                        TranscriptSpan {
                            id: ids.id,
                            track_id,
                            t0: clamped(t.t0),
                            t1: end_of(t.t0, t.t1),
                            text: t.text,
                            speaker: t.speaker,
                            language: t.language,
                            confidence: t.confidence,
                            words: t.words,
                            provenance_id: prov,
                        },
                    ),
                ),
            ),
            None => Err("video has no track for transcript spans".to_owned()),
        },
        CallbackRow::OcrSpan(o) => match ids.frame {
            Some(frame_sample_id) => Ok(
                StoredRow::Span(
                    Span::Ocr(
                        OcrSpan {
                            id: ids.id,
                            frame_sample_id,
                            t: clamped(o.t),
                            text: o.text,
                            bbox: o.bbox,
                            confidence: o.confidence,
                            provenance_id: prov,
                        },
                    ),
                ),
            ),
            None => Err(invalid_id("frame_sample_id", o.frame_sample_id.as_str())),
        },
        CallbackRow::Shot(s) => make_segment(SegmentLevel::Shot, target, prov, s, ids),
        CallbackRow::Scene(s) => make_segment(SegmentLevel::Scene, target, prov, s, ids),
        CallbackRow::Chapter(s) => make_segment(SegmentLevel::Chapter, target, prov, s, ids),
        CallbackRow::Description(d) => make_description(target, prov, d, ids),
    }
}

/// Turns the rows that an operator produced into rows of the index, in order. The first row that
/// is refused fails the whole, and nothing of it is stored or passed on.
pub fn store_rows(
    target: RowTarget,
    prov: u128,
    outputs: &Vec<ItemKind>,
    rows: Vec<CallbackRow>,
    ids: &Vec<RowIds>,
) -> (r: Result<Vec<StoredRow>, String>)
    requires
        ids@.len() >= rows@.len(),
    ensures
        match r {
            Ok(out) => {
                &&& out@.len() == rows@.len()
                &&& forall|i: int|
                    0 <= i < rows@.len() ==> refusal(target, outputs@, rows@[i], ids@[i]) is None
                        && stored_from(#[trigger] out@[i], target, prov, rows@[i], ids@[i])
            },
            Err(m) => exists|k: int|
                0 <= k < rows@.len() && #[trigger] refusal(target, outputs@, rows@[k], ids@[k])
                    == Some(m@) && forall|j: int|
                    0 <= j < k ==> refusal(target, outputs@, #[trigger] rows@[j], ids@[j]) is None,
        },
{
    let mut out: Vec<StoredRow> = Vec::new();
    let ghost all = rows@;
    for row in it: rows
        invariant
            it.seq() == all,
            ids@.len() >= all.len(),
            out@.len() == it.index(),
            forall|j: int|
                0 <= j < it.index() ==> refusal(target, outputs@, #[trigger] all[j], ids@[j])
                    is None,
            forall|i: int|
                0 <= i < it.index() ==> stored_from(
                    #[trigger] out@[i],
                    target,
                    prov,
                    all[i],
                    ids@[i],
                ),
    {
        let k: usize = out.len();
        match store_row(target, prov, outputs, row, ids[k]) {
            Ok(s) => out.push(s),
            Err(m) => {
                proof {
                    assert(refusal(target, outputs@, all[k as int], ids@[k as int]) == Some(m@));
                }
                return Err(m);
            },
        }
    }
    Ok(out)
}

/// A value with its timestamps flattened to seconds.
#[derive(Debug)]
pub enum Flat {
    /// `null`.
    Null,
    /// A truth value.
    Bool(bool),
    /// A number.
    Num(Number),
    /// A number of seconds, as a fraction.
    Secs(i64, u64),
    /// A string.
    Str(String),
    /// An array.
    Arr(Vec<Flat>),
    /// An object.
    Obj(Vec<(String, Flat)>),
}

/// The fraction that an object with just a numerator and a denominator stands for.
pub open spec fn fraction(v: JsonView) -> Option<(int, int)> {
    match v {
        JsonView::Obj(m) => if m.len() == 2 {
            match (v.get_num("num"@), v.get_num("den"@)) {
                (Some((n, _)), Some((d, _))) => match (text::int_value(n), text::unsigned(
                    d,
                    u64::MAX as int,
                )) {
                    (Some(a), Some(b)) => if i64::MIN <= a <= i64::MAX && b > 0 {
                        Some((a, b))
                    } else {
                        None
                    },
                    _ => None,
                },
                _ => None,
            }
        } else {
            None
        },
        _ => None,
    }
}

/// A value is another with every timestamp object, however deep, replaced by seconds.
pub open spec fn flattens(f: Flat, v: JsonView) -> bool
    decreases v,
{
    match fraction(v) {
        Some((a, b)) => f matches Flat::Secs(n, d) && n == a && d == b,
        None => match v {
            JsonView::Null => f is Null,
            JsonView::Bool(b) => f == Flat::Bool(b),
            JsonView::Num(t, n) => f matches Flat::Num(x) && x.parts() == (t, n),
            JsonView::Str(s) => f matches Flat::Str(t) && t@ == s,
            JsonView::Arr(a) => f matches Flat::Arr(b) && b@.len() == a.len() && forall|i: int|
                0 <= i < a.len() ==> flattens(#[trigger] b@[i], a[i]),
            JsonView::Obj(m) => f matches Flat::Obj(b) && b@.len() == m.len() && forall|i: int|
                0 <= i < m.len() ==> (#[trigger] b@[i]).0@ == m[i].0 && flattens(b@[i].1, m[i].1),
        },
    }
}

fn fraction_of(v: &Json) -> (r: Option<(i64, u64)>)
    ensures
        match r {
            Some((a, b)) => fraction(v@) == Some((a as int, b as int)),
            None => fraction(v@) is None,
        },
{
    match v {
        Json::Obj(m) => {
            if m.len() != 2 {
                return None;
            }
        },
        _ => {
            return None;
        },
    }
    match (v.get_num("num"), v.get_num("den")) {
        (Some(n), Some(d)) => {
            let nc = text::chars_of(n.text.as_str());
            let dc = text::chars_of(d.text.as_str());
            match (
                text::parse_i64(nc.as_slice()),
                text::parse_unsigned(dc.as_slice(), 0xffff_ffff_ffff_ffff),
            ) {
                (Some(a), Some(b)) => {
                    if b > 0 {
                        Some((a, b))
                    } else {
                        None
                    }
                },
                _ => None,
            }
        },
        _ => None,
    }
}

/// Replaces `{"num": .., "den": ..}` objects by seconds, recursively.
pub fn flatten_timestamps(v: &Json) -> (f: Flat)
    ensures
        flattens(f, v@),
    decreases v,
{
    match fraction_of(v) {
        Some((a, b)) => {
            return Flat::Secs(a, b);
        },
        None => {},
    }
    match v {
        Json::Null => Flat::Null,
        Json::Bool(b) => Flat::Bool(*b),
        Json::Num(n) => Flat::Num(Number { text: n.text.clone() }),
        Json::Str(s) => Flat::Str(s.clone()),
        Json::Arr(a) => {
            let ghost av = v@->Arr_0;
            let mut out: Vec<Flat> = Vec::new();
            let mut i: usize = 0;
            while i < a.len()
                invariant
                    i <= a@.len(),
                    *v == Json::Arr(*a),
                    av.len() == a@.len(),
                    forall|k: int| 0 <= k < a@.len() ==> #[trigger] av[k] == a@[k]@,
                    out@.len() == i,
                    forall|k: int| 0 <= k < i ==> flattens(#[trigger] out@[k], av[k]),
                decreases a@.len() - i,
            {
                proof {
                    assert(decreases_to!(*v => (*v)->Arr_0));
                    assert(decreases_to!(*a => a@));
                    assert(decreases_to!(a@ => a@[i as int]));
                    assert(av[i as int] == a@[i as int]@);
                }
                out.push(flatten_timestamps(&a[i]));
                i = i + 1;
            }
            Flat::Arr(out)
        },
        Json::Obj(m) => {
            let ghost mv = v@->Obj_0;
            let mut out: Vec<(String, Flat)> = Vec::new();
            let mut i: usize = 0;
            while i < m.len()
                invariant
                    i <= m@.len(),
                    *v == Json::Obj(*m),
                    mv.len() == m@.len(),
                    forall|k: int|
                        0 <= k < m@.len() ==> #[trigger] mv[k] == (m@[k].0@, m@[k].1@),
                    out@.len() == i,
                    forall|k: int|
                        0 <= k < i ==> (#[trigger] out@[k]).0@ == mv[k].0 && flattens(
                            out@[k].1,
                            mv[k].1,
                        ),
                decreases m@.len() - i,
            {
                proof {
                    assert(decreases_to!(*v => (*v)->Obj_0));
                    assert(decreases_to!(*m => m@));
                    assert(decreases_to!(m@ => m@[i as int]));
                    assert(decreases_to!(m@[i as int] => m@[i as int].1));
                    assert(mv[i as int] == (m@[i as int].0@, m@[i as int].1@));
                }
                out.push((m[i].0.clone(), flatten_timestamps(&m[i].1)));
                i = i + 1;
            }
            Flat::Obj(out)
        },
    }
}

/// What is stored starts no sooner than the video and ends no sooner than it starts; times that are
/// so already stay.
pub proof fn law_rows_are_put_in_order(t0: Timestamp, t1: Timestamp)
    requires
        t0.wf(),
        t1.wf(),
    ensures
        from_start(t0).num >= 0 && from_start(t0).wf(),
        t0.num >= 0 ==> from_start(t0) == t0,
        t0.num < 0 ==> from_start(t0).num == 0,
        crate::timestamp::le_time(from_start(t0), end_after(t0, t1)),
        0 <= t0.num && crate::timestamp::le_time(t0, t1) && t1.num >= 0 ==> end_after(t0, t1) == t1,
{
    crate::timestamp::law_time_total_preorder(from_start(t0), from_start(t1), from_start(t0));
}

/// A row is refused if its operator does not declare its kind; one that is declared is taken, but
/// for transcripts without a track, ids that are none, and descriptions of something unknown.
pub proof fn law_declared_rows_are_taken(
    target: RowTarget,
    outputs: Seq<ItemKind>,
    row: CallbackRow,
    ids: RowIds,
)
    ensures
        !outputs.contains(row_kind(row)) ==> refusal(target, outputs, row, ids) is Some,
        outputs.contains(row_kind(row)) && row is TranscriptSpan ==> (refusal(
            target,
            outputs,
            row,
            ids,
        ) is None <==> target.transcript_track is Some),
        outputs.contains(row_kind(row)) && row is OcrSpan ==> (refusal(
            target,
            outputs,
            row,
            ids,
        ) is None <==> ids.frame is Some),
        outputs.contains(row_kind(row)) && (row matches CallbackRow::Shot(s)
            && s.keyframe_sample_id is None && s.parent_id is None) ==> refusal(
            target,
            outputs,
            row,
            ids,
        ) is None,
        outputs.contains(row_kind(row)) && (row matches CallbackRow::Scene(s) && s.parent_id is Some
            && ids.parent is None) ==> refusal(target, outputs, row, ids) is Some,
        outputs.contains(row_kind(row)) && (row matches CallbackRow::Chapter(s)
            && s.keyframe_sample_id is Some && ids.frame is None) ==> refusal(
            target,
            outputs,
            row,
            ids,
        ) is Some,
        outputs.contains(row_kind(row)) && (row matches CallbackRow::Description(d)
            && d.target_kind@ == "frame"@ && d.description_kind is None) ==> refusal(
            target,
            outputs,
            row,
            ids,
        ) is None,
{
}

/// The track that rows go to is one, and the first of its kind in the container.
pub proof fn law_lowest_tracks_are_unique(tracks: Seq<Track>, kind: TrackKind, i: int, j: int)
    requires
        lowest_track(tracks, kind, i),
    ensures
        lowest_track(tracks, kind, j) ==> i == j,
        0 <= j < tracks.len() && tracks[j].kind == kind ==> tracks[i].stream_index
            <= tracks[j].stream_index,
        !without_kind(tracks, kind),
{
}

/// A field that is null is as good as none.
pub proof fn law_null_fields_are_absent(v: JsonView, w: JsonView, k: Seq<char>)
    requires
        v.get(k) is None,
        w.get(k) == Some(JsonView::Null),
    ensures
        row_text(v, k) == row_text(w, k),
        row_number(v, k) == row_number(w, k),
        row_value(v, k) == row_value(w, k),
        row_box(v, k) == row_box(w, k),
        row_text(v, k) == Ok::<Option<Seq<char>>, ()>(None),
{
}

/// Rows start no sooner than the media and end no sooner than they start; times that are in order
/// are kept.
pub proof fn law_rows_have_times_in_order(t0: Timestamp, t1: Timestamp)
    requires
        t0.wf(),
        t1.wf(),
    ensures
        from_start(t0).num >= 0,
        crate::timestamp::le_time(from_start(t0), end_after(t0, t1)),
        t0.num >= 0 ==> from_start(t0) == t0,
        t0.num >= 0 && t1.num >= 0 && crate::timestamp::le_time(t0, t1) ==> end_after(t0, t1) == t1,
        t1.num >= 0 && crate::timestamp::le_time(t1, t0) && t0.num >= 0 ==> crate::timestamp::le_time(
            end_after(t0, t1),
            t0,
        ),
{
    crate::timestamp::law_time_total_preorder(from_start(t0), from_start(t1), from_start(t0));
    crate::timestamp::law_time_total_preorder(t0, t1, t0);
    crate::timestamp::law_time_total_preorder(t0, t0, t0);
}

} // verus!
