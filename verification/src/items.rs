//! Items as plain values for operators that live outside of this program: objects with a `kind`,
//! without pixels or samples, and with times in seconds.

use vstd::prelude::*;

use crate::callback::{self, flatten_timestamps, Flat};
use crate::json::{self, Json, JsonView, Number};
use crate::operator::{self, ItemKind};
use crate::text::{self, chars_of, decimal_string, lex_less, str_is};
use crate::timestamp::Timestamp;

verus! {

/// What flows between operators, as far as it is shown outside. Stored rows come as the object
/// that stands for them.
#[derive(Debug)]
pub enum Item {
    /// The acquired and probed video.
    Media {
        /// Row.
        video: Json,
        /// Rows.
        tracks: Json,
        /// Media file.
        path: String,
        /// Duration.
        duration: Timestamp,
        /// Samples to expect.
        expected_samples: u64,
        /// Id of the video track.
        video_track_id: Option<String>,
        /// Id of the audio track.
        audio_track_id: Option<String>,
    },
    /// A sampled frame.
    Frame {
        /// Row.
        row: Json,
        /// Time.
        t: Timestamp,
        /// Width.
        width: u32,
        /// Height.
        height: u32,
    },
    /// A frame with its hash.
    Hashed {
        /// Id of the sample.
        sample: String,
        /// Hash.
        phash: u64,
        /// Time.
        t: Timestamp,
        /// Width.
        width: u32,
        /// Height.
        height: u32,
    },
    /// A thumbnail.
    Thumbnail {
        /// Id of the sample.
        sample: String,
        /// Key of the blob.
        blob: Json,
    },
    /// A stretch of speech.
    SpeechRange {
        /// Start.
        t0: Timestamp,
        /// End.
        t1: Timestamp,
        /// Sample rate.
        sample_rate: u32,
        /// Place among the stretches.
        index: u64,
    },
    /// A stored row of the given kind.
    Row(ItemKind, Json),
}

impl Item {
    /// The kind of an item.
    pub open spec fn spec_kind(self) -> ItemKind {
        match self {
            Item::Media { .. } => ItemKind::Media,
            Item::Frame { .. } => ItemKind::Frame,
            Item::Hashed { .. } => ItemKind::Hashed,
            Item::Thumbnail { .. } => ItemKind::Thumbnail,
            Item::SpeechRange { .. } => ItemKind::SpeechRange,
            Item::Row(k, _) => k,
        }
    }

    /// The kind of an item.
    pub fn kind(&self) -> (k: ItemKind)
        ensures
            k == self.spec_kind(),
    {
        match self {
            Item::Media { .. } => ItemKind::Media,
            Item::Frame { .. } => ItemKind::Frame,
            Item::Hashed { .. } => ItemKind::Hashed,
            Item::Thumbnail { .. } => ItemKind::Thumbnail,
            Item::SpeechRange { .. } => ItemKind::SpeechRange,
            Item::Row(k, _) => *k,
        }
    }
}

/// Fields as mathematics.
pub open spec fn field_views(m: Seq<(String, Json)>) -> Seq<(Seq<char>, JsonView)> {
    m.map_values(|f: (String, Json)| (f.0@, f.1@))
}

fn object(m: Vec<(String, Json)>) -> (j: Json)
    ensures
        j@ == JsonView::Obj(field_views(m@)),
{
    let j = Json::Obj(m);
    proof {
        assert(j@->Obj_0 =~= field_views(m@));
    }
    j
}

/// A whole number as JSON.
pub open spec fn whole(n: int) -> JsonView {
    let t = if n < 0 {
        seq!['-'] + text::decimal((-n) as nat)
    } else {
        text::decimal(n as nat)
    };
    JsonView::Num(t, json::nanos_of(t))
}

fn whole_of(n: u64) -> (j: Json)
    ensures
        j@ == whole(n as int),
{
    Json::Num(Number { text: decimal_string(n) })
}

fn signed_of(n: i64) -> (j: Json)
    ensures
        j@ == whole(n as int),
{
    if n >= 0 {
        return whole_of(n as u64);
    }
    let size: u64 = (-(n as i128)) as u64;
    let mut t = "-".to_owned();
    t.append(decimal_string(size).as_str());
    proof {
        reveal_strlit("-");
        assert("-"@ =~= seq!['-']);
    }
    Json::Num(Number { text: t })
}

/// A time as JSON: a numerator and a denominator.
pub open spec fn time_view(t: Timestamp) -> JsonView {
    JsonView::Obj(seq![("den"@, whole(t.den as int)), ("num"@, whole(t.num as int))])
}

fn field(k: &str, v: Json) -> (f: (String, Json))
    ensures
        f.0@ == k@,
        f.1 == v,
{
    (k.to_owned(), v)
}

fn time_of(t: Timestamp) -> (j: Json)
    ensures
        j@ == time_view(t),
{
    let mut m: Vec<(String, Json)> = Vec::new();
    m.push(field("den", whole_of(t.den as u64)));
    m.push(field("num", signed_of(t.num)));
    proof {
        assert(field_views(m@) =~= seq![
            ("den"@, whole(t.den as int)),
            ("num"@, whole(t.num as int)),
        ]);
    }
    object(m)
}

/// An id as JSON, or nothing.
pub open spec fn id_view(id: Option<String>) -> JsonView {
    match id {
        Some(s) => JsonView::Str(s@),
        None => JsonView::Null,
    }
}

fn id_of(id: Option<String>) -> (j: Json)
    ensures
        j@ == id_view(id),
{
    match id {
        Some(s) => Json::Str(s),
        None => Json::Null,
    }
}

/// Where a key belongs in fields that are in the order of their keys, from place `i` on.
pub open spec fn place_for(m: Seq<(Seq<char>, JsonView)>, k: Seq<char>, i: int) -> int
    decreases m.len() - i,
{
    if i < 0 || i >= m.len() || text::lex_lt(k, m[i].0) {
        i
    } else {
        place_for(m, k, i + 1)
    }
}

/// Fields with one put in: in place of one with the same key, or else where its key belongs.
pub open spec fn with_field(
    m: Seq<(Seq<char>, JsonView)>,
    k: Seq<char>,
    v: JsonView,
) -> Seq<(Seq<char>, JsonView)> {
    match json::key_from(m, k, 0) {
        Some(i) => m.update(i, (k, v)),
        None => m.insert(place_for(m, k, 0), (k, v)),
    }
}

proof fn lemma_place(m: Seq<(Seq<char>, JsonView)>, k: Seq<char>, i: int)
    requires
        0 <= i <= m.len(),
    ensures
        i <= place_for(m, k, i) <= m.len(),
    decreases m.len() - i,
{
    if i < m.len() && !text::lex_lt(k, m[i].0) {
        lemma_place(m, k, i + 1);
    }
}

fn put_field(m: Vec<(String, Json)>, k: &str, v: Json) -> (r: Vec<(String, Json)>)
    ensures
        field_views(r@) == with_field(field_views(m@), k@, v@),
{
    let mut out: Vec<(String, Json)> = m;
    let ghost start = field_views(out@);
    let n: usize = out.len();
    let mut i: usize = 0;
    while i < n
        invariant
            i <= n == out@.len(),
            start == field_views(out@),
            start == field_views(m@),
            json::key_from(start, k@, 0) == json::key_from(start, k@, i as int),
        decreases n - i,
    {
        proof {
            assert(start[i as int].0 == out@[i as int].0@);
        }
        if str_is(out[i].0.as_str(), k) {
            let ghost vv = v@;
            out.set(i, (k.to_owned(), v));
            proof {
                assert(field_views(out@) =~= start.update(i as int, (k@, vv)));
            }
            return out;
        }
        i = i + 1;
    }
    let key = chars_of(k);
    let mut p: usize = 0;
    while p < n
        invariant_except_break
            p <= n == out@.len(),
            key@ == k@,
            start == field_views(out@),
            place_for(start, k@, 0) == place_for(start, k@, p as int),
        ensures
            p <= n == out@.len(),
            start == field_views(out@),
            p == place_for(start, k@, 0),
        decreases n - p,
    {
        proof {
            assert(start[p as int].0 == out@[p as int].0@);
        }
        let c = chars_of(out[p].0.as_str());
        if lex_less(key.as_slice(), c.as_slice()) {
            break;
        }
        p = p + 1;
    }
    let ghost vv = v@;
    out.insert(p, (k.to_owned(), v));
    proof {
        assert(field_views(out@) =~= start.insert(p as int, (k@, vv)));
    }
    out
}

/// The fields of an item, in the order of their keys; none for a row that is no object.
pub open spec fn item_fields(item: Item) -> Option<Seq<(Seq<char>, JsonView)>> {
    match item {
        Item::Media {
            video,
            tracks,
            path,
            duration,
            expected_samples,
            video_track_id,
            audio_track_id,
        } => Some(
            seq![
                ("audio_track_id"@, id_view(audio_track_id)),
                ("duration_secs"@, time_view(duration)),
                ("expected_samples"@, whole(expected_samples as int)),
                ("path"@, JsonView::Str(path@)),
                ("tracks"@, tracks@),
                ("video"@, video@),
                ("video_track_id"@, id_view(video_track_id)),
            ],
        ),
        Item::Frame { row, t, width, height } => Some(
            seq![
                ("height"@, whole(height as int)),
                ("sample"@, row@),
                ("t"@, time_view(t)),
                ("width"@, whole(width as int)),
            ],
        ),
        Item::Hashed { sample, phash, t, width, height } => Some(
            seq![
                ("height"@, whole(height as int)),
                ("phash"@, whole(phash as int)),
                ("sample_id"@, JsonView::Str(sample@)),
                ("t"@, time_view(t)),
                ("width"@, whole(width as int)),
            ],
        ),
        Item::Thumbnail { sample, blob } => Some(
            seq![("blob"@, blob@), ("sample_id"@, JsonView::Str(sample@))],
        ),
        Item::SpeechRange { t0, t1, sample_rate, index } => Some(
            seq![
                ("index"@, whole(index as int)),
                ("sample_rate"@, whole(sample_rate as int)),
                ("t0"@, time_view(t0)),
                ("t1"@, time_view(t1)),
            ],
        ),
        Item::Row(_, v) => match v@ {
            JsonView::Obj(m) => Some(m),
            _ => None,
        },
    }
}

/// The object that stands for an item: its fields and its kind.
pub open spec fn item_view(item: Item) -> JsonView {
    match item_fields(item) {
        Some(m) => JsonView::Obj(
            with_field(m, "kind"@, JsonView::Str(operator::kind_name(item.spec_kind()))),
        ),
        None => JsonView::Null,
    }
}

fn fields_of(item: Item) -> (r: Option<Vec<(String, Json)>>)
    ensures
        match r {
            Some(m) => item_fields(item) == Some(field_views(m@)),
            None => item_fields(item) is None,
        },
{
    let mut m: Vec<(String, Json)> = Vec::new();
    match item {
        Item::Media {
            video,
            tracks,
            path,
            duration,
            expected_samples,
            video_track_id,
            audio_track_id,
        } => {
            m.push(field("audio_track_id", id_of(audio_track_id)));
            m.push(field("duration_secs", time_of(duration)));
            m.push(field("expected_samples", whole_of(expected_samples)));
            m.push(field("path", Json::Str(path)));
            m.push(field("tracks", tracks));
            m.push(field("video", video));
            m.push(field("video_track_id", id_of(video_track_id)));
        },
        Item::Frame { row, t, width, height } => {
            m.push(field("height", whole_of(height as u64)));
            m.push(field("sample", row));
            m.push(field("t", time_of(t)));
            m.push(field("width", whole_of(width as u64)));
        },
        Item::Hashed { sample, phash, t, width, height } => {
            m.push(field("height", whole_of(height as u64)));
            m.push(field("phash", whole_of(phash)));
            m.push(field("sample_id", Json::Str(sample)));
            m.push(field("t", time_of(t)));
            m.push(field("width", whole_of(width as u64)));
        },
        Item::Thumbnail { sample, blob } => {
            m.push(field("blob", blob));
            m.push(field("sample_id", Json::Str(sample)));
        },
        Item::SpeechRange { t0, t1, sample_rate, index } => {
            m.push(field("index", whole_of(index)));
            m.push(field("sample_rate", whole_of(sample_rate as u64)));
            m.push(field("t0", time_of(t0)));
            m.push(field("t1", time_of(t1)));
        },
        Item::Row(_, v) => {
            match v {
                Json::Obj(fields) => {
                    proof {
                        assert(v@->Obj_0 =~= field_views(fields@));
                    }
                    m = fields;
                },
                _ => {
                    return None;
                },
            }
        },
    }
    proof {
        assert(item_fields(item)->Some_0 =~= field_views(m@));
    }
    Some(m)
}

/// An item as a plain object, without pixels or samples. Every object has `kind`, and times are
/// seconds.
pub fn item_to_json(item: Item) -> (f: Flat)
    ensures
        callback::flattens(f, item_view(item)),
{
    let kind = item.kind();
    match fields_of(item) {
        Some(m) => {
            let name = kind.name();
            let all = put_field(m, "kind", Json::Str(name.to_owned()));
            let j = object(all);
            flatten_timestamps(&j)
        },
        None => Flat::Null,
    }
}

/// Every object has its kind.
pub proof fn law_items_have_their_kind(item: Item)
    requires
        item_fields(item) is Some,
    ensures
        item_view(item).get("kind"@) == Some(
            JsonView::Str(operator::kind_name(item.spec_kind())),
        ),
{
    let m = item_fields(item)->Some_0;
    let v = JsonView::Str(operator::kind_name(item.spec_kind()));
    let r = with_field(m, "kind"@, v);
    match json::key_from(m, "kind"@, 0) {
        Some(i) => {
            lemma_key_from(m, "kind"@, 0);
            lemma_key_here(r, "kind"@, 0, i);
        },
        None => {
            lemma_place(m, "kind"@, 0);
            lemma_key_from(m, "kind"@, 0);
            lemma_key_here(r, "kind"@, 0, place_for(m, "kind"@, 0));
        },
    }
}

proof fn lemma_key_from(m: Seq<(Seq<char>, JsonView)>, k: Seq<char>, i: int)
    requires
        0 <= i <= m.len(),
    ensures
        match json::key_from(m, k, i) {
            Some(p) => i <= p < m.len() && m[p].0 == k && forall|j: int|
                i <= j < p ==> (#[trigger] m[j]).0 != k,
            None => forall|j: int| i <= j < m.len() ==> (#[trigger] m[j]).0 != k,
        },
    decreases m.len() - i,
{
    if i < m.len() && m[i].0 != k {
        lemma_key_from(m, k, i + 1);
    }
}

proof fn lemma_key_here(m: Seq<(Seq<char>, JsonView)>, k: Seq<char>, i: int, p: int)
    requires
        0 <= i <= p < m.len(),
        m[p].0 == k,
        forall|j: int| i <= j < p ==> (#[trigger] m[j]).0 != k,
    ensures
        json::key_from(m, k, i) == Some(p),
    decreases p - i,
{
    if i < p {
        lemma_key_here(m, k, i + 1, p);
    }
}

} // verus!
