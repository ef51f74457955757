//! What downloaders write next to a media file: the `.info.json` with its
//! metadata, and subtitle files.

use vstd::prelude::*;

use crate::json;
use crate::json::{Json, JsonView};
use crate::path;
use crate::sidecar;
use crate::sidecar::{SubtitleFile, SubtitleFormat};
use crate::text;
use crate::timestamp::Timestamp;

verus! {

/// A chapter that the source declares.
#[derive(Debug)]
pub struct SidecarChapter {
    /// Start.
    pub t0: Timestamp,
    /// End.
    pub t1: Timestamp,
    /// Title.
    pub title: Option<String>,
}

/// The fields read from an `.info.json`.
#[derive(Debug)]
pub struct InfoJson {
    /// Path of the file.
    pub path: String,
    /// Site id.
    pub id: Option<String>,
    /// Title.
    pub title: Option<String>,
    /// Description.
    pub description: Option<String>,
    /// Channel or uploader name.
    pub channel: Option<String>,
    /// Canonical page URL.
    pub webpage_url: Option<String>,
    /// Upload date, in seconds since 1970.
    pub upload_date: Option<i64>,
    /// Duration in seconds as reported by the site, as a number's text.
    pub duration_secs: Option<String>,
    /// Original language, when the site reports it.
    pub language: Option<String>,
    /// Chapters.
    pub chapters: Vec<SidecarChapter>,
    /// Languages for which human-authored subtitles exist.
    pub subtitle_languages: Vec<String>,
    /// Languages for which only automatic captions exist.
    pub auto_caption_languages: Vec<String>,
    /// Playlist id and index when downloaded as part of one.
    pub playlist: Option<(String, u64)>,
    /// Tags.
    pub tags: Vec<String>,
}

/// The start of the day that a text stands for in a date format, in seconds since 1970.
pub uninterp spec fn date_seconds(s: Seq<char>, format: Seq<char>) -> Option<i64>;

/// Reads a date with `chrono::NaiveDate::parse_from_str` and gives the start of that day in UTC.
///
/// Claimed of it: the result depends on the text and the format alone. The format language is not
/// described.
#[verifier::external_body]
fn parse_date(s: &str, format: &str) -> (r: Option<i64>)
    ensures
        r == date_seconds(s@, format@),
{
    chrono::NaiveDate::parse_from_str(s, format).ok().and_then(|d| d.and_hms_opt(0, 0, 0)).map(
        |t| t.and_utc().timestamp(),
    )
}

/// The calendar of dates reaches this point in time, given in seconds since 1970: the years
/// -262143 to 262142.
pub open spec fn in_calendar(secs: int) -> bool {
    -8_334_601_228_800 <= secs <= 8_210_266_876_799
}

/// Makes a date from seconds since 1970 with `chrono::DateTime::from_timestamp` and gives its
/// seconds back.
///
/// Claimed of it: it succeeds for the points in time that the calendar reaches, and keeps them.
#[verifier::external_body]
fn checked_timestamp(secs: i64) -> (r: Option<i64>)
    ensures
        r == (if in_calendar(secs as int) {
            Some(secs)
        } else {
            None
        }),
{
    chrono::DateTime::from_timestamp(secs, 0).map(|d| d.timestamp())
}

/// The upload date: the `upload_date` if it is a date (`date` says what it stands for), else the
/// `timestamp`.
pub open spec fn upload_date(date: Option<i64>, v: JsonView) -> Option<i64> {
    match date {
        Some(d) => Some(d),
        None => match v.get_num("timestamp"@) {
            Some((t, _)) => match text::int_value(t) {
                Some(n) => if in_calendar(n) {
                    Some(n as i64)
                } else {
                    None
                },
                None => None,
            },
            None => None,
        },
    }
}

/// What the `upload_date` field stands for.
pub open spec fn stated_date(v: JsonView) -> Option<i64> {
    match v.get_str("upload_date"@) {
        Some(d) => date_seconds(d, "%Y%m%d"@),
        None => None,
    }
}

/// The chapter that a value describes: it must have both times, the end after the start.
pub open spec fn chapter_of(c: JsonView) -> Option<(Timestamp, Timestamp, Option<Seq<char>>)> {
    match (c.get_num("start_time"@), c.get_num("end_time"@)) {
        (Some(a), Some(b)) => {
            let t0 = json::signed_nanos(a.0, a.1);
            let t1 = json::signed_nanos(b.0, b.1);
            if t1 > t0 {
                Some(
                    (
                        Timestamp { num: json::signed_ticks(t0, 1_000_000) as i64, den: 1000 },
                        Timestamp { num: json::signed_ticks(t1, 1_000_000) as i64, den: 1000 },
                        c.get_str("title"@),
                    ),
                )
            } else {
                None
            }
        },
        _ => None,
    }
}

/// The chapters that a list describes.
pub open spec fn chapters_of(cs: Seq<JsonView>) -> Seq<
    (Timestamp, Timestamp, Option<Seq<char>>),
>
    decreases cs.len(),
{
    if cs.len() == 0 {
        Seq::empty()
    } else {
        let rest = chapters_of(cs.drop_last());
        match chapter_of(cs.last()) {
            Some(c) => rest.push(c),
            None => rest,
        }
    }
}

/// Chapters as mathematics.
pub open spec fn chapter_views(cs: Seq<SidecarChapter>) -> Seq<
    (Timestamp, Timestamp, Option<Seq<char>>),
> {
    cs.map_values(|c: SidecarChapter| (c.t0, c.t1, text::opt_text(c.title)))
}

/// The keys of the object under a key.
pub open spec fn keys_under(v: JsonView, k: Seq<char>) -> Seq<Seq<char>> {
    match v.get(k) {
        Some(JsonView::Obj(m)) => m.map_values(|f: (Seq<char>, JsonView)| f.0),
        _ => Seq::empty(),
    }
}

/// The strings of a list.
pub open spec fn strings_in(a: Seq<JsonView>) -> Seq<Seq<char>>
    decreases a.len(),
{
    if a.len() == 0 {
        Seq::empty()
    } else {
        let rest = strings_in(a.drop_last());
        match a.last() {
            JsonView::Str(s) => rest.push(s),
            _ => rest,
        }
    }
}

/// The string under one key, or else under another.
pub open spec fn either_str(v: JsonView, a: Seq<char>, b: Seq<char>) -> Option<Seq<char>> {
    match v.get_str(a) {
        Some(s) => Some(s),
        None => v.get_str(b),
    }
}

/// The playlist: its id, and the place in it as a number without sign.
pub open spec fn playlist_of(v: JsonView) -> Option<(Seq<char>, int)> {
    match (v.get_str("playlist_id"@), v.get_num("playlist_index"@)) {
        (Some(id), Some((n, _))) => match text::unsigned(n, u64::MAX as int) {
            Some(i) => Some((id, i)),
            None => None,
        },
        _ => None,
    }
}

/// The fields say what a JSON value says; `date` is what its `upload_date` stands for.
pub open spec fn info_reads(i: InfoJson, p: Seq<char>, v: JsonView, date: Option<i64>) -> bool {
    &&& i.path@ == p
    &&& text::opt_text(i.id) == v.get_str("id"@)
    &&& text::opt_text(i.title) == v.get_str("title"@)
    &&& text::opt_text(i.description) == v.get_str("description"@)
    &&& text::opt_text(i.channel) == either_str(v, "channel"@, "uploader"@)
    &&& text::opt_text(i.webpage_url) == either_str(v, "webpage_url"@, "original_url"@)
    &&& i.upload_date == upload_date(date, v)
    &&& text::opt_text(i.duration_secs) == (match v.get_num("duration"@) {
        Some((t, _)) => Some(t),
        None => None,
    })
    &&& text::opt_text(i.language) == v.get_str("language"@)
    &&& chapter_views(i.chapters@) == chapters_of(v.get_array("chapters"@))
    &&& text::strings_of(i.subtitle_languages@) == keys_under(v, "subtitles"@)
    &&& text::strings_of(i.auto_caption_languages@) == keys_under(v, "automatic_captions"@)
    &&& playlist_of(v) == (match i.playlist {
        Some((id, n)) => Some((id@, n as int)),
        None => None,
    })
    &&& text::strings_of(i.tags@) == strings_in(v.get_array("tags"@))
}

fn string_under(v: &Json, k: &str) -> (r: Option<String>)
    ensures
        text::opt_text(r) == v@.get_str(k@),
{
    match v.get_str(k) {
        Some(s) => Some(s.clone()),
        None => None,
    }
}

fn string_under_either(v: &Json, a: &str, b: &str) -> (r: Option<String>)
    ensures
        text::opt_text(r) == either_str(v@, a@, b@),
{
    match string_under(v, a) {
        Some(s) => Some(s),
        None => string_under(v, b),
    }
}

fn read_chapter(c: &Json) -> (r: Option<SidecarChapter>)
    ensures
        match r {
            Some(x) => chapter_of(c@) == Some((x.t0, x.t1, text::opt_text(x.title))),
            None => chapter_of(c@) is None,
        },
{
    match (c.get_num("start_time"), c.get_num("end_time")) {
        (Some(a), Some(b)) => {
            if !b.after(a) {
                return None;
            }
            Some(
                SidecarChapter {
                    t0: Timestamp::new(a.signed_ticks(1_000_000), 1000),
                    t1: Timestamp::new(b.signed_ticks(1_000_000), 1000),
                    title: string_under(c, "title"),
                },
            )
        },
        _ => None,
    }
}

fn read_chapters(v: &Json) -> (r: Vec<SidecarChapter>)
    ensures
        chapter_views(r@) == chapters_of(v@.get_array("chapters"@)),
{
    let mut out: Vec<SidecarChapter> = Vec::new();
    proof {
        assert(chapter_views(out@) =~= chapters_of(Seq::<JsonView>::empty()));
    }
    match v.get_array("chapters") {
        Some(a) => {
            let ghost all = json::json_views(a@);
            let mut i: usize = 0;
            proof {
                assert(all.take(0) =~= Seq::<JsonView>::empty());
            }
            while i < a.len()
                invariant
                    i <= a@.len(),
                    all == json::json_views(a@),
                    chapter_views(out@) == chapters_of(all.take(i as int)),
                decreases a@.len() - i,
            {
                proof {
                    assert(all.take(i + 1).drop_last() =~= all.take(i as int));
                    assert(all.take(i + 1).last() == a@[i as int]@);
                }
                match read_chapter(&a[i]) {
                    Some(c) => {
                        let ghost before = chapter_views(out@);
                        out.push(c);
                        proof {
                            assert(chapter_views(out@) =~= before.push(
                                (c.t0, c.t1, text::opt_text(c.title)),
                            ));
                        }
                    },
                    None => {},
                }
                i = i + 1;
            }
            proof {
                assert(all.take(i as int) =~= all);
            }
        },
        None => {},
    }
    out
}

fn read_keys(v: &Json, k: &str) -> (r: Vec<String>)
    ensures
        text::strings_of(r@) == keys_under(v@, k@),
{
    let mut out: Vec<String> = Vec::new();
    match v.get(k) {
        Some(Json::Obj(m)) => {
            let ghost want = keys_under(v@, k@);
            let mut i: usize = 0;
            while i < m.len()
                invariant
                    i <= m@.len(),
                    want.len() == m@.len(),
                    forall|j: int| 0 <= j < m@.len() ==> #[trigger] want[j] == m@[j].0@,
                    text::strings_of(out@) == want.take(i as int),
                decreases m@.len() - i,
            {
                let ghost before = text::strings_of(out@);
                out.push(m[i].0.clone());
                proof {
                    assert(text::strings_of(out@) =~= before.push(want[i as int]));
                    assert(want.take(i + 1) =~= want.take(i as int).push(want[i as int]));
                }
                i = i + 1;
            }
            proof {
                assert(want.take(i as int) =~= want);
            }
        },
        _ => {
            proof {
                assert(text::strings_of(out@) =~= Seq::<Seq<char>>::empty());
            }
        },
    }
    out
}

fn read_strings(v: &Json, k: &str) -> (r: Vec<String>)
    ensures
        text::strings_of(r@) == strings_in(v@.get_array(k@)),
{
    let mut out: Vec<String> = Vec::new();
    proof {
        assert(text::strings_of(out@) =~= strings_in(Seq::<JsonView>::empty()));
    }
    match v.get_array(k) {
        Some(a) => {
            let ghost all = json::json_views(a@);
            let mut i: usize = 0;
            proof {
                assert(all.take(0) =~= Seq::<JsonView>::empty());
            }
            while i < a.len()
                invariant
                    i <= a@.len(),
                    all == json::json_views(a@),
                    text::strings_of(out@) == strings_in(all.take(i as int)),
                decreases a@.len() - i,
            {
                proof {
                    assert(all.take(i + 1).drop_last() =~= all.take(i as int));
                    assert(all.take(i + 1).last() == a@[i as int]@);
                }
                match &a[i] {
                    Json::Str(s) => {
                        let ghost before = text::strings_of(out@);
                        out.push(s.clone());
                        proof {
                            assert(text::strings_of(out@) =~= before.push(s@));
                        }
                    },
                    _ => {},
                }
                i = i + 1;
            }
            proof {
                assert(all.take(i as int) =~= all);
            }
        },
        None => {},
    }
    out
}

fn read_upload_date(v: &Json, date: Option<i64>) -> (r: Option<i64>)
    ensures
        r == upload_date(date, v@),
{
    match date {
        Some(d) => Some(d),
        None => match v.get_num("timestamp") {
            Some(n) => {
                let c = text::chars_of(n.text.as_str());
                match text::parse_i64(c.as_slice()) {
                    Some(t) => checked_timestamp(t),
                    None => None,
                }
            },
            None => None,
        },
    }
}

fn read_playlist(v: &Json) -> (r: Option<(String, u64)>)
    ensures
        playlist_of(v@) == (match r {
            Some((id, n)) => Some((id@, n as int)),
            None => None,
        }),
{
    match (v.get_str("playlist_id"), v.get_num("playlist_index")) {
        (Some(id), Some(n)) => {
            let c = text::chars_of(n.text.as_str());
            match text::parse_unsigned(c.as_slice(), 0xffff_ffff_ffff_ffff) {
                Some(i) => Some((id.clone(), i)),
                None => None,
            }
        },
        _ => None,
    }
}

impl InfoJson {
    /// Reads the fields from a JSON value whose `upload_date` stands for `date`.
    pub fn from_value_dated(p: &str, v: &Json, date: Option<i64>) -> (i: InfoJson)
        ensures
            info_reads(i, p@, v@, date),
    {
        InfoJson {
            path: p.to_owned(),
            id: string_under(v, "id"),
            title: string_under(v, "title"),
            description: string_under(v, "description"),
            channel: string_under_either(v, "channel", "uploader"),
            webpage_url: string_under_either(v, "webpage_url", "original_url"),
            upload_date: read_upload_date(v, date),
            duration_secs: match v.get_num("duration") {
                Some(n) => Some(n.text.clone()),
                None => None,
            },
            language: string_under(v, "language"),
            chapters: read_chapters(v),
            subtitle_languages: read_keys(v, "subtitles"),
            auto_caption_languages: read_keys(v, "automatic_captions"),
            playlist: read_playlist(v),
            tags: read_strings(v, "tags"),
        }
    }

    /// Reads the fields from a JSON value.
    pub fn from_value(p: &str, v: &Json) -> (i: InfoJson)
        ensures
            info_reads(i, p@, v@, stated_date(v@)),
    {
        let date: Option<i64> = match v.get_str("upload_date") {
            Some(d) => parse_date(d.as_str(), "%Y%m%d"),
            None => None,
        };
        InfoJson::from_value_dated(p, v, date)
    }

    /// Reads the fields from the text of an `.info.json`; nothing when it is no JSON.
    pub fn read(p: &str, content: &str) -> (r: Option<InfoJson>)
        ensures
            match r {
                Some(i) => json::json_parsed(content@) is Some && info_reads(
                    i,
                    p@,
                    json::json_parsed(content@)->0,
                    stated_date(json::json_parsed(content@)->0),
                ),
                None => json::json_parsed(content@) is None,
            },
    {
        match json::parse(content) {
            Some(v) => Some(InfoJson::from_value(p, &v)),
            None => None,
        }
    }
}

/// The magnitudes of a value's times are magnitudes: not negative.
pub open spec fn has_magnitudes(c: JsonView) -> bool {
    &&& c.get_num("start_time"@) matches Some(n) ==> json::magnitude(n.1) >= 0
    &&& c.get_num("end_time"@) matches Some(n) ==> json::magnitude(n.1) >= 0
}

/// Chapters that the source declares never end before they start.
pub proof fn law_chapters_are_solid(cs: Seq<JsonView>)
    requires
        forall|i: int| 0 <= i < cs.len() ==> has_magnitudes(#[trigger] cs[i]),
    ensures
        forall|i: int|
            0 <= i < chapters_of(cs).len() ==> (#[trigger] chapters_of(cs)[i]).0.num <= chapters_of(
                cs,
            )[i].1.num,
    decreases cs.len(),
{
    if cs.len() > 0 {
        assert forall|i: int| 0 <= i < cs.drop_last().len() implies has_magnitudes(
            #[trigger] cs.drop_last()[i],
        ) by {
            assert(has_magnitudes(cs[i]));
        }
        law_chapters_are_solid(cs.drop_last());
        let c = cs.last();
        assert(has_magnitudes(cs[cs.len() - 1]));
        if let (Some(a), Some(b)) = (c.get_num("start_time"@), c.get_num("end_time"@)) {
            let t0 = json::signed_nanos(a.0, a.1);
            let t1 = json::signed_nanos(b.0, b.1);
            if t1 > t0 {
                lemma_ticks_grow(t0, t1);
            }
        }
        let rest = chapters_of(cs.drop_last());
        let all = chapters_of(cs);
        assert forall|i: int| 0 <= i < all.len() implies (#[trigger] all[i]).0.num
            <= all[i].1.num by {
            if i < rest.len() {
                assert(all[i] == rest[i]);
            } else {
                assert(Some(all[i]) == chapter_of(c));
            }
        }
    }
}

proof fn lemma_ticks_grow(a: int, b: int)
    requires
        a < b,
    ensures
        json::signed_ticks(a, 1_000_000) <= json::signed_ticks(b, 1_000_000),
        -0x7fff_ffff_ffff_ffff <= json::signed_ticks(a, 1_000_000) <= i64::MAX,
        -0x7fff_ffff_ffff_ffff <= json::signed_ticks(b, 1_000_000) <= i64::MAX,
{
    if a >= 0 {
        lemma_to_ticks_grow(a, b);
    } else if b < 0 {
        lemma_to_ticks_grow(-b, -a);
    }
}

proof fn lemma_to_ticks_grow(a: int, b: int)
    requires
        0 <= a <= b,
    ensures
        json::to_ticks(a, 1_000_000) <= json::to_ticks(b, 1_000_000),
{
}

/// Sidecar files of a media file.
#[derive(Debug)]
pub struct Sidecars {
    /// Metadata.
    pub info: Option<InfoJson>,
    /// Subtitle files, sorted by path.
    pub subtitles: Vec<SubtitleFile>,
}

/// The subtitle files among the names in a directory, in the order of the names given.
pub open spec fn subtitles_among(
    dir: Seq<char>,
    stem: Seq<char>,
    names: Seq<Seq<char>>,
) -> Seq<(Seq<char>, Option<Seq<char>>, SubtitleFormat)>
    decreases names.len(),
{
    if names.len() == 0 {
        Seq::empty()
    } else {
        let rest = subtitles_among(dir, stem, names.drop_last());
        match sidecar::subtitle_name(stem, names.last()) {
            Some((f, l)) => rest.push((path::joined(dir, names.last()), l, f)),
            None => rest,
        }
    }
}

/// Subtitle files as mathematics.
pub open spec fn subtitle_views(s: Seq<SubtitleFile>) -> Seq<
    (Seq<char>, Option<Seq<char>>, SubtitleFormat),
> {
    s.map_values(|f: SubtitleFile| (f.path@, text::opt_text(f.language), f.format))
}

impl Sidecars {
    /// Finds the sidecars of a media file with the given stem among the names in its directory.
    pub fn find(dir: &str, stem: &str, names: &Vec<String>, info: Option<InfoJson>) -> (r: Sidecars)
        ensures
            r.info == info,
            subtitle_views(r.subtitles@) == subtitles_among(
                dir@,
                stem@,
                text::ordered(text::strings_of(names@)),
            ),
    {
        let ghost all = text::strings_of(names@);
        let mut sorted: Vec<String> = Vec::new();
        let mut i: usize = 0;
        proof {
            assert(all.take(0) =~= Seq::<Seq<char>>::empty());
            assert(text::strings_of(sorted@) =~= Seq::<Seq<char>>::empty());
        }
        while i < names.len()
            invariant
                i <= names@.len(),
                all == text::strings_of(names@),
                text::strings_of(sorted@) == text::ordered(all.take(i as int)),
            decreases names@.len() - i,
        {
            proof {
                assert(all.take(i + 1).drop_last() =~= all.take(i as int));
                assert(all.take(i + 1).last() == names@[i as int]@);
            }
            text::place_text(&mut sorted, names[i].clone());
            i = i + 1;
        }
        proof {
            assert(all.take(i as int) =~= all);
        }
        let ghost order = text::strings_of(sorted@);
        let mut out: Vec<SubtitleFile> = Vec::new();
        let mut k: usize = 0;
        proof {
            assert(order.take(0) =~= Seq::<Seq<char>>::empty());
            assert(subtitle_views(out@) =~= subtitles_among(
                dir@,
                stem@,
                Seq::<Seq<char>>::empty(),
            ));
        }
        while k < sorted.len()
            invariant
                k <= sorted@.len(),
                order == text::strings_of(sorted@),
                subtitle_views(out@) == subtitles_among(dir@, stem@, order.take(k as int)),
            decreases sorted@.len() - k,
        {
            proof {
                assert(order.take(k + 1).drop_last() =~= order.take(k as int));
                assert(order.take(k + 1).last() == sorted@[k as int]@);
            }
            match sidecar::classify_subtitle(stem, sorted[k].as_str()) {
                Some((format, language)) => {
                    let ghost before = subtitle_views(out@);
                    let f = SubtitleFile {
                        path: path::join(dir, sorted[k].as_str()),
                        language,
                        format,
                    };
                    out.push(f);
                    proof {
                        assert(subtitle_views(out@) =~= before.push(
                            (f.path@, text::opt_text(f.language), f.format),
                        ));
                    }
                },
                None => {},
            }
            k = k + 1;
        }
        proof {
            assert(order.take(k as int) =~= order);
        }
        Sidecars { info, subtitles: out }
    }

    /// Paths of every sidecar, for moving them with the media: subtitles, then metadata.
    pub fn paths(&self) -> (r: Vec<String>)
        ensures
            text::strings_of(r@) == self.subtitles@.map_values(|f: SubtitleFile| f.path@) + (
            match self.info {
                Some(i) => seq![i.path@],
                None => Seq::empty(),
            }),
    {
        let ghost want = self.subtitles@.map_values(|f: SubtitleFile| f.path@);
        let mut out: Vec<String> = Vec::new();
        let mut i: usize = 0;
        while i < self.subtitles.len()
            invariant
                i <= self.subtitles@.len(),
                want == self.subtitles@.map_values(|f: SubtitleFile| f.path@),
                text::strings_of(out@) == want.take(i as int),
            decreases self.subtitles@.len() - i,
        {
            let ghost before = text::strings_of(out@);
            out.push(self.subtitles[i].path.clone());
            proof {
                assert(text::strings_of(out@) =~= before.push(want[i as int]));
                assert(want.take(i + 1) =~= want.take(i as int).push(want[i as int]));
            }
            i = i + 1;
        }
        proof {
            assert(want.take(i as int) =~= want);
        }
        match &self.info {
            Some(info) => {
                out.push(info.path.clone());
                proof {
                    assert(text::strings_of(out@) =~= want + seq![info.path@]);
                }
            },
            None => {
                proof {
                    assert(want + Seq::<Seq<char>>::empty() =~= want);
                }
            },
        }
        out
    }
}

/// The paths of subtitle files.
pub open spec fn subtitle_paths(
    files: Seq<(Seq<char>, Option<Seq<char>>, SubtitleFormat)>,
) -> Seq<Seq<char>> {
    files.map_values(|f: (Seq<char>, Option<Seq<char>>, SubtitleFormat)| f.0)
}

proof fn lemma_behind_prefix(d: Seq<char>, a: Seq<char>, b: Seq<char>)
    ensures
        text::lex_lt(d + a, d + b) == text::lex_lt(a, b),
    decreases d.len(),
{
    if d.len() == 0 {
        assert(d + a =~= a);
        assert(d + b =~= b);
    } else {
        assert((d + a).drop_first() =~= d.drop_first() + a);
        assert((d + b).drop_first() =~= d.drop_first() + b);
        lemma_behind_prefix(d.drop_first(), a, b);
    }
}

proof fn lemma_joined_order(dir: Seq<char>, a: Seq<char>, b: Seq<char>)
    ensures
        text::lex_lt(path::joined(dir, a), path::joined(dir, b)) == text::lex_lt(a, b),
{
    if dir.len() > 0 {
        let d = if dir.last() == '/' {
            dir
        } else {
            dir + seq!['/']
        };
        lemma_behind_prefix(d, a, b);
    }
}

proof fn lemma_subtitles_among(dir: Seq<char>, stem: Seq<char>, names: Seq<Seq<char>>)
    requires
        text::ascending(names),
    ensures
        text::ascending(subtitle_paths(subtitles_among(dir, stem, names))),
    decreases names.len(),
{
    let all = subtitle_paths(subtitles_among(dir, stem, names));
    if names.len() > 0 {
        let cut = names.drop_last();
        let before = subtitle_paths(subtitles_among(dir, stem, cut));
        assert forall|i: int, j: int| 0 <= i < j < cut.len() implies text::lex_lt(
            #[trigger] cut[i],
            #[trigger] cut[j],
        ) by {
            assert(cut[i] == names[i] && cut[j] == names[j]);
        }
        lemma_subtitles_among(dir, stem, cut);
        let p = path::joined(dir, names.last());
        if sidecar::subtitle_name(stem, names.last()) is Some {
            assert(all =~= before.push(p));
            assert forall|i: int, j: int| 0 <= i < j < all.len() implies text::lex_lt(
                #[trigger] all[i],
                #[trigger] all[j],
            ) by {
                assert(all[i] == before[i]);
                if j == before.len() {
                    assert(before.contains(before[i]));
                    lemma_found(dir, stem, cut, before[i]);
                    let k = choose|k: int|
                        0 <= k < cut.len() && before[i] == path::joined(dir, #[trigger] cut[k])
                            && sidecar::subtitle_name(stem, cut[k]) is Some;
                    assert(cut[k] == names[k]);
                    lemma_joined_order(dir, names[k], names.last());
                } else {
                    assert(all[j] == before[j]);
                }
            }
        }
    }
}

/// The subtitle files found next to a media file come in strictly ascending order of their
/// paths, so none comes twice, when no name comes twice in the directory.
pub proof fn law_subtitles_ascend(dir: Seq<char>, stem: Seq<char>, names: Seq<Seq<char>>)
    requires
        names.no_duplicates(),
    ensures
        text::ascending(
            subtitle_paths(subtitles_among(dir, stem, text::ordered(names))),
        ),
        subtitle_paths(subtitles_among(dir, stem, text::ordered(names))).no_duplicates(),
{
    let order = text::ordered(names);
    text::law_ordered(names);
    names.lemma_multiset_has_no_duplicates();
    order.lemma_multiset_has_no_duplicates_conv();
    assert forall|i: int, j: int| 0 <= i < j < order.len() implies text::lex_lt(
        #[trigger] order[i],
        #[trigger] order[j],
    ) by {
        text::lemma_lex_total(order[i], order[j]);
    }
    lemma_subtitles_among(dir, stem, order);
    let all = subtitle_paths(subtitles_among(dir, stem, order));
    assert forall|i: int, j: int| 0 <= i < all.len() && 0 <= j < all.len() && i != j implies all[i]
        != all[j] by {
        if i < j {
            text::lemma_lex_total(all[i], all[j]);
        } else {
            text::lemma_lex_total(all[j], all[i]);
        }
    }
}

proof fn lemma_found(dir: Seq<char>, stem: Seq<char>, names: Seq<Seq<char>>, p: Seq<char>)
    requires
        subtitle_paths(subtitles_among(dir, stem, names)).contains(p),
    ensures
        exists|k: int|
            0 <= k < names.len() && p == path::joined(dir, #[trigger] names[k])
                && sidecar::subtitle_name(stem, names[k]) is Some,
    decreases names.len(),
{
    let all = subtitle_paths(subtitles_among(dir, stem, names));
    let i = choose|i: int| 0 <= i < all.len() && all[i] == p;
    if names.len() > 0 {
        let cut = names.drop_last();
        let before = subtitle_paths(subtitles_among(dir, stem, cut));
        if sidecar::subtitle_name(stem, names.last()) is Some {
            assert(all =~= before.push(path::joined(dir, names.last())));
        }
        if i < before.len() {
            assert(before[i] == p);
            lemma_found(dir, stem, cut, p);
            let k = choose|k: int|
                0 <= k < cut.len() && p == path::joined(dir, #[trigger] cut[k])
                    && sidecar::subtitle_name(stem, cut[k]) is Some;
            assert(cut[k] == names[k]);
        } else {
            assert(p == path::joined(dir, names[names.len() - 1]));
        }
    }
}

/// The subtitle files found next to a media file are files of its directory with the extension
/// `srt` or `vtt`: neither the media file itself, when it has another extension, nor its
/// `.info.json` is among them.
pub proof fn law_subtitles_are_no_media(
    dir: Seq<char>,
    media: Seq<char>,
    names: Seq<Seq<char>>,
)
    requires
        path::extension(media) != Some("srt"@),
        path::extension(media) != Some("vtt"@),
    ensures
        !subtitle_paths(
            subtitles_among(dir, path::stem(media), text::ordered(names)),
        ).contains(path::joined(dir, media)),
        !subtitle_paths(
            subtitles_among(dir, path::stem(media), text::ordered(names)),
        ).contains(path::joined(dir, path::stem(media) + ".info.json"@)),
{
    let stem = path::stem(media);
    let order = text::ordered(names);
    let found = subtitle_paths(subtitles_among(dir, stem, order));
    if found.contains(path::joined(dir, media)) {
        lemma_found(dir, stem, order, path::joined(dir, media));
        let k = choose|k: int|
            0 <= k < order.len() && path::joined(dir, media) == path::joined(
                dir,
                #[trigger] order[k],
            ) && sidecar::subtitle_name(stem, order[k]) is Some;
        lemma_joined_same(dir, media, order[k]);
    }
    let info = stem + ".info.json"@;
    lemma_info_extension(stem);
    if found.contains(path::joined(dir, info)) {
        lemma_found(dir, stem, order, path::joined(dir, info));
        let k = choose|k: int|
            0 <= k < order.len() && path::joined(dir, info) == path::joined(
                dir,
                #[trigger] order[k],
            ) && sidecar::subtitle_name(stem, order[k]) is Some;
        lemma_joined_same(dir, info, order[k]);
    }
}

proof fn lemma_joined_same(dir: Seq<char>, a: Seq<char>, b: Seq<char>)
    requires
        path::joined(dir, a) == path::joined(dir, b),
    ensures
        a == b,
{
    lemma_joined_order(dir, a, b);
    lemma_joined_order(dir, b, a);
    text::lemma_lex_total(a, b);
    text::lemma_lex_total(path::joined(dir, a), path::joined(dir, b));
}

proof fn lemma_info_extension(stem: Seq<char>)
    ensures
        path::extension(stem + ".info.json"@) == Some("json"@),
        "json"@ != "srt"@,
        "json"@ != "vtt"@,
{
    reveal_strlit(".info.json");
    reveal_strlit("json");
    reveal_strlit("srt");
    reveal_strlit("vtt");
    let s = stem + ".info.json"@;
    let n = stem.len() as int;
    assert(".info.json"@.len() == 10);
    assert("json"@[0] != "srt"@[0]);
    assert("json"@[0] != "vtt"@[0]);
    let a = s.drop_last();
    let b = a.drop_last();
    let c = b.drop_last();
    let d = c.drop_last();
    assert(d.last() == '.' && d.len() == n + 6);
    assert(text::last_index(d, '.') == Some(n + 5));
    assert(text::last_index(c, '.') == Some(n + 5));
    assert(text::last_index(b, '.') == Some(n + 5));
    assert(text::last_index(a, '.') == Some(n + 5));
    assert(text::last_index(s, '.') == Some(n + 5));
    assert(s.skip(n + 6) =~= "json"@);
}

/// Chapters are read one by one and in their order; an entry that says no two times, or no later
/// end than start, gives none.
pub proof fn law_chapters_are_read_one_by_one(a: Seq<JsonView>, b: Seq<JsonView>, one: JsonView)
    ensures
        chapters_of(a + b) == chapters_of(a) + chapters_of(b),
        chapters_of(seq![one]).len() <= 1,
        one.get_num("start_time"@) is None || one.get_num("end_time"@) is None ==> chapters_of(
            seq![one],
        ).len() == 0,
        chapters_of(seq![one]).len() == 1 ==> chapters_of(seq![one])[0].2 == one.get_str("title"@),
    decreases b.len(),
{
    reveal_with_fuel(chapters_of, 2);
    assert(seq![one].drop_last() =~= Seq::<JsonView>::empty());
    if b.len() == 0 {
        assert(a + b =~= a);
    } else {
        law_chapters_are_read_one_by_one(a, b.drop_last(), one);
        assert((a + b).drop_last() =~= a + b.drop_last());
    }
}

/// Tags are read one by one and in their order, and only texts are tags.
pub proof fn law_tags_are_read_one_by_one(
    a: Seq<JsonView>,
    b: Seq<JsonView>,
    tag: Seq<char>,
    other: JsonView,
)
    requires
        !(other is Str),
    ensures
        strings_in(a + b) == strings_in(a) + strings_in(b),
        strings_in(seq![JsonView::Str(tag)]) == seq![tag],
        strings_in(seq![other]).len() == 0,
    decreases b.len(),
{
    reveal_with_fuel(strings_in, 2);
    assert(seq![other].drop_last() =~= Seq::<JsonView>::empty());
    assert(seq![JsonView::Str(tag)].drop_last() =~= Seq::<JsonView>::empty());
    if b.len() == 0 {
        assert(a + b =~= a);
    } else {
        law_tags_are_read_one_by_one(a, b.drop_last(), tag, other);
        assert((a + b).drop_last() =~= a + b.drop_last());
    }
}

/// Of two names the first is preferred, and the second stands in for it.
pub proof fn law_first_names_are_preferred(v: JsonView, a: Seq<char>, b: Seq<char>)
    ensures
        v.get_str(a) is Some ==> either_str(v, a, b) == v.get_str(a),
        v.get_str(a) is None ==> either_str(v, a, b) == v.get_str(b),
        either_str(v, a, a) == v.get_str(a),
{
}

/// A stated date is kept, whatever the time stamp says.
pub proof fn law_stated_dates_are_kept(d: i64, v: JsonView)
    ensures
        upload_date(Some(d), v) == Some(d),
        v.get_num("timestamp"@) is None ==> upload_date(None, v) is None,
{
}

/// Names are looked through one by one and in their order.
pub proof fn law_subtitles_are_found_one_by_one(
    dir: Seq<char>,
    stem: Seq<char>,
    a: Seq<Seq<char>>,
    b: Seq<Seq<char>>,
    one: Seq<char>,
)
    ensures
        subtitles_among(dir, stem, a + b) == subtitles_among(dir, stem, a) + subtitles_among(
            dir,
            stem,
            b,
        ),
        sidecar::subtitle_name(stem, one) is None ==> subtitles_among(dir, stem, seq![one]).len()
            == 0,
        sidecar::subtitle_name(stem, one) matches Some((f, l)) ==> subtitles_among(
            dir,
            stem,
            seq![one],
        ) == seq![(path::joined(dir, one), l, f)],
    decreases b.len(),
{
    reveal_with_fuel(subtitles_among, 2);
    assert(seq![one].drop_last() =~= Seq::<Seq<char>>::empty());
    if b.len() == 0 {
        assert(a + b =~= a);
    } else {
        law_subtitles_are_found_one_by_one(dir, stem, a, b.drop_last(), one);
        assert((a + b).drop_last() =~= a + b.drop_last());
    }
}

} // verus!
