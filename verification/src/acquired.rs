//! What acquiring a source yields, and the decisions on the way there.

use vstd::prelude::*;
use vstd::slice::slice_subrange;

use crate::acquire::{is_video_file, Source};
use crate::error::MediaError;
use crate::info::{InfoJson, SidecarChapter, Sidecars};
use crate::path::{file_name_of, stem_of};
use crate::sidecar::SubtitleFile;
use crate::text::{chars_of, has_str_prefix, replace_all, same_text, split_at_all, string_of};
use crate::{acquire, path, text};

verus! {

/// A source that is on disk, with what is known about it.
#[derive(Debug)]
pub struct Acquired {
    /// Local media file.
    pub path: String,
    /// Where it came from.
    pub source_uri: String,
    /// Hash of the content.
    pub content_hash: String,
    /// File size.
    pub size_bytes: u64,
    /// Title.
    pub title: Option<String>,
    /// Description.
    pub description: Option<String>,
    /// Channel.
    pub channel: Option<String>,
    /// When it was published, in seconds since 1970.
    pub published_at: Option<i64>,
    /// Chapters.
    pub chapters: Vec<SidecarChapter>,
    /// Subtitle files.
    pub subtitle_files: Vec<SubtitleFile>,
    /// Languages with human-authored subtitles.
    pub subtitle_languages: Vec<String>,
    /// Metadata.
    pub info: Option<InfoJson>,
}

/// A field of the metadata, if there is any.
pub open spec fn info_text(info: Option<InfoJson>, field: spec_fn(InfoJson) -> Option<String>) -> Option<
    Seq<char>,
> {
    match info {
        Some(i) => text::opt_text(field(i)),
        None => None,
    }
}

/// Two lists of chapters that say the same.
pub open spec fn same_chapters(a: Seq<SidecarChapter>, b: Seq<SidecarChapter>) -> bool {
    a.len() == b.len() && forall|i: int|
        0 <= i < a.len() ==> (#[trigger] a[i]).t0 == b[i].t0 && a[i].t1 == b[i].t1
            && text::opt_text(a[i].title) == text::opt_text(b[i].title)
}

fn copy_text(s: &Option<String>) -> (r: Option<String>)
    ensures
        text::opt_text(r) == text::opt_text(*s),
{
    match s {
        Some(t) => Some(t.as_str().to_owned()),
        None => None,
    }
}

fn copy_chapters(v: &Vec<SidecarChapter>) -> (r: Vec<SidecarChapter>)
    ensures
        same_chapters(r@, v@),
{
    let mut out: Vec<SidecarChapter> = Vec::new();
    let mut i: usize = 0;
    while i < v.len()
        invariant
            i <= v@.len(),
            out@.len() == i,
            forall|k: int|
                0 <= k < i ==> (#[trigger] out@[k]).t0 == v@[k].t0 && out@[k].t1 == v@[k].t1
                    && text::opt_text(out@[k].title) == text::opt_text(v@[k].title),
        decreases v@.len() - i,
    {
        let c = &v[i];
        out.push(SidecarChapter { t0: c.t0, t1: c.t1, title: copy_text(&c.title) });
        i = i + 1;
    }
    out
}

fn copy_texts(v: &Vec<String>) -> (r: Vec<String>)
    ensures
        text::strings_of(r@) == text::strings_of(v@),
{
    let mut out: Vec<String> = Vec::new();
    let mut i: usize = 0;
    while i < v.len()
        invariant
            i <= v@.len(),
            out@.len() == i,
            forall|k: int| 0 <= k < i ==> (#[trigger] out@[k])@ == v@[k]@,
        decreases v@.len() - i,
    {
        out.push(v[i].as_str().to_owned());
        i = i + 1;
    }
    proof {
        assert(text::strings_of(out@) =~= text::strings_of(v@));
    }
    out
}

impl Acquired {
    /// Puts together what is known of a file on disk: its metadata names the page it came from,
    /// its title and the rest; without metadata the file stands for itself. `own_uri` is the
    /// file's own URI.
    pub fn assemble(
        path: String,
        own_uri: String,
        content_hash: String,
        size_bytes: u64,
        sidecars: Sidecars,
    ) -> (r: Acquired)
        ensures
            r.path == path,
            r.content_hash == content_hash,
            r.size_bytes == size_bytes,
            r.info == sidecars.info,
            r.subtitle_files == sidecars.subtitles,
            r.source_uri@ == (match info_text(sidecars.info, |i: InfoJson| i.webpage_url) {
                Some(u) => u,
                None => own_uri@,
            }),
            text::opt_text(r.title) == info_text(sidecars.info, |i: InfoJson| i.title),
            text::opt_text(r.description) == info_text(sidecars.info, |i: InfoJson| i.description),
            text::opt_text(r.channel) == info_text(sidecars.info, |i: InfoJson| i.channel),
            match sidecars.info {
                Some(i) => r.published_at == i.upload_date && same_chapters(
                    r.chapters@,
                    i.chapters@,
                ) && text::strings_of(r.subtitle_languages@) == text::strings_of(
                    i.subtitle_languages@,
                ),
                None => r.published_at is None && r.chapters@.len() == 0
                    && r.subtitle_languages@.len() == 0,
            },
    {
        let Sidecars { info, subtitles } = sidecars;
        match info {
            Some(i) => {
                let source_uri = match &i.webpage_url {
                    Some(u) => u.as_str().to_owned(),
                    None => own_uri,
                };
                let title = copy_text(&i.title);
                let description = copy_text(&i.description);
                let channel = copy_text(&i.channel);
                let published_at = i.upload_date;
                let chapters = copy_chapters(&i.chapters);
                let subtitle_languages = copy_texts(&i.subtitle_languages);
                Acquired {
                    path,
                    source_uri,
                    content_hash,
                    size_bytes,
                    title,
                    description,
                    channel,
                    published_at,
                    chapters,
                    subtitle_files: subtitles,
                    subtitle_languages,
                    info: Some(i),
                }
            },
            None => Acquired {
                path,
                source_uri: own_uri,
                content_hash,
                size_bytes,
                title: None,
                description: None,
                channel: None,
                published_at: None,
                chapters: Vec::new(),
                subtitle_files: subtitles,
                subtitle_languages: Vec::new(),
                info: None,
            },
        }
    }

    /// Whether a subtitle file is human-authored.
    pub fn subtitle_is_human(&self, file: &SubtitleFile) -> (b: bool)
        ensures
            b == (match text::opt_text(file.language) {
                None => self.info is None,
                Some(lang) => exists|i: int|
                    0 <= i < self.subtitle_languages@.len() && (text::ascii_lower(
                        #[trigger] self.subtitle_languages@[i]@,
                    ) == text::ascii_lower(lang) || text::ascii_lower(
                        self.subtitle_languages@[i]@,
                    ) == text::ascii_lower(acquire::base_language(lang))),
            }),
    {
        let lang: Option<&str> = match &file.language {
            Some(l) => Some(l.as_str()),
            None => None,
        };
        acquire::subtitle_is_human(lang, &self.subtitle_languages, self.info.is_some())
    }
}

/// Paths of the subtitle files next to a media file with the given stem, among the names in its
/// directory.
pub fn sidecar_subtitles(dir: &str, stem: &str, names: &Vec<String>) -> (r: Vec<String>)
    ensures
        text::strings_of(r@) == crate::info::subtitle_paths(
            crate::info::subtitles_among(dir@, stem@, text::ordered(text::strings_of(names@))),
        ),
{
    let found = Sidecars::find(dir, stem, names, None);
    let ghost views = crate::info::subtitle_views(found.subtitles@);
    let mut out: Vec<String> = Vec::new();
    let mut i: usize = 0;
    while i < found.subtitles.len()
        invariant
            i <= found.subtitles@.len(),
            out@.len() == i,
            forall|k: int| 0 <= k < i ==> (#[trigger] out@[k])@ == found.subtitles@[k].path@,
        decreases found.subtitles@.len() - i,
    {
        out.push(found.subtitles[i].path.as_str().to_owned());
        i = i + 1;
    }
    proof {
        assert forall|k: int| 0 <= k < out@.len() implies text::strings_of(out@)[k]
            == views[k].0 by {
            assert(views[k].0 == found.subtitles@[k].path@);
            assert(out@[k]@ == found.subtitles@[k].path@);
        }
        assert(text::strings_of(out@) =~= crate::info::subtitle_paths(views));
    }
    out
}

/// An error of acquisition with the given message.
pub open spec fn says(e: MediaError, m: Seq<char>) -> bool {
    e matches MediaError::Acquire(t) && t@ == m
}

fn acquire_error(a: &str, b: &str) -> (e: MediaError)
    ensures
        says(e, a@ + b@),
{
    let mut m = a.to_owned();
    m.append(b);
    MediaError::Acquire(m)
}

/// The file that a local source names. `is_file` says whether there is one; `shown` is the
/// source as text.
pub fn local_path<'a>(source: &'a Source, is_file: bool, shown: &str) -> (r: Result<
    &'a String,
    MediaError,
>)
    ensures
        match *source {
            Source::Url(_) => r matches Err(e) && says(e, "LocalFile cannot handle "@ + shown@),
            Source::Path(p) => if is_file {
                r matches Ok(q) && *q == p
            } else {
                r matches Err(e) && says(e, "not a file: "@ + p@)
            },
        },
{
    match source {
        Source::Url(_) => Err(acquire_error("LocalFile cannot handle ", shown)),
        Source::Path(p) => {
            if is_file {
                Ok(p)
            } else {
                Err(acquire_error("not a file: ", p.as_str()))
            }
        },
    }
}

/// Whether a download by `yt-dlp` went well: not if it ran out of time or reported failure.
pub fn download_outcome(url: &str, timed_out: bool, success: bool, stderr: &str) -> (r: Result<
    (),
    MediaError,
>)
    ensures
        r is Ok <==> !timed_out && success,
        timed_out ==> (r matches Err(e) && says(e, "yt-dlp timed out downloading "@ + url@)),
        !timed_out && !success ==> (r matches Err(e) && says(
            e,
            "yt-dlp failed for "@ + url@ + ": "@ + text::trimmed(stderr@),
        )),
{
    if timed_out {
        return Err(acquire_error("yt-dlp timed out downloading ", url));
    }
    if !success {
        let c = chars_of(stderr);
        let t = string_of(text::trim_of(c.as_slice()));
        let mut m = "yt-dlp failed for ".to_owned();
        m.append(url);
        m.append(": ");
        return Err(acquire_error(m.as_str(), t.as_str()));
    }
    Ok(())
}

/// The parts of a URL between its marks of a query.
pub open spec fn query_parts(url: Seq<char>) -> Seq<Seq<char>> {
    text::split(text::replaced(url, "?"@, "&"@), "&"@)
}

/// The first of the parts that gives `v`, from part `i` on.
pub open spec fn video_param(parts: Seq<Seq<char>>, i: int) -> Option<Seq<char>>
    decreases parts.len() - i,
{
    if i < 0 || i >= parts.len() {
        None
    } else if text::starts_with(parts[i], "v="@) {
        Some(parts[i].skip(2))
    } else {
        video_param(parts, i + 1)
    }
}

/// What stands behind the last slash.
pub open spec fn last_segment(url: Seq<char>) -> Seq<char> {
    match text::last_index(url, '/') {
        Some(i) => url.skip(i + 1),
        None => url,
    }
}

/// The id of a video in its URL: the `v` parameter, or else the last segment.
pub open spec fn video_id(url: Seq<char>) -> Seq<char> {
    match video_param(query_parts(url), 0) {
        Some(v) => v,
        None => last_segment(url),
    }
}

/// The id of a video in its URL.
pub fn url_id(url: &str) -> (r: String)
    ensures
        r@ == video_id(url@),
{
    let u = chars_of(url);
    let q = chars_of("?");
    let a = chars_of("&");
    proof {
        reveal_strlit("?");
        reveal_strlit("&");
        reveal_strlit("v=");
    }
    let flat = replace_all(u.as_slice(), q.as_slice(), a.as_slice());
    let parts = split_at_all(flat.as_slice(), a.as_slice());
    let ghost all = text::texts_of(parts@);
    let mut i: usize = 0;
    while i < parts.len()
        invariant
            i <= parts@.len(),
            all == text::texts_of(parts@),
            "v="@.len() == 2,
            video_param(all, 0) == video_param(all, i as int),
            all == query_parts(url@),
        decreases parts@.len() - i,
    {
        let p = parts[i];
        proof {
            assert(all[i as int] == p@);
        }
        if has_str_prefix(p, "v=") {
            let rest = slice_subrange(p, 2, p.len());
            proof {
                assert(rest@ =~= p@.skip(2));
            }
            return string_of(rest);
        }
        i = i + 1;
    }
    match text::rfind_char(u.as_slice(), '/') {
        Some(k) => {
            let rest = slice_subrange(u.as_slice(), k + 1, u.len());
            proof {
                assert(rest@ =~= url@.skip(k + 1));
            }
            string_of(rest)
        },
        None => string_of(u.as_slice()),
    }
}

/// Whether a file is the video with the given id.
pub open spec fn is_video_of(file: Seq<char>, id: Seq<char>) -> bool {
    (match path::lower_extension(file) {
        Some(e) => acquire::video_extension(e),
        None => false,
    }) && (match path::file_name(file) {
        Some(name) => path::stem(name) == id,
        None => false,
    })
}

/// The first of the files of a directory that is the video with the id in a URL.
pub fn find_by_url_id(files: &Vec<String>, url: &str) -> (r: Option<usize>)
    ensures
        match r {
            Some(i) => i < files@.len() && is_video_of(files@[i as int]@, video_id(url@))
                && forall|k: int|
                0 <= k < i ==> !is_video_of(#[trigger] files@[k]@, video_id(url@)),
            None => forall|k: int|
                0 <= k < files@.len() ==> !is_video_of(#[trigger] files@[k]@, video_id(url@)),
        },
{
    let id_text = url_id(url);
    let id = chars_of(id_text.as_str());
    let mut i: usize = 0;
    while i < files.len()
        invariant
            i <= files@.len(),
            id@ == video_id(url@),
            forall|k: int|
                0 <= k < i ==> !is_video_of(#[trigger] files@[k]@, video_id(url@)),
        decreases files@.len() - i,
    {
        let f = chars_of(files[i].as_str());
        if is_video_file(files[i].as_str()) {
            match file_name_of(f.as_slice()) {
                Some(name) => {
                    if same_text(stem_of(name), id.as_slice()) {
                        return Some(i);
                    }
                },
                None => {},
            }
        }
        i = i + 1;
    }
    None
}

/// The file that a download left: the one it printed, if that is there, or else the one found
/// by the video's id.
pub fn downloaded_file(
    url: &str,
    printed: Option<String>,
    printed_is_file: bool,
    found: Option<String>,
) -> (r: Result<String, MediaError>)
    ensures
        match printed {
            Some(p) if printed_is_file => r == Ok::<String, MediaError>(p),
            _ => match found {
                Some(f) => r == Ok::<String, MediaError>(f),
                None => r matches Err(e) && says(
                    e,
                    "yt-dlp finished but no media file was found for "@ + url@,
                ),
            },
        },
{
    if printed_is_file {
        if let Some(p) = printed {
            return Ok(p);
        }
    }
    match found {
        Some(f) => Ok(f),
        None => Err(acquire_error("yt-dlp finished but no media file was found for ", url)),
    }
}

/// The id of a video is what its address says under `v`, at the end or before other things that
/// it asks.
pub proof fn law_addresses_hold_the_id(base: Seq<char>, id: Seq<char>, rest: Seq<char>)
    requires
        text::free_of(base, '?'),
        text::free_of(base, '&'),
        text::free_of(id, '?'),
        text::free_of(id, '&'),
        !text::starts_with(base, "v="@),
    ensures
        video_id(base + seq!['?', 'v', '='] + id) == id,
        video_id(base + seq!['?', 'v', '='] + id + seq!['&'] + rest) == id,
{
    let v = seq!['v', '='] + id;
    let amp = seq!['&'];
    lemma_named(id);
    let one = base + seq!['?', 'v', '='] + id;
    assert(query_parts(one) == seq![base, v]) by {
        lemma_marks();
        text::law_replacing_a_character(one, '?', '&');
        assert(text::replaced(one, seq!['?'], amp) =~= base + amp + v);
        text::law_splitting_at_a_character(base, v, '&');
        text::law_splitting_at_a_character(v, v, '&');
        assert(seq![base] + seq![v] =~= seq![base, v]);
    }
    lemma_second(query_parts(one), base, v, id);
    let two = base + seq!['?', 'v', '='] + id + amp + rest;
    let rr = text::replaced(rest, seq!['?'], amp);
    assert(query_parts(two) == seq![base] + (seq![v] + text::split(rr, amp))) by {
        lemma_marks();
        text::law_replacing_a_character(two, '?', '&');
        text::law_replacing_a_character(rest, '?', '&');
        assert(text::replaced(two, seq!['?'], amp) =~= base + amp + (v + amp + rr));
        text::law_splitting_at_a_character(base, v + amp + rr, '&');
        text::law_splitting_at_a_character(v, rr, '&');
    }
    lemma_second(query_parts(two), base, v, id);
}

proof fn lemma_marks()
    ensures
        "&"@ == seq!['&'],
        "?"@ == seq!['?'],
{
    reveal_strlit("&");
    reveal_strlit("?");
    assert("&"@ =~= seq!['&']);
    assert("?"@ =~= seq!['?']);
}

proof fn lemma_named(id: Seq<char>)
    requires
        text::free_of(id, '&'),
    ensures
        text::free_of(seq!['v', '='] + id, '&'),
        text::starts_with(seq!['v', '='] + id, "v="@),
        (seq!['v', '='] + id).skip(2) == id,
{
    reveal_strlit("v=");
    let v = seq!['v', '='] + id;
    assert(v.subrange(0, 2) =~= "v="@);
    assert(v.skip(2) =~= id);
    assert forall|i: int| 0 <= i < v.len() implies #[trigger] v[i] != '&' by {
        if i >= 2 {
            assert(v[i] == id[i - 2]);
        }
    }
}

proof fn lemma_second(parts: Seq<Seq<char>>, base: Seq<char>, v: Seq<char>, id: Seq<char>)
    requires
        parts.len() >= 2,
        parts[0] == base,
        parts[1] == v,
        !text::starts_with(base, "v="@),
        text::starts_with(v, "v="@),
        v.skip(2) == id,
    ensures
        video_param(parts, 0) == Some(id),
{
    assert(video_param(parts, 1) == Some(id));
}

/// An address that asks nothing has the id of its video behind the last slash.
pub proof fn law_plain_addresses_end_with_the_id(dir: Seq<char>, id: Seq<char>)
    requires
        text::free_of(dir, '?'),
        text::free_of(dir, '&'),
        text::free_of(id, '?'),
        text::free_of(id, '&'),
        text::free_of(id, '/'),
        !text::starts_with(dir + seq!['/'] + id, "v="@),
    ensures
        video_id(dir + seq!['/'] + id) == id,
{
    let base = dir + seq!['/'] + id;
    let n = dir.len() as int;
    assert(text::free_of(base, '?') && text::free_of(base, '&')) by {
        assert forall|i: int| 0 <= i < base.len() implies #[trigger] base[i] != '?' && base[i]
            != '&' by {
            if i < n {
                assert(base[i] == dir[i]);
            } else if i > n {
                assert(base[i] == id[i - n - 1]);
            }
        }
    }
    assert(query_parts(base) == seq![base]) by {
        lemma_marks();
        text::law_replacing_a_character(base, '?', '&');
        assert(text::replaced(base, seq!['?'], seq!['&']) =~= base);
        text::law_splitting_at_a_character(base, base, '&');
    }
    assert(video_param(seq![base], 1) is None);
    assert(video_param(seq![base], 0) is None);
    text::law_places_of_a_character(base, '/');
    assert(base[n] == '/');
    if let Some(i) = text::last_index(base, '/') {
        if i > n {
            assert(id[i - (n + 1)] == base[i]);
        }
    }
    assert(base.skip(n + 1) =~= id);
}

} // verus!
