//! Sources and how they become local media files: which acquirer handles what,
//! where files go in the content-addressed cache, and what yt-dlp is asked.

use vstd::prelude::*;
use vstd::slice::slice_subrange;

use crate::error::MediaError;
use crate::path;
use crate::sidecar;
use crate::sidecar::{SubtitleFile, SubtitleFormat};
use crate::text;
use crate::text::{
    chars_of, find_char, has_str, has_str_prefix, has_str_suffix, same_ignoring_case, same_text,
    string_of, to_ascii_lower,
};

verus! {

/// What the user asked to index.
#[derive(Debug)]
pub enum Source {
    /// A path on this machine.
    Path(String),
    /// A URL (http, s3, youtube, ...).
    Url(String),
}

/// A source as a mathematical value.
pub enum SourceView {
    /// A path.
    Path(Seq<char>),
    /// A URL.
    Url(Seq<char>),
}

impl View for Source {
    type V = SourceView;

    open spec fn view(&self) -> SourceView {
        match self {
            Source::Path(p) => SourceView::Path(p@),
            Source::Url(u) => SourceView::Url(u@),
        }
    }
}

/// A URL of a video site: it names a known site and is not itself a media file.
pub open spec fn video_site_url(url: Seq<char>) -> bool {
    let u = text::ascii_lower(url);
    &&& !text::ends_with(u, ".mp4"@)
    &&& !text::ends_with(u, ".mkv"@)
    &&& !text::ends_with(u, ".webm"@)
    &&& !text::ends_with(u, ".mov"@)
    &&& (text::contains(u, "youtube.com/"@) || text::contains(u, "youtu.be/"@) || text::contains(
        u,
        "vimeo.com/"@,
    ) || text::contains(u, "twitch.tv/"@))
}

impl Source {
    /// Parses a command-line argument: anything with a scheme is a URL, all else a path.
    pub fn parse(s: &str) -> (r: Source)
        ensures
            r@ == (if text::contains(s@, "://"@) {
                SourceView::Url(s@)
            } else {
                SourceView::Path(s@)
            }),
    {
        let c = chars_of(s);
        if has_str(c.as_slice(), "://") {
            Source::Url(s.to_owned())
        } else {
            Source::Path(s.to_owned())
        }
    }

    /// A copy of the source.
    pub fn copy(&self) -> (r: Source)
        ensures
            r@ == self@,
    {
        match self {
            Source::Path(p) => Source::Path(p.clone()),
            Source::Url(u) => Source::Url(u.clone()),
        }
    }

    /// Display form used as `source_uri`: a URL stands for itself, a path becomes a `file` URI of
    /// its canonical form when it has one.
    pub fn uri(&self, canonical: Option<&str>) -> (s: String)
        ensures
            s@ == (match self@ {
                SourceView::Url(u) => u,
                SourceView::Path(p) => "file://"@ + (match canonical {
                    Some(c) => c@,
                    None => p,
                }),
            }),
    {
        match self {
            Source::Url(u) => u.clone(),
            Source::Path(p) => {
                let mut s = "file://".to_owned();
                match canonical {
                    Some(c) => s.append(c),
                    None => s.append(p.as_str()),
                }
                s
            },
        }
    }

    /// True for YouTube and other video-site URLs yt-dlp handles.
    pub fn is_video_site(&self) -> (b: bool)
        ensures
            b == (match self@ {
                SourceView::Url(u) => video_site_url(u),
                SourceView::Path(_) => false,
            }),
    {
        match self {
            Source::Url(url) => {
                let c = chars_of(url.as_str());
                let l = to_ascii_lower(c.as_slice());
                let u = l.as_slice();
                !has_str_suffix(u, ".mp4") && !has_str_suffix(u, ".mkv") && !has_str_suffix(
                    u,
                    ".webm",
                ) && !has_str_suffix(u, ".mov") && (has_str(u, "youtube.com/") || has_str(
                    u,
                    "youtu.be/",
                ) || has_str(u, "vimeo.com/") || has_str(u, "twitch.tv/"))
            },
            Source::Path(_) => false,
        }
    }
}

/// Extensions of video containers, lower case.
pub open spec fn video_extension(e: Seq<char>) -> bool {
    e == "mp4"@ || e == "mkv"@ || e == "webm"@ || e == "mov"@ || e == "m4v"@ || e == "avi"@ || e
        == "ts"@ || e == "mpg"@ || e == "mpeg"@
}

/// Whether a path looks like a video container.
pub fn is_video_file(p: &str) -> (b: bool)
    ensures
        b == (match path::lower_extension(p@) {
            Some(e) => video_extension(e),
            None => false,
        }),
{
    match path::lower_extension_of(p) {
        Some(ext) => {
            let e = ext.as_slice();
            text_is(e, "mp4") || text_is(e, "mkv") || text_is(e, "webm") || text_is(e, "mov")
                || text_is(e, "m4v") || text_is(e, "avi") || text_is(e, "ts") || text_is(e, "mpg")
                || text_is(e, "mpeg")
        },
        None => false,
    }
}

fn text_is(a: &[char], s: &str) -> (b: bool)
    ensures
        b == (a@ == s@),
{
    let c = chars_of(s);
    same_text(a, c.as_slice())
}

/// Local files. Files under `<cache_dir>/incoming/` are moved into the cache together with their
/// sidecars.
#[derive(Debug)]
pub struct LocalFile {
    /// Content-addressed media cache; `None` disables moving.
    pub cache_dir: Option<String>,
}

impl LocalFile {
    /// Acquirer that leaves files where they are.
    pub fn new() -> (l: LocalFile)
        ensures
            l.cache_dir is None,
    {
        LocalFile { cache_dir: None }
    }

    /// Acquirer that moves files from `<cache_dir>/incoming/` into the cache.
    pub fn with_cache(cache_dir: String) -> (l: LocalFile)
        ensures
            l.cache_dir == Some(cache_dir),
    {
        LocalFile { cache_dir: Some(cache_dir) }
    }

    /// Where the incoming directory lives, if a cache is configured.
    pub fn incoming_dir(&self) -> (r: Option<String>)
        ensures
            r is Some <==> self.cache_dir is Some,
            r matches Some(d) ==> d@ == path::joined(self.cache_dir->0@, "incoming"@),
    {
        match &self.cache_dir {
            Some(c) => Some(path::join(c.as_str(), "incoming")),
            None => None,
        }
    }

    /// Whether a file has to move into the cache: it lies in the incoming directory. Both paths
    /// are canonical, and a path that has no canonical form never moves.
    pub fn should_move(&self, incoming: Option<&str>, file: Option<&str>) -> (b: bool)
        ensures
            b == (self.cache_dir is Some && incoming is Some && file is Some && path::is_under(
                file->0@,
                incoming->0@,
            )),
    {
        match (&self.cache_dir, incoming, file) {
            (Some(_), Some(i), Some(f)) => path::lies_under(f, i),
            _ => false,
        }
    }

    /// Whether this acquirer handles the source.
    pub fn handles(&self, source: &Source) -> (b: bool)
        ensures
            b == (source@ is Path),
    {
        match source {
            Source::Path(_) => true,
            Source::Url(_) => false,
        }
    }
}

/// The video files among files.
pub open spec fn video_files(files: Seq<Seq<char>>) -> Seq<Seq<char>>
    decreases files.len(),
{
    if files.len() == 0 {
        Seq::empty()
    } else {
        let rest = video_files(files.drop_last());
        if match path::lower_extension(files.last()) {
            Some(e) => video_extension(e),
            None => false,
        } {
            rest.push(files.last())
        } else {
            rest
        }
    }
}

impl LocalFile {
    /// The sources that a source stands for: a directory stands for its video files, in order of
    /// their paths, and anything else for itself. `files` has the paths of the files in it.
    pub fn expand(&self, source: &Source, is_dir: bool, files: &Vec<String>) -> (r: Vec<Source>)
        ensures
            source_views(r@) == (if source@ is Path && is_dir {
                text::ordered(video_files(text::strings_of(files@))).map_values(
                    |p: Seq<char>| SourceView::Path(p),
                )
            } else {
                seq![source@]
            }),
    {
        let mut out: Vec<Source> = Vec::new();
        let dir: bool = match source {
            Source::Path(_) => is_dir,
            Source::Url(_) => false,
        };
        if !dir {
            out.push(source.copy());
            proof {
                assert(source_views(out@) =~= seq![source@]);
            }
            return out;
        }
        let ghost all = text::strings_of(files@);
        let mut sorted: Vec<String> = Vec::new();
        let mut i: usize = 0;
        proof {
            assert(all.take(0) =~= Seq::<Seq<char>>::empty());
            assert(text::strings_of(sorted@) =~= Seq::<Seq<char>>::empty());
        }
        while i < files.len()
            invariant
                i <= files@.len(),
                all == text::strings_of(files@),
                text::strings_of(sorted@) == text::ordered(video_files(all.take(i as int))),
            decreases files@.len() - i,
        {
            let ghost before = video_files(all.take(i as int));
            proof {
                assert(all.take(i + 1).drop_last() =~= all.take(i as int));
                assert(all.take(i + 1).last() == files@[i as int]@);
            }
            if is_video_file(files[i].as_str()) {
                proof {
                    let now = before.push(files@[i as int]@);
                    assert(now.drop_last() =~= before);
                }
                text::place_text(&mut sorted, files[i].clone());
            }
            i = i + 1;
        }
        proof {
            assert(all.take(i as int) =~= all);
        }
        let ghost order = text::strings_of(sorted@);
        let mut k: usize = 0;
        while k < sorted.len()
            invariant
                k <= sorted@.len(),
                order == text::strings_of(sorted@),
                out@.len() == k,
                forall|j: int| 0 <= j < k ==> (#[trigger] out@[j])@ == SourceView::Path(order[j]),
            decreases sorted@.len() - k,
        {
            proof {
                assert(order[k as int] == sorted@[k as int]@);
            }
            out.push(Source::Path(sorted[k].clone()));
            k = k + 1;
        }
        proof {
            assert(source_views(out@) =~= order.map_values(|p: Seq<char>| SourceView::Path(p)));
        }
        out
    }
}

impl Default for LocalFile {
    fn default() -> (l: LocalFile)
        ensures
            l.cache_dir is None,
    {
        LocalFile::new()
    }
}

/// One step of moving a file into the cache.
#[derive(Debug)]
pub enum MoveStep {
    /// Rename `.0` to `.1`.
    Rename(String, String),
    /// Delete a duplicate.
    Remove(String),
}

/// A step as a mathematical value.
pub enum MoveView {
    /// Rename `.0` to `.1`.
    Rename(Seq<char>, Seq<char>),
    /// Delete.
    Remove(Seq<char>),
}

impl View for MoveStep {
    type V = MoveView;

    open spec fn view(&self) -> MoveView {
        match self {
            MoveStep::Rename(a, b) => MoveView::Rename(a@, b@),
            MoveStep::Remove(a) => MoveView::Remove(a@),
        }
    }
}

/// Steps as mathematical values.
pub open spec fn move_views(s: Seq<MoveStep>) -> Seq<MoveView> {
    s.map_values(|m: MoveStep| m@)
}

/// What happens to a file whose place in the cache is `to`: it goes there, unless the same
/// content is there already, in which case the copy is dropped.
pub open spec fn place(from: Seq<char>, to: Seq<char>, exists: bool) -> MoveView {
    if exists {
        MoveView::Remove(from)
    } else {
        MoveView::Rename(from, to)
    }
}

fn place_step(from: &str, to: &str, exists: bool) -> (m: MoveStep)
    ensures
        m@ == place(from@, to@, exists),
{
    if exists {
        MoveStep::Remove(from.to_owned())
    } else {
        MoveStep::Rename(from.to_owned(), to.to_owned())
    }
}

/// The name of a media file in the cache: its content hash and its lower-case extension, `mp4`
/// when it has none.
pub open spec fn cached_media_name(hash: Seq<char>, file: Seq<char>) -> Seq<char> {
    hash + "."@ + (match path::lower_extension(file) {
        Some(e) => e,
        None => "mp4"@,
    })
}

/// The extension of a subtitle format.
pub open spec fn format_extension(f: SubtitleFormat) -> Seq<char> {
    match f {
        SubtitleFormat::Srt => "srt"@,
        SubtitleFormat::Vtt => "vtt"@,
    }
}

/// The name of a subtitle file in the cache.
pub open spec fn cached_subtitle_name(hash: Seq<char>, s: SubtitleFile) -> Seq<char> {
    match s.language {
        Some(l) => hash + "."@ + l@ + "."@ + format_extension(s.format),
        None => hash + "."@ + format_extension(s.format),
    }
}

/// The name of a media file in the cache.
pub fn cache_media_name(hash: &str, file: &str) -> (s: String)
    ensures
        s@ == cached_media_name(hash@, file@),
{
    let mut s = hash.to_owned();
    s.append(".");
    match path::lower_extension_of(file) {
        Some(e) => {
            let es = string_of(e.as_slice());
            s.append(es.as_str());
        },
        None => s.append("mp4"),
    }
    s
}

/// The name of a subtitle file in the cache.
pub fn cache_subtitle_name(hash: &str, f: &SubtitleFile) -> (s: String)
    ensures
        s@ == cached_subtitle_name(hash@, *f),
{
    let mut s = hash.to_owned();
    s.append(".");
    match &f.language {
        Some(l) => {
            s.append(l.as_str());
            s.append(".");
        },
        None => {},
    }
    match f.format {
        SubtitleFormat::Srt => s.append("srt"),
        SubtitleFormat::Vtt => s.append("vtt"),
    }
    s
}

/// The steps that bring a media file and its sidecars into the cache: the media file, then the
/// `.info.json` if there is one, then the subtitles in order.
pub open spec fn cache_steps(
    cache: Seq<char>,
    file: Seq<char>,
    hash: Seq<char>,
    media_exists: bool,
    info: Option<(Seq<char>, bool)>,
    subs: Seq<SubtitleFile>,
    sub_exists: Seq<bool>,
) -> Seq<MoveView> {
    let media = seq![
        place(file, path::joined(cache, cached_media_name(hash, file)), media_exists),
    ];
    let infos = match info {
        Some((p, exists)) => seq![place(p, path::joined(cache, hash + ".info.json"@), exists)],
        None => Seq::empty(),
    };
    media + infos + Seq::new(
        subs.len(),
        |i: int|
            place(
                subs[i].path@,
                path::joined(cache, cached_subtitle_name(hash, subs[i])),
                sub_exists[i],
            ),
    )
}

/// Plans the move of a media file and its sidecars into the cache. `info` is the path of the
/// `.info.json` and whether the cache holds one for this content; `sub_exists` says the same of
/// each subtitle.
pub fn plan_cache_move(
    cache: &str,
    file: &str,
    hash: &str,
    media_exists: bool,
    info: Option<(&str, bool)>,
    subs: &Vec<SubtitleFile>,
    sub_exists: &Vec<bool>,
) -> (r: (String, Vec<MoveStep>, Vec<SubtitleFile>))
    requires
        sub_exists@.len() == subs@.len(),
    ensures
        r.0@ == path::joined(cache@, cached_media_name(hash@, file@)),
        move_views(r.1@) == cache_steps(
            cache@,
            file@,
            hash@,
            media_exists,
            match info {
                Some((p, e)) => Some((p@, e)),
                None => None,
            },
            subs@,
            sub_exists@,
        ),
        r.2@.len() == subs@.len(),
        forall|i: int|
            0 <= i < subs@.len() ==> {
                &&& (#[trigger] r.2@[i]).path@ == path::joined(
                    cache@,
                    cached_subtitle_name(hash@, subs@[i]),
                )
                &&& same_language(r.2@[i].language, subs@[i].language)
                &&& r.2@[i].format == subs@[i].format
            },
{
    let name = cache_media_name(hash, file);
    let dest = path::join(cache, name.as_str());
    let mut steps: Vec<MoveStep> = Vec::new();
    steps.push(place_step(file, dest.as_str(), media_exists));
    match info {
        Some((p, exists)) => {
            let mut n = hash.to_owned();
            n.append(".info.json");
            let d = path::join(cache, n.as_str());
            steps.push(place_step(p, d.as_str(), exists));
        },
        None => {},
    }
    let ghost head = move_views(steps@);
    let mut moved: Vec<SubtitleFile> = Vec::new();
    let mut i: usize = 0;
    while i < subs.len()
        invariant
            i <= subs@.len() == sub_exists@.len(),
            moved@.len() == i,
            move_views(steps@) == head + Seq::new(
                i as nat,
                |k: int|
                    place(
                        subs@[k].path@,
                        path::joined(cache@, cached_subtitle_name(hash@, subs@[k])),
                        sub_exists@[k],
                    ),
            ),
            forall|k: int|
                0 <= k < i ==> {
                    &&& (#[trigger] moved@[k]).path@ == path::joined(
                        cache@,
                        cached_subtitle_name(hash@, subs@[k]),
                    )
                    &&& same_language(moved@[k].language, subs@[k].language)
                    &&& moved@[k].format == subs@[k].format
                },
        decreases subs@.len() - i,
    {
        let s = &subs[i];
        let n = cache_subtitle_name(hash, s);
        let d = path::join(cache, n.as_str());
        let ghost before = steps@;
        steps.push(place_step(s.path.as_str(), d.as_str(), sub_exists[i]));
        proof {
            assert(move_views(steps@) =~= move_views(before).push(
                place(
                    subs@[i as int].path@,
                    path::joined(cache@, cached_subtitle_name(hash@, subs@[i as int])),
                    sub_exists@[i as int],
                ),
            ));
            assert(move_views(steps@) =~= head + Seq::new(
                (i + 1) as nat,
                |k: int|
                    place(
                        subs@[k].path@,
                        path::joined(cache@, cached_subtitle_name(hash@, subs@[k])),
                        sub_exists@[k],
                    ),
            ));
        }
        let language = match &s.language {
            Some(l) => Some(l.clone()),
            None => None,
        };
        moved.push(SubtitleFile { path: d, language, format: s.format });
        i = i + 1;
    }
    proof {
        let infos = match info {
            Some((p, exists)) => seq![
                place(p@, path::joined(cache@, hash@ + ".info.json"@), exists),
            ],
            None => Seq::empty(),
        };
        assert(head =~= seq![
            place(file@, path::joined(cache@, cached_media_name(hash@, file@)), media_exists),
        ] + infos);
    }
    (dest, steps, moved)
}

/// Two optional language tags say the same.
pub open spec fn same_language(a: Option<String>, b: Option<String>) -> bool {
    match (a, b) {
        (Some(x), Some(y)) => x@ == y@,
        (None, None) => true,
        _ => false,
    }
}

/// Content that is cached under its hash never moves to a second place: with the same hash and
/// extension the target is the same, so the later copy is a duplicate.
pub proof fn law_same_content_same_place(
    cache: Seq<char>,
    hash: Seq<char>,
    a: Seq<char>,
    b: Seq<char>,
)
    requires
        path::lower_extension(a) == path::lower_extension(b),
    ensures
        path::joined(cache, cached_media_name(hash, a)) == path::joined(
            cache,
            cached_media_name(hash, b),
        ),
{
}

/// What precedes the first hyphen of a language tag, in lower case.
pub open spec fn base_language(lang: Seq<char>) -> Seq<char> {
    text::ascii_lower(
        match text::first_index(lang, '-') {
            Some(i) => lang.take(i),
            None => lang,
        },
    )
}

/// Whether a subtitle file is human-authored: its language, or its base language, is listed among
/// the languages with authored subtitles; a file without a language counts as authored when there
/// is no `.info.json` to say otherwise.
pub fn subtitle_is_human(
    language: Option<&str>,
    subtitle_languages: &Vec<String>,
    has_info: bool,
) -> (b: bool)
    ensures
        b == (match language {
            None => !has_info,
            Some(lang) => exists|i: int|
                0 <= i < subtitle_languages@.len() && (text::ascii_lower(
                    #[trigger] subtitle_languages@[i]@,
                ) == text::ascii_lower(lang@) || text::ascii_lower(subtitle_languages@[i]@)
                    == text::ascii_lower(base_language(lang@))),
        }),
{
    match language {
        None => !has_info,
        Some(lang) => {
            let l = chars_of(lang);
            let head = match find_char(l.as_slice(), '-') {
                Some(i) => slice_subrange(l.as_slice(), 0, i),
                None => l.as_slice(),
            };
            proof {
                match text::first_index(lang@, '-') {
                    Some(i) => {
                        assert(head@ =~= lang@.take(i));
                    },
                    None => {},
                }
            }
            let base = to_ascii_lower(head);
            let mut i: usize = 0;
            while i < subtitle_languages.len()
                invariant
                    i <= subtitle_languages@.len(),
                    language == Some(lang),
                    l@ == lang@,
                    base@ == base_language(lang@),
                    forall|k: int|
                        0 <= k < i ==> text::ascii_lower(#[trigger] subtitle_languages@[k]@)
                            != text::ascii_lower(lang@) && text::ascii_lower(
                            subtitle_languages@[k]@,
                        ) != text::ascii_lower(base_language(lang@)),
                decreases subtitle_languages@.len() - i,
            {
                let c = chars_of(subtitle_languages[i].as_str());
                if same_ignoring_case(c.as_slice(), l.as_slice()) || same_ignoring_case(
                    c.as_slice(),
                    base.as_slice(),
                ) {
                    proof {
                        assert(text::ascii_lower(subtitle_languages@[i as int]@)
                            == text::ascii_lower(lang@) || text::ascii_lower(
                            subtitle_languages@[i as int]@,
                        ) == text::ascii_lower(base_language(lang@)));
                    }
                    return true;
                }
                i = i + 1;
            }
            false
        },
    }
}

/// Downloads with `yt-dlp` into `<cache_dir>/incoming/`. The argument list is fixed; the URL is
/// the only user-controlled value and comes after `--`, so it is never read as a flag.
#[derive(Debug)]
pub struct YtDlp {
    /// Media cache root.
    pub cache_dir: String,
    /// `yt-dlp` executable.
    pub executable: String,
    /// Max video height.
    pub max_height: u32,
    /// Subtitle languages to request (`en.*,en`).
    pub sub_langs: String,
    /// Wall-clock limit per download, in seconds.
    pub timeout_secs: u64,
}

impl YtDlp {
    /// The defaults: 720 lines, English subtitles, four hours.
    pub fn new(cache_dir: String) -> (y: YtDlp)
        ensures
            y.cache_dir == cache_dir,
            y.executable@ == "yt-dlp"@,
            y.max_height == 720,
            y.sub_langs@ == "en.*,en"@,
            y.timeout_secs == 14_400,
    {
        YtDlp {
            cache_dir,
            executable: "yt-dlp".to_owned(),
            max_height: 720,
            sub_langs: "en.*,en".to_owned(),
            timeout_secs: 14_400,
        }
    }

    /// Whether this acquirer handles the source.
    pub fn handles(&self, source: &Source) -> (b: bool)
        ensures
            b == (match source@ {
                SourceView::Url(u) => video_site_url(u),
                SourceView::Path(_) => false,
            }),
    {
        source.is_video_site()
    }

    /// The directory downloads go to.
    pub open spec fn spec_incoming(self) -> Seq<char> {
        path::joined(self.cache_dir@, "incoming"@)
    }

    /// The directory downloads go to.
    pub fn incoming(&self) -> (d: String)
        ensures
            d@ == self.spec_incoming(),
    {
        path::join(self.cache_dir.as_str(), "incoming")
    }

    /// Where to look for the executable: a name with a directory stands for itself, a bare name
    /// is looked up in each directory of the search path.
    pub fn lookup_paths(&self, dirs: &Vec<String>) -> (r: Vec<String>)
        ensures
            text::first_index(self.executable@, '/') is Some ==> r@.len() == 1 && r@[0]@
                == self.executable@,
            text::first_index(self.executable@, '/') is None ==> r@.len() == dirs@.len()
                && forall|i: int|
                0 <= i < r@.len() ==> #[trigger] r@[i]@ == path::joined(
                    dirs@[i]@,
                    self.executable@,
                ),
    {
        let e = chars_of(self.executable.as_str());
        let mut r: Vec<String> = Vec::new();
        if find_char(e.as_slice(), '/').is_some() {
            r.push(self.executable.clone());
            return r;
        }
        let mut i: usize = 0;
        while i < dirs.len()
            invariant
                i <= dirs@.len(),
                r@.len() == i,
                forall|k: int|
                    0 <= k < i ==> #[trigger] r@[k]@ == path::joined(dirs@[k]@, self.executable@),
            decreases dirs@.len() - i,
        {
            r.push(path::join(dirs[i].as_str(), self.executable.as_str()));
            i = i + 1;
        }
        r
    }

    /// Whether `yt-dlp` can be found: one of the looked-up paths is a file.
    pub fn available(&self, is_file: &Vec<bool>) -> (b: bool)
        ensures
            b == is_file@.contains(true),
    {
        let mut i: usize = 0;
        while i < is_file.len()
            invariant
                i <= is_file@.len(),
                forall|k: int| 0 <= k < i ==> !#[trigger] is_file@[k],
            decreases is_file@.len() - i,
        {
            if is_file[i] {
                return true;
            }
            i = i + 1;
        }
        false
    }

    /// The error for a missing executable, with how to get it.
    pub fn missing_error(&self) -> (e: MediaError)
        ensures
            e matches MediaError::Acquire(m) && m@ == "yt-dlp not found ("@ + self.executable@
                + "). Install it: `pipx install yt-dlp`, `brew install yt-dlp`, or download the binary from https://github.com/yt-dlp/yt-dlp/releases. Note that YouTube blocks most datacenter IPs; on servers, download elsewhere and transfer into "@
                + self.spec_incoming(),
    {
        let mut m = "yt-dlp not found (".to_owned();
        m.append(self.executable.as_str());
        m.append(
            "). Install it: `pipx install yt-dlp`, `brew install yt-dlp`, or download the binary from https://github.com/yt-dlp/yt-dlp/releases. Note that YouTube blocks most datacenter IPs; on servers, download elsewhere and transfer into ",
        );
        let d = self.incoming();
        m.append(d.as_str());
        MediaError::Acquire(m)
    }

    /// The format selector: best video up to the height limit with the best audio.
    pub open spec fn spec_format(self) -> Seq<char> {
        let h = text::decimal(self.max_height as nat);
        "bv*[height<="@ + h + "][ext=mp4]+ba[ext=m4a]/bv*[height<="@ + h + "]+ba/b[height<="@ + h
            + "]/b"@
    }

    /// The arguments of a download.
    pub open spec fn spec_download_args(self, url: Seq<char>) -> Seq<Seq<char>> {
        seq![
            "--no-playlist"@,
            "--format"@,
            self.spec_format(),
            "--merge-output-format"@,
            "mp4"@,
            "--write-info-json"@,
            "--write-subs"@,
            "--write-auto-subs"@,
            "--sub-langs"@,
            self.sub_langs@,
            "--convert-subs"@,
            "srt"@,
            "--embed-chapters"@,
            "--no-overwrites"@,
            "--continue"@,
            "--retries"@,
            "10"@,
            "--fragment-retries"@,
            "10"@,
            "--download-archive"@,
            path::joined(self.spec_incoming(), "archive.txt"@),
            "--output"@,
            path::joined(self.spec_incoming(), "%(id)s.%(ext)s"@),
            "--print"@,
            "after_move:filepath"@,
            "--no-simulate"@,
            "--no-warnings"@,
            "--"@,
            url,
        ]
    }

    /// The arguments of a download.
    pub fn download_args(&self, url: &str) -> (args: Vec<String>)
        ensures
            text::strings_of(args@) == self.spec_download_args(url@),
    {
        let h = text::decimal_string(self.max_height as u64);
        let mut format = "bv*[height<=".to_owned();
        format.append(h.as_str());
        format.append("][ext=mp4]+ba[ext=m4a]/bv*[height<=");
        format.append(h.as_str());
        format.append("]+ba/b[height<=");
        format.append(h.as_str());
        format.append("]/b");
        let inc = self.incoming();
        let mut args: Vec<String> = Vec::new();
        args.push("--no-playlist".to_owned());
        args.push("--format".to_owned());
        args.push(format);
        args.push("--merge-output-format".to_owned());
        args.push("mp4".to_owned());
        args.push("--write-info-json".to_owned());
        args.push("--write-subs".to_owned());
        args.push("--write-auto-subs".to_owned());
        args.push("--sub-langs".to_owned());
        args.push(self.sub_langs.clone());
        args.push("--convert-subs".to_owned());
        args.push("srt".to_owned());
        args.push("--embed-chapters".to_owned());
        args.push("--no-overwrites".to_owned());
        args.push("--continue".to_owned());
        args.push("--retries".to_owned());
        args.push("10".to_owned());
        args.push("--fragment-retries".to_owned());
        args.push("10".to_owned());
        args.push("--download-archive".to_owned());
        args.push(path::join(inc.as_str(), "archive.txt"));
        args.push("--output".to_owned());
        args.push(path::join(inc.as_str(), "%(id)s.%(ext)s"));
        args.push("--print".to_owned());
        args.push("after_move:filepath".to_owned());
        args.push("--no-simulate".to_owned());
        args.push("--no-warnings".to_owned());
        args.push("--".to_owned());
        args.push(url.to_owned());
        proof {
            assert(text::strings_of(args@) =~= self.spec_download_args(url@));
        }
        args
    }

    /// The arguments of a playlist expansion.
    pub fn expand_args(&self, url: &str) -> (args: Vec<String>)
        ensures
            text::strings_of(args@) == seq![
                "--flat-playlist"@,
                "--yes-playlist"@,
                "--print"@,
                "%(webpage_url)s"@,
                "--no-warnings"@,
                "--"@,
                url@,
            ],
    {
        let mut args: Vec<String> = Vec::new();
        args.push("--flat-playlist".to_owned());
        args.push("--yes-playlist".to_owned());
        args.push("--print".to_owned());
        args.push("%(webpage_url)s".to_owned());
        args.push("--no-warnings".to_owned());
        args.push("--".to_owned());
        args.push(url.to_owned());
        proof {
            assert(text::strings_of(args@) =~= seq![
                "--flat-playlist"@,
                "--yes-playlist"@,
                "--print"@,
                "%(webpage_url)s"@,
                "--no-warnings"@,
                "--"@,
                url@,
            ]);
        }
        args
    }
}

/// The URL is the last argument and directly behind `--`, whatever it holds, so it is never an
/// option.
pub proof fn law_url_follows_separator(y: YtDlp, url: Seq<char>)
    ensures
        y.spec_download_args(url).last() == url,
        y.spec_download_args(url)[y.spec_download_args(url).len() - 2] == "--"@,
{
}

/// The texts that begin with `http`.
pub open spec fn web_lines(ls: Seq<Seq<char>>) -> Seq<Seq<char>>
    decreases ls.len(),
{
    if ls.len() == 0 {
        Seq::empty()
    } else {
        let before = web_lines(ls.drop_last());
        if text::starts_with(ls.last(), "http"@) {
            before.push(ls.last())
        } else {
            before
        }
    }
}

/// Sources as mathematical values.
pub open spec fn source_views(s: Seq<Source>) -> Seq<SourceView> {
    s.map_values(|x: Source| x@)
}

/// The sources that a playlist expansion printed, one URL per line; the source itself when it
/// printed none.
pub fn expanded_sources(source: &Source, stdout: &str) -> (r: Vec<Source>)
    ensures
        source_views(r@) == (if web_lines(sidecar::lines(stdout@)).len() == 0 {
            seq![source@]
        } else {
            web_lines(sidecar::lines(stdout@)).map_values(|l: Seq<char>| SourceView::Url(l))
        }),
{
    let c = chars_of(stdout);
    let ls = sidecar::lines_of(c.as_slice());
    let ghost all = text::texts_of(ls@);
    let mut out: Vec<Source> = Vec::new();
    let ghost f = |l: Seq<char>| SourceView::Url(l);
    let mut i: usize = 0;
    proof {
        assert(all.take(0) =~= Seq::<Seq<char>>::empty());
        assert(source_views(out@) =~= web_lines(all.take(0)).map_values(f));
    }
    while i < ls.len()
        invariant
            i <= ls@.len(),
            all == text::texts_of(ls@),
            f == (|l: Seq<char>| SourceView::Url(l)),
            source_views(out@) == web_lines(all.take(i as int)).map_values(f),
        decreases ls@.len() - i,
    {
        let ghost before = out@;
        proof {
            assert(all.take(i + 1).drop_last() =~= all.take(i as int));
            assert(all.take(i + 1).last() == ls@[i as int]@);
        }
        if has_str_prefix(ls[i], "http") {
            out.push(Source::Url(string_of(ls[i])));
            proof {
                let w = web_lines(all.take(i as int));
                assert(web_lines(all.take(i + 1)) == w.push(ls@[i as int]@));
                assert(source_views(out@) =~= source_views(before).push(
                    SourceView::Url(ls@[i as int]@),
                ));
                assert(w.push(ls@[i as int]@).map_values(f) =~= w.map_values(f).push(
                    SourceView::Url(ls@[i as int]@),
                ));
            }
        }
        i = i + 1;
    }
    proof {
        assert(all.take(i as int) =~= all);
        assert(source_views(out@).len() == out@.len());
    }
    if out.len() == 0 {
        out.push(source.copy());
        proof {
            assert(source_views(out@) =~= seq![source@]);
        }
    }
    out
}

/// The path that a download printed: its last non-empty line.
pub fn printed_path(stdout: &str) -> (r: Option<String>)
    ensures
        match r {
            Some(p) => sidecar::lines(stdout@).len() > 0 && p@ == sidecar::lines(stdout@).last(),
            None => sidecar::lines(stdout@).len() == 0,
        },
{
    let c = chars_of(stdout);
    let ls = sidecar::lines_of(c.as_slice());
    let ghost all = text::texts_of(ls@);
    proof {
        assert(all.len() == ls@.len());
    }
    if ls.len() == 0 {
        None
    } else {
        let last = ls[ls.len() - 1];
        proof {
            assert(all.last() == last@);
        }
        Some(string_of(last))
    }
}

/// Files are taken one by one: a video file gives itself, in order, and any other nothing.
pub proof fn law_video_files_are_taken_one_by_one(a: Seq<Seq<char>>, b: Seq<Seq<char>>, one: Seq<char>)
    ensures
        video_files(a + b) == video_files(a) + video_files(b),
        video_files(seq![one]) == (match path::lower_extension(one) {
            Some(e) if video_extension(e) => seq![one],
            _ => Seq::empty(),
        }),
    decreases b.len(),
{
    reveal_with_fuel(video_files, 2);
    assert(seq![one].drop_last() =~= Seq::<Seq<char>>::empty());
    if b.len() == 0 {
        assert(a + b =~= a);
    } else {
        law_video_files_are_taken_one_by_one(a, b.drop_last(), one);
        assert((a + b).drop_last() =~= a + b.drop_last());
    }
}

/// Lines are taken one by one: an address of the web gives itself, in order, and any other line
/// nothing.
pub proof fn law_web_lines_are_taken_one_by_one(a: Seq<Seq<char>>, b: Seq<Seq<char>>, one: Seq<char>)
    ensures
        web_lines(a + b) == web_lines(a) + web_lines(b),
        web_lines(seq!["http"@ + one]) == seq!["http"@ + one],
        one.len() > 0 && one[0] != 'h' ==> web_lines(seq![one]).len() == 0,
    decreases b.len(),
{
    reveal_with_fuel(web_lines, 2);
    reveal_strlit("http");
    let web = "http"@ + one;
    assert(seq![one].drop_last() =~= Seq::<Seq<char>>::empty());
    assert(seq![web].drop_last() =~= Seq::<Seq<char>>::empty());
    assert(web.subrange(0, 4) =~= "http"@);
    assert(text::starts_with(web, "http"@));
    if one.len() > 0 && one[0] != 'h' && text::starts_with(one, "http"@) {
        assert(one.subrange(0, 4)[0] == one[0]);
    }
    if b.len() == 0 {
        assert(a + b =~= a);
    } else {
        law_web_lines_are_taken_one_by_one(a, b.drop_last(), one);
        assert((a + b).drop_last() =~= a + b.drop_last());
    }
}

/// The base of a language is what stands before the first dash, in small letters.
pub proof fn law_languages_have_a_base(a: Seq<char>, b: Seq<char>)
    requires
        text::free_of(a, '-'),
    ensures
        base_language(a) == text::ascii_lower(a),
        base_language(a + seq!['-'] + b) == text::ascii_lower(a),
{
    let s = a + seq!['-'] + b;
    let n = a.len() as int;
    text::law_places_of_a_character(a, '-');
    text::law_places_of_a_character(s, '-');
    assert(s[n] == '-');
    if let Some(i) = text::first_index(s, '-') {
        if i < n {
            assert(s[i] == a[i]);
        }
        assert(s.take(n) =~= a);
    }
}

/// An address of a media file is no page of a video site, wherever it lies.
pub proof fn law_media_files_are_no_pages(u: Seq<char>)
    ensures
        !video_site_url(u + ".mp4"@),
        !video_site_url(u + ".mkv"@),
        !video_site_url(u + ".webm"@),
        !video_site_url(u + ".mov"@),
{
    reveal_strlit(".mp4");
    reveal_strlit(".mkv");
    reveal_strlit(".webm");
    reveal_strlit(".mov");
    lemma_ends_lower(u, ".mp4"@);
    lemma_ends_lower(u, ".mkv"@);
    lemma_ends_lower(u, ".webm"@);
    lemma_ends_lower(u, ".mov"@);
}

proof fn lemma_ends_lower(u: Seq<char>, e: Seq<char>)
    requires
        forall|i: int| 0 <= i < e.len() ==> !('A' <= #[trigger] e[i] <= 'Z'),
    ensures
        text::ends_with(text::ascii_lower(u + e), e),
{
    let s = text::ascii_lower(u + e);
    assert(s.subrange(s.len() - e.len(), s.len() as int) =~= e);
}

} // verus!
