//! Single stages of a job: sampling, subtitle import, transcription and chapters, as far as they
//! decide anything, and what a stage is expected to cost.

use vstd::prelude::*;

use crate::acquired::Acquired;
use crate::describe::TimedText;
use crate::frame::FrameMeta;
use crate::hashing::{self, hash_prefix};
use crate::model::{Segment, TranscriptSpan};
use crate::probe::{Track, TrackKind};
use crate::protocol::VideoDecodeRequest;
use crate::sidecar::{group_cues, Cue, SubtitleFile, SubtitleFormat};
use crate::text::{self, head_text, join_strings, str_is};
use crate::timestamp::Timestamp;
use crate::{acquire, batch, describe, sidecar};

verus! {

/// A frame sample row.
#[derive(Debug)]
pub struct FrameSample {
    /// Id.
    pub id: u128,
    /// Track.
    pub track_id: u128,
    /// Time.
    pub t: Timestamp,
    /// PTS in the track timebase.
    pub pts: i64,
    /// Keyframe flag.
    pub is_keyframe: bool,
    /// Hash.
    pub phash: Option<u64>,
    /// Key of the thumbnail.
    pub thumbnail_blob: Option<String>,
    /// Source width.
    pub width: u32,
    /// Source height.
    pub height: u32,
}

/// Frame sampler.
#[derive(Clone, Copy, Debug, PartialEq, Eq, Structural)]
pub struct Sample;

impl Sample {
    /// New sampler.
    pub fn new() -> (s: Sample)
        ensures
            s == Sample,
    {
        Sample
    }

    /// What the decoder is asked for: the video track of a file at a rate and a size.
    pub fn request(&self, path: String, stream_index: u32, fps_milli: i64, max_dim: u32) -> (r:
        VideoDecodeRequest)
        ensures
            r == (VideoDecodeRequest {
                path,
                stream_index: Some(stream_index),
                fps_milli,
                t0_us: 0,
                t1_us: None,
                max_dim,
                format: crate::frame::PixelFormat::Rgb24,
                threads: 0,
            }),
    {
        let r = VideoDecodeRequest::new(path, fps_milli, max_dim);
        VideoDecodeRequest {
            path: r.path,
            stream_index: Some(stream_index),
            fps_milli: r.fps_milli,
            t0_us: r.t0_us,
            t1_us: r.t1_us,
            max_dim: r.max_dim,
            format: r.format,
            threads: r.threads,
        }
    }

    /// The row of a sampled frame: its size is that of the source, and what later stages find
    /// out is still open.
    pub fn row(&self, meta: FrameMeta, track_id: u128, id: u128) -> (r: FrameSample)
        ensures
            r == (FrameSample {
                id,
                track_id,
                t: meta.t,
                pts: meta.pts,
                is_keyframe: meta.is_keyframe,
                phash: None,
                thumbnail_blob: None,
                width: meta.source_width,
                height: meta.source_height,
            }),
    {
        FrameSample {
            id,
            track_id,
            t: meta.t,
            pts: meta.pts,
            is_keyframe: meta.is_keyframe,
            phash: None,
            thumbnail_blob: None,
            width: meta.source_width,
            height: meta.source_height,
        }
    }
}

/// Stream index of the first sidecar track.
pub const SIDECAR_STREAM_BASE: u32 = 1000;

/// Length of imported spans, in milliseconds.
pub const GROUP_MS: u32 = 15_000;

/// Pause that ends an imported span, in milliseconds.
pub const GAP_MS: u32 = 2_000;

/// Subtitle importer.
#[derive(Clone, Copy, Debug, PartialEq, Eq, Structural)]
pub struct SubtitleImport;

impl SubtitleImport {
    /// New importer.
    pub fn new() -> (s: SubtitleImport)
        ensures
            s == SubtitleImport,
    {
        SubtitleImport
    }
}

/// The text of cues, a line for each.
pub open spec fn cue_lines(cues: Seq<sidecar::CueView>, n: int) -> Seq<char>
    decreases n,
{
    if n <= 0 {
        Seq::empty()
    } else {
        cue_lines(cues, n - 1) + cues[n - 1].text + "\n"@
    }
}

/// What tells the text of two subtitle files apart.
pub open spec fn cue_digest(cues: Seq<sidecar::CueView>) -> Seq<char> {
    hashing::blake3_hex(
        vstd::utf8::encode_utf8(cue_lines(cues, cues.len() as int)),
    ).take(64)
}

fn digest_of(cues: &Vec<Cue>) -> (r: String)
    ensures
        r@ == cue_digest(sidecar::cue_views(cues@)),
{
    let ghost all = sidecar::cue_views(cues@);
    let mut t = "".to_owned();
    let mut i: usize = 0;
    proof {
        reveal_strlit("");
        assert(t@ =~= Seq::<char>::empty());
    }
    while i < cues.len()
        invariant
            i <= cues@.len(),
            all == sidecar::cue_views(cues@),
            t@ == cue_lines(all, i as int),
        decreases cues@.len() - i,
    {
        proof {
            assert(all[i as int] == cues@[i as int]@);
        }
        t.append(cues[i].text.as_str());
        t.append("\n");
        i = i + 1;
    }
    hash_prefix(t.as_str(), 64)
}

/// A subtitle file's track and spans.
#[derive(Debug)]
pub struct Imported {
    /// Track.
    pub track: Track,
    /// Spans.
    pub spans: Vec<TranscriptSpan>,
}

/// The track of a subtitle file.
pub open spec fn is_subtitle_track(
    t: Track,
    id: u128,
    video: u128,
    i: int,
    file: SubtitleFile,
) -> bool {
    &&& t.id == id
    &&& t.video_id == video
    &&& t.kind == TrackKind::Subtitle
    &&& t.stream_index == 1000 + i
    &&& t.codec@ == (match file.format {
        SubtitleFormat::Srt => "srt"@,
        SubtitleFormat::Vtt => "webvtt"@,
    })
    &&& t.timebase_num == 1
    &&& t.timebase_den == 1000
    &&& t.width is None
    &&& t.height is None
    &&& t.fps is None
    &&& t.sample_rate is None
    &&& t.channels is None
    &&& text::opt_text(t.language) == text::opt_text(file.language)
}

/// The span of a cue: certain where people wrote it.
pub open spec fn is_cue_span(
    s: TranscriptSpan,
    c: sidecar::CueView,
    track: u128,
    file: SubtitleFile,
    human: bool,
    id: u128,
    prov: u128,
) -> bool {
    &&& s.id == id
    &&& s.track_id == track
    &&& s.t0 == c.t0
    &&& s.t1 == c.t1
    &&& s.text@ == c.text
    &&& s.speaker is None
    &&& text::opt_text(s.language) == text::opt_text(file.language)
    &&& text::opt_text(s.confidence) == Some(
        if human {
            "1.0"@
        } else {
            "0.6"@
        },
    )
    &&& s.words is None
    &&& s.provenance_id == prov
}

/// A file's import is its track and a span for each group of its cues.
pub open spec fn imports(
    m: Imported,
    cues: Seq<sidecar::CueView>,
    file: SubtitleFile,
    i: int,
    human: bool,
    video: u128,
    track_id: u128,
    ids: Seq<u128>,
    prov: u128,
) -> bool {
    let g = sidecar::grouped(cues, GROUP_MS, GAP_MS);
    &&& is_subtitle_track(m.track, track_id, video, i, file)
    &&& m.spans@.len() == g.len()
    &&& forall|k: int|
        0 <= k < m.spans@.len() ==> is_cue_span(
            #[trigger] m.spans@[k],
            g[k],
            track_id,
            file,
            human,
            ids[k],
            prov,
        )
}

fn copy_text(s: &Option<String>) -> (r: Option<String>)
    ensures
        text::opt_text(r) == text::opt_text(*s),
{
    match s {
        Some(t) => Some(t.as_str().to_owned()),
        None => None,
    }
}

/// An import of all subtitle files of a video.
#[derive(Debug)]
pub struct SubtitleRun {
    /// Digests of what was imported.
    pub seen: Vec<String>,
}

impl SubtitleRun {
    /// Nothing was imported yet.
    pub fn new() -> (r: SubtitleRun)
        ensures
            r.seen@.len() == 0,
    {
        SubtitleRun { seen: Vec::new() }
    }

    fn was_seen(&self, digest: &str) -> (b: bool)
        ensures
            b == text::strings_of(self.seen@).contains(digest@),
    {
        let ghost all = text::strings_of(self.seen@);
        let mut i: usize = 0;
        while i < self.seen.len()
            invariant
                i <= self.seen@.len(),
                all == text::strings_of(self.seen@),
                forall|k: int| 0 <= k < i ==> #[trigger] all[k] != digest@,
            decreases self.seen@.len() - i,
        {
            proof {
                assert(all[i as int] == self.seen@[i as int]@);
            }
            if str_is(self.seen[i].as_str(), digest) {
                return true;
            }
            i = i + 1;
        }
        false
    }

    /// Imports the cues of file number `i`: nothing if a file with the same text was imported
    /// before, or if there is nothing to import. `ids` has an id for each cue.
    pub fn import(
        &mut self,
        i: u32,
        file: &SubtitleFile,
        cues: &Vec<Cue>,
        human: bool,
        video: u128,
        track_id: u128,
        ids: &Vec<u128>,
        prov: u128,
    ) -> (r: Option<Imported>)
        requires
            i <= 0xffff_ffff - 1000,
            ids@.len() >= sidecar::grouped(
                sidecar::cue_views(cues@),
                GROUP_MS,
                GAP_MS,
            ).len(),
        ensures
            ({
                let v = sidecar::cue_views(cues@);
                let known = text::strings_of(old(self).seen@).contains(cue_digest(v));
                &&& text::strings_of(final(self).seen@) == (if known {
                    text::strings_of(old(self).seen@)
                } else {
                    text::strings_of(old(self).seen@).push(cue_digest(v))
                })
                &&& r is Some <==> !known && sidecar::grouped(v, GROUP_MS, GAP_MS).len() > 0
                &&& r matches Some(m) ==> imports(
                    m,
                    v,
                    *file,
                    i as int,
                    human,
                    video,
                    track_id,
                    ids@,
                    prov,
                )
            }),
    {
        let digest = digest_of(cues);
        if self.was_seen(digest.as_str()) {
            return None;
        }
        let ghost before = text::strings_of(self.seen@);
        self.seen.push(digest);
        proof {
            assert(text::strings_of(self.seen@) =~= before.push(digest@));
        }
        let groups = group_cues(cues.as_slice(), GROUP_MS, GAP_MS);
        let ghost g = sidecar::grouped(sidecar::cue_views(cues@), GROUP_MS, GAP_MS);
        if groups.len() == 0 {
            return None;
        }
        let codec = match file.format {
            SubtitleFormat::Srt => "srt".to_owned(),
            SubtitleFormat::Vtt => "webvtt".to_owned(),
        };
        let track = Track {
            id: track_id,
            video_id: video,
            kind: TrackKind::Subtitle,
            stream_index: SIDECAR_STREAM_BASE + i,
            codec,
            timebase_num: 1,
            timebase_den: 1000,
            width: None,
            height: None,
            fps: None,
            sample_rate: None,
            channels: None,
            language: copy_text(&file.language),
        };
        let mut spans: Vec<TranscriptSpan> = Vec::new();
        let mut k: usize = 0;
        while k < groups.len()
            invariant
                k <= groups@.len() == g.len(),
                g.len() <= ids@.len(),
                sidecar::cue_views(groups@) == g,
                spans@.len() == k,
                forall|j: int|
                    0 <= j < k ==> is_cue_span(
                        #[trigger] spans@[j],
                        g[j],
                        track_id,
                        *file,
                        human,
                        ids@[j],
                        prov,
                    ),
            decreases groups@.len() - k,
        {
            let c = &groups[k];
            proof {
                assert(g[k as int] == groups@[k as int]@);
            }
            let confidence = if human {
                "1.0".to_owned()
            } else {
                "0.6".to_owned()
            };
            spans.push(
                TranscriptSpan {
                    id: ids[k],
                    track_id,
                    t0: c.t0,
                    t1: c.t1,
                    text: c.text.as_str().to_owned(),
                    speaker: None,
                    language: copy_text(&file.language),
                    confidence: Some(confidence),
                    words: None,
                    provenance_id: prov,
                },
            );
            k = k + 1;
        }
        Some(Imported { track, spans })
    }
}

/// Whether a video came with human-authored subtitles.
pub fn any_human(a: &Acquired) -> (b: bool)
    ensures
        b == exists|i: int|
            0 <= i < a.subtitle_files@.len() && authored(*a, #[trigger] a.subtitle_files@[i]),
{
    let mut i: usize = 0;
    while i < a.subtitle_files.len()
        invariant
            i <= a.subtitle_files@.len(),
            forall|k: int|
                0 <= k < i ==> !authored(*a, #[trigger] a.subtitle_files@[k]),
        decreases a.subtitle_files@.len() - i,
    {
        if a.subtitle_is_human(&a.subtitle_files[i]) {
            proof {
                assert(authored(*a, a.subtitle_files@[i as int]));
            }
            return true;
        }
        i = i + 1;
    }
    false
}

/// A subtitle file that people wrote.
pub open spec fn authored(a: Acquired, f: SubtitleFile) -> bool {
    match text::opt_text(f.language) {
        None => a.info is None,
        Some(lang) => exists|i: int|
            0 <= i < a.subtitle_languages@.len() && (text::ascii_lower(
                #[trigger] a.subtitle_languages@[i]@,
            ) == text::ascii_lower(lang) || text::ascii_lower(a.subtitle_languages@[i]@)
                == text::ascii_lower(acquire::base_language(lang))),
    }
}

/// How transcription starts.
#[derive(Clone, Copy, Debug, PartialEq, Eq, Structural)]
pub enum AsrStart {
    /// There is no audio.
    NoAudio,
    /// Subtitles that people wrote make it needless.
    Skip,
    /// Earlier spans of this track are replaced.
    Begin(u128),
}

/// Transcription under way.
#[derive(Clone, Copy, Debug, PartialEq, Eq, Structural)]
pub struct AsrStage {
    /// Audio track.
    pub track: Option<u128>,
    /// Whether there is nothing to do.
    pub skip: bool,
    /// Requests made.
    pub requests: u64,
    /// Spans emitted.
    pub emitted: u64,
    /// Spans stored.
    pub stored: u64,
}

impl AsrStage {
    /// Nothing is known yet.
    pub fn new() -> (s: AsrStage)
        ensures
            s == (AsrStage { track: None, skip: false, requests: 0, emitted: 0, stored: 0 }),
    {
        AsrStage { track: None, skip: false, requests: 0, emitted: 0, stored: 0 }
    }

    /// The media item came.
    pub fn media(&mut self, track: Option<u128>, skip_if_human: bool, human: bool) -> (r: AsrStart)
        ensures
            r == (match track {
                None => AsrStart::NoAudio,
                Some(t) => if skip_if_human && human {
                    AsrStart::Skip
                } else {
                    AsrStart::Begin(t)
                },
            }),
            *final(self) == (AsrStage {
                track,
                skip: old(self).skip || r == AsrStart::Skip,
                ..*old(self)
            }),
    {
        self.track = track;
        match track {
            None => AsrStart::NoAudio,
            Some(t) => {
                if skip_if_human && human {
                    self.skip = true;
                    AsrStart::Skip
                } else {
                    AsrStart::Begin(t)
                }
            },
        }
    }

    /// Speech came: the track to transcribe it for, or nothing to do, or an error if the media
    /// item is still missing.
    pub fn speech(&mut self) -> (r: Result<Option<u128>, String>)
        requires
            old(self).requests < u64::MAX,
        ensures
            old(self).skip ==> r == Ok::<Option<u128>, String>(None),
            !old(self).skip ==> match old(self).track {
                Some(t) => r == Ok::<Option<u128>, String>(Some(t)),
                None => r matches Err(m) && m@ == "speech arrived before the media item"@,
            },
            *final(self) == (AsrStage {
                requests: if !old(self).skip && old(self).track is Some {
                    (old(self).requests + 1) as u64
                } else {
                    old(self).requests
                },
                ..*old(self)
            }),
    {
        if self.skip {
            return Ok(None);
        }
        match self.track {
            Some(t) => {
                self.requests = self.requests + 1;
                Ok(Some(t))
            },
            None => Err("speech arrived before the media item".to_owned()),
        }
    }

    /// Whether a new request waits for another to finish.
    pub fn is_full(in_flight: usize, concurrency: usize) -> (b: bool)
        ensures
            b == (in_flight >= concurrency && in_flight >= 1),
    {
        in_flight >= concurrency && in_flight >= 1
    }

    /// A request finished.
    pub fn finished(&mut self, emitted: u64, stored: u64)
        requires
            old(self).emitted + emitted <= u64::MAX,
            old(self).stored + stored <= u64::MAX,
        ensures
            *final(self) == (AsrStage {
                emitted: (old(self).emitted + emitted) as u64,
                stored: (old(self).stored + stored) as u64,
                ..*old(self)
            }),
    {
        self.emitted = self.emitted + emitted;
        self.stored = self.stored + stored;
    }
}

/// The texts of the spans, of the first `n`, that overlap a stretch of time.
pub open spec fn spoken_in(spans: Seq<TimedText>, t0: Timestamp, t1: Timestamp, n: int) -> Seq<
    Seq<char>,
>
    decreases n,
{
    if n <= 0 {
        Seq::empty()
    } else if describe::overlaps(spans[n - 1], t0, t1) {
        spoken_in(spans, t0, t1, n - 1).push(spans[n - 1].text@)
    } else {
        spoken_in(spans, t0, t1, n - 1)
    }
}

/// What is said in each scene.
pub fn scene_texts(scenes: &Vec<Segment>, spans: &Vec<TimedText>) -> (r: Vec<String>)
    ensures
        r@.len() == scenes@.len(),
        forall|i: int|
            0 <= i < r@.len() ==> (#[trigger] r@[i])@ == text::joined(
                spoken_in(spans@, scenes@[i].t0, scenes@[i].t1, spans@.len() as int),
                " "@,
            ),
{
    let mut out: Vec<String> = Vec::new();
    let mut i: usize = 0;
    while i < scenes.len()
        invariant
            i <= scenes@.len(),
            out@.len() == i,
            forall|k: int|
                0 <= k < i ==> (#[trigger] out@[k])@ == text::joined(
                    spoken_in(spans@, scenes@[k].t0, scenes@[k].t1, spans@.len() as int),
                    " "@,
                ),
        decreases scenes@.len() - i,
    {
        let t0 = scenes[i].t0;
        let t1 = scenes[i].t1;
        let mut said: Vec<String> = Vec::new();
        let mut k: usize = 0;
        proof {
            assert(text::strings_of(said@) =~= Seq::<Seq<char>>::empty());
        }
        while k < spans.len()
            invariant
                k <= spans@.len(),
                text::strings_of(said@) == spoken_in(spans@, t0, t1, k as int),
            decreases spans@.len() - k,
        {
            let s = &spans[k];
            if s.t0.lt(&t1) && t0.lt(&s.t1) {
                let ghost had = text::strings_of(said@);
                said.push(s.text.as_str().to_owned());
                proof {
                    assert(text::strings_of(said@) =~= had.push(s.text@));
                }
            }
            k = k + 1;
        }
        out.push(join_strings(&said, " "));
        i = i + 1;
    }
    out
}

/// The places, of the first `n`, of texts of more than 20 bytes.
pub open spec fn worth_embedding(texts: Seq<String>, n: int) -> Seq<int>
    decreases n,
{
    if n <= 0 {
        Seq::empty()
    } else if vstd::utf8::encode_utf8(texts[n - 1]@).len() > 20 {
        worth_embedding(texts, n - 1).push(n - 1)
    } else {
        worth_embedding(texts, n - 1)
    }
}

/// Texts that are embedded together, with their places.
#[derive(Debug)]
pub struct EmbedBatch {
    /// Places.
    pub places: Vec<usize>,
    /// Texts, cut to 2000 characters.
    pub texts: Vec<String>,
}

/// Batch `k` of the texts at the given places.
pub open spec fn is_embed_batch(b: EmbedBatch, texts: Seq<String>, at: Seq<int>, size: int, k: int) -> bool {
    let (from, to) = batch::chunk(at.len() as int, size, k);
    &&& b.places@.len() == to - from
    &&& b.texts@.len() == to - from
    &&& forall|j: int|
        #![trigger b.places@[j]]
        #![trigger b.texts@[j]]
        0 <= j < to - from ==> b.places@[j] == at[from + j] && b.texts@[j]@ == text::head(
            texts[at[from + j]]@,
            2000,
        )
}

/// The texts that are worth embedding, in batches of at most `max_batch`.
pub fn embed_batches(texts: &Vec<String>, max_batch: usize) -> (r: Vec<EmbedBatch>)
    ensures
        ({
            let at = worth_embedding(texts@, texts@.len() as int);
            let size = if max_batch == 0 {
                1
            } else {
                max_batch as int
            };
            &&& r@.len() * size >= at.len()
            &&& r@.len() > 0 ==> (r@.len() - 1) * size < at.len()
            &&& forall|k: int|
                0 <= k < r@.len() ==> is_embed_batch(#[trigger] r@[k], texts@, at, size, k)
        }),
{
    let mut at: Vec<usize> = Vec::new();
    let mut i: usize = 0;
    while i < texts.len()
        invariant
            i <= texts@.len(),
            at@.len() == worth_embedding(texts@, i as int).len(),
            forall|k: int|
                0 <= k < at@.len() ==> #[trigger] at@[k] == worth_embedding(texts@, i as int)[k]
                    && at@[k] < texts@.len(),
        decreases texts@.len() - i,
    {
        if texts[i].as_str().as_bytes().len() > 20 {
            let ghost before = worth_embedding(texts@, i as int);
            let ghost had = at@;
            at.push(i);
            proof {
                let now = worth_embedding(texts@, i + 1);
                assert(now == before.push(i as int));
                assert forall|k: int| 0 <= k < at@.len() implies #[trigger] at@[k] == now[k]
                    && at@[k] < texts@.len() by {
                    if k < had.len() {
                        assert(at@[k] == had[k]);
                    }
                }
            }
        }
        i = i + 1;
    }
    let ghost all = worth_embedding(texts@, texts@.len() as int);
    let ghost size = if max_batch == 0 {
        1
    } else {
        max_batch as int
    };
    let cuts = batch::chunks(at.len(), max_batch);
    let mut out: Vec<EmbedBatch> = Vec::new();
    let mut k: usize = 0;
    while k < cuts.len()
        invariant
            k <= cuts@.len(),
            at@.len() == all.len(),
            forall|k: int|
                0 <= k < at@.len() ==> #[trigger] at@[k] == all[k] && at@[k] < texts@.len(),
            batch::are_chunks(cuts@, at@.len() as int, size),
            forall|k: int|
                0 <= k < cuts@.len() ==> (#[trigger] cuts@[k]).0 < cuts@[k].1 <= at@.len(),
            out@.len() == k,
            forall|j: int|
                0 <= j < k ==> is_embed_batch(#[trigger] out@[j], texts@, all, size, j),
        decreases cuts@.len() - k,
    {
        let (from, to) = cuts[k];
        let mut places: Vec<usize> = Vec::new();
        let mut parts: Vec<String> = Vec::new();
        let mut j: usize = from;
        while j < to
            invariant
                from <= j <= to <= at@.len(),
                at@.len() == all.len(),
                forall|k: int|
                    0 <= k < at@.len() ==> #[trigger] at@[k] == all[k] && at@[k] < texts@.len(),
                places@.len() == j - from,
                parts@.len() == j - from,
                forall|x: int|
                    #![trigger places@[x]]
                    #![trigger parts@[x]]
                    0 <= x < j - from ==> places@[x] == all[from + x] && parts@[x]@ == text::head(
                        texts@[all[from + x]]@,
                        2000,
                    ),
            decreases to - j,
        {
            places.push(at[j]);
            parts.push(head_text(texts[at[j]].as_str(), 2000));
            j = j + 1;
        }
        out.push(EmbedBatch { places, texts: parts });
        k = k + 1;
    }
    out
}

/// What is known of a job before it runs.
#[derive(Clone, Copy, Debug, PartialEq, Eq, Structural)]
pub struct InputSummary {
    /// Duration in milliseconds.
    pub duration_ms: u64,
    /// Expected sample count.
    pub expected_samples: u64,
    /// Source width.
    pub width: u32,
    /// Source height.
    pub height: u32,
    /// Whether an audio stream exists.
    pub has_audio: bool,
}

/// Estimated cost of running an operator over an input.
#[derive(Clone, Copy, Debug, PartialEq, Eq, Structural)]
pub struct CostEstimate {
    /// Microseconds of CPU time.
    pub cpu_us: u128,
    /// Provider spend in millionths of a dollar.
    pub usd_micro: u128,
    /// Provider calls.
    pub provider_calls: u128,
}

/// Operators that can be estimated.
#[derive(Clone, Copy, Debug, PartialEq, Eq, Structural)]
pub enum OperatorName {
    /// Subtitle import.
    SubtitleImport,
    /// Sampling.
    Sample,
    /// Hashing.
    PHash,
    /// Thumbnails.
    Thumbnail,
    /// Voice activity.
    Vad,
    /// Transcription.
    Asr,
    /// Shots.
    ShotBoundary,
    /// Image embeddings.
    ImageEmbed,
    /// Text embeddings.
    TextEmbed,
    /// On-screen text.
    Ocr,
    /// Scenes.
    Scenes,
    /// Chapters.
    Chapters,
    /// Descriptions.
    VlmDescribe,
    /// Entities and events.
    EntitiesEvents,
}

/// How many of `size` make up `n`, the last one counted whole.
pub open spec fn whole_parts(n: int, size: int) -> int {
    (n + size - 1) / size
}

/// The estimate of an operator: CPU time, spend and calls.
pub open spec fn estimated(op: OperatorName, i: InputSummary) -> (int, int, int) {
    let (ms, n) = (i.duration_ms as int, i.expected_samples as int);
    let pixels = i.width * i.height;
    match op {
        OperatorName::SubtitleImport => (100_000, 0, 0),
        // 40 milliseconds for a second of 1280 by 720, so a microsecond for 23040 pixels during a
        // millisecond, and a tenth of that at least.
        OperatorName::Sample => (
            if pixels * 10 < 921_600 {
                ms * 4
            } else {
                (ms * pixels) / 23_040
            },
            0,
            0,
        ),
        OperatorName::PHash => (n * 1000, 0, 0),
        OperatorName::Thumbnail => (n * 8000, 0, 0),
        OperatorName::Vad => (
            if i.has_audio {
                ms * 10
            } else {
                0
            },
            0,
            0,
        ),
        // Two thirds are speech, with 30 seconds a request.
        OperatorName::Asr => if i.has_audio {
            ((ms * 132) / 100, 0, whole_parts(ms * 66, 3_000_000))
        } else {
            (0, 0, 0)
        },
        OperatorName::ShotBoundary => (n * 500, 0, 0),
        // Three frames in ten are distinct.
        OperatorName::ImageEmbed => (n * 12_000, 0, whole_parts(n * 3, 160)),
        // A span in twelve seconds.
        OperatorName::TextEmbed => ((ms * 5) / 12, 0, whole_parts(ms, 384_000)),
        // One frame in five is read.
        OperatorName::Ocr => (n * 30_000, 0, whole_parts(n, 5)),
        OperatorName::Scenes => (ms / 2, 0, 0),
        OperatorName::Chapters => (ms * 2, 0, whole_parts(ms, 60_000)),
        OperatorName::VlmDescribe => (
            whole_parts(ms, 90_000) * 1_500_000,
            whole_parts(ms, 90_000) * 20_000,
            whole_parts(ms, 90_000),
        ),
        OperatorName::EntitiesEvents => (
            whole_parts(ms, 300_000) * 100_000,
            whole_parts(ms, 300_000) * 30_000,
            whole_parts(ms, 300_000),
        ),
    }
}

/// Estimates an operator.
pub fn cost_estimate(op: OperatorName, i: InputSummary) -> (c: CostEstimate)
    ensures
        (c.cpu_us as int, c.usd_micro as int, c.provider_calls as int) == estimated(op, i),
{
    let ms: u128 = i.duration_ms as u128;
    let n: u128 = i.expected_samples as u128;
    match op {
        OperatorName::SubtitleImport => cost(100_000, 0, 0),
        OperatorName::Sample => {
            let w: u128 = i.width as u128;
            let h: u128 = i.height as u128;
            proof {
                assert(0 <= w * h <= 0xffff_ffff * 0xffff_ffff) by (nonlinear_arith)
                    requires
                        0 <= w <= 0xffff_ffff,
                        0 <= h <= 0xffff_ffff,
                ;
            }
            let pixels: u128 = w * h;
            if pixels * 10 < 921_600 {
                cost(ms * 4, 0, 0)
            } else {
                proof {
                    assert(0 <= ms * pixels <= 0xffff_ffff_ffff_ffff * (0xffff_ffff * 0xffff_ffff))
                        by (nonlinear_arith)
                        requires
                            0 <= ms <= 0xffff_ffff_ffff_ffff,
                            0 <= pixels <= 0xffff_ffff * 0xffff_ffff,
                    ;
                }
                cost((ms * pixels) / 23_040, 0, 0)
            }
        },
        OperatorName::PHash => cost(n * 1000, 0, 0),
        OperatorName::Thumbnail => cost(n * 8000, 0, 0),
        OperatorName::Vad => cost(
            if i.has_audio {
                ms * 10
            } else {
                0
            },
            0,
            0,
        ),
        OperatorName::Asr => if i.has_audio {
            cost((ms * 132) / 100, 0, (ms * 66 + 2_999_999) / 3_000_000)
        } else {
            cost(0, 0, 0)
        },
        OperatorName::ShotBoundary => cost(n * 500, 0, 0),
        OperatorName::ImageEmbed => cost(n * 12_000, 0, (n * 3 + 159) / 160),
        OperatorName::TextEmbed => cost((ms * 5) / 12, 0, (ms + 383_999) / 384_000),
        OperatorName::Ocr => cost(n * 30_000, 0, (n + 4) / 5),
        OperatorName::Scenes => cost(ms / 2, 0, 0),
        OperatorName::Chapters => cost(ms * 2, 0, (ms + 59_999) / 60_000),
        OperatorName::VlmDescribe => {
            let k: u128 = (ms + 89_999) / 90_000;
            cost(k * 1_500_000, k * 20_000, k)
        },
        OperatorName::EntitiesEvents => {
            let k: u128 = (ms + 299_999) / 300_000;
            cost(k * 100_000, k * 30_000, k)
        },
    }
}

fn cost(cpu_us: u128, usd_micro: u128, provider_calls: u128) -> (c: CostEstimate)
    ensures
        c == (CostEstimate { cpu_us, usd_micro, provider_calls }),
{
    CostEstimate { cpu_us, usd_micro, provider_calls }
}

/// What is said between two times is what the spans say that overlap them, one by one and in their
/// order.
pub proof fn law_spans_are_heard_one_by_one(
    spans: Seq<TimedText>,
    t0: Timestamp,
    t1: Timestamp,
    one: TimedText,
)
    ensures
        spoken_in(spans.push(one), t0, t1, spans.len() as int + 1) == (if one.t0.num * t1.den < t1.num
            * one.t0.den && t0.num * one.t1.den < one.t1.num * t0.den {
            spoken_in(spans, t0, t1, spans.len() as int).push(one.text@)
        } else {
            spoken_in(spans, t0, t1, spans.len() as int)
        }),
{
    lemma_same_spoken(spans, spans.push(one), t0, t1, spans.len() as int);
}

proof fn lemma_same_spoken(
    a: Seq<TimedText>,
    b: Seq<TimedText>,
    t0: Timestamp,
    t1: Timestamp,
    n: int,
)
    requires
        forall|k: int| 0 <= k < n ==> a[k] == b[k],
    ensures
        spoken_in(a, t0, t1, n) == spoken_in(b, t0, t1, n),
    decreases n,
{
    if n > 0 {
        assert(a[n - 1] == b[n - 1]);
        lemma_same_spoken(a, b, t0, t1, n - 1);
    }
}

/// The texts that are embedded are those of more than twenty bytes, each once and in their order.
pub proof fn law_long_texts_are_embedded(texts: Seq<String>, n: int)
    requires
        0 <= n <= texts.len(),
    ensures
        forall|k: int|
            #[trigger] worth_embedding(texts, n).contains(k) <==> 0 <= k < n
                && vstd::utf8::encode_utf8(texts[k]@).len() >= 21,
        forall|a: int, b: int|
            0 <= a < b < worth_embedding(texts, n).len() ==> worth_embedding(texts, n)[a]
                < worth_embedding(texts, n)[b],
    decreases n,
{
    if n > 0 {
        law_long_texts_are_embedded(texts, n - 1);
        let (s, t) = (worth_embedding(texts, n - 1), worth_embedding(texts, n));
        if vstd::utf8::encode_utf8(texts[n - 1]@).len() > 20 {
            assert forall|k: int| #[trigger] t.contains(k) <==> 0 <= k < n
                && vstd::utf8::encode_utf8(texts[k]@).len() >= 21 by {
                if t.contains(k) {
                    let i = choose|i: int| 0 <= i < t.len() && t[i] == k;
                    assert(i < s.len() ==> s[i] == k);
                    assert(s.contains(k) || k == n - 1);
                }
                if k == n - 1 {
                    assert(t[s.len() as int] == k);
                } else if s.contains(k) {
                    let i = choose|i: int| 0 <= i < s.len() && s[i] == k;
                    assert(t[i] == k);
                }
            }
            assert forall|a: int, b: int| 0 <= a < b < t.len() implies t[a] < t[b] by {
                if b == s.len() {
                    assert(s.contains(s[a]));
                }
            }
        } else {
            assert forall|k: int| #[trigger] t.contains(k) <==> 0 <= k < n
                && vstd::utf8::encode_utf8(texts[k]@).len() >= 21 by {
                assert(s.contains(k) <==> 0 <= k < n - 1 && vstd::utf8::encode_utf8(
                    texts[k]@,
                ).len() >= 21);
            }
        }
    }
}

/// Parts hold everything, and one part less would not.
pub proof fn law_parts_are_as_few_as_can_be(n: int, size: int)
    requires
        n >= 0,
        size > 0,
    ensures
        (whole_parts(n, size) - 1) * size < n <= whole_parts(n, size) * size,
{
    let x = n + size - 1;
    let q = x / size;
    assert(q * size <= x < q * size + size && (q - 1) * size == q * size - size)
        by (nonlinear_arith)
        requires
            q == x / size,
            size > 0,
    ;
}

/// What frames cost stands in fixed ratios to what hashing them costs, a millisecond each: a
/// thumbnail takes eight times as long, an embedding twelve times, reading text thirty times and
/// looking for shots half as long.
pub proof fn law_frames_cost_in_proportion(i: InputSummary)
    ensures
        estimated(OperatorName::PHash, i).0 == i.expected_samples * 1000,
        estimated(OperatorName::Thumbnail, i).0 == 8 * estimated(OperatorName::PHash, i).0,
        estimated(OperatorName::ImageEmbed, i).0 == 12 * estimated(OperatorName::PHash, i).0,
        estimated(OperatorName::Ocr, i).0 == 30 * estimated(OperatorName::PHash, i).0,
        2 * estimated(OperatorName::ShotBoundary, i).0 == estimated(OperatorName::PHash, i).0,
{
}

/// What is silent costs nothing to listen to.
pub proof fn law_silence_is_free(i: InputSummary)
    requires
        !i.has_audio,
    ensures
        estimated(OperatorName::Vad, i) == (0int, 0int, 0int),
        estimated(OperatorName::Asr, i) == (0int, 0int, 0int),
{
}

/// A longer recording never costs less.
pub proof fn law_longer_recordings_cost_more(op: OperatorName, i: InputSummary, j: InputSummary)
    requires
        i.duration_ms <= j.duration_ms,
        i.expected_samples <= j.expected_samples,
        i.width == j.width,
        i.height == j.height,
        i.has_audio == j.has_audio,
    ensures
        estimated(op, i).0 <= estimated(op, j).0,
        estimated(op, i).1 <= estimated(op, j).1,
        estimated(op, i).2 <= estimated(op, j).2,
{
    let (a, b) = (i.duration_ms as int, j.duration_ms as int);
    let p = i.width * i.height;
    assert(p >= 0 ==> a * p <= b * p) by (nonlinear_arith)
        requires
            a <= b,
    ;
    assert(p >= 0) by (nonlinear_arith)
        requires
            p == i.width * i.height,
            i.width >= 0,
            i.height >= 0,
    ;
}

/// The two models that are paid for are paid by the request, two cents a scene of ninety seconds
/// and three cents a window of five minutes, and nothing else costs money.
pub proof fn law_models_are_paid_by_the_request(op: OperatorName, i: InputSummary)
    ensures
        ({
            let (_, usd_micro, calls) = estimated(op, i);
            &&& op is VlmDescribe ==> usd_micro == 20_000 * calls && (calls - 1) * 90_000
                < i.duration_ms <= calls * 90_000
            &&& op is EntitiesEvents ==> usd_micro == 30_000 * calls && (calls - 1) * 300_000
                < i.duration_ms <= calls * 300_000
            &&& !(op is VlmDescribe) && !(op is EntitiesEvents) ==> usd_micro == 0
        }),
{
}

} // verus!
