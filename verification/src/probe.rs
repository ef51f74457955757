//! Container and stream facts: what a probe reports and which streams are
//! chosen from it.

use vstd::prelude::*;

use crate::decode;
use crate::decode::{
    earlier_start, keyframe_interval, rational_parts, rational_rate, ts_from, NO_PTS,
};
use crate::text::str_is;
use crate::timestamp::Timestamp;

verus! {

/// Kind of a track.
#[derive(Clone, Copy, Debug, PartialEq, Eq, Structural)]
pub enum TrackKind {
    /// Video.
    Video,
    /// Audio.
    Audio,
    /// Subtitles.
    Subtitle,
}

/// What the demuxer says of one stream.
#[derive(Debug)]
pub struct RawStream {
    /// Stream index.
    pub index: u32,
    /// Kind; none for data and attachments.
    pub kind: Option<TrackKind>,
    /// Codec short name.
    pub codec: String,
    /// Codec long name.
    pub codec_long_name: String,
    /// Timebase.
    pub time_base: (i32, i32),
    /// Start time in timebase units, or the marker for none.
    pub start_time: i64,
    /// Duration in timebase units; not positive when unknown.
    pub duration: i64,
    /// Frame count; not positive when unknown.
    pub frames: i64,
    /// Real frame rate.
    pub rate: (i32, i32),
    /// Average frame rate.
    pub avg_rate: (i32, i32),
    /// Bit rate; not positive when unknown.
    pub bit_rate: i64,
    /// Size of the pictures, when a video decoder opened.
    pub dims: Option<(u32, u32)>,
    /// Name of the pixel format, when a video decoder opened and knows it.
    pub pix_fmt: Option<String>,
    /// Sample rate and channels, when an audio decoder opened.
    pub audio: Option<(u32, u32)>,
    /// Name of the sample format, when an audio decoder opened and knows it.
    pub sample_fmt: Option<String>,
    /// Language tag.
    pub language: Option<String>,
    /// Title tag.
    pub title: Option<String>,
    /// Default disposition.
    pub is_default: bool,
}

/// One elementary stream.
#[derive(Debug)]
pub struct StreamInfo {
    /// Stream index.
    pub index: u32,
    /// Kind.
    pub kind: TrackKind,
    /// Codec short name.
    pub codec: String,
    /// Codec long name.
    pub codec_long_name: String,
    /// Timebase numerator.
    pub time_base_num: u32,
    /// Timebase denominator.
    pub time_base_den: u32,
    /// Start time in timebase units.
    pub start_time: i64,
    /// Duration.
    pub duration: Option<Timestamp>,
    /// Frame count when the container knows it.
    pub frames: Option<i64>,
    /// Width.
    pub width: Option<u32>,
    /// Height.
    pub height: Option<u32>,
    /// Pixel format name.
    pub pix_fmt: Option<String>,
    /// Real frame rate.
    pub fps: Option<(i32, i32)>,
    /// Average frame rate.
    pub avg_fps: Option<(i32, i32)>,
    /// Sample rate.
    pub sample_rate: Option<u32>,
    /// Channels.
    pub channels: Option<u32>,
    /// Sample format name.
    pub sample_fmt: Option<String>,
    /// Bit rate.
    pub bit_rate: Option<i64>,
    /// Language tag.
    pub language: Option<String>,
    /// Title tag.
    pub title: Option<String>,
    /// Default disposition.
    pub is_default: bool,
}

/// A positive number, or none.
pub open spec fn positive(x: i64) -> Option<i64> {
    if x > 0 {
        Some(x)
    } else {
        None
    }
}

/// A rate, or none when it is not positive.
pub open spec fn rate_of(r: (i32, i32)) -> Option<(i32, i32)> {
    if r.1 == 0 || r.0 <= 0 {
        None
    } else {
        Some(r)
    }
}

/// The timebase of a stream as unsigned parts.
pub open spec fn base_of(r: (i32, i32)) -> (u32, u32) {
    if r.0 >= 0 && r.1 > 0 {
        (r.0 as u32, r.1 as u32)
    } else {
        (1u32, crate::timestamp::MICROS)
    }
}

/// `info` says of a stream of kind `kind` what the demuxer said, with unknown values made
/// explicit; geometry belongs to video, sample layout to audio.
pub open spec fn reports(info: StreamInfo, raw: RawStream, kind: TrackKind) -> bool {
    let tb = base_of(raw.time_base);
    &&& info.index == raw.index
    &&& info.kind == kind
    &&& info.codec == raw.codec
    &&& info.codec_long_name == raw.codec_long_name
    &&& info.time_base_num == tb.0
    &&& info.time_base_den == tb.1
    &&& info.start_time == (if raw.start_time == NO_PTS {
        0
    } else {
        raw.start_time
    })
    &&& info.duration == (if raw.duration > 0 {
        Some(decode::time_of(raw.duration as int, tb))
    } else {
        None
    })
    &&& info.frames == positive(raw.frames)
    &&& info.bit_rate == positive(raw.bit_rate)
    &&& info.fps == rate_of(raw.rate)
    &&& info.avg_fps == rate_of(raw.avg_rate)
    &&& info.width == (match (kind, raw.dims) {
        (TrackKind::Video, Some((w, _))) => Some(w),
        _ => None,
    })
    &&& info.height == (match (kind, raw.dims) {
        (TrackKind::Video, Some((_, h))) => Some(h),
        _ => None,
    })
    &&& info.sample_rate == (match (kind, raw.audio) {
        (TrackKind::Audio, Some((r, _))) => Some(r),
        _ => None,
    })
    &&& info.channels == (match (kind, raw.audio) {
        (TrackKind::Audio, Some((_, c))) => Some(c),
        _ => None,
    })
    &&& info.pix_fmt == (if kind == TrackKind::Video {
        raw.pix_fmt
    } else {
        None
    })
    &&& info.sample_fmt == (if kind == TrackKind::Audio {
        raw.sample_fmt
    } else {
        None
    })
    &&& info.language == raw.language
    &&& info.title == raw.title
    &&& info.is_default == raw.is_default
}

/// Positions below `n` of the streams that are video, audio or subtitles.
pub open spec fn kept(raw: Seq<RawStream>, n: int) -> Seq<int>
    decreases n,
{
    if n <= 0 {
        Seq::empty()
    } else if raw[n - 1].kind is Some {
        kept(raw, n - 1).push(n - 1)
    } else {
        kept(raw, n - 1)
    }
}

/// The earliest start among the kept streams below `n` that know theirs.
pub open spec fn earliest(raw: Seq<RawStream>, n: int) -> Option<Timestamp>
    decreases n,
{
    if n <= 0 {
        None
    } else {
        let before = earliest(raw, n - 1);
        let s = raw[n - 1];
        if s.kind is None || s.start_time == NO_PTS {
            before
        } else {
            let t = decode::time_of(s.start_time as int, base_of(s.time_base));
            match before {
                Some(e) => if crate::timestamp::le_time(e, t) {
                    before
                } else {
                    Some(t)
                },
                None => Some(t),
            }
        }
    }
}

fn positive_of(x: i64) -> (r: Option<i64>)
    ensures
        r == positive(x),
{
    if x > 0 {
        Some(x)
    } else {
        None
    }
}

fn describe_stream(raw: RawStream, kind: TrackKind) -> (info: StreamInfo)
    ensures
        reports(info, raw, kind),
{
    let tb = rational_parts(raw.time_base.0, raw.time_base.1);
    let (width, height) = match (kind, raw.dims) {
        (TrackKind::Video, Some((w, h))) => (Some(w), Some(h)),
        _ => (None, None),
    };
    let (sample_rate, channels) = match (kind, raw.audio) {
        (TrackKind::Audio, Some((r, c))) => (Some(r), Some(c)),
        _ => (None, None),
    };
    StreamInfo {
        index: raw.index,
        kind,
        codec: raw.codec,
        codec_long_name: raw.codec_long_name,
        time_base_num: tb.0,
        time_base_den: tb.1,
        start_time: if raw.start_time == NO_PTS {
            0
        } else {
            raw.start_time
        },
        duration: if raw.duration > 0 {
            Some(ts_from(raw.duration, tb))
        } else {
            None
        },
        frames: positive_of(raw.frames),
        width,
        height,
        pix_fmt: if kind == TrackKind::Video {
            raw.pix_fmt
        } else {
            None
        },
        fps: rational_rate(raw.rate.0, raw.rate.1),
        avg_fps: rational_rate(raw.avg_rate.0, raw.avg_rate.1),
        sample_rate,
        channels,
        sample_fmt: if kind == TrackKind::Audio {
            raw.sample_fmt
        } else {
            None
        },
        bit_rate: positive_of(raw.bit_rate),
        language: raw.language,
        title: raw.title,
        is_default: raw.is_default,
    }
}

/// Describes the streams of a container and finds its start time: the earliest start among the
/// streams that know theirs, zero when none does. Data and attachments are left out.
pub fn describe_streams(raw: Vec<RawStream>) -> (r: (Vec<StreamInfo>, Timestamp))
    ensures
        r.0@.len() == kept(raw@, raw@.len() as int).len(),
        forall|i: int|
            0 <= i < r.0@.len() ==> reports(
                #[trigger] r.0@[i],
                raw@[kept(raw@, raw@.len() as int)[i]],
                raw@[kept(raw@, raw@.len() as int)[i]].kind->0,
            ),
        r.1 == (match earliest(raw@, raw@.len() as int) {
            Some(t) => t,
            None => Timestamp { num: 0, den: 1 },
        }),
{
    let ghost all = raw@;
    let mut out: Vec<StreamInfo> = Vec::new();
    let mut start: Option<Timestamp> = None;
    for s in it: raw
        invariant
            it.seq() == all,
            out@.len() == kept(all, it.index() as int).len(),
            forall|i: int|
                0 <= i < out@.len() ==> reports(
                    #[trigger] out@[i],
                    all[kept(all, it.index() as int)[i]],
                    all[kept(all, it.index() as int)[i]].kind->0,
                ),
            start == earliest(all, it.index() as int),
    {
        match s.kind {
            Some(kind) => {
                let tb = rational_parts(s.time_base.0, s.time_base.1);
                start = earlier_start(start, s.start_time, tb);
                out.push(describe_stream(s, kind));
            },
            None => {},
        }
    }
    let t = match start {
        Some(t) => t,
        None => Timestamp::zero(),
    };
    (out, t)
}

/// The duration of a container given in microseconds; zero when it is not known.
pub fn container_duration(us: i64) -> (t: Timestamp)
    ensures
        t == (if us > 0 {
            Timestamp { num: us, den: crate::timestamp::MICROS }
        } else {
            Timestamp { num: 0, den: 1 }
        }),
{
    if us > 0 {
        Timestamp::from_micros(us)
    } else {
        Timestamp::zero()
    }
}

/// How good a stream is: default streams first, then the larger picture or the more channels.
pub open spec fn merit(s: StreamInfo) -> int {
    let size = if s.kind == TrackKind::Video {
        (match s.width {
            Some(w) => w as int,
            None => 0,
        }) * (match s.height {
            Some(h) => h as int,
            None => 0,
        })
    } else {
        match s.channels {
            Some(c) => c as int,
            None => 0,
        }
    };
    (if s.is_default {
        0x1_0000_0000_0000_0000int
    } else {
        0
    }) + size
}

fn merit_of(s: &StreamInfo) -> (m: u128)
    ensures
        m == merit(*s),
{
    let size: u128 = if s.kind == TrackKind::Video {
        let w: u128 = match s.width {
            Some(w) => w as u128,
            None => 0,
        };
        let h: u128 = match s.height {
            Some(h) => h as u128,
            None => 0,
        };
        proof {
            assert(0 <= w * h <= 0xffff_ffff * 0xffff_ffff) by (nonlinear_arith)
                requires
                    0 <= w <= 0xffff_ffff,
                    0 <= h <= 0xffff_ffff,
            ;
        }
        w * h
    } else {
        match s.channels {
            Some(c) => c as u128,
            None => 0,
        }
    };
    if s.is_default {
        0x1_0000_0000_0000_0000 + size
    } else {
        size
    }
}

/// Stream `i` is the best of its kind: none has more merit, and none behind it has as much.
pub open spec fn best_of(streams: Seq<StreamInfo>, kind: TrackKind, i: int) -> bool {
    &&& 0 <= i < streams.len()
    &&& streams[i].kind == kind
    &&& forall|j: int|
        #![trigger streams[j]]
        0 <= j < streams.len() && streams[j].kind == kind ==> merit(streams[j]) < merit(streams[i])
            || (merit(streams[j]) == merit(streams[i]) && j <= i)
}

/// Finds the best stream of a kind.
pub fn best_stream(streams: &Vec<StreamInfo>, kind: TrackKind) -> (r: Option<usize>)
    ensures
        match r {
            Some(i) => best_of(streams@, kind, i as int),
            None => forall|j: int| 0 <= j < streams@.len() ==> (#[trigger] streams@[j]).kind != kind,
        },
{
    let mut best: Option<usize> = None;
    let mut i: usize = 0;
    while i < streams.len()
        invariant
            i <= streams@.len(),
            match best {
                Some(b) => b < i && best_of(streams@.take(i as int), kind, b as int),
                None => forall|j: int| 0 <= j < i ==> (#[trigger] streams@[j]).kind != kind,
            },
        decreases streams@.len() - i,
    {
        let ghost upto = streams@.take(i as int);
        let ghost next = streams@.take(i + 1);
        proof {
            assert forall|j: int| 0 <= j < i implies #[trigger] next[j] == upto[j] by {}
        }
        if streams[i].kind == kind {
            let take: bool = match best {
                Some(b) => merit_of(&streams[b]) <= merit_of(&streams[i]),
                None => true,
            };
            if take {
                proof {
                    assert(best_of(next, kind, i as int)) by {
                        assert forall|j: int|
                            #![trigger next[j]]
                            0 <= j < next.len() && next[j].kind == kind implies merit(next[j])
                            < merit(next[i as int]) || (merit(next[j]) == merit(next[i as int])
                            && j <= i) by {
                            if j < i {
                                assert(next[j] == upto[j]);
                                assert(streams@[j] == next[j]);
                            }
                        }
                    }
                }
                best = Some(i);
            } else {
                proof {
                    let b = best->0 as int;
                    assert(next[b] == upto[b]);
                    assert(best_of(next, kind, b)) by {
                        assert forall|j: int|
                            #![trigger next[j]]
                            0 <= j < next.len() && next[j].kind == kind implies merit(next[j])
                            < merit(next[b]) || (merit(next[j]) == merit(next[b]) && j <= b) by {
                            if j < i {
                                assert(next[j] == upto[j]);
                            }
                        }
                    }
                }
            }
        } else {
            proof {
                if best is Some {
                    let b = best->0 as int;
                    assert(next[b] == upto[b]);
                    assert(best_of(next, kind, b)) by {
                        assert forall|j: int|
                            #![trigger next[j]]
                            0 <= j < next.len() && next[j].kind == kind implies merit(next[j])
                            < merit(next[b]) || (merit(next[j]) == merit(next[b]) && j <= b) by {
                            if j < i {
                                assert(next[j] == upto[j]);
                            }
                        }
                    }
                }
            }
        }
        i = i + 1;
    }
    proof {
        assert(streams@.take(i as int) =~= streams@);
    }
    best
}

/// A chapter marker.
#[derive(Debug)]
pub struct ChapterInfo {
    /// Chapter id.
    pub id: i64,
    /// Start.
    pub t0: Timestamp,
    /// End.
    pub t1: Timestamp,
    /// Title.
    pub title: Option<String>,
}

impl ChapterInfo {
    /// A chapter given in units of a timebase.
    pub fn from_units(id: i64, start: i64, end: i64, time_base: (i32, i32), title: Option<String>) -> (c:
        ChapterInfo)
        ensures
            c == (ChapterInfo {
                id,
                t0: decode::time_of(start as int, base_of(time_base)),
                t1: decode::time_of(end as int, base_of(time_base)),
                title,
            }),
    {
        let tb = rational_parts(time_base.0, time_base.1);
        ChapterInfo { id, t0: ts_from(start, tb), t1: ts_from(end, tb), title }
    }
}

/// What a probe reports of one file.
#[derive(Debug)]
pub struct Probe {
    /// Path probed.
    pub path: String,
    /// File size in bytes.
    pub size_bytes: u64,
    /// Short container name, e.g. `mov,mp4,m4a,3gp,3g2,mj2`.
    pub format_name: String,
    /// Long container name.
    pub format_long_name: String,
    /// Duration of the container.
    pub duration: Timestamp,
    /// Container start time.
    pub start_time: Timestamp,
    /// Overall bit rate.
    pub bit_rate: i64,
    /// Streams.
    pub streams: Vec<StreamInfo>,
    /// Chapters.
    pub chapters: Vec<ChapterInfo>,
    /// Container metadata.
    pub metadata: Vec<(String, String)>,
    /// Median gap between keyframes of the best video stream.
    pub keyframe_interval: Option<Timestamp>,
    /// Version of the media libraries.
    pub libav: String,
}

/// A chapter as a container has it.
#[derive(Debug)]
pub struct RawChapter {
    /// Id.
    pub id: i64,
    /// Start, in units of the timebase.
    pub start: i64,
    /// End, in units of the timebase.
    pub end: i64,
    /// Timebase.
    pub time_base: (i32, i32),
    /// Title.
    pub title: Option<String>,
}

/// A container as the media library describes it.
#[derive(Debug)]
pub struct RawContainer {
    /// Path probed.
    pub path: String,
    /// File size in bytes.
    pub size_bytes: u64,
    /// Short container name.
    pub format_name: String,
    /// Long container name.
    pub format_long_name: String,
    /// Duration in microseconds; not positive when it is not known.
    pub duration_us: i64,
    /// Overall bit rate.
    pub bit_rate: i64,
    /// Streams.
    pub streams: Vec<RawStream>,
    /// Chapters.
    pub chapters: Vec<RawChapter>,
    /// Container metadata.
    pub metadata: Vec<(String, String)>,
    /// Times of the first key packets of the best video stream, and its timebase.
    pub keys: Option<(Vec<i64>, (i32, i32))>,
    /// Version of the media libraries.
    pub libav: String,
}

/// A probe reports what a container holds.
pub open spec fn probes(p: Probe, r: RawContainer) -> bool {
    let keep = kept(r.streams@, r.streams@.len() as int);
    &&& p.path == r.path
    &&& p.size_bytes == r.size_bytes
    &&& p.format_name == r.format_name
    &&& p.format_long_name == r.format_long_name
    &&& p.duration == (if r.duration_us > 0 {
        Timestamp { num: r.duration_us, den: crate::timestamp::MICROS }
    } else {
        Timestamp { num: 0, den: 1 }
    })
    &&& p.start_time == (match earliest(r.streams@, r.streams@.len() as int) {
        Some(t) => t,
        None => Timestamp { num: 0, den: 1 },
    })
    &&& p.bit_rate == r.bit_rate
    &&& p.streams@.len() == keep.len()
    &&& forall|i: int|
        0 <= i < keep.len() ==> reports(
            #[trigger] p.streams@[i],
            r.streams@[keep[i]],
            r.streams@[keep[i]].kind->0,
        )
    &&& p.chapters@.len() == r.chapters@.len()
    &&& forall|i: int|
        0 <= i < r.chapters@.len() ==> #[trigger] p.chapters@[i] == (ChapterInfo {
            id: r.chapters@[i].id,
            t0: decode::time_of(r.chapters@[i].start as int, base_of(r.chapters@[i].time_base)),
            t1: decode::time_of(r.chapters@[i].end as int, base_of(r.chapters@[i].time_base)),
            title: r.chapters@[i].title,
        })
    &&& p.metadata == r.metadata
    &&& p.keyframe_interval == (match r.keys {
        Some((pts, tb)) => decode::key_interval(pts@, base_of(tb)),
        None => None,
    })
    &&& p.libav == r.libav
}

/// A track of a video.
#[derive(Debug)]
pub struct Track {
    /// Track id.
    pub id: u128,
    /// Video it belongs to.
    pub video_id: u128,
    /// Kind.
    pub kind: TrackKind,
    /// Stream index in the container.
    pub stream_index: u32,
    /// Codec short name.
    pub codec: String,
    /// Timebase numerator.
    pub timebase_num: u32,
    /// Timebase denominator.
    pub timebase_den: u32,
    /// Width.
    pub width: Option<u32>,
    /// Height.
    pub height: Option<u32>,
    /// Frame rate.
    pub fps: Option<(i32, i32)>,
    /// Sample rate.
    pub sample_rate: Option<u32>,
    /// Channels.
    pub channels: Option<u32>,
    /// Language tag.
    pub language: Option<String>,
}

/// The track of a stream: the real frame rate counts, else the average one.
pub open spec fn is_track_of(t: Track, s: StreamInfo, id: u128, video_id: u128) -> bool {
    &&& t.id == id
    &&& t.video_id == video_id
    &&& t.kind == s.kind
    &&& t.stream_index == s.index
    &&& t.codec@ == s.codec@
    &&& t.timebase_num == s.time_base_num
    &&& t.timebase_den == s.time_base_den
    &&& t.width == s.width
    &&& t.height == s.height
    &&& t.fps == (if s.fps is Some {
        s.fps
    } else {
        s.avg_fps
    })
    &&& t.sample_rate == s.sample_rate
    &&& t.channels == s.channels
    &&& crate::acquire::same_language(t.language, s.language)
}

impl Probe {
    /// Reports what a container holds.
    pub fn from_raw(raw: RawContainer) -> (p: Probe)
        ensures
            probes(p, raw),
    {
        let ghost given = raw.chapters@;
        let keyframe_interval = match &raw.keys {
            Some((pts, tb)) => {
                let base = rational_parts(tb.0, tb.1);
                keyframe_interval(pts, base)
            },
            None => None,
        };
        let (streams, start_time) = describe_streams(raw.streams);
        let mut chapters: Vec<ChapterInfo> = Vec::new();
        for c in it: raw.chapters
            invariant
                it.seq() == given,
                chapters@.len() == it.index(),
                forall|i: int|
                    0 <= i < chapters@.len() ==> #[trigger] chapters@[i] == (ChapterInfo {
                        id: given[i].id,
                        t0: decode::time_of(given[i].start as int, base_of(given[i].time_base)),
                        t1: decode::time_of(given[i].end as int, base_of(given[i].time_base)),
                        title: given[i].title,
                    }),
        {
            chapters.push(ChapterInfo::from_units(c.id, c.start, c.end, c.time_base, c.title));
        }
        Probe {
            path: raw.path,
            size_bytes: raw.size_bytes,
            format_name: raw.format_name,
            format_long_name: raw.format_long_name,
            duration: container_duration(raw.duration_us),
            start_time,
            bit_rate: raw.bit_rate,
            streams,
            chapters,
            metadata: raw.metadata,
            keyframe_interval,
            libav: raw.libav,
        }
    }

    /// The best video stream, if any.
    pub fn video_stream(&self) -> (r: Option<&StreamInfo>)
        ensures
            match r {
                Some(s) => exists|i: int|
                    #[trigger] best_of(self.streams@, TrackKind::Video, i) && *s
                        == self.streams@[i],
                None => forall|j: int|
                    0 <= j < self.streams@.len() ==> (#[trigger] self.streams@[j]).kind
                        != TrackKind::Video,
            },
    {
        match best_stream(&self.streams, TrackKind::Video) {
            Some(i) => Some(&self.streams[i]),
            None => None,
        }
    }

    /// The best audio stream, if any.
    pub fn audio_stream(&self) -> (r: Option<&StreamInfo>)
        ensures
            match r {
                Some(s) => exists|i: int|
                    #[trigger] best_of(self.streams@, TrackKind::Audio, i) && *s
                        == self.streams@[i],
                None => forall|j: int|
                    0 <= j < self.streams@.len() ==> (#[trigger] self.streams@[j]).kind
                        != TrackKind::Audio,
            },
    {
        match best_stream(&self.streams, TrackKind::Audio) {
            Some(i) => Some(&self.streams[i]),
            None => None,
        }
    }

    /// Track records for a video, one per stream, under the given ids.
    pub fn tracks(&self, video_id: u128, ids: &Vec<u128>) -> (r: Vec<Track>)
        requires
            ids@.len() == self.streams@.len(),
        ensures
            r@.len() == self.streams@.len(),
            forall|i: int|
                0 <= i < r@.len() ==> is_track_of(
                    #[trigger] r@[i],
                    self.streams@[i],
                    ids@[i],
                    video_id,
                ),
    {
        let mut out: Vec<Track> = Vec::new();
        let mut i: usize = 0;
        while i < self.streams.len()
            invariant
                i <= self.streams@.len() == ids@.len(),
                out@.len() == i,
                forall|k: int|
                    0 <= k < i ==> is_track_of(
                        #[trigger] out@[k],
                        self.streams@[k],
                        ids@[k],
                        video_id,
                    ),
            decreases self.streams@.len() - i,
        {
            let s = &self.streams[i];
            let language = match &s.language {
                Some(l) => Some(l.clone()),
                None => None,
            };
            let fps = match s.fps {
                Some(f) => Some(f),
                None => s.avg_fps,
            };
            out.push(
                Track {
                    id: ids[i],
                    video_id,
                    kind: s.kind,
                    stream_index: s.index,
                    codec: s.codec.clone(),
                    timebase_num: s.time_base_num,
                    timebase_den: s.time_base_den,
                    width: s.width,
                    height: s.height,
                    fps,
                    sample_rate: s.sample_rate,
                    channels: s.channels,
                    language,
                },
            );
            i = i + 1;
        }
        out
    }

    /// Title from container metadata.
    pub fn title(&self) -> (r: Option<String>)
        ensures
            match r {
                Some(t) => exists|i: int|
                    0 <= i < self.metadata@.len() && (#[trigger] self.metadata@[i]).0@ == "title"@
                        && t@ == self.metadata@[i].1@ && forall|j: int|
                        0 <= j < i ==> (#[trigger] self.metadata@[j]).0@ != "title"@,
                None => forall|j: int|
                    0 <= j < self.metadata@.len() ==> (#[trigger] self.metadata@[j]).0@ != "title"@,
            },
    {
        let mut i: usize = 0;
        while i < self.metadata.len()
            invariant
                i <= self.metadata@.len(),
                forall|j: int| 0 <= j < i ==> (#[trigger] self.metadata@[j]).0@ != "title"@,
            decreases self.metadata@.len() - i,
        {
            if str_is(self.metadata[i].0.as_str(), "title") {
                proof {
                    assert(self.metadata@[i as int].0@ == "title"@);
                }
                return Some(self.metadata[i].1.clone());
            }
            i = i + 1;
        }
        None
    }
}

impl StreamInfo {
    /// The time of a presentation timestamp of this stream.
    pub fn pts_to_timestamp(&self, pts: i64) -> (t: Timestamp)
        ensures
            t == decode::time_of(pts as int, (self.time_base_num, self.time_base_den)),
    {
        ts_from(pts, (self.time_base_num, self.time_base_den))
    }
}

/// Track `i` belongs to stream `index` and is of kind `kind`.
pub open spec fn carries(tracks: Seq<Track>, kind: TrackKind, index: u32, i: int) -> bool {
    tracks[i].kind == kind && tracks[i].stream_index == index
}

fn find_track(tracks: &Vec<Track>, kind: TrackKind, index: u32) -> (r: Option<usize>)
    ensures
        match r {
            Some(i) => i < tracks@.len() && carries(tracks@, kind, index, i as int) && forall|j: int|
                0 <= j < i ==> !#[trigger] carries(tracks@, kind, index, j),
            None => forall|j: int|
                0 <= j < tracks@.len() ==> !#[trigger] carries(tracks@, kind, index, j),
        },
{
    let mut i: usize = 0;
    while i < tracks.len()
        invariant
            i <= tracks@.len(),
            forall|j: int| 0 <= j < i ==> !#[trigger] carries(tracks@, kind, index, j),
        decreases tracks@.len() - i,
    {
        if tracks[i].kind == kind && tracks[i].stream_index == index {
            return Some(i);
        }
        i = i + 1;
    }
    None
}

/// `t` is the first track of the best stream of a kind.
pub open spec fn chosen_track(
    streams: Seq<StreamInfo>,
    tracks: Seq<Track>,
    kind: TrackKind,
    b: int,
    i: int,
) -> bool {
    &&& best_of(streams, kind, b)
    &&& 0 <= i < tracks.len()
    &&& carries(tracks, kind, streams[b].index, i)
    &&& forall|j: int| 0 <= j < i ==> !#[trigger] carries(tracks, kind, streams[b].index, j)
}

/// Neither a stream of the kind nor a track of the best one is there.
pub open spec fn no_track(streams: Seq<StreamInfo>, tracks: Seq<Track>, kind: TrackKind) -> bool {
    ||| forall|j: int| 0 <= j < streams.len() ==> (#[trigger] streams[j]).kind != kind
    ||| exists|b: int| #[trigger]
        best_of(streams, kind, b) && forall|j: int|
            0 <= j < tracks.len() ==> !#[trigger] carries(tracks, kind, streams[b].index, j)
}

/// The track chosen for a kind of work: the one whose stream is the best of its kind.
pub fn track_for<'a>(probe: &Probe, tracks: &'a Vec<Track>, kind: TrackKind) -> (r: Option<
    &'a Track,
>)
    ensures
        match r {
            Some(t) => exists|b: int, i: int| #[trigger]
                chosen_track(probe.streams@, tracks@, kind, b, i) && *t == tracks@[i],
            None => no_track(probe.streams@, tracks@, kind),
        },
{
    match best_stream(&probe.streams, kind) {
        Some(b) => {
            let index: u32 = probe.streams[b].index;
            match find_track(tracks, kind, index) {
                Some(i) => {
                    proof {
                        assert(chosen_track(probe.streams@, tracks@, kind, b as int, i as int));
                    }
                    Some(&tracks[i])
                },
                None => None,
            }
        },
        None => None,
    }
}

/// The streams that are kept are those of a known kind, each once and in their order.
pub proof fn law_known_streams_are_kept(raw: Seq<RawStream>, n: int)
    requires
        0 <= n <= raw.len(),
    ensures
        forall|k: int|
            #[trigger] kept(raw, n).contains(k) <==> 0 <= k < n && raw[k].kind is Some,
        forall|a: int, b: int|
            0 <= a < b < kept(raw, n).len() ==> kept(raw, n)[a] < kept(raw, n)[b],
    decreases n,
{
    if n > 0 {
        law_known_streams_are_kept(raw, n - 1);
        let (s, t) = (kept(raw, n - 1), kept(raw, n));
        if raw[n - 1].kind is Some {
            assert forall|k: int| #[trigger] t.contains(k) <==> 0 <= k < n && raw[k].kind is Some by {
                if t.contains(k) {
                    let i = choose|i: int| 0 <= i < t.len() && t[i] == k;
                    assert(i < s.len() ==> s[i] == k);
                    assert(s.contains(k) || k == n - 1);
                }
                if 0 <= k < n && raw[k].kind is Some {
                    if k < n - 1 {
                        assert(s.contains(k));
                        let i = choose|i: int| 0 <= i < s.len() && s[i] == k;
                        assert(t[i] == k);
                    } else {
                        assert(t[s.len() as int] == k);
                    }
                }
            }
            assert forall|a: int, b: int| 0 <= a < b < t.len() implies t[a] < t[b] by {
                if b == s.len() {
                    assert(s.contains(s[a]));
                }
            }
        } else {
            assert forall|k: int| #[trigger] t.contains(k) <==> 0 <= k < n && raw[k].kind is Some by {
                assert(s.contains(k) <==> 0 <= k < n - 1 && raw[k].kind is Some);
            }
        }
    }
}

/// A stream that is kept and knows its start.
pub open spec fn knows_start(s: RawStream) -> bool {
    s.kind is Some && s.start_time != NO_PTS
}

/// The media starts with a stream that knows its start, and no such stream starts sooner.
pub proof fn law_media_starts_with_its_first_stream(raw: Seq<RawStream>, n: int)
    requires
        0 <= n <= raw.len(),
    ensures
        earliest(raw, n) is None <==> forall|k: int| 0 <= k < n ==> !knows_start(#[trigger] raw[k]),
        earliest(raw, n) matches Some(e) ==> {
            &&& e.wf()
            &&& exists|k: int|
                0 <= k < n && knows_start(#[trigger] raw[k]) && e == decode::time_of(
                    raw[k].start_time as int,
                    base_of(raw[k].time_base),
                )
            &&& forall|k: int|
                0 <= k < n && knows_start(#[trigger] raw[k]) ==> crate::timestamp::le_time(
                    e,
                    decode::time_of(raw[k].start_time as int, base_of(raw[k].time_base)),
                )
        },
    decreases n,
{
    if n > 0 {
        law_media_starts_with_its_first_stream(raw, n - 1);
        let s = raw[n - 1];
        let t = decode::time_of(s.start_time as int, base_of(s.time_base));
        if knows_start(s) {
            assert(t.wf());
            crate::timestamp::law_time_total_preorder(t, t, t);
            if let Some(e) = earliest(raw, n - 1) {
                crate::timestamp::law_time_total_preorder(e, t, t);
                assert forall|k: int| 0 <= k < n && knows_start(#[trigger] raw[k]) implies
                    crate::timestamp::le_time(
                    earliest(raw, n)->0,
                    decode::time_of(raw[k].start_time as int, base_of(raw[k].time_base)),
                ) by {
                    if k < n - 1 {
                        let u = decode::time_of(
                            raw[k].start_time as int,
                            base_of(raw[k].time_base),
                        );
                        assert(u.wf());
                        crate::timestamp::law_time_total_preorder(t, e, u);
                    }
                }
            }
        }
    }
}

/// The pixels of a picture, none where a side is not known.
pub open spec fn picture_size(s: StreamInfo) -> int {
    match (s.width, s.height) {
        (Some(w), Some(h)) => w * h,
        _ => 0,
    }
}

/// The best stream of a kind is a default one where there is any; of streams that are equal in
/// that, the largest picture or the one with most channels, and of those the last.
pub proof fn law_best_streams_are_default_then_largest(
    streams: Seq<StreamInfo>,
    kind: TrackKind,
    i: int,
    j: int,
)
    requires
        best_of(streams, kind, i),
        0 <= j < streams.len(),
        streams[j].kind == kind,
    ensures
        streams[j].is_default ==> streams[i].is_default,
        streams[j].is_default == streams[i].is_default && kind == TrackKind::Video ==> picture_size(
            streams[j],
        ) < picture_size(streams[i]) || (picture_size(streams[j]) == picture_size(streams[i]) && j
            <= i),
        streams[j].is_default == streams[i].is_default && kind != TrackKind::Video ==> {
            let more = |s: StreamInfo| match s.channels {
                Some(c) => c as int,
                None => 0,
            };
            more(streams[j]) < more(streams[i]) || (more(streams[j]) == more(streams[i]) && j <= i)
        },
{
    let (a, b) = (streams[i], streams[j]);
    lemma_picture(a);
    lemma_picture(b);
    assert(merit(b) < merit(a) || (merit(b) == merit(a) && j <= i));
}

proof fn lemma_picture(s: StreamInfo)
    ensures
        0 <= picture_size(s) < 0x1_0000_0000_0000_0000,
        s.kind == TrackKind::Video ==> merit(s) == picture_size(s) + (if s.is_default {
            0x1_0000_0000_0000_0000int
        } else {
            0
        }),
{
    if let (Some(w), Some(h)) = (s.width, s.height) {
        assert(0 <= w * h < 0x1_0000_0000_0000_0000) by (nonlinear_arith)
            requires
                0 <= w <= 0xffff_ffff,
                0 <= h <= 0xffff_ffff,
        ;
    }
    let w = match s.width {
        Some(w) => w as int,
        None => 0,
    };
    let h = match s.height {
        Some(h) => h as int,
        None => 0,
    };
    assert(w == 0 || h == 0 ==> w * h == 0) by (nonlinear_arith);
}

} // verus!
