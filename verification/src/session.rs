//! The conversation between the parent and a decode worker: what each side makes of a message,
//! and which shared-memory slots are free.

use std::collections::VecDeque;

use vstd::prelude::*;

use crate::decode::{self, pcm_from_bytes};
use crate::error::MediaError;
use crate::frame::{FrameMeta, PixelFormat};
use crate::probe::Probe;
use crate::protocol::{AudioDecodeRequest, VideoDecodeRequest, PROTOCOL_VERSION};
use crate::shm::ShmSpec;
use crate::text::{self, decimal_string};
use crate::timestamp::Timestamp;

verus! {

/// Parent to worker.
#[derive(Debug)]
pub enum Request {
    /// Handshake.
    Hello {
        /// Protocol version of the parent.
        version: u32,
    },
    /// Probe a file.
    Probe {
        /// Media file.
        path: String,
    },
    /// Decode video frames into shared memory.
    DecodeVideo {
        /// What to decode.
        video: VideoDecodeRequest,
        /// Where frames go.
        shm: ShmSpec,
    },
    /// Decode audio chunks into shared memory.
    DecodeAudio {
        /// What to decode.
        audio: AudioDecodeRequest,
        /// Where chunks go.
        shm: ShmSpec,
    },
    /// The parent finished with a slot.
    SlotFree {
        /// Slot index.
        slot: u32,
    },
    /// Stop the current decode.
    Cancel,
    /// Exit.
    Shutdown,
}

/// Worker to parent.
#[derive(Debug)]
pub enum Response {
    /// Handshake reply.
    Hello {
        /// Protocol version of the worker.
        version: u32,
        /// Version of the media library.
        libav: String,
        /// Worker pid.
        pid: u32,
    },
    /// Probe result.
    Probe(Probe),
    /// A decode session opened; geometry of what will follow.
    Started(SessionInfo),
    /// One frame is in a slot.
    Frame {
        /// Slot index.
        slot: u32,
        /// Valid bytes.
        len: usize,
        /// Width.
        width: u32,
        /// Height.
        height: u32,
        /// Row stride.
        stride: usize,
        /// Pixel format.
        format: PixelFormat,
        /// PTS in the stream timebase.
        pts: i64,
        /// Time.
        t: Timestamp,
        /// Keyframe flag.
        is_keyframe: bool,
    },
    /// One PCM chunk is in a slot.
    AudioChunk {
        /// Slot index.
        slot: u32,
        /// Valid bytes (`samples * 2`).
        len: usize,
        /// Start time.
        t0: Timestamp,
        /// End time.
        t1: Timestamp,
        /// Sample rate.
        sample_rate: u32,
        /// Samples in the chunk.
        samples: usize,
    },
    /// The session finished.
    End {
        /// Items delivered.
        items: u64,
        /// Frames or samples the decoder produced.
        decoded: u64,
    },
    /// The request failed.
    Error {
        /// Why.
        message: String,
    },
    /// A log line.
    Log {
        /// Level.
        level: String,
        /// Text.
        message: String,
    },
}

/// What a decode session reported when it opened.
#[derive(Clone, Copy, Debug, PartialEq, Eq, Structural)]
pub struct SessionInfo {
    /// Timebase numerator.
    pub time_base_num: u32,
    /// Timebase denominator.
    pub time_base_den: u32,
    /// Stream index used.
    pub stream_index: u32,
    /// Delivered width (video).
    pub width: u32,
    /// Delivered height (video).
    pub height: u32,
    /// Source width (video).
    pub source_width: u32,
    /// Source height (video).
    pub source_height: u32,
    /// Whether per-sample seeking is in use.
    pub seeking: bool,
}

/// Counts reported at the end of a session.
#[derive(Clone, Copy, Debug, PartialEq, Eq, Structural)]
pub struct SessionStats {
    /// Items delivered (frames or chunks).
    pub items: u64,
    /// Frames or samples the decoder produced.
    pub decoded: u64,
}

impl Default for SessionStats {
    fn default() -> (s: SessionStats)
        ensures
            s == (SessionStats { items: 0, decoded: 0 }),
    {
        SessionStats { items: 0, decoded: 0 }
    }
}

/// A message made of a prefix and what was shown.
pub open spec fn protocol_error(e: MediaError, prefix: Seq<char>, shown: Seq<char>) -> bool {
    e matches MediaError::Protocol(m) && m@ == prefix + shown
}

fn protocol(prefix: &str, shown: &str) -> (e: MediaError)
    ensures
        protocol_error(e, prefix@, shown@),
{
    let mut m = prefix.to_owned();
    m.append(shown);
    MediaError::Protocol(m)
}

/// What the parent makes of the reply to its greeting: the version of the worker's media
/// library. `shown` is the reply as text.
pub fn handshake(reply: Response, shown: &str) -> (r: Result<String, MediaError>)
    ensures
        match reply {
            Response::Hello { version, libav, .. } => if version == PROTOCOL_VERSION {
                r == Ok::<String, MediaError>(libav)
            } else {
                r matches Err(e) && protocol_error(
                    e,
                    "worker protocol "@ + text::decimal(version as nat) + ", expected "@,
                    text::decimal(PROTOCOL_VERSION as nat),
                )
            },
            Response::Error { message } => r == Err::<String, MediaError>(
                MediaError::Worker(message),
            ),
            _ => r matches Err(e) && protocol_error(e, "unexpected handshake reply "@, shown@),
        },
{
    match reply {
        Response::Hello { version, libav, .. } => {
            if version == PROTOCOL_VERSION {
                return Ok(libav);
            }
            let mut m = "worker protocol ".to_owned();
            m.append(decimal_string(version as u64).as_str());
            m.append(", expected ");
            Err(protocol(m.as_str(), decimal_string(PROTOCOL_VERSION as u64).as_str()))
        },
        Response::Error { message } => Err(MediaError::Worker(message)),
        _ => Err(protocol("unexpected handshake reply ", shown)),
    }
}

/// What to do after a reply.
#[derive(Debug)]
pub enum ReplyStep<T> {
    /// There is the answer.
    Done(T),
    /// Wait for the next reply.
    Wait,
    /// The request failed; whether the worker is told to shut down first.
    Fail(MediaError, bool),
}

/// What the parent makes of a reply to a probe.
pub fn probe_reply(reply: Response, shown: &str) -> (r: ReplyStep<Probe>)
    ensures
        match reply {
            Response::Probe(p) => r == ReplyStep::Done(p),
            Response::Error { message } => r == ReplyStep::<Probe>::Fail(
                MediaError::Worker(message),
                true,
            ),
            Response::Log { .. } => r is Wait,
            _ => r matches ReplyStep::Fail(e, true) && protocol_error(
                e,
                "unexpected reply to probe: "@,
                shown@,
            ),
        },
{
    match reply {
        Response::Probe(p) => ReplyStep::Done(p),
        Response::Error { message } => ReplyStep::Fail(MediaError::Worker(message), true),
        Response::Log { .. } => ReplyStep::Wait,
        _ => ReplyStep::Fail(protocol("unexpected reply to probe: ", shown), true),
    }
}

/// What the parent makes of a reply while a session opens.
pub fn open_reply(reply: Response, shown: &str) -> (r: ReplyStep<SessionInfo>)
    ensures
        match reply {
            Response::Started(info) => r == ReplyStep::Done(info),
            Response::Error { message } => r == ReplyStep::<SessionInfo>::Fail(
                MediaError::Worker(message),
                true,
            ),
            Response::Log { .. } => r is Wait,
            _ => r matches ReplyStep::Fail(e, false) && protocol_error(
                e,
                "unexpected reply while opening session: "@,
                shown@,
            ),
        },
{
    match reply {
        Response::Started(info) => ReplyStep::Done(info),
        Response::Error { message } => ReplyStep::Fail(MediaError::Worker(message), true),
        Response::Log { .. } => ReplyStep::Wait,
        _ => ReplyStep::Fail(protocol("unexpected reply while opening session: ", shown), false),
    }
}

/// What to do after a message in an open session.
#[derive(Debug)]
pub enum StreamStep {
    /// The stream ended; the worker is told to shut down.
    End,
    /// Wait for the next message.
    Wait,
    /// The session failed.
    Fail(MediaError),
    /// A message for the reader of the stream.
    Item(Response),
}

/// An open session, as the parent sees it.
#[derive(Clone, Copy, Debug, PartialEq, Eq, Structural)]
pub struct Session {
    /// Geometry and timebase.
    pub info: SessionInfo,
    /// Final counts; none until the stream has ended cleanly.
    pub stats: Option<SessionStats>,
    /// Whether the session failed.
    pub failed: bool,
}

impl Session {
    /// Nothing more comes.
    pub open spec fn over(self) -> bool {
        self.stats is Some || self.failed
    }

    /// A session that has just opened.
    pub fn new(info: SessionInfo) -> (s: Session)
        ensures
            s == (Session { info, stats: None, failed: false }),
            !s.over(),
    {
        Session { info, stats: None, failed: false }
    }

    /// Whether nothing more comes: a reader then gets the end without asking the worker.
    pub fn is_over(&self) -> (b: bool)
        ensures
            b == self.over(),
    {
        self.stats.is_some() || self.failed
    }

    /// What to do with a message.
    pub fn receive(&mut self, reply: Response) -> (r: StreamStep)
        requires
            !old(self).over(),
        ensures
            match reply {
                Response::End { items, decoded } => r is End && *final(self) == (Session {
                    stats: Some(SessionStats { items, decoded }),
                    ..*old(self)
                }),
                Response::Error { message } => r == StreamStep::Fail(MediaError::Worker(message))
                    && *final(self) == (Session { failed: true, ..*old(self) }),
                Response::Log { .. } => r is Wait && *final(self) == *old(self),
                _ => r == StreamStep::Item(reply) && *final(self) == *old(self),
            },
            final(self).over() <==> reply is End || reply is Error,
    {
        match reply {
            Response::End { items, decoded } => {
                self.stats = Some(SessionStats { items, decoded });
                StreamStep::End
            },
            Response::Error { message } => {
                self.failed = true;
                StreamStep::Fail(MediaError::Worker(message))
            },
            Response::Log { .. } => StreamStep::Wait,
            other => StreamStep::Item(other),
        }
    }

    /// Reading from the worker failed.
    pub fn break_off(&mut self)
        ensures
            *final(self) == (Session { failed: true, ..*old(self) }),
            final(self).over(),
    {
        self.failed = true;
    }

    /// The frame that a message announces: its slot, its bytes there, and its geometry. None
    /// for any other message.
    pub fn frame_of(&self, reply: &Response) -> (r: Option<(u32, usize, FrameMeta)>)
        ensures
            r == (match *reply {
                Response::Frame {
                    slot,
                    len,
                    width,
                    height,
                    stride,
                    format,
                    pts,
                    t,
                    is_keyframe,
                } => Some(
                    (
                        slot,
                        len,
                        FrameMeta {
                            width,
                            height,
                            stride,
                            format,
                            pts,
                            t,
                            is_keyframe,
                            source_width: self.info.source_width,
                            source_height: self.info.source_height,
                        },
                    ),
                ),
                _ => None,
            }),
    {
        match reply {
            Response::Frame { slot, len, width, height, stride, format, pts, t, is_keyframe } => {
                Some(
                    (
                        *slot,
                        *len,
                        FrameMeta {
                            width: *width,
                            height: *height,
                            stride: *stride,
                            format: *format,
                            pts: *pts,
                            t: *t,
                            is_keyframe: *is_keyframe,
                            source_width: self.info.source_width,
                            source_height: self.info.source_height,
                        },
                    ),
                )
            },
            _ => None,
        }
    }
}

/// One chunk of 16-bit mono PCM.
#[derive(Debug)]
pub struct AudioChunk {
    /// Start time.
    pub t0: Timestamp,
    /// End time.
    pub t1: Timestamp,
    /// Sample rate.
    pub sample_rate: u32,
    /// Samples.
    pub samples: Vec<i16>,
}

/// How many samples a chunk has: as announced, and no more than the bytes hold.
pub open spec fn chunk_len(samples: int, bytes: int) -> int {
    if samples < bytes / 2 {
        samples
    } else {
        bytes / 2
    }
}

/// The chunk that a message announces, read from the bytes of its slot. None for any other
/// message.
pub fn chunk_of(reply: &Response, bytes: &[u8]) -> (r: Option<AudioChunk>)
    ensures
        match *reply {
            Response::AudioChunk { t0, t1, sample_rate, samples, .. } => r matches Some(c) && c.t0
                == t0 && c.t1 == t1 && c.sample_rate == sample_rate && c.samples@.len()
                == chunk_len(samples as int, bytes@.len() as int) && forall|i: int|
                0 <= i < c.samples@.len() ==> #[trigger] c.samples@[i] == decode::sample_of(
                    bytes@[2 * i],
                    bytes@[2 * i + 1],
                ),
            _ => r is None,
        },
{
    match reply {
        Response::AudioChunk { t0, t1, sample_rate, samples, .. } => {
            let half: usize = bytes.len() / 2;
            let n: usize = if *samples < half {
                *samples
            } else {
                half
            };
            let part = vstd::slice::slice_subrange(bytes, 0, 2 * n);
            let pcm = pcm_from_bytes(part);
            Some(AudioChunk { t0: *t0, t1: *t1, sample_rate: *sample_rate, samples: pcm })
        },
        _ => None,
    }
}

/// The bytes of a slot that holds any frame of a session: the longest side bounds both; without
/// one the source's size counts, or 1920 by 1080 where it is not known.
pub open spec fn slot_bytes(max_dim: u32, source: Option<(Option<u32>, Option<u32>)>) -> nat {
    if max_dim > 0 {
        PixelFormat::Rgb24.spec_frame_size(max_dim as nat, max_dim as nat)
    } else {
        match source {
            Some((w, h)) => PixelFormat::Rgb24.spec_frame_size(
                match w {
                    Some(w) => w as nat,
                    None => 1920,
                },
                match h {
                    Some(h) => h as nat,
                    None => 1080,
                },
            ),
            None => 0,
        }
    }
}

/// The size of a video session's slots; `source` is the size of the source's video stream, if
/// it has one. Asked for only where no longest side is given.
pub fn video_slot_size(max_dim: u32, source: Option<(Option<u32>, Option<u32>)>, path: &str) -> (r:
    Result<usize, MediaError>)
    requires
        slot_bytes(max_dim, source) <= usize::MAX,
    ensures
        r is Ok <==> max_dim > 0 || source is Some,
        r matches Ok(n) ==> n == slot_bytes(max_dim, source),
        r matches Err(e) ==> (e matches MediaError::NoStream(k, p) && k@ == "video"@ && p@
            == path@),
{
    if max_dim > 0 {
        return Ok(PixelFormat::Rgb24.frame_size(max_dim, max_dim));
    }
    match source {
        Some((w, h)) => {
            let width: u32 = match w {
                Some(w) => w,
                None => 1920,
            };
            let height: u32 = match h {
                Some(h) => h,
                None => 1080,
            };
            Ok(PixelFormat::Rgb24.frame_size(width, height))
        },
        None => Err(MediaError::NoStream("video".to_owned(), path.to_owned())),
    }
}

/// How many slots a session has: two at least.
pub fn slot_count(max_in_flight: usize) -> (r: Result<u32, MediaError>)
    ensures
        r is Ok <==> max_in_flight <= u32::MAX,
        r matches Ok(n) ==> n == (if max_in_flight < 2 {
            2
        } else {
            max_in_flight as int
        }),
        r matches Err(e) ==> (e matches MediaError::Invalid(m) && m@
            == "too many in-flight frames"@),
{
    if max_in_flight as u64 > 0xffff_ffff {
        return Err(MediaError::Invalid("too many in-flight frames".to_owned()));
    }
    if max_in_flight < 2 {
        Ok(2)
    } else {
        Ok(max_in_flight as u32)
    }
}

/// A request with the worker's own number of threads where it names none.
pub fn with_threads(req: VideoDecodeRequest, threads: usize) -> (r: VideoDecodeRequest)
    ensures
        r == (VideoDecodeRequest {
            threads: if req.threads == 0 {
                threads
            } else {
                req.threads
            },
            ..req
        }),
{
    let n: usize = if req.threads == 0 {
        threads
    } else {
        req.threads
    };
    VideoDecodeRequest {
        path: req.path,
        stream_index: req.stream_index,
        fps_milli: req.fps_milli,
        t0_us: req.t0_us,
        t1_us: req.t1_us,
        max_dim: req.max_dim,
        format: req.format,
        threads: n,
    }
}

/// The executable to run as the worker: the configured one, else the one the environment names,
/// else the program itself.
pub fn worker_executable(configured: Option<String>, named: Option<String>, own: String) -> (r:
    String)
    ensures
        r == (match configured {
            Some(p) => p,
            None => match named {
                Some(p) => p,
                None => own,
            },
        }),
{
    match configured {
        Some(p) => p,
        None => match named {
            Some(p) => p,
            None => own,
        },
    }
}

/// What the worker does with a request outside a session.
#[derive(Debug)]
pub enum WorkerStep {
    /// Send a reply and go on.
    Reply(Response),
    /// Send a reply and exit.
    ReplyAndStop(Response),
    /// Probe a file and reply.
    Probe(String),
    /// Decode video.
    Video(VideoDecodeRequest, ShmSpec),
    /// Decode audio.
    Audio(AudioDecodeRequest, ShmSpec),
    /// Nothing: the request is stale.
    Ignore,
    /// Exit.
    Stop,
}

/// What the worker does with a request; `libav` and `pid` go into its greeting.
pub fn worker_step(req: Request, libav: String, pid: u32) -> (r: WorkerStep)
    ensures
        match req {
            Request::Hello { version } => if version == PROTOCOL_VERSION {
                r == WorkerStep::Reply(Response::Hello { version: PROTOCOL_VERSION, libav, pid })
            } else {
                r matches WorkerStep::ReplyAndStop(Response::Error { message }) && message@
                    == "protocol version mismatch: parent "@ + text::decimal(version as nat)
                    + ", worker "@ + text::decimal(PROTOCOL_VERSION as nat)
            },
            Request::Probe { path } => r == WorkerStep::Probe(path),
            Request::DecodeVideo { video, shm } => r == WorkerStep::Video(video, shm),
            Request::DecodeAudio { audio, shm } => r == WorkerStep::Audio(audio, shm),
            Request::SlotFree { .. } => r is Ignore,
            Request::Cancel => r is Ignore,
            Request::Shutdown => r is Stop,
        },
{
    match req {
        Request::Hello { version } => {
            if version != PROTOCOL_VERSION {
                let mut m = "protocol version mismatch: parent ".to_owned();
                m.append(decimal_string(version as u64).as_str());
                m.append(", worker ");
                m.append(decimal_string(PROTOCOL_VERSION as u64).as_str());
                return WorkerStep::ReplyAndStop(Response::Error { message: m });
            }
            WorkerStep::Reply(Response::Hello { version: PROTOCOL_VERSION, libav, pid })
        },
        Request::Probe { path } => WorkerStep::Probe(path),
        Request::DecodeVideo { video, shm } => WorkerStep::Video(video, shm),
        Request::DecodeAudio { audio, shm } => WorkerStep::Audio(audio, shm),
        Request::SlotFree { .. } => WorkerStep::Ignore,
        Request::Cancel => WorkerStep::Ignore,
        Request::Shutdown => WorkerStep::Stop,
    }
}

/// The last message of a session.
pub fn session_end(result: Result<(u64, u64), MediaError>) -> (r: Response)
    ensures
        match result {
            Ok((items, decoded)) => r == (Response::End { items, decoded }),
            Err(e) => r matches Response::Error { message } && message@ == e.spec_message(),
        },
{
    match result {
        Ok((items, decoded)) => Response::End { items, decoded },
        Err(e) => Response::Error { message: e.message() },
    }
}

/// The reply to a probe.
pub fn probe_answer(result: Result<Probe, MediaError>) -> (r: Response)
    ensures
        match result {
            Ok(p) => r == Response::Probe(p),
            Err(e) => r matches Response::Error { message } && message@ == e.spec_message(),
        },
{
    match result {
        Ok(p) => Response::Probe(p),
        Err(e) => Response::Error { message: e.message() },
    }
}

/// The slots of a session that the worker may write to, in the order they came free.
#[derive(Debug)]
pub struct SlotPool {
    free: VecDeque<u32>,
}

impl View for SlotPool {
    type V = Seq<u32>;

    closed spec fn view(&self) -> Seq<u32> {
        self.free@
    }
}

/// Requests free the slots that they name, in order, up to the first that frees none.
pub open spec fn freed(free: Seq<u32>, reqs: Seq<Request>, n: int) -> Seq<u32>
    decreases n,
{
    if n <= 0 {
        free
    } else {
        match reqs[n - 1] {
            Request::SlotFree { slot } => freed(free, reqs, n - 1).push(slot),
            _ => freed(free, reqs, n - 1),
        }
    }
}

/// A request that frees a slot.
pub open spec fn frees(r: Request) -> bool {
    r is SlotFree
}

impl SlotPool {
    /// All slots are free.
    pub fn new(slots: u32) -> (p: SlotPool)
        ensures
            p@ == Seq::new(slots as nat, |i: int| i as u32),
            p@.no_duplicates(),
    {
        let mut free: VecDeque<u32> = VecDeque::new();
        let mut i: u32 = 0;
        while i < slots
            invariant
                i <= slots,
                free@ == Seq::new(i as nat, |k: int| k as u32),
            decreases slots - i,
        {
            free.push_back(i);
            proof {
                assert(free@ =~= Seq::new((i + 1) as nat, |k: int| k as u32));
            }
            i = i + 1;
        }
        SlotPool { free }
    }

    /// A request that came during a session: a slot is free again, or the session is over.
    /// `shown` is the request as text.
    pub fn handle(&mut self, req: &Request, shown: &str) -> (r: Result<(), MediaError>)
        ensures
            match *req {
                Request::SlotFree { slot } => r is Ok && final(self)@ == old(self)@.push(slot),
                Request::Cancel => r == Err::<(), MediaError>(MediaError::Cancelled)
                    && final(self)@ == old(self)@,
                Request::Shutdown => r == Err::<(), MediaError>(MediaError::Cancelled)
                    && final(self)@ == old(self)@,
                _ => final(self)@ == old(self)@ && (r matches Err(e) && protocol_error(
                    e,
                    "unexpected request during decode session: "@,
                    shown@,
                )),
            },
    {
        match req {
            Request::SlotFree { slot } => {
                self.free.push_back(*slot);
                Ok(())
            },
            Request::Cancel => Err(MediaError::Cancelled),
            Request::Shutdown => Err(MediaError::Cancelled),
            _ => Err(protocol("unexpected request during decode session: ", shown)),
        }
    }

    /// A slot to write to, after the requests that wait were handled in order: the one that has
    /// been free longest, or none, in which case the worker waits for the next request.
    /// `shown` has each request as text.
    pub fn acquire(&mut self, waiting: &Vec<Request>, shown: &Vec<String>) -> (r: Result<
        Option<u32>,
        MediaError,
    >)
        requires
            shown@.len() == waiting@.len(),
        ensures
            r is Ok <==> forall|i: int| 0 <= i < waiting@.len() ==> frees(#[trigger] waiting@[i]),
            r matches Ok(s) ==> ({
                let all = freed(old(self)@, waiting@, waiting@.len() as int);
                if all.len() == 0 {
                    s is None && final(self)@ == all
                } else {
                    s == Some(all[0]) && final(self)@ == all.skip(1)
                }
            }),
            r matches Err(e) ==> exists|i: int|
                0 <= i < waiting@.len() && !#[trigger] frees(waiting@[i]) && (forall|k: int|
                    0 <= k < i ==> frees(#[trigger] waiting@[k])) && final(self)@ == freed(
                    old(self)@,
                    waiting@,
                    i,
                ) && (if waiting@[i] is Cancel || waiting@[i] is Shutdown {
                    e == MediaError::Cancelled
                } else {
                    protocol_error(
                        e,
                        "unexpected request during decode session: "@,
                        shown@[i]@,
                    )
                }),
    {
        let ghost start = self@;
        let n: usize = waiting.len();
        let mut i: usize = 0;
        while i < n
            invariant
                i <= n == waiting@.len(),
                shown@.len() == n,
                start == old(self)@,
                self@ == freed(start, waiting@, i as int),
                forall|k: int| 0 <= k < i ==> frees(#[trigger] waiting@[k]),
            decreases n - i,
        {
            match self.handle(&waiting[i], shown[i].as_str()) {
                Ok(_) => {},
                Err(e) => {
                    proof {
                        assert(!frees(waiting@[i as int]));
                    }
                    return Err(e);
                },
            }
            i = i + 1;
        }
        Ok(self.free.pop_front())
    }
}

/// A slot in use is not handed out again: while the parent frees only slots that are not free,
/// no slot is free twice, and the one handed out is free no more.
pub proof fn law_slots_are_not_shared(free: Seq<u32>, reqs: Seq<Request>, n: int)
    requires
        0 <= n <= reqs.len(),
        free.no_duplicates(),
        forall|i: int|
            0 <= i < n ==> (#[trigger] reqs[i] matches Request::SlotFree { slot } && !freed(
                free,
                reqs,
                i,
            ).contains(slot)),
    ensures
        freed(free, reqs, n).no_duplicates(),
        freed(free, reqs, n).len() > 0 ==> !freed(free, reqs, n).skip(1).contains(
            freed(free, reqs, n)[0],
        ),
        freed(free, reqs, n).len() == free.len() + n,
    decreases n,
{
    if n > 0 {
        law_slots_are_not_shared(free, reqs, n - 1);
        let before = freed(free, reqs, n - 1);
        assert(reqs[n - 1] is SlotFree);
        let slot = reqs[n - 1]->SlotFree_slot;
        assert(freed(free, reqs, n) == before.push(slot));
        let now = before.push(slot);
        assert forall|i: int, j: int| 0 <= i < now.len() && 0 <= j < now.len() && i
            != j implies now[i] != now[j] by {
            if i == before.len() {
                assert(before[j] != slot);
            } else if j == before.len() {
                assert(before[i] != slot);
            }
        }
    }
    let all = freed(free, reqs, n);
    if all.len() > 0 {
        assert forall|k: int| 0 <= k < all.skip(1).len() implies all.skip(1)[k] != all[0] by {
            assert(all.skip(1)[k] == all[k + 1]);
        }
    }
}

/// A chunk holds all samples that were announced, as far as whole samples of two bytes came.
pub proof fn law_chunks_hold_what_came(samples: int, bytes: int)
    requires
        samples >= 0,
        bytes >= 0,
    ensures
        chunk_len(samples, bytes) <= samples,
        2 * chunk_len(samples, bytes) <= bytes,
        chunk_len(samples, bytes) == samples || 2 * (chunk_len(samples, bytes) + 1) > bytes,
{
}

} // verus!
