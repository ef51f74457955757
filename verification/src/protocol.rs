//! Length-prefixed messages between the parent and the decode worker, and the
//! requests they carry.
//!
//! Every message is a 4-byte little-endian length followed by that many bytes
//! of JSON. Pixels and PCM never go through the pipe; they go through
//! shared-memory slots.

use vstd::bytes::{u32_from_le_bytes, u32_to_le_bytes};
use vstd::prelude::*;
use vstd::slice::slice_subrange;

use crate::error::MediaError;
use crate::frame::PixelFormat;
use crate::text;

verus! {

/// Protocol version; both sides must agree.
pub const PROTOCOL_VERSION: u32 = 1;

/// Largest message either side will accept: 64 MiB.
pub const MAX_MESSAGE_BYTES: u32 = 67_108_864;

/// The bytes of one message on the wire.
pub open spec fn framed(body: Seq<u8>) -> Seq<u8> {
    vstd::bytes::spec_u32_to_le_bytes(body.len() as u32) + body
}

/// What reading one message off the front of `s` gives.
pub enum ReadView {
    /// Nothing is left: the stream ended between two messages.
    End,
    /// The header announces a message over the limit.
    TooLong(nat),
    /// The stream ended inside a message.
    Truncated,
    /// A message and what follows it.
    Message(Seq<u8>, Seq<u8>),
}

/// Reads one message off the front of a byte stream.
pub open spec fn read_front(s: Seq<u8>) -> ReadView {
    if s.len() == 0 {
        ReadView::End
    } else if s.len() < 4 {
        ReadView::Truncated
    } else {
        let len = vstd::bytes::spec_u32_from_le_bytes(s.take(4));
        if len > MAX_MESSAGE_BYTES {
            ReadView::TooLong(len as nat)
        } else if s.len() < 4 + len {
            ReadView::Truncated
        } else {
            ReadView::Message(s.subrange(4, 4 + len), s.skip(4 + len))
        }
    }
}

/// Appends one length-prefixed message. A body over the limit is refused and nothing is written.
pub fn write_msg(out: &mut Vec<u8>, body: &[u8]) -> (r: Result<(), MediaError>)
    ensures
        r is Ok <==> body@.len() <= MAX_MESSAGE_BYTES,
        r is Ok ==> final(out)@ == old(out)@ + framed(body@),
        r matches Err(e) ==> (e matches MediaError::Protocol(m) && m@ == "message too large"@)
            && final(out)@ == old(out)@,
{
    if body.len() > MAX_MESSAGE_BYTES as usize {
        return Err(MediaError::Protocol("message too large".to_owned()));
    }
    let head = u32_to_le_bytes(body.len() as u32);
    push_bytes(out, head.as_slice());
    push_bytes(out, body);
    proof {
        assert(out@ =~= old(out)@ + framed(body@));
    }
    Ok(())
}

fn push_bytes(out: &mut Vec<u8>, s: &[u8])
    ensures
        final(out)@ == old(out)@ + s@,
{
    let mut i: usize = 0;
    proof {
        assert(old(out)@ + s@.take(0) =~= old(out)@);
    }
    while i < s.len()
        invariant
            i <= s@.len(),
            out@ == old(out)@ + s@.take(i as int),
        decreases s@.len() - i,
    {
        out.push(s[i]);
        proof {
            assert(out@ =~= old(out)@ + s@.take(i + 1));
        }
        i = i + 1;
    }
    proof {
        assert(s@.take(i as int) =~= s@);
    }
}

/// The length that a message header announces, or the error for one over the limit.
pub fn header_len(header: &[u8]) -> (r: Result<usize, MediaError>)
    requires
        header@.len() == 4,
    ensures
        match r {
            Ok(n) => n == vstd::bytes::spec_u32_from_le_bytes(header@) && n <= MAX_MESSAGE_BYTES,
            Err(MediaError::Protocol(m)) => vstd::bytes::spec_u32_from_le_bytes(header@)
                > MAX_MESSAGE_BYTES && m@ == "message of "@ + text::decimal(
                vstd::bytes::spec_u32_from_le_bytes(header@) as nat,
            ) + " bytes exceeds limit"@,
            Err(_) => false,
        },
{
    let n: u32 = u32_from_le_bytes(header);
    if n > MAX_MESSAGE_BYTES {
        let mut m = "message of ".to_owned();
        let d = text::decimal_string(n as u64);
        m.append(d.as_str());
        m.append(" bytes exceeds limit");
        Err(MediaError::Protocol(m))
    } else {
        Ok(n as usize)
    }
}

/// Reads the message at `pos` of a byte buffer: its body and the position behind it. `Ok(None)`
/// at a clean end.
pub fn read_msg(buf: &[u8], pos: usize) -> (r: Result<Option<(Vec<u8>, usize)>, MediaError>)
    requires
        pos <= buf@.len(),
    ensures
        match read_front(buf@.skip(pos as int)) {
            ReadView::End => r == Ok::<Option<(Vec<u8>, usize)>, MediaError>(None),
            ReadView::TooLong(n) => r matches Err(MediaError::Protocol(m)) && m@ == "message of "@
                + text::decimal(n) + " bytes exceeds limit"@,
            ReadView::Truncated => r matches Err(MediaError::Io(m)) && m@
                == "failed to fill whole buffer"@,
            ReadView::Message(body, rest) => r matches Ok(Some((b, next))) && b@ == body && next
                <= buf@.len() && buf@.skip(next as int) == rest,
        },
{
    let n: usize = buf.len();
    let ghost rest = buf@.skip(pos as int);
    if n == pos {
        return Ok(None);
    }
    if n - pos < 4 {
        return Err(MediaError::Io("failed to fill whole buffer".to_owned()));
    }
    let head = slice_subrange(buf, pos, pos + 4);
    proof {
        assert(head@ =~= rest.take(4));
    }
    let len: usize = match header_len(head) {
        Ok(l) => l,
        Err(e) => {
            return Err(e);
        },
    };
    if n - pos - 4 < len {
        return Err(MediaError::Io("failed to fill whole buffer".to_owned()));
    }
    let part = slice_subrange(buf, pos + 4, pos + 4 + len);
    let mut body: Vec<u8> = Vec::new();
    push_bytes(&mut body, part);
    proof {
        assert(body@ =~= rest.subrange(4, 4 + len));
        assert(buf@.skip(pos + 4 + len) =~= rest.skip(4 + len));
    }
    Ok(Some((body, pos + 4 + len)))
}

/// What was written is read back: a message in front of any further bytes is returned unchanged,
/// with exactly those bytes left over.
pub proof fn law_messages_read_back(body: Seq<u8>, rest: Seq<u8>)
    requires
        body.len() <= MAX_MESSAGE_BYTES,
    ensures
        read_front(framed(body) + rest) == ReadView::Message(body, rest),
{
    let s = framed(body) + rest;
    vstd::bytes::lemma_auto_spec_u32_to_from_le_bytes();
    let head = vstd::bytes::spec_u32_to_le_bytes(body.len() as u32);
    assert(head.len() == 4);
    assert(s.take(4) =~= head);
    assert(s.subrange(4, 4int + body.len()) =~= body);
    assert(s.skip(4int + body.len()) =~= rest);
}

/// The decimal places of thousandths, without the zeros at the end.
pub open spec fn shown_places(n: int) -> Seq<char> {
    let d = |k: int| text::digit_char(k);
    if n == 0 {
        Seq::empty()
    } else if n % 10 != 0 {
        seq!['.', d(n / 100), d((n / 10) % 10), d(n % 10)]
    } else if n % 100 != 0 {
        seq!['.', d(n / 100), d((n / 10) % 10)]
    } else {
        seq!['.', d(n / 100)]
    }
}

/// A number of thousandths as it is shown: a decimal without needless zeros.
pub open spec fn shown_milli(n: int) -> Seq<char> {
    let size = if n < 0 {
        -n
    } else {
        n
    };
    (if n < 0 {
        seq!['-']
    } else {
        Seq::empty()
    }) + text::decimal((size / 1000) as nat) + shown_places(size % 1000)
}

fn digit_of(d: u64) -> (c: char)
    requires
        d < 10,
    ensures
        c == text::digit_char(d as int),
{
    (48 + d as u8) as char
}

/// Shows a number of thousandths.
pub fn show_milli(n: i64) -> (s: String)
    ensures
        s@ == shown_milli(n as int),
{
    let mut v: Vec<char> = Vec::new();
    let size: u64 = if n < 0 {
        v.push('-');
        (-(n as i128)) as u64
    } else {
        n as u64
    };
    let ghost sign = v@;
    let whole = text::decimal_of(size / 1000);
    text::push_all(&mut v, whole.as_slice());
    let f: u64 = size % 1000;
    let ghost before = v@;
    if f != 0 {
        v.push('.');
        v.push(digit_of(f / 100));
        if f % 100 != 0 {
            v.push(digit_of((f / 10) % 10));
            if f % 10 != 0 {
                v.push(digit_of(f % 10));
            }
        }
    }
    proof {
        assert(v@ =~= before + shown_places(f as int));
        assert(sign =~= (if n < 0 {
            seq!['-']
        } else {
            Seq::empty()
        }));
        assert(v@ =~= shown_milli(n as int));
    }
    text::string_of(v.as_slice())
}

/// A request to decode video frames at a fixed rate over a range.
#[derive(Debug)]
pub struct VideoDecodeRequest {
    /// Media file.
    pub path: String,
    /// Stream index; `None` picks the best video stream.
    pub stream_index: Option<u32>,
    /// Frames per second to sample, in thousandths.
    pub fps_milli: i64,
    /// Start time in microseconds.
    pub t0_us: i64,
    /// End time in microseconds; `None` means end of stream.
    pub t1_us: Option<i64>,
    /// Longest side of delivered frames. 0 keeps the source size.
    pub max_dim: u32,
    /// Pixel format to deliver.
    pub format: PixelFormat,
    /// Decoder threads; 0 means all CPUs.
    pub threads: usize,
}

impl VideoDecodeRequest {
    /// Samples the whole file at the given rate, scaled to `max_dim`.
    pub fn new(path: String, fps_milli: i64, max_dim: u32) -> (r: VideoDecodeRequest)
        ensures
            r == (VideoDecodeRequest {
                path,
                stream_index: None,
                fps_milli,
                t0_us: 0,
                t1_us: None,
                max_dim,
                format: PixelFormat::Rgb24,
                threads: 0,
            }),
    {
        VideoDecodeRequest {
            path,
            stream_index: None,
            fps_milli,
            t0_us: 0,
            t1_us: None,
            max_dim,
            format: PixelFormat::Rgb24,
            threads: 0,
        }
    }

    /// Restricts the request to `[t0, t1)`.
    pub fn range(self, t0_us: i64, t1_us: Option<i64>) -> (r: VideoDecodeRequest)
        ensures
            r == (VideoDecodeRequest { t0_us, t1_us, ..self }),
    {
        VideoDecodeRequest {
            path: self.path,
            stream_index: self.stream_index,
            fps_milli: self.fps_milli,
            t0_us,
            t1_us,
            max_dim: self.max_dim,
            format: self.format,
            threads: self.threads,
        }
    }

    /// The request makes sense: a positive rate and a non-empty range from time zero on.
    pub open spec fn valid(self) -> bool {
        self.fps_milli > 0 && self.t0_us >= 0 && (self.t1_us matches Some(t1) ==> t1 > self.t0_us)
    }

    /// What is said of a request that makes no sense.
    pub open spec fn fault(self) -> Seq<char> {
        if self.fps_milli <= 0 {
            "fps must be > 0, got "@ + shown_milli(self.fps_milli as int)
        } else if self.t0_us < 0 {
            "t0 must be >= 0"@
        } else {
            "t1 must be > t0"@
        }
    }

    /// Validates the request.
    pub fn check(&self) -> (r: Result<(), MediaError>)
        ensures
            r is Ok <==> self.valid(),
            r matches Err(e) ==> (e matches MediaError::Invalid(m) && m@ == self.fault()),
    {
        if self.fps_milli <= 0 {
            let mut m = "fps must be > 0, got ".to_owned();
            m.append(show_milli(self.fps_milli).as_str());
            return Err(MediaError::Invalid(m));
        }
        if self.t0_us < 0 {
            return Err(MediaError::Invalid("t0 must be >= 0".to_owned()));
        }
        if let Some(t1) = self.t1_us {
            if t1 <= self.t0_us {
                return Err(MediaError::Invalid("t1 must be > t0".to_owned()));
            }
        }
        Ok(())
    }
}

/// A request to decode audio to mono PCM chunks.
#[derive(Debug)]
pub struct AudioDecodeRequest {
    /// Media file.
    pub path: String,
    /// Stream index; `None` picks the best audio stream.
    pub stream_index: Option<u32>,
    /// Start time in microseconds.
    pub t0_us: i64,
    /// End time in microseconds; `None` means end of stream.
    pub t1_us: Option<i64>,
    /// Output sample rate.
    pub sample_rate: u32,
    /// Chunk length in milliseconds.
    pub chunk_ms: i64,
    /// Overlap between consecutive chunks in milliseconds.
    pub overlap_ms: i64,
}

/// The number of samples in `ms` milliseconds, rounded half up.
pub open spec fn samples_in(ms: int, rate: int) -> int {
    (ms * rate + 500) / 1000
}

/// The number of samples in `ms` milliseconds, held within 64 bits.
pub open spec fn sample_count(ms: int, rate: int) -> int {
    if ms < 0 {
        0
    } else if samples_in(ms, rate) > u64::MAX {
        u64::MAX as int
    } else {
        samples_in(ms, rate)
    }
}

fn count_samples(ms: i64, rate: u32) -> (n: u64)
    ensures
        n == sample_count(ms as int, rate as int),
{
    if ms < 0 {
        return 0;
    }
    proof {
        assert(0 <= ms * rate <= 0x7fff_ffff_ffff_ffff * 0xffff_ffff) by (nonlinear_arith)
            requires
                0 <= ms <= 0x7fff_ffff_ffff_ffff,
                0 <= rate <= 0xffff_ffff,
        ;
    }
    let n: u128 = ((ms as u128) * (rate as u128) + 500) / 1000;
    if n > 0xffff_ffff_ffff_ffff {
        0xffff_ffff_ffff_ffff
    } else {
        n as u64
    }
}

impl AudioDecodeRequest {
    /// Whole file, 16 kHz, 30 s chunks with 1 s overlap.
    pub fn new(path: String) -> (r: AudioDecodeRequest)
        ensures
            r == (AudioDecodeRequest {
                path,
                stream_index: None,
                t0_us: 0,
                t1_us: None,
                sample_rate: 16_000,
                chunk_ms: 30_000,
                overlap_ms: 1_000,
            }),
    {
        AudioDecodeRequest {
            path,
            stream_index: None,
            t0_us: 0,
            t1_us: None,
            sample_rate: 16_000,
            chunk_ms: 30_000,
            overlap_ms: 1_000,
        }
    }

    /// Samples per chunk.
    pub fn chunk_samples(&self) -> (n: u64)
        ensures
            n == sample_count(self.chunk_ms as int, self.sample_rate as int),
    {
        count_samples(self.chunk_ms, self.sample_rate)
    }

    /// Samples of overlap.
    pub fn overlap_samples(&self) -> (n: u64)
        ensures
            n == sample_count(self.overlap_ms as int, self.sample_rate as int),
    {
        count_samples(self.overlap_ms, self.sample_rate)
    }

    /// The request makes sense: a rate, chunks of some length, an overlap shorter than a chunk,
    /// and a start from time zero on.
    pub open spec fn valid(self) -> bool {
        self.sample_rate > 0 && self.chunk_ms > 0 && 0 <= self.overlap_ms < self.chunk_ms
            && self.t0_us >= 0
    }

    /// Validates the request.
    pub fn check(&self) -> (r: Result<(), MediaError>)
        ensures
            r is Ok <==> self.valid(),
            r matches Err(e) ==> (e matches MediaError::Invalid(m) && m@ == (if self.sample_rate
                == 0 {
                "sample_rate must be > 0"@
            } else if self.chunk_ms <= 0 {
                "chunk_secs must be > 0"@
            } else if self.overlap_ms < 0 || self.overlap_ms >= self.chunk_ms {
                "overlap must be in [0, chunk_secs)"@
            } else {
                "t0 must be >= 0"@
            })),
    {
        if self.sample_rate == 0 {
            return Err(MediaError::Invalid("sample_rate must be > 0".to_owned()));
        }
        if self.chunk_ms <= 0 {
            return Err(MediaError::Invalid("chunk_secs must be > 0".to_owned()));
        }
        if self.overlap_ms < 0 || self.overlap_ms >= self.chunk_ms {
            return Err(MediaError::Invalid("overlap must be in [0, chunk_secs)".to_owned()));
        }
        if self.t0_us < 0 {
            return Err(MediaError::Invalid("t0 must be >= 0".to_owned()));
        }
        Ok(())
    }
}

/// A stretch of time holds the nearest whole number of samples, and a second as many as the rate.
pub proof fn law_samples_are_nearest(ms: int, rate: int)
    requires
        ms >= 0,
        rate >= 0,
    ensures
        -500 <= 1000 * samples_in(ms, rate) - ms * rate <= 500,
        samples_in(1000 * ms, rate) == ms * rate,
{
    assert(1000 * ms * rate == 1000 * (ms * rate)) by (nonlinear_arith);
}

/// Whole numbers are shown without places, the others with three at most and no zero at the end,
/// and a number below zero as the number above it behind a minus sign.
pub proof fn law_thousandths_are_shown(n: nat)
    ensures
        shown_milli(1000 * (n as int)) == text::decimal(n),
        n > 0 ==> shown_milli(-n) == seq!['-'] + shown_milli(n as int),
        n % 1000 != 0 ==> {
            let places = shown_milli(n as int).skip(text::decimal(n / 1000).len() as int);
            &&& shown_milli(n as int).take(text::decimal(n / 1000).len() as int) == text::decimal(
                n / 1000,
            )
            &&& 2 <= places.len() <= 4
            &&& places[0] == '.'
            &&& places.last() != '0'
        },
{
    assert(text::decimal(n) + Seq::<char>::empty() =~= text::decimal(n));
    assert(Seq::<char>::empty() + text::decimal(n) =~= text::decimal(n));
    let m = n as int;
    if n > 0 {
        assert(shown_milli(-m) =~= seq!['-'] + shown_milli(m));
    }
    if n % 1000 != 0 {
        let whole = text::decimal(n / 1000);
        let s = shown_milli(m);
        assert(s =~= whole + shown_places(m % 1000));
        assert(s.take(whole.len() as int) =~= whole);
        assert(s.skip(whole.len() as int) =~= shown_places(m % 1000));
    }
}

} // verus!
