//! Remote acquisition: which URLs are media, what downloads are called, which
//! addresses may be fetched from, and how a download proceeds response by
//! response.

use vstd::prelude::*;
use vstd::slice::slice_subrange;

use crate::acquire;
use crate::acquire::Source;
use crate::error::MediaError;
use crate::hashing;
use crate::path;
use crate::text;
use crate::text::{
    chars_of, has_str_prefix, has_str_suffix, rfind_char, split_at_all, str_is, string_of,
    to_ascii_lower,
};

verus! {

/// An IP address as plain numbers.
#[derive(Clone, Copy, Debug, PartialEq, Eq, Structural)]
pub enum IpAddr {
    /// Version 4, four octets.
    V4(u8, u8, u8, u8),
    /// Version 6, eight segments.
    V6(u16, u16, u16, u16, u16, u16, u16, u16),
}

/// A version 4 address that a server must not be made to fetch from: private, loopback,
/// link-local, broadcast, documentation, carrier-grade NAT, and everything in `0.0.0.0/8`.
pub open spec fn private_v4(a: u8, b: u8, c: u8, d: u8) -> bool {
    ||| a == 10
    ||| a == 172 && 16 <= b <= 31
    ||| a == 192 && b == 168
    ||| a == 127
    ||| a == 169 && b == 254
    ||| a == 255 && b == 255 && c == 255 && d == 255
    ||| a == 192 && b == 0 && c == 2
    ||| a == 198 && b == 51 && c == 100
    ||| a == 203 && b == 0 && c == 113
    ||| a == 100 && 64 <= b <= 127
    ||| a == 0
}

/// An address that a server must not be made to fetch from.
pub open spec fn private_address(ip: IpAddr) -> bool {
    match ip {
        IpAddr::V4(a, b, c, d) => private_v4(a, b, c, d),
        IpAddr::V6(s0, s1, s2, s3, s4, s5, s6, s7) => {
            let head_zero = s0 == 0 && s1 == 0 && s2 == 0 && s3 == 0 && s4 == 0;
            ||| head_zero && s5 == 0 && s6 == 0 && (s7 == 0 || s7 == 1)
            ||| 0xfc00 <= s0 <= 0xfdff
            ||| 0xfe80 <= s0 <= 0xfebf
            ||| head_zero && s5 == 0xffff && private_v4(
                (s6 / 256) as u8,
                (s6 % 256) as u8,
                (s7 / 256) as u8,
                (s7 % 256) as u8,
            )
        },
    }
}

/// A version 4 address is judged alike in either form.
pub proof fn law_mapped_addresses_are_judged_alike(a: u8, b: u8, c: u8, d: u8)
    ensures
        private_address(
            IpAddr::V6(0, 0, 0, 0, 0, 0xffff, (a * 256 + b) as u16, (c * 256 + d) as u16),
        ) == private_address(IpAddr::V4(a, b, c, d)),
{
}

fn is_private_v4(a: u8, b: u8, c: u8, d: u8) -> (r: bool)
    ensures
        r == private_v4(a, b, c, d),
{
    a == 10 || (a == 172 && 16 <= b && b <= 31) || (a == 192 && b == 168) || a == 127 || (a == 169
        && b == 254) || (a == 255 && b == 255 && c == 255 && d == 255) || (a == 192 && b == 0 && c
        == 2) || (a == 198 && b == 51 && c == 100) || (a == 203 && b == 0 && c == 113) || (a == 100
        && 64 <= b && b <= 127) || a == 0
}

/// Whether an address is one a server must not be made to fetch from.
pub fn is_private_ip(ip: IpAddr) -> (r: bool)
    ensures
        r == private_address(ip),
{
    match ip {
        IpAddr::V4(a, b, c, d) => is_private_v4(a, b, c, d),
        IpAddr::V6(s0, s1, s2, s3, s4, s5, s6, s7) => {
            let head_zero: bool = s0 == 0 && s1 == 0 && s2 == 0 && s3 == 0 && s4 == 0;
            (head_zero && s5 == 0 && s6 == 0 && (s7 == 0 || s7 == 1)) || (0xfc00 <= s0 && s0
                <= 0xfdff) || (0xfe80 <= s0 && s0 <= 0xfebf) || (head_zero && s5 == 0xffff
                && is_private_v4(
                (s6 / 256) as u8,
                (s6 % 256) as u8,
                (s7 / 256) as u8,
                (s7 % 256) as u8,
            ))
        },
    }
}

/// Why a host may not be fetched from.
#[derive(Debug)]
pub enum HostRefusal {
    /// It has no addresses.
    NoAddress,
    /// It resolves to this private address.
    Private(IpAddr),
}

/// The error for a host that may not be fetched from; `shown` is the private address as text.
pub fn host_error(refusal: &HostRefusal, host: &str, shown: &str) -> (e: MediaError)
    ensures
        e matches MediaError::Acquire(m) && m@ == (match *refusal {
            HostRefusal::NoAddress => host@ + " has no addresses"@,
            HostRefusal::Private(_) => host@ + " resolves to "@ + shown@
                + " (private or local address); set media.download.allow_private_addresses to fetch from it"@,
        }),
{
    let mut m = host.to_owned();
    match refusal {
        HostRefusal::NoAddress => {
            m.append(" has no addresses");
        },
        HostRefusal::Private(_) => {
            m.append(" resolves to ");
            m.append(shown);
            m.append(
                " (private or local address); set media.download.allow_private_addresses to fetch from it",
            );
        },
    }
    MediaError::Acquire(m)
}

/// Checks the addresses a host resolved to: there must be one, and unless private addresses are
/// allowed, none may be private.
pub fn check_addresses(addrs: &Vec<IpAddr>, allow_private: bool) -> (r: Result<(), HostRefusal>)
    ensures
        match r {
            Ok(_) => addrs@.len() > 0 && (allow_private || forall|i: int|
                0 <= i < addrs@.len() ==> !private_address(#[trigger] addrs@[i])),
            Err(HostRefusal::NoAddress) => addrs@.len() == 0,
            Err(HostRefusal::Private(ip)) => !allow_private && exists|i: int|
                0 <= i < addrs@.len() && #[trigger] addrs@[i] == ip && private_address(ip)
                    && forall|j: int| 0 <= j < i ==> !private_address(#[trigger] addrs@[j]),
        },
{
    if addrs.len() == 0 {
        return Err(HostRefusal::NoAddress);
    }
    if !allow_private {
        let mut i: usize = 0;
        while i < addrs.len()
            invariant
                i <= addrs@.len(),
                !allow_private,
                forall|j: int| 0 <= j < i ==> !private_address(#[trigger] addrs@[j]),
            decreases addrs@.len() - i,
        {
            if is_private_ip(addrs[i]) {
                return Err(HostRefusal::Private(addrs[i]));
            }
            i = i + 1;
        }
    }
    Ok(())
}

/// The extensions treated as media.
pub open spec fn media_extensions() -> Seq<Seq<char>> {
    seq![
        "mp4"@,
        "mkv"@,
        "webm"@,
        "mov"@,
        "m4v"@,
        "avi"@,
        "ts"@,
        "mp3"@,
        "m4a"@,
        "wav"@,
        "flac"@,
    ]
}

/// What follows the last `c`, or everything when there is none.
pub open spec fn after_last(s: Seq<char>, c: char) -> Seq<char> {
    match text::last_index(s, c) {
        Some(i) => s.skip(i + 1),
        None => s,
    }
}

fn tail_after<'a>(s: &'a [char], c: char) -> (r: &'a [char])
    ensures
        r@ == after_last(s@, c),
{
    let n: usize = s.len();
    match rfind_char(s, c) {
        Some(i) => {
            let t = slice_subrange(s, i + 1, n);
            proof {
                assert(t@ =~= s@.skip(i + 1));
            }
            t
        },
        None => s,
    }
}

/// The media extension that a path ends in, if it is one.
pub open spec fn media_ending(p: Seq<char>) -> Option<Seq<char>> {
    let e = after_last(text::ascii_lower(p), '.');
    if media_extensions().contains(e) {
        Some(e)
    } else {
        None
    }
}

/// The media extension of a path, in lower case.
pub fn media_extension(p: &str) -> (r: Option<String>)
    ensures
        match r {
            Some(e) => media_ending(p@) == Some(e@),
            None => media_ending(p@) is None,
        },
{
    let c = chars_of(p);
    let low = to_ascii_lower(c.as_slice());
    let e = string_of(tail_after(low.as_slice(), '.'));
    let s = e.as_str();
    let ghost list = media_extensions();
    if str_is(s, "mp4") || str_is(s, "mkv") || str_is(s, "webm") || str_is(s, "mov") || str_is(
        s,
        "m4v",
    ) || str_is(s, "avi") || str_is(s, "ts") || str_is(s, "mp3") || str_is(s, "m4a") || str_is(
        s,
        "wav",
    ) || str_is(s, "flac") {
        proof {
            assert(list[0] == "mp4"@ && list[1] == "mkv"@ && list[2] == "webm"@ && list[3] == "mov"@
                && list[4] == "m4v"@ && list[5] == "avi"@ && list[6] == "ts"@ && list[7] == "mp3"@
                && list[8] == "m4a"@ && list[9] == "wav"@ && list[10] == "flac"@);
            assert(list.contains(e@));
        }
        Some(e)
    } else {
        proof {
            assert(!list.contains(e@)) by {
                if list.contains(e@) {
                    let k = choose|k: int| 0 <= k < list.len() && list[k] == e@;
                    assert(0 <= k < 11);
                }
            }
        }
        None
    }
}

/// The parts of a parsed URL, or the reason it does not parse: its normalised text, its scheme,
/// its host, its port (given, or the scheme's own) and its path.
pub uninterp spec fn url_parts(s: Seq<char>) -> Result<
    (Seq<char>, Seq<char>, Option<Seq<char>>, Option<u16>, Seq<char>),
    Seq<char>,
>;

/// The parts of the URL that a reference stands for, resolved against a base URL, or the reason
/// it does not resolve.
pub uninterp spec fn url_resolved(base: Seq<char>, reference: Seq<char>) -> Result<
    (Seq<char>, Seq<char>, Option<Seq<char>>, Option<u16>, Seq<char>),
    Seq<char>,
>;

/// A parsed URL.
#[derive(Debug)]
pub struct WebUrl {
    /// Normalised text.
    pub text: String,
    /// Scheme.
    pub scheme: String,
    /// Host.
    pub host: Option<String>,
    /// Port, given or known for the scheme.
    pub port: Option<u16>,
    /// Path.
    pub path: String,
}

impl WebUrl {
    /// The parts as mathematical values.
    pub open spec fn parts(self) -> (
        Seq<char>,
        Seq<char>,
        Option<Seq<char>>,
        Option<u16>,
        Seq<char>,
    ) {
        (
            self.text@,
            self.scheme@,
            match self.host {
                Some(h) => Some(h@),
                None => None,
            },
            self.port,
            self.path@,
        )
    }
}

/// Parses a URL with `url::Url::parse`, reading its text, scheme, host, port and path.
///
/// Claimed of it: the parts, or the error's text, depend on the given text alone.
#[verifier::external_body]
pub(crate) fn parse_url(s: &str) -> (r: Result<WebUrl, String>)
    ensures
        match r {
            Ok(u) => url_parts(s@) == Ok::<_, Seq<char>>(u.parts()),
            Err(e) => url_parts(s@) == Err::<
                (Seq<char>, Seq<char>, Option<Seq<char>>, Option<u16>, Seq<char>),
                _,
            >(e@),
        },
{
    url::Url::parse(s).map(
        |u|
            WebUrl {
                text: u.as_str().to_string(),
                scheme: u.scheme().to_string(),
                host: u.host_str().map(str::to_string),
                port: u.port_or_known_default(),
                path: u.path().to_string(),
            },
    ).map_err(|e| e.to_string())
}

/// Resolves a reference against a base URL with `url::Url::join`, reading the same parts as
/// [`parse_url`].
///
/// Claimed of it: the parts, or the error's text, depend on the base's text and the reference
/// alone.
#[verifier::external_body]
pub(crate) fn resolve_url(base: &str, reference: &str) -> (r: Result<WebUrl, String>)
    ensures
        match r {
            Ok(u) => url_resolved(base@, reference@) == Ok::<_, Seq<char>>(u.parts()),
            Err(e) => url_resolved(base@, reference@) == Err::<
                (Seq<char>, Seq<char>, Option<Seq<char>>, Option<u16>, Seq<char>),
                _,
            >(e@),
        },
{
    url::Url::parse(base).and_then(|b| b.join(reference)).map(
        |u|
            WebUrl {
                text: u.as_str().to_string(),
                scheme: u.scheme().to_string(),
                host: u.host_str().map(str::to_string),
                port: u.port_or_known_default(),
                path: u.path().to_string(),
            },
    ).map_err(|e| e.to_string())
}

/// The value of a hexadecimal digit.
pub open spec fn hex_value(b: u8) -> Option<u8> {
    if 48 <= b <= 57 {
        Some((b - 48) as u8)
    } else if 65 <= b <= 70 {
        Some((b - 55) as u8)
    } else if 97 <= b <= 102 {
        Some((b - 87) as u8)
    } else {
        None
    }
}

/// The byte that two characters behind a percent sign stand for.
pub open spec fn escaped_byte(a: u8, b: u8) -> Option<u8> {
    match (hex_value(a), hex_value(b)) {
        (Some(hi), Some(lo)) => Some((hi * 16 + lo) as u8),
        _ => None,
    }
}

/// Percent escapes replaced by the bytes they stand for.
pub open spec fn unescape(s: Seq<u8>) -> Seq<u8>
    decreases s.len(),
{
    if s.len() == 0 {
        s
    } else if s[0] == 37 && s.len() > 2 && escaped_byte(s[1], s[2]) is Some {
        seq![escaped_byte(s[1], s[2])->0] + unescape(s.skip(3))
    } else {
        seq![s[0]] + unescape(s.skip(1))
    }
}

fn hex_of(b: u8) -> (r: Option<u8>)
    ensures
        r == hex_value(b),
        r matches Some(v) ==> v < 16,
{
    if 48 <= b && b <= 57 {
        Some(b - 48)
    } else if 65 <= b && b <= 70 {
        Some(b - 55)
    } else if 97 <= b && b <= 102 {
        Some(b - 87)
    } else {
        None
    }
}

fn escaped(a: u8, b: u8) -> (r: Option<u8>)
    ensures
        r == escaped_byte(a, b),
{
    match hex_of(b) {
        Some(lo) => match hex_of(a) {
            Some(hi) => Some(hi * 16 + lo),
            None => None,
        },
        None => None,
    }
}

/// Decodes percent escapes. What they spell is kept where it is UTF-8.
pub fn percent_decode(s: &str) -> (r: String)
    ensures
        r@ == text::lossy_text(unescape(vstd::utf8::encode_utf8(s@))),
        vstd::utf8::valid_utf8(unescape(vstd::utf8::encode_utf8(s@))) ==> vstd::utf8::encode_utf8(
            r@,
        ) == unescape(vstd::utf8::encode_utf8(s@)),
{
    let b = s.as_bytes();
    let n: usize = b.len();
    let mut out: Vec<u8> = Vec::new();
    let mut i: usize = 0;
    proof {
        assert(b@.skip(0) =~= b@);
        assert(out@ + unescape(b@) =~= unescape(b@));
    }
    while i < n
        invariant
            i <= n == b@.len(),
            out@ + unescape(b@.skip(i as int)) == unescape(b@),
        decreases n - i,
    {
        let ghost rest = b@.skip(i as int);
        let ghost before = out@;
        let mut hit: Option<u8> = None;
        if b[i] == 37 && n - i > 2 {
            hit = escaped(b[i + 1], b[i + 2]);
        }
        match hit {
            Some(v) => {
                out.push(v);
                proof {
                    assert(rest.skip(3) =~= b@.skip(i + 3));
                    assert(out@ + unescape(b@.skip(i + 3)) =~= before + (seq![v] + unescape(
                        b@.skip(i + 3),
                    )));
                }
                i = i + 3;
            },
            None => {
                out.push(b[i]);
                proof {
                    assert(rest.skip(1) =~= b@.skip(i + 1));
                    assert(out@ + unescape(b@.skip(i + 1)) =~= before + (seq![rest[0]] + unescape(
                        b@.skip(i + 1),
                    )));
                }
                i = i + 1;
            },
        }
    }
    proof {
        assert(b@.skip(i as int) =~= Seq::<u8>::empty());
        assert(out@ + Seq::<u8>::empty() =~= out@);
    }
    text::decode_lossy(out.as_slice())
}

/// The last text of a list that is not empty; empty when there is none.
pub open spec fn last_non_empty(s: Seq<Seq<char>>) -> Seq<char>
    decreases s.len(),
{
    if s.len() == 0 {
        Seq::empty()
    } else if s.last().len() > 0 {
        s.last()
    } else {
        last_non_empty(s.drop_last())
    }
}

/// The last non-empty segment of a URL path; empty when the path has no segments.
pub open spec fn last_segment(p: Seq<char>) -> Seq<char> {
    if p.len() > 0 && p[0] == '/' {
        last_non_empty(text::split(p.drop_first(), seq!['/']))
    } else {
        Seq::empty()
    }
}

fn last_segment_of<'a>(p: &'a [char]) -> (r: &'a [char])
    ensures
        r@ == last_segment(p@),
{
    let n: usize = p.len();
    if n == 0 || p[0] != '/' {
        let e = slice_subrange(p, n, n);
        proof {
            assert(e@ =~= Seq::<char>::empty());
        }
        return e;
    }
    let slash: [char; 1] = ['/'];
    let inner = slice_subrange(p, 1, n);
    proof {
        assert(slash@ =~= seq!['/']);
        assert(inner@ =~= p@.drop_first());
    }
    let segs = split_at_all(inner, &slash);
    let ghost all = text::texts_of(segs@);
    let mut k: usize = segs.len();
    proof {
        assert(all.take(k as int) =~= all);
    }
    while k > 0
        invariant
            k <= segs@.len(),
            all == text::texts_of(segs@),
            last_segment(p@) == last_non_empty(all),
            last_non_empty(all) == last_non_empty(all.take(k as int)),
        decreases k,
    {
        proof {
            assert(all.take(k as int).last() == segs@[k - 1]@);
            assert(all.take(k as int).drop_last() =~= all.take(k - 1));
        }
        if segs[k - 1].len() > 0 {
            return segs[k - 1];
        }
        k = k - 1;
    }
    let e = slice_subrange(p, n, n);
    proof {
        assert(e@ =~= Seq::<char>::empty());
    }
    e
}

/// A character that is safe in a file name.
pub open spec fn safe_char(c: char) -> bool {
    'a' <= c <= 'z' || 'A' <= c <= 'Z' || '0' <= c <= '9' || c == '.' || c == '-' || c == '_'
}

/// Unsafe characters become underscores.
pub open spec fn safe_text(s: Seq<char>) -> Seq<char> {
    s.map_values(
        |c: char|
            if safe_char(c) {
                c
            } else {
                '_'
            },
    )
}

fn make_safe(s: &[char]) -> (r: Vec<char>)
    ensures
        r@ == safe_text(s@),
{
    let mut out: Vec<char> = Vec::new();
    let mut i: usize = 0;
    while i < s.len()
        invariant
            i <= s@.len(),
            out@ == safe_text(s@.take(i as int)),
        decreases s@.len() - i,
    {
        let c = s[i];
        let keep: bool = ('a' <= c && c <= 'z') || ('A' <= c && c <= 'Z') || ('0' <= c && c <= '9')
            || c == '.' || c == '-' || c == '_';
        out.push(
            if keep {
                c
            } else {
                '_'
            },
        );
        proof {
            assert(out@ =~= safe_text(s@.take(i + 1)));
        }
        i = i + 1;
    }
    proof {
        assert(s@.take(i as int) =~= s@);
    }
    out
}

/// The file name for a download: the last path segment made safe, behind eight digits of the
/// URL's hash; sixteen digits and an extension when that segment is no media file name.
/// `bytes` are the bytes of the URL's text.
pub open spec fn download_name(bytes: Seq<u8>, decoded: Seq<char>, p: Seq<char>) -> Seq<char> {
    let safe = safe_text(decoded);
    let h = hashing::blake3_hex(bytes);
    if safe.len() == 0 || media_ending(safe) is None {
        h.take(16) + "."@ + (match media_ending(p) {
            Some(e) => e,
            None => "mp4"@,
        })
    } else {
        h.take(8) + "-"@ + safe
    }
}

/// The file name for a download from a parsed URL whose last segment decodes to `decoded`.
///
/// Whatever the URL, the name holds only letters, digits, dots, hyphens and underscores, so it
/// never leaves its directory.
pub fn name_download(url: &WebUrl, decoded: &str) -> (r: String)
    ensures
        r@ == download_name(vstd::utf8::encode_utf8(url.text@), decoded@, url.path@),
        r@.len() > 9,
        forall|i: int| 0 <= i < r@.len() ==> safe_char(#[trigger] r@[i]),
{
    let h = hashing::hash_hex(url.text.as_str().as_bytes());
    let c = chars_of(decoded);
    let safe = make_safe(c.as_slice());
    let name = string_of(safe.as_slice());
    let mut s: String;
    if safe.len() > 0 && media_extension(name.as_str()).is_some() {
        s = hashing::head_of(h.as_str(), 8);
        s.append("-");
        s.append(name.as_str());
    } else {
        s = hashing::head_of(h.as_str(), 16);
        s.append(".");
        match media_extension(url.path.as_str()) {
            Some(e) => s.append(e.as_str()),
            None => s.append("mp4"),
        }
    }
    proof {
        let bytes = vstd::utf8::encode_utf8(url.text@);
        lemma_download_names_are_safe(bytes, decoded@, url.path@);
    }
    s
}

/// The file name for a download from a URL: the last path segment, or a hash of the URL when
/// there is none.
pub fn file_name_for(url: &WebUrl) -> (r: String)
    ensures
        r@ == download_name(
            vstd::utf8::encode_utf8(url.text@),
            text::lossy_text(unescape(vstd::utf8::encode_utf8(last_segment(url.path@)))),
            url.path@,
        ),
        vstd::utf8::valid_utf8(unescape(vstd::utf8::encode_utf8(last_segment(url.path@))))
            ==> vstd::utf8::encode_utf8(
            text::lossy_text(unescape(vstd::utf8::encode_utf8(last_segment(url.path@)))),
        ) == unescape(vstd::utf8::encode_utf8(last_segment(url.path@))),
        r@.len() > 9,
        forall|i: int| 0 <= i < r@.len() ==> safe_char(#[trigger] r@[i]),
{
    let p = chars_of(url.path.as_str());
    let last = string_of(last_segment_of(p.as_slice()));
    let decoded = percent_decode(last.as_str());
    name_download(url, decoded.as_str())
}

/// Whatever the URL, a download name holds only letters, digits, dots, hyphens and underscores,
/// so it never leaves its directory.
proof fn lemma_download_names_are_safe(bytes: Seq<u8>, decoded: Seq<char>, p: Seq<char>)
    requires
        hashing::blake3_hex(bytes).len() == 64,
        forall|k: int| 0 <= k < 64 ==> hashing::hex_digit(#[trigger] hashing::blake3_hex(bytes)[k]),
    ensures
        forall|i: int|
            0 <= i < download_name(bytes, decoded, p).len() ==> safe_char(
                #[trigger] download_name(bytes, decoded, p)[i],
            ),
        download_name(bytes, decoded, p).len() > 9,
{
    reveal_strlit(".");
    reveal_strlit("-");
    reveal_strlit("mp4");
    reveal_strlit("mkv");
    reveal_strlit("webm");
    reveal_strlit("mov");
    reveal_strlit("m4v");
    reveal_strlit("avi");
    reveal_strlit("ts");
    reveal_strlit("mp3");
    reveal_strlit("m4a");
    reveal_strlit("wav");
    reveal_strlit("flac");
    let h = hashing::blake3_hex(bytes);
    let safe = safe_text(decoded);
    let name = download_name(bytes, decoded, p);
    if safe.len() == 0 || media_ending(safe) is None {
        let e = match media_ending(p) {
            Some(e) => e,
            None => "mp4"@,
        };
        if media_ending(p) is Some {
            let k = choose|k: int| 0 <= k < 11 && media_extensions()[k] == e;
            assert(media_extensions()[k] == e);
        }
        assert(e.len() > 0 && forall|k: int| 0 <= k < e.len() ==> safe_char(#[trigger] e[k]));
        assert forall|i: int| 0 <= i < name.len() implies safe_char(#[trigger] name[i]) by {
            if i < 16 {
                assert(hashing::hex_digit(h[i]));
            } else if i > 16 {
                assert(name[i] == e[i - 17]);
            }
        }
    } else {
        assert forall|i: int| 0 <= i < name.len() implies safe_char(#[trigger] name[i]) by {
            if i < 8 {
                assert(hashing::hex_digit(h[i]));
            } else if i > 8 {
                assert(name[i] == safe[i - 9]);
            }
        }
    }
}

/// A URL that the HTTP acquirer handles: plain web, no video site, and a media file by its path.
/// `parsed` is what the URL parses to.
pub open spec fn http_handles(
    url: Seq<char>,
    parsed: Result<
        (Seq<char>, Seq<char>, Option<Seq<char>>, Option<u16>, Seq<char>),
        Seq<char>,
    >,
) -> bool {
    let lower = text::ascii_lower(url);
    &&& text::starts_with(lower, "http://"@) || text::starts_with(lower, "https://"@)
    &&& !acquire::video_site_url(url)
    &&& parsed matches Ok((_, _, _, _, p)) && media_ending(p) is Some
}

/// Limits and permissions for downloads.
#[derive(Debug)]
pub struct DownloadConfig {
    /// Largest download in bytes.
    pub max_bytes: u64,
    /// Most redirects to follow.
    pub max_redirects: u32,
    /// Whether private addresses may be fetched from.
    pub allow_private_addresses: bool,
    /// Time limit in seconds.
    pub timeout_secs: u64,
    /// Endpoint for `r2://`.
    pub r2_endpoint: Option<String>,
}

/// `https://host/path/file.mp4` downloads into `<cache_dir>/incoming/`.
#[derive(Debug)]
pub struct Http {
    /// Media cache root.
    pub cache_dir: String,
    /// Limits.
    pub cfg: DownloadConfig,
}

impl Http {
    /// An acquirer downloading into `<cache_dir>/incoming/`.
    pub fn new(cache_dir: String, cfg: DownloadConfig) -> (h: Http)
        ensures
            h == (Http { cache_dir, cfg }),
    {
        Http { cache_dir, cfg }
    }

    /// The directory downloads go to.
    pub fn incoming(&self) -> (d: String)
        ensures
            d@ == path::joined(self.cache_dir@, "incoming"@),
    {
        path::join(self.cache_dir.as_str(), "incoming")
    }

    /// Whether this acquirer handles a source that parses to `parsed`.
    pub fn handles_parsed(&self, source: &Source, parsed: &Result<WebUrl, String>) -> (b: bool)
        ensures
            b == (match source@ {
                acquire::SourceView::Url(u) => http_handles(
                    u,
                    match *parsed {
                        Ok(w) => Ok(w.parts()),
                        Err(e) => Err(e@),
                    },
                ),
                acquire::SourceView::Path(_) => false,
            }),
    {
        match source {
            Source::Url(u) => {
                let c = chars_of(u.as_str());
                let low = to_ascii_lower(c.as_slice());
                if !has_str_prefix(low.as_slice(), "http://") && !has_str_prefix(
                    low.as_slice(),
                    "https://",
                ) {
                    return false;
                }
                if source.is_video_site() {
                    return false;
                }
                match parsed {
                    Ok(w) => media_extension(w.path.as_str()).is_some(),
                    Err(_) => false,
                }
            },
            Source::Path(_) => false,
        }
    }

    /// Whether this acquirer handles the source.
    pub fn handles(&self, source: &Source) -> (b: bool)
        ensures
            b == (match source@ {
                acquire::SourceView::Url(u) => http_handles(u, url_parts(u)),
                acquire::SourceView::Path(_) => false,
            }),
    {
        match source {
            Source::Url(u) => {
                let parsed = parse_url(u.as_str());
                self.handles_parsed(source, &parsed)
            },
            Source::Path(_) => false,
        }
    }
}

/// Schemes of object stores.
pub open spec fn store_scheme(lower: Seq<char>) -> bool {
    text::starts_with(lower, "s3://"@) || text::starts_with(lower, "gs://"@) || text::starts_with(
        lower,
        "az://"@,
    ) || text::starts_with(lower, "r2://"@)
}

/// `s3://`, `gs://`, `az://` and `r2://` downloads.
#[derive(Debug)]
pub struct ObjectStore {
    /// Media cache root.
    pub cache_dir: String,
    /// Limits.
    pub cfg: DownloadConfig,
}

impl ObjectStore {
    /// An acquirer downloading into `<cache_dir>/incoming/`.
    pub fn new(cache_dir: String, cfg: DownloadConfig) -> (o: ObjectStore)
        ensures
            o == (ObjectStore { cache_dir, cfg }),
    {
        ObjectStore { cache_dir, cfg }
    }

    /// The directory downloads go to.
    pub fn incoming(&self) -> (d: String)
        ensures
            d@ == path::joined(self.cache_dir@, "incoming"@),
    {
        path::join(self.cache_dir.as_str(), "incoming")
    }

    /// Whether this acquirer handles the source.
    pub fn handles(&self, source: &Source) -> (b: bool)
        ensures
            b == (match source@ {
                acquire::SourceView::Url(u) => store_scheme(text::ascii_lower(u)),
                acquire::SourceView::Path(_) => false,
            }),
    {
        match source {
            Source::Url(u) => {
                let c = chars_of(u.as_str());
                let l = to_ascii_lower(c.as_slice());
                let low = l.as_slice();
                has_str_prefix(low, "s3://") || has_str_prefix(low, "gs://") || has_str_prefix(
                    low,
                    "az://",
                ) || has_str_prefix(low, "r2://")
            },
            Source::Path(_) => false,
        }
    }

    /// Whether a source is a prefix to list rather than one object.
    pub fn is_prefix(&self, source: &Source) -> (b: bool)
        ensures
            b == (match source@ {
                acquire::SourceView::Url(u) => text::ends_with(u, "/"@),
                acquire::SourceView::Path(_) => false,
            }),
    {
        match source {
            Source::Url(u) => {
                let c = chars_of(u.as_str());
                has_str_suffix(c.as_slice(), "/")
            },
            Source::Path(_) => false,
        }
    }

    /// Where an object is: the store, the bucket and the key. `endpoint` is the `R2_ENDPOINT`
    /// variable.
    pub fn locate(&self, url: &WebUrl, endpoint: Option<String>) -> (r: Result<
        (StoreKind, String, String),
        MediaError,
    >)
        ensures
            located(self.cfg, *url, endpoint, r),
    {
        let p = chars_of(url.path.as_str());
        let key = string_of(without_leading(p.as_slice(), '/'));
        let bucket: String = match &url.host {
            Some(h) => h.clone(),
            None => {
                let mut m = "no bucket in ".to_owned();
                m.append(url.text.as_str());
                return Err(MediaError::Acquire(m));
            },
        };
        let scheme = url.scheme.as_str();
        if str_is(scheme, "s3") {
            return Ok((StoreKind::S3, bucket, key));
        }
        if str_is(scheme, "r2") {
            let chosen: Option<String> = match &self.cfg.r2_endpoint {
                Some(e) => Some(e.clone()),
                None => endpoint,
            };
            return match chosen {
                Some(e) => Ok((StoreKind::R2(e), bucket, key)),
                None => Err(
                    MediaError::Acquire(
                        "r2:// needs media.download.r2_endpoint or R2_ENDPOINT (https://<account>.r2.cloudflarestorage.com)".to_owned(),
                    ),
                ),
            };
        }
        if str_is(scheme, "gs") {
            return Ok((StoreKind::Gcs, bucket, key));
        }
        if str_is(scheme, "az") {
            return Ok((StoreKind::Azure, bucket, key));
        }
        let mut m = "unsupported scheme ".to_owned();
        m.append(scheme);
        m.append("://");
        Err(MediaError::Acquire(m))
    }

    /// The sources below a prefix: one for each listed object that is a media file, in order.
    pub fn expand_listing(&self, url: &WebUrl, locations: &Vec<String>) -> (r: Vec<Source>)
        ensures
            acquire::source_views(r@) == text::ordered(
                object_urls(url.scheme@, host_or_empty(*url), text::strings_of(locations@)),
            ).map_values(|u: Seq<char>| acquire::SourceView::Url(u)),
    {
        let mut base = url.scheme.clone();
        base.append("://");
        match &url.host {
            Some(h) => base.append(h.as_str()),
            None => {
                proof {
                    assert(base@ + Seq::<char>::empty() =~= base@);
                }
            },
        }
        base.append("/");
        let ghost host = host_or_empty(*url);
        let ghost all = text::strings_of(locations@);
        let mut out: Vec<String> = Vec::new();
        let mut i: usize = 0;
        proof {
            assert(base@ =~= url.scheme@ + "://"@ + host + "/"@);
            assert(text::strings_of(out@) =~= Seq::<Seq<char>>::empty());
        }
        while i < locations.len()
            invariant
                i <= locations@.len(),
                all == text::strings_of(locations@),
                base@ == url.scheme@ + "://"@ + host + "/"@,
                text::strings_of(out@) == text::ordered(
                    object_urls(url.scheme@, host, all.take(i as int)),
                ),
            decreases locations@.len() - i,
        {
            proof {
                assert(all.take(i + 1).drop_last() =~= all.take(i as int));
                assert(all.take(i + 1).last() == locations@[i as int]@);
            }
            let loc = locations[i].as_str();
            if media_extension(loc).is_some() {
                let mut u = base.clone();
                u.append(loc);
                proof {
                    let urls = object_urls(url.scheme@, host, all.take(i as int));
                    assert(urls.push(u@).drop_last() =~= urls);
                }
                text::place_text(&mut out, u);
            }
            i = i + 1;
        }
        proof {
            assert(all.take(i as int) =~= all);
        }
        let ghost texts = text::strings_of(out@);
        let mut sources: Vec<Source> = Vec::new();
        for u in it: out
            invariant
                texts == text::strings_of(it.seq()),
                acquire::source_views(sources@) == texts.take(it.index() as int).map_values(
                    |u: Seq<char>| acquire::SourceView::Url(u),
                ),
        {
            proof {
                let k = it.index() as int;
                assert(texts[k] == u@);
                assert(texts.take(k + 1) =~= texts.take(k).push(u@));
            }
            let ghost before = sources@;
            sources.push(Source::Url(u));
            proof {
                assert(acquire::source_views(sources@) =~= acquire::source_views(before).push(
                    acquire::SourceView::Url(u@),
                ));
                assert(acquire::source_views(sources@) =~= texts.take(it.index() + 1).map_values(
                    |u: Seq<char>| acquire::SourceView::Url(u),
                ));
            }
        }
        proof {
            assert(texts.take(texts.len() as int) =~= texts);
        }
        sources
    }

    /// The sidecar files that may stand next to an object, as keys in the store, each with the
    /// name it gets next to the download whose file name is `file`.
    pub fn sidecar_keys(&self, key: &str, file: &str) -> (r: Vec<(String, String)>)
        ensures
            r@.len() == 5,
            forall|i: int|
                0 <= i < 5 ==> (#[trigger] r@[i]).0@ == before_last_dot(key@)
                    + sidecar_suffixes()[i] && r@[i].1@ == path::stem(file@)
                    + sidecar_suffixes()[i],
    {
        let k = chars_of(key);
        let kn: usize = k.len();
        let base = match rfind_char(k.as_slice(), '.') {
            Some(d) => {
                let h = slice_subrange(k.as_slice(), 0, d);
                proof {
                    assert(h@ =~= key@.take(d as int));
                }
                string_of(h)
            },
            None => string_of(k.as_slice()),
        };
        let f = chars_of(file);
        let stem = string_of(path::stem_of(f.as_slice()));
        let mut out: Vec<(String, String)> = Vec::new();
        out.push(suffixed(&base, &stem, ".info.json"));
        out.push(suffixed(&base, &stem, ".en.srt"));
        out.push(suffixed(&base, &stem, ".srt"));
        out.push(suffixed(&base, &stem, ".en.vtt"));
        out.push(suffixed(&base, &stem, ".vtt"));
        out
    }

    /// Checks the size of an object before it is fetched.
    pub fn check_size(&self, url: &str, size: u64) -> (r: Result<(), MediaError>)
        ensures
            r is Ok <==> size <= self.cfg.max_bytes,
            r matches Err(e) ==> (e matches MediaError::Acquire(m) && m@ == over_limit(
                url@,
                size,
                self.cfg.max_bytes,
            )),
    {
        if size > self.cfg.max_bytes {
            Err(MediaError::Acquire(over_limit_text(url, size, self.cfg.max_bytes)))
        } else {
            Ok(())
        }
    }

    /// Checks that a fetched object has the size it was announced with.
    pub fn check_written(&self, url: &str, written: u64, size: u64) -> (r: Result<(), MediaError>)
        ensures
            r is Ok <==> written == size,
            r matches Err(e) ==> (e matches MediaError::Acquire(m) && m@ == url@ + ": got "@
                + text::decimal(written as nat) + " of "@ + text::decimal(size as nat)
                + " bytes"@),
    {
        if written != size {
            let mut m = url.to_owned();
            m.append(": got ");
            let a = text::decimal_string(written);
            m.append(a.as_str());
            m.append(" of ");
            let b = text::decimal_string(size);
            m.append(b.as_str());
            m.append(" bytes");
            Err(MediaError::Acquire(m))
        } else {
            Ok(())
        }
    }
}

/// Kinds of object stores.
#[derive(Debug)]
pub enum StoreKind {
    /// Amazon S3.
    S3,
    /// Cloudflare R2 at an endpoint.
    R2(String),
    /// Google Cloud Storage.
    Gcs,
    /// Azure Blob Storage.
    Azure,
}

/// A text without the `c` that it starts with.
pub open spec fn unled(s: Seq<char>, c: char) -> Seq<char>
    decreases s.len(),
{
    if s.len() > 0 && s[0] == c {
        unled(s.drop_first(), c)
    } else {
        s
    }
}

fn without_leading<'a>(s: &'a [char], c: char) -> (r: &'a [char])
    ensures
        r@ == unled(s@, c),
{
    let n: usize = s.len();
    let mut i: usize = 0;
    proof {
        assert(s@.skip(0) =~= s@);
    }
    while i < n && s[i] == c
        invariant
            i <= n == s@.len(),
            unled(s@, c) == unled(s@.skip(i as int), c),
        decreases n - i,
    {
        proof {
            assert(s@.skip(i as int).drop_first() =~= s@.skip(i + 1));
        }
        i = i + 1;
    }
    let r = slice_subrange(s, i, n);
    proof {
        assert(r@ =~= s@.skip(i as int));
    }
    r
}

/// Where an object URL leads.
pub open spec fn located(
    cfg: DownloadConfig,
    url: WebUrl,
    endpoint: Option<String>,
    r: Result<(StoreKind, String, String), MediaError>,
) -> bool {
    let s = url.scheme@;
    let chosen = match cfg.r2_endpoint {
        Some(e) => Some(e@),
        None => match endpoint {
            Some(e) => Some(e@),
            None => None,
        },
    };
    match r {
        Ok((kind, bucket, key)) => {
            &&& url.host matches Some(h) && bucket@ == h@
            &&& key@ == unled(url.path@, '/')
            &&& match kind {
                StoreKind::S3 => s == "s3"@,
                StoreKind::R2(e) => s == "r2"@ && chosen == Some(e@),
                StoreKind::Gcs => s == "gs"@,
                StoreKind::Azure => s == "az"@,
            }
        },
        Err(e) => e matches MediaError::Acquire(m) && if url.host is None {
            m@ == "no bucket in "@ + url.text@
        } else if s == "r2"@ {
            chosen is None && m@
                == "r2:// needs media.download.r2_endpoint or R2_ENDPOINT (https://<account>.r2.cloudflarestorage.com)"@
        } else {
            s != "s3"@ && s != "gs"@ && s != "az"@ && m@ == "unsupported scheme "@ + s + "://"@
        },
    }
}

/// The host of a URL, empty when it has none.
pub open spec fn host_or_empty(url: WebUrl) -> Seq<char> {
    match url.host {
        Some(h) => h@,
        None => Seq::empty(),
    }
}

/// The URLs of the listed objects that are media files.
pub open spec fn object_urls(
    scheme: Seq<char>,
    host: Seq<char>,
    locations: Seq<Seq<char>>,
) -> Seq<Seq<char>>
    decreases locations.len(),
{
    if locations.len() == 0 {
        Seq::empty()
    } else {
        let rest = object_urls(scheme, host, locations.drop_last());
        if media_ending(locations.last()) is Some {
            rest.push(scheme + "://"@ + host + "/"@ + locations.last())
        } else {
            rest
        }
    }
}

/// What stands before the last dot, or everything when there is none.
pub open spec fn before_last_dot(s: Seq<char>) -> Seq<char> {
    match text::last_index(s, '.') {
        Some(d) => s.take(d),
        None => s,
    }
}

/// The endings of sidecar files that are fetched along with an object.
pub open spec fn sidecar_suffixes() -> Seq<Seq<char>> {
    seq![".info.json"@, ".en.srt"@, ".srt"@, ".en.vtt"@, ".vtt"@]
}

fn suffixed(base: &String, stem: &String, suffix: &str) -> (r: (String, String))
    ensures
        r.0@ == base@ + suffix@,
        r.1@ == stem@ + suffix@,
{
    let mut a = base.clone();
    a.append(suffix);
    let mut b = stem.clone();
    b.append(suffix);
    (a, b)
}

/// The path of the partial file of a download: `.part` behind the path of the finished file, with
/// `.bin` between when its name has no extension. A path without a file name stays as it is.
pub open spec fn part_path(file: Seq<char>) -> Seq<char> {
    match path::file_name(file) {
        Some(name) => path::bare(file) + (if path::extension(name) is Some {
            ".part"@
        } else {
            ".bin.part"@
        }),
        None => file,
    }
}

/// The path of the partial file of a download.
pub fn part_name(file: &str) -> (r: String)
    ensures
        r@ == part_path(file@),
{
    let c = chars_of(file);
    match path::file_name_of(c.as_slice()) {
        Some(name) => {
            let mut s = string_of(path::bare_of(c.as_slice()));
            if path::extension_of(name).is_some() {
                s.append(".part");
            } else {
                s.append(".bin.part");
            }
            s
        },
        None => file.to_owned(),
    }
}

/// The message for something announced over the size limit.
pub open spec fn over_limit(url: Seq<char>, size: u64, max: u64) -> Seq<char> {
    url + " is "@ + text::decimal(size as nat) + " bytes, over media.download.max_bytes ("@
        + text::decimal(max as nat) + ")"@
}

fn over_limit_text(url: &str, size: u64, max: u64) -> (m: String)
    ensures
        m@ == over_limit(url@, size, max),
{
    let mut m = url.to_owned();
    m.append(" is ");
    let a = text::decimal_string(size);
    m.append(a.as_str());
    m.append(" bytes, over media.download.max_bytes (");
    let b = text::decimal_string(max);
    m.append(b.as_str());
    m.append(")");
    m
}

/// The head of an HTTP response.
#[derive(Debug)]
pub struct ResponseHead {
    /// Status code.
    pub status: u16,
    /// The status as shown to users, such as `404 Not Found`.
    pub status_text: String,
    /// `Location`.
    pub location: Option<String>,
    /// `Content-Length`.
    pub content_length: Option<u64>,
    /// `Content-Range`.
    pub content_range: Option<String>,
    /// `Content-Type`.
    pub content_type: Option<String>,
}

/// What to do with a response.
#[derive(Debug)]
pub enum Verdict {
    /// Follow a redirect to this reference.
    Redirect(String),
    /// Delete the partial file and start over.
    Restart,
    /// Read the body: append to the partial file or not, how many bytes are there already, and
    /// how many there will be in all, if known.
    Body(bool, u64, Option<u64>),
    /// Give up.
    Fail(MediaError),
}

/// The total that the end of a `Content-Range` announces.
pub open spec fn range_total(v: Seq<char>) -> Option<int> {
    text::unsigned(after_last(v, '/'), u64::MAX as int)
}

/// The sum of two sizes, at most the largest number.
pub open spec fn size_sum(a: u64, b: u64) -> u64 {
    if a + b > u64::MAX {
        u64::MAX
    } else {
        (a + b) as u64
    }
}

/// How many bytes the download will have in all, if the response says so.
pub open spec fn announced(head: ResponseHead, have: u64) -> Option<u64> {
    match head.content_length {
        Some(l) => Some(size_sum(l, have)),
        None => match head.content_range {
            Some(v) => match range_total(v@) {
                Some(n) => Some(n as u64),
                None => None,
            },
            None => None,
        },
    }
}

/// How many bytes the download will have at least: those that are kept, or those that are
/// announced if they are more.
pub open spec fn least_size(head: ResponseHead, kept: u64) -> u64 {
    match announced(head, kept) {
        Some(t) => if t > kept {
            t
        } else {
            kept
        },
        None => kept,
    }
}

/// The response is a web page.
pub open spec fn is_html(head: ResponseHead) -> bool {
    head.content_type matches Some(t) && text::starts_with(
        text::ascii_lower(t@),
        "text/html"@,
    )
}

/// How a response to a request for `current` is taken, when `have` bytes are in the partial file.
pub open spec fn judged(
    current: Seq<char>,
    head: ResponseHead,
    have: u64,
    max_bytes: u64,
    v: Verdict,
) -> bool {
    let resuming = head.status == 206 && have > 0;
    let kept = if resuming {
        have
    } else {
        0u64
    };
    if 300 <= head.status < 400 {
        match head.location {
            Some(l) => v == Verdict::Redirect(l),
            None => v matches Verdict::Fail(MediaError::Acquire(m)) && m@
                == "redirect without Location from "@ + current,
        }
    } else if head.status == 416 {
        v == Verdict::Restart
    } else if !(200 <= head.status < 300) {
        v matches Verdict::Fail(MediaError::Acquire(m)) && m@ == "GET "@ + current + ": HTTP "@
            + head.status_text@
    } else if least_size(head, kept) > max_bytes {
        v matches Verdict::Fail(MediaError::Acquire(m)) && m@ == over_limit(
            current,
            least_size(head, kept),
            max_bytes,
        )
    } else if is_html(head) {
        v matches Verdict::Fail(MediaError::Acquire(m)) && m@ == current
            + " returned an HTML page, not a media file (is it a video-site URL? yt-dlp handles those)"@
    } else {
        v == Verdict::Body(resuming, kept, announced(head, kept))
    }
}

/// Judges a response: redirects are followed, an unsatisfiable range starts over, anything but
/// success fails, and so does what is too large or a web page. Only a partial response to a
/// resumed request is appended to what is there.
pub fn judge_response(current: &str, head: ResponseHead, have: u64, max_bytes: u64) -> (v: Verdict)
    ensures
        judged(current@, head, have, max_bytes, v),
{
    if 300 <= head.status && head.status < 400 {
        return match head.location {
            Some(l) => Verdict::Redirect(l),
            None => {
                let mut m = "redirect without Location from ".to_owned();
                m.append(current);
                Verdict::Fail(MediaError::Acquire(m))
            },
        };
    }
    if head.status == 416 {
        return Verdict::Restart;
    }
    if !(200 <= head.status && head.status < 300) {
        let mut m = "GET ".to_owned();
        m.append(current);
        m.append(": HTTP ");
        m.append(head.status_text.as_str());
        return Verdict::Fail(MediaError::Acquire(m));
    }
    let resuming: bool = head.status == 206 && have > 0;
    let kept: u64 = if resuming {
        have
    } else {
        0
    };
    let total: Option<u64> = match head.content_length {
        Some(l) => Some(
            match l.checked_add(kept) {
                Some(s) => s,
                None => 0xffff_ffff_ffff_ffff,
            },
        ),
        None => match &head.content_range {
            Some(r) => {
                let c = chars_of(r.as_str());
                text::parse_unsigned(tail_after(c.as_slice(), '/'), 0xffff_ffff_ffff_ffff)
            },
            None => None,
        },
    };
    proof {
        assert(total == announced(head, kept));
    }
    let size: u64 = match total {
        Some(t) => if t > kept {
            t
        } else {
            kept
        },
        None => kept,
    };
    if size > max_bytes {
        return Verdict::Fail(MediaError::Acquire(over_limit_text(current, size, max_bytes)));
    }
    let html: bool = match &head.content_type {
        Some(t) => {
            let c = chars_of(t.as_str());
            let low = to_ascii_lower(c.as_slice());
            has_str_prefix(low.as_slice(), "text/html")
        },
        None => false,
    };
    if html {
        let mut m = current.to_owned();
        m.append(
            " returned an HTML page, not a media file (is it a video-site URL? yt-dlp handles those)",
        );
        return Verdict::Fail(MediaError::Acquire(m));
    }
    Verdict::Body(resuming, kept, total)
}

/// What is written after one more chunk; nothing when that is over the limit.
pub open spec fn after_chunk(written: int, len: u64, max_bytes: u64) -> Option<int> {
    if written + len <= max_bytes {
        Some(written + len)
    } else {
        None
    }
}

/// Adds a received chunk to what was written; over the limit the download fails.
pub fn take_chunk(current: &str, written: u64, len: u64, max_bytes: u64) -> (r: Result<
    u64,
    MediaError,
>)
    ensures
        match r {
            Ok(n) => after_chunk(written as int, len, max_bytes) == Some(n as int),
            Err(e) => after_chunk(written as int, len, max_bytes) is None && (
            e matches MediaError::Acquire(m) && m@ == current@
                + " exceeded media.download.max_bytes ("@ + text::decimal(max_bytes as nat)
                + ")"@),
        },
{
    match written.checked_add(len) {
        Some(n) => {
            if n <= max_bytes {
                return Ok(n);
            }
        },
        None => {},
    }
    let mut m = current.to_owned();
    m.append(" exceeded media.download.max_bytes (");
    let d = text::decimal_string(max_bytes);
    m.append(d.as_str());
    m.append(")");
    Err(MediaError::Acquire(m))
}

/// Ends a download: when a total was announced, all of it must have come.
pub fn finish_download(current: &str, written: u64, total: Option<u64>) -> (r: Result<
    u64,
    MediaError,
>)
    ensures
        r is Ok <==> (total matches Some(t) ==> t == written),
        r matches Ok(n) ==> n == written,
        r matches Err(e) ==> (e matches MediaError::Acquire(m) && m@ == current@ + ": got "@
            + text::decimal(written as nat) + " of "@ + text::decimal(total->0 as nat)
            + " bytes; re-run to resume"@),
{
    match total {
        Some(t) => {
            if written != t {
                let mut m = current.to_owned();
                m.append(": got ");
                let a = text::decimal_string(written);
                m.append(a.as_str());
                m.append(" of ");
                let b = text::decimal_string(t);
                m.append(b.as_str());
                m.append(" bytes; re-run to resume");
                return Err(MediaError::Acquire(m));
            }
        },
        None => {},
    }
    Ok(written)
}

/// Where a download stands.
#[derive(Debug)]
pub struct Download {
    /// The URL that was asked for.
    pub origin: String,
    /// The URL to fetch now.
    pub current: WebUrl,
    /// Redirects followed so far.
    pub hops: u32,
    /// Bytes in the partial file.
    pub have: u64,
}

impl Download {
    /// Starts a download of a parsed URL.
    pub fn start(origin: &str, parsed: Result<WebUrl, String>, have: u64) -> (r: Result<
        Download,
        MediaError,
    >)
        ensures
            match parsed {
                Ok(u) => r matches Ok(d) && d.origin@ == origin@ && d.current == u && d.hops == 0
                    && d.have == have,
                Err(e) => r matches Err(MediaError::Acquire(m)) && m@ == "bad URL "@ + origin@
                    + ": "@ + e@,
            },
    {
        match parsed {
            Ok(u) => Ok(Download { origin: origin.to_owned(), current: u, hops: 0, have }),
            Err(e) => {
                let mut m = "bad URL ".to_owned();
                m.append(origin);
                m.append(": ");
                m.append(e.as_str());
                Err(MediaError::Acquire(m))
            },
        }
    }

    /// Starts a download of a URL.
    pub fn begin(origin: &str, have: u64) -> (r: Result<Download, MediaError>)
        ensures
            match url_parts(origin@) {
                Ok(p) => r matches Ok(d) && d.origin@ == origin@ && d.current.parts() == p && d.hops
                    == 0 && d.have == have,
                Err(e) => r matches Err(MediaError::Acquire(m)) && m@ == "bad URL "@ + origin@
                    + ": "@ + e,
            },
    {
        Download::start(origin, parse_url(origin), have)
    }

    /// What to fetch: the host, the port (443 when the scheme has none) and the offset to resume
    /// from. Only plain web URLs with a host are fetched.
    pub fn target(&self) -> (r: Result<(String, u16, Option<u64>), MediaError>)
        ensures
            ({
                let web = self.current.scheme@ == "http"@ || self.current.scheme@ == "https"@;
                &&& r is Ok <==> web && self.current.host is Some
                &&& r matches Ok((h, p, from)) ==> h@ == self.current.host->0@ && p == (
                match self.current.port {
                    Some(p) => p,
                    None => 443u16,
                }) && from == (if self.have > 0 {
                    Some(self.have)
                } else {
                    None
                })
                &&& r matches Err(e) ==> (e matches MediaError::Acquire(m) && m@ == (if !web {
                    "unsupported scheme in "@
                } else {
                    "no host in "@
                }) + self.current.text@)
            }),
    {
        let web: bool = str_is(self.current.scheme.as_str(), "http") || str_is(
            self.current.scheme.as_str(),
            "https",
        );
        if !web {
            let mut m = "unsupported scheme in ".to_owned();
            m.append(self.current.text.as_str());
            return Err(MediaError::Acquire(m));
        }
        match &self.current.host {
            Some(h) => {
                let port: u16 = match self.current.port {
                    Some(p) => p,
                    None => 443,
                };
                let from: Option<u64> = if self.have > 0 {
                    Some(self.have)
                } else {
                    None
                };
                Ok((h.clone(), port, from))
            },
            None => {
                let mut m = "no host in ".to_owned();
                m.append(self.current.text.as_str());
                Err(MediaError::Acquire(m))
            },
        }
    }

    /// Goes on to a redirect target that resolved to `resolved`; over the limit of redirects the
    /// download fails.
    pub fn redirect_to(
        self,
        reference: &str,
        resolved: Result<WebUrl, String>,
        max_redirects: u32,
    ) -> (r: Result<Download, MediaError>)
        ensures
            match resolved {
                Err(e) => r matches Err(MediaError::Acquire(m)) && m@ == "bad redirect "@
                    + reference@ + ": "@ + e@,
                Ok(u) => if self.hops >= max_redirects {
                    r matches Err(MediaError::Acquire(m)) && m@ == "too many redirects (over "@
                        + text::decimal(max_redirects as nat) + ") from "@ + self.origin@
                } else {
                    r == Ok::<Download, MediaError>(
                        Download {
                            origin: self.origin,
                            current: u,
                            hops: (self.hops + 1) as u32,
                            have: self.have,
                        },
                    )
                },
            },
    {
        match resolved {
            Err(e) => {
                let mut m = "bad redirect ".to_owned();
                m.append(reference);
                m.append(": ");
                m.append(e.as_str());
                Err(MediaError::Acquire(m))
            },
            Ok(u) => {
                if self.hops >= max_redirects {
                    let mut m = "too many redirects (over ".to_owned();
                    let d = text::decimal_string(max_redirects as u64);
                    m.append(d.as_str());
                    m.append(") from ");
                    m.append(self.origin.as_str());
                    return Err(MediaError::Acquire(m));
                }
                Ok(
                    Download {
                        origin: self.origin,
                        current: u,
                        hops: self.hops + 1,
                        have: self.have,
                    },
                )
            },
        }
    }

    /// Follows a redirect.
    pub fn redirect(self, reference: &str, max_redirects: u32) -> (r: Result<Download, MediaError>)
        ensures
            match url_resolved(self.current.text@, reference@) {
                Err(e) => r matches Err(MediaError::Acquire(m)) && m@ == "bad redirect "@
                    + reference@ + ": "@ + e,
                Ok(p) => if self.hops >= max_redirects {
                    r matches Err(MediaError::Acquire(m)) && m@ == "too many redirects (over "@
                        + text::decimal(max_redirects as nat) + ") from "@ + self.origin@
                } else {
                    r matches Ok(d) && d.origin == self.origin && d.current.parts() == p && d.hops
                        == self.hops + 1 && d.have == self.have
                },
            },
    {
        let resolved = resolve_url(self.current.text.as_str(), reference);
        self.redirect_to(reference, resolved, max_redirects)
    }

    /// Starts over from the current URL after the partial file was deleted. Redirects that were
    /// followed still count.
    pub fn restart(self) -> (d: Download)
        ensures
            d.origin@ == self.current.text@,
            d.current == self.current,
            d.hops == self.hops,
            d.have == 0,
    {
        let origin = self.current.text.clone();
        Download { origin, current: self.current, hops: self.hops, have: 0 }
    }
}

/// What turns a download away from reading its body.
pub enum Turn {
    /// A redirect is followed.
    Redirect,
    /// The download starts over.
    Restart,
}

/// The redirects that count after a list of turns; nothing when one was refused on the way. Each
/// turn does to the count what [`Download::redirect_to`] and [`Download::restart`] do to it.
pub open spec fn after_turns(turns: Seq<Turn>, max_redirects: u32) -> Option<int>
    decreases turns.len(),
{
    if turns.len() == 0 {
        Some(0)
    } else {
        match after_turns(turns.drop_last(), max_redirects) {
            Some(n) => match turns.last() {
                Turn::Redirect => if n >= max_redirects {
                    None
                } else {
                    Some(n + 1)
                },
                Turn::Restart => Some(n),
            },
            None => None,
        }
    }
}

/// The redirects among turns.
pub open spec fn redirects(turns: Seq<Turn>) -> int {
    turns.filter(|t: Turn| t is Redirect).len() as int
}

/// A download follows no more redirects than the limit, however often it starts over.
pub proof fn law_redirects_are_bounded(turns: Seq<Turn>, max_redirects: u32)
    ensures
        match after_turns(turns, max_redirects) {
            Some(n) => n == redirects(turns) && n <= max_redirects,
            None => redirects(turns) > max_redirects,
        },
    decreases turns.len(),
{
    reveal(Seq::filter);
    if turns.len() > 0 {
        law_redirects_are_bounded(turns.drop_last(), max_redirects);
    }
}

/// What is written after a list of chunks; nothing when the limit was passed on the way.
pub open spec fn after_chunks(kept: u64, lens: Seq<u64>, max_bytes: u64) -> Option<int>
    decreases lens.len(),
{
    if lens.len() == 0 {
        Some(kept as int)
    } else {
        match after_chunks(kept, lens.drop_last(), max_bytes) {
            Some(n) => after_chunk(n, lens.last(), max_bytes),
            None => None,
        }
    }
}

/// A download whose response was accepted, and that receives its chunks without failing, has
/// written what it kept and what came, and no more than the limit.
pub proof fn law_downloads_are_bounded(
    current: Seq<char>,
    head: ResponseHead,
    have: u64,
    kept: u64,
    resuming: bool,
    total: Option<u64>,
    lens: Seq<u64>,
    max_bytes: u64,
)
    requires
        judged(current, head, have, max_bytes, Verdict::Body(resuming, kept, total)),
    ensures
        match after_chunks(kept, lens, max_bytes) {
            Some(n) => n == kept + sum_of(lens) && n <= max_bytes,
            None => kept + sum_of(lens) > max_bytes,
        },
    decreases lens.len(),
{
    if lens.len() > 0 {
        law_downloads_are_bounded(
            current,
            head,
            have,
            kept,
            resuming,
            total,
            lens.drop_last(),
            max_bytes,
        );
    }
}

/// The sum of a list of sizes.
pub open spec fn sum_of(s: Seq<u64>) -> int
    decreases s.len(),
{
    if s.len() == 0 {
        0
    } else {
        sum_of(s.drop_last()) + s.last()
    }
}

/// The addresses that are not for the public stand in whole blocks of numbers.
pub proof fn law_private_addresses_stand_in_blocks(a: u8, b: u8, c: u8, d: u8)
    ensures
        ({
            let n = a * 0x100_0000 + b * 0x1_0000 + c * 0x100 + d;
            private_v4(a, b, c, d) <==> {
                ||| n < 0x0100_0000
                ||| 0x0a00_0000 <= n < 0x0b00_0000
                ||| 0x6440_0000 <= n < 0x6480_0000
                ||| 0x7f00_0000 <= n < 0x8000_0000
                ||| 0xa9fe_0000 <= n < 0xa9ff_0000
                ||| 0xac10_0000 <= n < 0xac20_0000
                ||| 0xc000_0200 <= n < 0xc000_0300
                ||| 0xc0a8_0000 <= n < 0xc0a9_0000
                ||| 0xc633_6400 <= n < 0xc633_6500
                ||| 0xcb00_7100 <= n < 0xcb00_7200
                ||| n == 0xffff_ffff
            }
        }),
{
}

/// What stands behind the last dot decides whether a path is a media file, in either case of
/// letters, and nothing before it.
pub proof fn law_endings_decide(stem: Seq<char>, e: Seq<char>)
    requires
        text::free_of(text::ascii_lower(e), '.'),
    ensures
        media_ending(stem + seq!['.'] + e) is Some <==> media_extensions().contains(
            text::ascii_lower(e),
        ),
        media_ending(stem + seq!['.'] + e) matches Some(x) ==> x == text::ascii_lower(e),
{
    let s = text::ascii_lower(stem + seq!['.'] + e);
    let low = text::ascii_lower(e);
    let n = stem.len() as int;
    text::law_places_of_a_character(s, '.');
    assert(s[n] == '.');
    assert(s.skip(n + 1) =~= low);
    match text::last_index(s, '.') {
        Some(i) => {
            if i > n {
                assert(low[i - (n + 1)] == s[i]);
            }
        },
        None => {},
    }
}

/// The character that writes a number below sixteen, in small or in capital letters.
pub open spec fn hex_digit(v: int, capital: bool) -> u8 {
    if v < 10 {
        ('0' as int + v) as u8
    } else if capital {
        ('A' as int + (v - 10)) as u8
    } else {
        ('a' as int + (v - 10)) as u8
    }
}

/// What holds no percent sign is decoded to itself, and a byte written as a percent sign and two
/// digits to base sixteen is decoded to that byte, whatever follows.
pub proof fn law_escapes_give_bytes(
    plain: Seq<u8>,
    v: u8,
    capital: bool,
    capital_too: bool,
    rest: Seq<u8>,
)
    requires
        forall|i: int| 0 <= i < plain.len() ==> #[trigger] plain[i] != '%' as int,
    ensures
        unescape(plain) == plain,
        unescape(
            plain + seq![
                '%' as u8,
                hex_digit(v as int / 16, capital),
                hex_digit(v as int % 16, capital_too),
            ] + rest,
        ) == plain + seq![v] + unescape(rest),
    decreases plain.len(),
{
    let (hi, lo) = (hex_digit(v as int / 16, capital), hex_digit(v as int % 16, capital_too));
    let mark = seq!['%' as u8, hi, lo];
    let s = plain + mark + rest;
    if plain.len() == 0 {
        assert(s[0] == 37 && s[1] == hi && s[2] == lo);
        assert(hex_value(hi) == Some((v / 16) as u8));
        assert(hex_value(lo) == Some((v % 16) as u8));
        assert(escaped_byte(hi, lo) == Some(v));
        assert(s.skip(3) =~= rest);
        assert(seq![v] + unescape(rest) =~= plain + seq![v] + unescape(rest));
    } else {
        let t = plain.skip(1);
        assert forall|i: int| 0 <= i < t.len() implies #[trigger] t[i] != '%' as int by {
            assert(t[i] == plain[i + 1]);
        }
        law_escapes_give_bytes(t, v, capital, capital_too, rest);
        assert(plain[0] != '%' as int);
        assert(s[0] == plain[0]);
        assert(s.skip(1) =~= t + mark + rest);
        assert(plain =~= seq![plain[0]] + t);
        assert(seq![plain[0]] + (t + seq![v] + unescape(rest)) =~= plain + seq![v] + unescape(
            rest,
        ));
    }
}

/// The name of a path is its last part, whatever stands before it and however many slashes follow.
pub proof fn law_names_are_last_parts(a: Seq<char>, name: Seq<char>, slashes: nat)
    requires
        text::free_of(name, '/'),
        name.len() > 0,
    ensures
        last_segment(seq!['/'] + name + Seq::new(slashes, |i: int| '/')) == name,
        last_segment(seq!['/'] + a + seq!['/'] + name + Seq::new(slashes, |i: int| '/')) == name,
{
    let tail = Seq::new(slashes, |i: int| '/');
    text::law_splitting_at_a_character(name, tail, '/');
    text::law_splitting_goes_part_by_part(a, name, '/');
    lemma_trailing_slashes(name, slashes);
    lemma_trailing_slashes(a + seq!['/'] + name, slashes);
    assert((seq!['/'] + name + tail).drop_first() =~= name + tail);
    assert((seq!['/'] + a + seq!['/'] + name + tail).drop_first() =~= (a + seq!['/'] + name)
        + tail);
    let p = text::split(a + seq!['/'] + name, seq!['/']);
    assert(p.last() == name);
}

proof fn lemma_trailing_slashes(s: Seq<char>, slashes: nat)
    ensures
        last_non_empty(text::split(s + Seq::new(slashes, |i: int| '/'), seq!['/']))
            == last_non_empty(text::split(s, seq!['/'])),
    decreases slashes,
{
    let tail = Seq::new(slashes, |i: int| '/');
    let none = Seq::<char>::empty();
    if slashes == 0 {
        assert(s + tail =~= s);
    } else {
        let less = Seq::new((slashes - 1) as nat, |i: int| '/');
        lemma_trailing_slashes(s, (slashes - 1) as nat);
        assert(s + tail =~= (s + less) + seq!['/'] + none);
        text::law_splitting_goes_part_by_part(s + less, none, '/');
        text::law_splitting_at_a_character(none, none, '/');
        let p = text::split(s + less, seq!['/']);
        assert((p + seq![none]).drop_last() =~= p);
        assert((p + seq![none]).last() == none);
    }
}

/// Leading characters are dropped until another one stands first.
pub proof fn law_leading_characters_are_dropped(n: nat, s: Seq<char>, c: char)
    requires
        s.len() > 0 ==> s[0] != c,
    ensures
        unled(Seq::new(n, |i: int| c) + s, c) == s,
    decreases n,
{
    let lead = Seq::new(n, |i: int| c);
    if n == 0 {
        assert(lead + s =~= s);
    } else {
        law_leading_characters_are_dropped((n - 1) as nat, s, c);
        assert((lead + s).drop_first() =~= Seq::new((n - 1) as nat, |i: int| c) + s);
    }
}

/// Objects are listed one by one: each media file gives one address, in order, and nothing else
/// gives any.
pub proof fn law_objects_are_listed_one_by_one(
    scheme: Seq<char>,
    host: Seq<char>,
    a: Seq<Seq<char>>,
    b: Seq<Seq<char>>,
    one: Seq<char>,
)
    ensures
        object_urls(scheme, host, a + b) == object_urls(scheme, host, a) + object_urls(
            scheme,
            host,
            b,
        ),
        media_ending(one) is None ==> object_urls(scheme, host, seq![one]).len() == 0,
        media_ending(one) is Some ==> object_urls(scheme, host, seq![one]) == seq![
            scheme + "://"@ + host + "/"@ + one,
        ],
    decreases b.len(),
{
    reveal_with_fuel(object_urls, 2);
    assert(seq![one].drop_last() =~= Seq::<Seq<char>>::empty());
    if b.len() == 0 {
        assert(a + b =~= a);
    } else {
        law_objects_are_listed_one_by_one(scheme, host, a, b.drop_last(), one);
        assert((a + b).drop_last() =~= a + b.drop_last());
    }
}

/// A response is read only where it succeeded, is no page and is not known to be too large. It
/// goes on from the bytes at hand only where the server sent a part; a redirect goes where the
/// server says, and a range that the server refuses starts over.
pub proof fn law_responses_are_read_with_care(
    current: Seq<char>,
    head: ResponseHead,
    have: u64,
    max_bytes: u64,
    v: Verdict,
)
    requires
        judged(current, head, have, max_bytes, v),
    ensures
        v is Restart <==> head.status == 416,
        v matches Verdict::Redirect(l) ==> 300 <= head.status < 400 && head.location == Some(l),
        v matches Verdict::Body(resuming, kept, total) ==> {
            &&& 200 <= head.status < 300
            &&& resuming <==> (head.status == 206 && have > 0)
            &&& kept == (if resuming {
                have
            } else {
                0
            })
            &&& kept <= max_bytes
            &&& total matches Some(t) ==> t <= max_bytes
            &&& head.content_length matches Some(l) ==> l + kept <= u64::MAX ==> total == Some(
                (l + kept) as u64,
            )
            &&& head.content_type matches Some(t) ==> !text::starts_with(
                text::ascii_lower(t@),
                "text/html"@,
            )
        },
        200 <= head.status < 300 && head.content_length is None && head.content_range is None
            && head.content_type is None && have <= max_bytes ==> v is Body,
{
    if let Verdict::Body(resuming, kept, total) = v {
        if let Some(l) = head.content_length {
            assert(announced(head, kept) == Some(size_sum(l, kept)));
        }
    }
}

/// A safe name is as long as the text, keeps what is safe, and is safe and unchanged when it is
/// made safe again.
pub proof fn law_names_are_made_safe(s: Seq<char>, i: int)
    requires
        0 <= i < s.len(),
    ensures
        safe_text(s).len() == s.len(),
        safe_char(safe_text(s)[i]),
        safe_char(s[i]) ==> safe_text(s)[i] == s[i],
        safe_text(s)[i] != '/' && safe_text(s)[i] != '\\' && safe_text(s)[i] != ' ',
        safe_text(safe_text(s)) == safe_text(s),
{
    assert(safe_text(safe_text(s)) =~= safe_text(s));
}

} // verus!
