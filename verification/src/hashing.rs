//! Content hashes.

use vstd::prelude::*;

use crate::text;

verus! {

/// The lower-case hexadecimal BLAKE3 hash of a byte string.
pub uninterp spec fn blake3_hex(bytes: Seq<u8>) -> Seq<char>;

/// A lower-case hexadecimal digit.
pub open spec fn hex_digit(c: char) -> bool {
    '0' <= c <= '9' || 'a' <= c <= 'f'
}

/// Hashes bytes with `blake3::hash` and writes the hash with `to_hex`.
///
/// Claimed of it: the text depends on the bytes alone and is 64 lower-case hexadecimal digits.
#[verifier::external_body]
pub(crate) fn hash_hex(bytes: &[u8]) -> (r: String)
    ensures
        r@ == blake3_hex(bytes@),
        r@.len() == 64,
        forall|i: int| 0 <= i < 64 ==> hex_digit(#[trigger] r@[i]),
{
    blake3::hash(bytes).to_hex().to_string()
}

/// The hash and the size of a file's content.
pub fn hash_file(content: &[u8]) -> (r: (String, u64))
    requires
        content@.len() <= u64::MAX,
    ensures
        r.0@ == blake3_hex(content@),
        r.0@.len() == 64,
        forall|i: int| 0 <= i < 64 ==> hex_digit(#[trigger] r.0@[i]),
        r.1 == content@.len(),
{
    (hash_hex(content), content.len() as u64)
}

/// The first `n` characters of a text.
pub fn head_of(s: &str, n: usize) -> (r: String)
    requires
        n <= s@.len(),
    ensures
        r@ == s@.take(n as int),
{
    let c = text::chars_of(s);
    let head = vstd::slice::slice_subrange(c.as_slice(), 0, n);
    proof {
        assert(head@ =~= s@.take(n as int));
    }
    text::string_of(head)
}

/// The first `n` digits of the hash of a text's UTF-8 bytes.
pub fn hash_prefix(s: &str, n: usize) -> (r: String)
    requires
        n <= 64,
    ensures
        r@ == blake3_hex(vstd::utf8::encode_utf8(s@)).take(n as int),
        r@.len() == n,
        forall|i: int| 0 <= i < n ==> hex_digit(#[trigger] r@[i]),
{
    let h = hash_hex(s.as_bytes());
    let r = head_of(h.as_str(), n);
    proof {
        assert forall|i: int| 0 <= i < n implies hex_digit(#[trigger] r@[i]) by {
            assert(r@[i] == h@[i]);
        }
    }
    r
}

} // verus!
