//! SHA-256 digests and their lower-case hexadecimal rendering, from the
//! `sha2` and `hex` crates.

use vstd::prelude::*;
use sha2::Digest;

verus! {

/// The SHA-256 digest of `data`, as `sha2::Sha256` computes it.
pub uninterp spec fn sha256(data: Seq<u8>) -> Seq<u8>;

/// `sha2::Sha256::digest`: the contract claims that the result is the
/// SHA-256 digest of `data` (named `sha256`) and that it is 32 bytes long,
/// as its output type `GenericArray<u8, U32>` fixes.
#[verifier::external_body]
pub(crate) fn sha256_digest(data: &[u8]) -> (d: Vec<u8>)
    ensures
        d@ == sha256(data@),
        d@.len() == 32,
{
    sha2::Sha256::digest(data).to_vec()
}

/// The lower-case hexadecimal digit for `n < 16`.
pub open spec fn hex_digit(n: u8) -> char {
    if n < 10 {
        ((('0' as u8) + n) as u8) as char
    } else {
        ((('a' as u8) + n - 10) as u8) as char
    }
}

/// Each byte as two lower-case hexadecimal digits, high nibble first.
pub open spec fn hex_lower(bytes: Seq<u8>) -> Seq<char>
    decreases bytes.len(),
{
    if bytes.len() == 0 {
        seq![]
    } else {
        seq![hex_digit(bytes[0] / 16), hex_digit(bytes[0] % 16)] + hex_lower(bytes.drop_first())
    }
}

/// `hex::encode`: the contract claims that each byte becomes two lower-case
/// hexadecimal digits, high nibble first, as the crate's documentation and
/// its `HEX_CHARS_LOWER` table show.
#[verifier::external_body]
pub(crate) fn hex_encode(data: &[u8]) -> (s: String)
    ensures
        s@ == hex_lower(data@),
{
    hex::encode(data)
}

pub proof fn lemma_hex_lower_len(bytes: Seq<u8>)
    ensures
        hex_lower(bytes).len() == 2 * bytes.len(),
    decreases bytes.len(),
{
    if bytes.len() > 0 {
        lemma_hex_lower_len(bytes.drop_first());
    }
}

/// The first `n` bytes of `v`.
pub fn byte_prefix(v: &[u8], n: usize) -> (r: Vec<u8>)
    requires
        n <= v@.len(),
    ensures
        r@ == v@.take(n as int),
{
    let mut r: Vec<u8> = Vec::new();
    for i in 0..n
        invariant
            n <= v@.len(),
            r@ == v@.take(i as int),
    {
        r.push(v[i]);
        assert(v@.take(i + 1) == v@.take(i as int).push(v@[i as int]));
    }
    r
}

/// The first `n` bytes of the SHA-256 digest of the UTF-8 encoding of
/// `text`, in lower-case hexadecimal.
pub open spec fn digest_hex(text: Seq<char>, n: nat) -> Seq<char> {
    hex_lower(sha256(vstd::utf8::encode_utf8(text)).take(n as int))
}

/// `digest_hex(text@, n)`.
pub fn digest_hex_prefix(text: &String, n: usize) -> (r: String)
    requires
        n <= 32,
    ensures
        r@ == digest_hex(text@, n as nat),
        r@.len() == 2 * n,
{
    let bytes = text.as_str().as_bytes();
    let digest = sha256_digest(bytes);
    let prefix = byte_prefix(digest.as_slice(), n);
    proof {
        lemma_hex_lower_len(prefix@);
    }
    hex_encode(prefix.as_slice())
}

/// The value of a lower-case hexadecimal digit.
pub open spec fn hex_value(c: char) -> int {
    if '0' <= c && c <= '9' {
        c as int - '0' as int
    } else {
        c as int - 'a' as int + 10
    }
}

pub open spec fn is_lower_hex_digit(c: char) -> bool {
    ('0' <= c && c <= '9') || ('a' <= c && c <= 'f')
}

proof fn lemma_hex_digit(n: u8)
    requires
        n < 16,
    ensures
        is_lower_hex_digit(hex_digit(n)),
        hex_value(hex_digit(n)) == n,
{
}

/// Hexadecimal encoding writes each byte as two lower-case hexadecimal
/// digits, high nibble first: the digits decode back to the bytes.
pub proof fn law_hex_encoding_decodes(bytes: Seq<u8>)
    ensures
        hex_lower(bytes).len() == 2 * bytes.len(),
        forall|i: int| 0 <= i < hex_lower(bytes).len() ==> is_lower_hex_digit(#[trigger] hex_lower(bytes)[i]),
        forall|k: int|
            0 <= k < bytes.len() ==> hex_value(hex_lower(bytes)[2 * k]) * 16 + hex_value(
                hex_lower(bytes)[2 * k + 1],
            ) == #[trigger] bytes[k],
    decreases bytes.len(),
{
    lemma_hex_lower_len(bytes);
    if bytes.len() > 0 {
        let b = bytes[0];
        lemma_hex_digit(b / 16);
        lemma_hex_digit(b % 16);
        let rest = bytes.drop_first();
        law_hex_encoding_decodes(rest);
        let h = hex_lower(bytes);
        let hr = hex_lower(rest);
        assert(h == seq![hex_digit(b / 16), hex_digit(b % 16)] + hr);
        assert forall|i: int| 0 <= i < h.len() implies is_lower_hex_digit(#[trigger] h[i]) by {
            if i >= 2 {
                assert(h[i] == hr[i - 2]);
            }
        }
        assert forall|k: int| 0 <= k < bytes.len() implies hex_value(h[2 * k]) * 16 + hex_value(
            h[2 * k + 1],
        ) == #[trigger] bytes[k] by {
            if k > 0 {
                assert(h[2 * k] == hr[2 * (k - 1)]);
                assert(h[2 * k + 1] == hr[2 * (k - 1) + 1]);
                assert(bytes[k] == rest[k - 1]);
            } else {
                assert(b == (b / 16) * 16 + b % 16);
            }
        }
    }
}

} // verus!
