//! SHA-256 digests, printed as hex.

use vstd::prelude::*;
use sha2::Digest;

verus! {

/// The SHA-256 digest of some bytes.
pub uninterp spec fn sha256_digest(bytes: Seq<u8>) -> Seq<u8>;

/// Trusted: `sha2::Sha256`, fed the bytes in one `update`, gives the digest named
/// `sha256_digest`, 32 bytes that depend on the input alone.
#[verifier::external_body]
fn sha256(bytes: &[u8]) -> (digest: [u8; 32])
    ensures
        digest@ == sha256_digest(bytes@),
{
    let mut hasher = sha2::Sha256::new();
    hasher.update(bytes);
    hasher.finalize().into()
}

/// A hex digit in lower case.
pub open spec fn hex_digit(n: int) -> char {
    if n < 10 {
        (48 + n) as char
    } else {
        (87 + n) as char
    }
}

/// Bytes as hex digits, two per byte, high half first.
pub open spec fn hex_of(bytes: Seq<u8>) -> Seq<char> {
    Seq::new(
        2 * bytes.len(),
        |i: int|
            if i % 2 == 0 {
                hex_digit(bytes[i / 2] as int / 16)
            } else {
                hex_digit(bytes[i / 2] as int % 16)
            },
    )
}

fn digit(n: u8) -> (c: char)
    requires
        n < 16,
    ensures
        c == hex_digit(n as int),
{
    if n < 10 {
        (48 + n) as char
    } else {
        (87 + n) as char
    }
}

/// Bytes as hex digits in lower case.
pub fn hex(bytes: &[u8]) -> (text: String)
    ensures
        text@ == hex_of(bytes@),
{
    let mut text = String::new();
    let mut i: usize = 0;
    while i < bytes.len()
        invariant
            i <= bytes.len(),
            text@ == hex_of(bytes@).take(2 * i),
        decreases bytes.len() - i,
    {
        let b = bytes[i];
        text.push(digit(b / 16));
        text.push(digit(b % 16));
        assert((2 * i) / 2 == i && (2 * i + 1) / 2 == i);
        assert(text@ =~= hex_of(bytes@).take(2 * (i + 1)));
        i = i + 1;
    }
    assert(text@ =~= hex_of(bytes@));
    text
}

/// The SHA-256 digest of some bytes, in hex.
pub fn sha256_hex(bytes: &[u8]) -> (text: String)
    ensures
        text@ == hex_of(sha256_digest(bytes@)),
        text@.len() == 64,
{
    let digest = sha256(bytes);
    hex(digest.as_slice())
}

} // verus!
