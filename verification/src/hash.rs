//! Chunk digests: SHA-256, written as lowercase hexadecimal text.

use sha2::Digest;
use vstd::prelude::*;

use crate::error::DistError;

verus! {

/// The SHA-256 digest of a byte string.
pub uninterp spec fn sha256_digest(data: Seq<u8>) -> Seq<u8>;

/// The lowercase hexadecimal digit of a number below sixteen.
pub open spec fn hex_digit(n: int) -> char {
    if n == 0 {
        '0'
    } else if n == 1 {
        '1'
    } else if n == 2 {
        '2'
    } else if n == 3 {
        '3'
    } else if n == 4 {
        '4'
    } else if n == 5 {
        '5'
    } else if n == 6 {
        '6'
    } else if n == 7 {
        '7'
    } else if n == 8 {
        '8'
    } else if n == 9 {
        '9'
    } else if n == 10 {
        'a'
    } else if n == 11 {
        'b'
    } else if n == 12 {
        'c'
    } else if n == 13 {
        'd'
    } else if n == 14 {
        'e'
    } else {
        'f'
    }
}

/// Two hexadecimal digits per byte, the high half first.
pub open spec fn hex_text(bytes: Seq<u8>) -> Seq<char> {
    Seq::new(
        2 * bytes.len(),
        |i: int|
            if i % 2 == 0 {
                hex_digit(bytes[i / 2] as int / 16)
            } else {
                hex_digit(bytes[i / 2] as int % 16)
            },
    )
}

/// The text that identifies the content `data`: its SHA-256 digest in hexadecimal.
pub open spec fn hash_text(data: Seq<u8>) -> Seq<char> {
    hex_text(sha256_digest(data))
}

/// Calls `sha2::Sha256::digest`. Trusted: the digest depends on the bytes alone
/// and has 32 bytes.
#[verifier::external_body]
fn sha256(data: &[u8]) -> (r: Vec<u8>)
    ensures
        r@ == sha256_digest(data@),
        r@.len() == 32,
{
    sha2::Sha256::digest(data).to_vec()
}

/// Calls `hex::encode`. Trusted: every byte becomes two lowercase hexadecimal
/// digits, the high half first, in the order of the bytes.
#[verifier::external_body]
fn hex_encode(data: &[u8]) -> (r: String)
    requires
        2 * data@.len() <= isize::MAX,
    ensures
        r@ == hex_text(data@),
{
    hex::encode(data)
}

/// The digest text of `data`.
pub fn hash_bytes(data: &[u8]) -> (r: String)
    ensures
        r@ == hash_text(data@),
        r@.len() == 64,
{
    let digest = sha256(data);
    hex_encode(digest.as_slice())
}

/// The outcome of holding the digest text `actual` of some chunk data against the
/// recorded one.
pub open spec fn digest_verdict(
    r: Result<(), DistError>,
    index: u32,
    expected: Seq<char>,
    actual: Seq<char>,
) -> bool {
    match r {
        Ok(()) => actual == expected,
        Err(DistError::HashMismatch { index: i, expected: e, actual: a }) => {
            &&& actual != expected
            &&& i == index
            &&& e@ == expected
            &&& a@ == actual
        },
        Err(_) => false,
    }
}

/// Accepts the digest text `actual` of chunk `index` if it is the expected one, and
/// reports a mismatch otherwise.
pub fn check_digest(index: u32, expected: &String, actual: String) -> (r: Result<(), DistError>)
    ensures
        digest_verdict(r, index, expected@, actual@),
{
    if actual != *expected {
        return Err(DistError::HashMismatch { index, expected: expected.clone(), actual });
    }
    Ok(())
}

/// Hexadecimal text determines the bytes: comparing digest texts compares digests.
pub proof fn hex_text_injective(a: Seq<u8>, b: Seq<u8>)
    requires
        hex_text(a) == hex_text(b),
    ensures
        a == b,
{
    assert(hex_text(a).len() == 2 * a.len());
    assert(hex_text(b).len() == 2 * b.len());
    assert forall|i: int| 0 <= i < a.len() implies a[i] == b[i] by {
        assert(hex_text(a)[2 * i] == hex_digit(a[i] as int / 16));
        assert(hex_text(b)[2 * i] == hex_digit(b[i] as int / 16));
        assert(hex_text(a)[2 * i + 1] == hex_digit(a[i] as int % 16));
        assert(hex_text(b)[2 * i + 1] == hex_digit(b[i] as int % 16));
    }
    assert(a =~= b);
}

} // verus!
