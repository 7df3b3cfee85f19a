//! SHA-256 checksums as lower-case hexadecimal text.

use sha2::{Digest, Sha256};
use vstd::prelude::*;

use crate::text;

verus! {

/// The SHA-256 digest of a byte sequence.
pub uninterp spec fn sha256_digest(bytes: Seq<u8>) -> Seq<u8>;

/// `sha2::Sha256`: a fresh hasher fed the bytes and finalised. The digest is a
/// function of the bytes alone and is 32 bytes long.
#[verifier::external_body]
fn sha256(bytes: &[u8]) -> (r: Vec<u8>)
    ensures
        r@ == sha256_digest(bytes@),
        r@.len() == 32,
{
    let mut h = Sha256::new();
    h.update(bytes);
    h.finalize().to_vec()
}

/// A hexadecimal digit, lower case.
pub open spec fn hex_digit(d: int) -> char
    recommends
        0 <= d < 16,
{
    if d < 10 {
        text::digit(d)
    } else {
        ('a' as int + (d - 10)) as char
    }
}

/// Two hexadecimal digits per byte, high half first.
pub open spec fn hex(bytes: Seq<u8>) -> Seq<char> {
    Seq::new(
        2 * bytes.len(),
        |i: int|
            if i % 2 == 0 {
                hex_digit(bytes[i / 2] as int / 16)
            } else {
                hex_digit(bytes[i / 2] as int % 16)
            },
    )
}

/// Checksum of a byte sequence.
pub open spec fn digest_hex(bytes: Seq<u8>) -> Seq<char> {
    hex(sha256_digest(bytes))
}

/// Every character of a hexadecimal text is a digit or a letter from `a` to `f`.
pub proof fn hex_characters(bytes: Seq<u8>, i: int)
    requires
        0 <= i < hex(bytes).len(),
    ensures
        '0' <= hex(bytes)[i] <= '9' || 'a' <= hex(bytes)[i] <= 'f',
{
    let b = bytes[i / 2] as int;
    assert(0 <= b / 16 < 16 && 0 <= b % 16 < 16);
}

fn hex_char(d: u8) -> (c: char)
    requires
        d < 16,
    ensures
        c == hex_digit(d as int),
{
    if d < 10 {
        (48u8 + d) as char
    } else {
        (97u8 + (d - 10)) as char
    }
}

/// SHA-256 hex digest of a byte slice.
pub fn sha256_hex(bytes: &[u8]) -> (r: String)
    ensures
        r@ == digest_hex(bytes@),
        r@.len() == 64,
{
    let digest = sha256(bytes);
    let mut out = String::new();
    for i in 0..digest.len()
        invariant
            out@ == hex(digest@.take(i as int)),
    {
        out.push(hex_char(digest[i] / 16));
        out.push(hex_char(digest[i] % 16));
        assert(out@ =~= hex(digest@.take(i as int + 1)));
    }
    assert(digest@.take(digest@.len() as int) =~= digest@);
    out
}

/// The value of a hexadecimal digit.
pub open spec fn hex_value(c: char) -> int {
    if c <= '9' {
        c as int - '0' as int
    } else {
        c as int - 'a' as int + 10
    }
}

/// Every byte is read back off its two digits, the first worth sixteen times the
/// second, and nothing else is written.
pub proof fn hexadecimal_reads_back(bytes: Seq<u8>, i: int)
    requires
        0 <= i < bytes.len(),
    ensures
        hex(bytes).len() == 2 * bytes.len(),
        bytes[i] == 16 * hex_value(hex(bytes)[2 * i]) + hex_value(hex(bytes)[2 * i + 1]),
        0 <= hex_value(hex(bytes)[2 * i]) < 16,
        0 <= hex_value(hex(bytes)[2 * i + 1]) < 16,
{
    hex_characters(bytes, 2 * i);
    hex_characters(bytes, 2 * i + 1);
    assert((2 * i) / 2 == i && (2 * i + 1) / 2 == i);
    let high = bytes[i] as int / 16;
    let low = bytes[i] as int % 16;
    assert(hex(bytes)[2 * i] == hex_digit(high));
    assert(hex(bytes)[2 * i + 1] == hex_digit(low));
}

} // verus!
