//! Little-endian 32-bit words in byte strings.

use vstd::prelude::*;

verus! {

/// The four bytes of `x`, least significant first.
pub open spec fn le32(x: u32) -> Seq<u8> {
    seq![
        (x % 256) as u8,
        (x / 256 % 256) as u8,
        (x / 65_536 % 256) as u8,
        (x / 16_777_216) as u8,
    ]
}

/// The word whose least significant byte is at `at`.
pub open spec fn word_at(bytes: Seq<u8>, at: int) -> u32 {
    (bytes[at] + 256 * bytes[at + 1] + 65_536 * bytes[at + 2] + 16_777_216 * bytes[at + 3]) as u32
}

/// Reading a word gives back what writing it wrote.
pub proof fn word_round_trips(x: u32, bytes: Seq<u8>, at: int)
    requires
        0 <= at,
        at + 4 <= bytes.len(),
        bytes.subrange(at, at + 4) == le32(x),
    ensures
        word_at(bytes, at) == x,
{
    let s = bytes.subrange(at, at + 4);
    assert(s[0] == bytes[at] && s[1] == bytes[at + 1] && s[2] == bytes[at + 2] && s[3] == bytes[at
        + 3]);
}

/// Writing the word that four bytes spell gives back the bytes.
pub proof fn bytes_round_trip(bytes: Seq<u8>, at: int)
    requires
        0 <= at,
        at + 4 <= bytes.len(),
    ensures
        bytes.subrange(at, at + 4) == le32(word_at(bytes, at)),
{
    let b0 = bytes[at] as int;
    let b1 = bytes[at + 1] as int;
    let b2 = bytes[at + 2] as int;
    let b3 = bytes[at + 3] as int;
    let w = word_at(bytes, at) as int;
    assert(w == b0 + 256 * b1 + 65_536 * b2 + 16_777_216 * b3);
    assert(w % 256 == b0);
    assert(w / 256 == b1 + 256 * b2 + 65_536 * b3);
    assert(w / 256 % 256 == b1);
    assert(w / 65_536 == b2 + 256 * b3);
    assert(w / 65_536 % 256 == b2);
    assert(w / 16_777_216 == b3);
    assert(bytes.subrange(at, at + 4) =~= le32(word_at(bytes, at)));
}

/// Append the four bytes of `x`.
pub fn push_word(out: &mut Vec<u8>, x: u32)
    ensures
        final(out)@ == old(out)@ + le32(x),
{
    out.push((x % 256) as u8);
    out.push((x / 256 % 256) as u8);
    out.push((x / 65_536 % 256) as u8);
    out.push((x / 16_777_216) as u8);
    assert(out@ =~= old(out)@ + le32(x));
}

/// The word at `at`.
pub fn read_word(bytes: &[u8], at: usize) -> (r: u32)
    requires
        at + 4 <= bytes@.len(),
    ensures
        r == word_at(bytes@, at as int),
{
    bytes[at] as u32 + 256 * (bytes[at + 1] as u32) + 65_536 * (bytes[at + 2] as u32) + 16_777_216
        * (bytes[at + 3] as u32)
}

} // verus!
