//! Big-endian integers, as the wire protocol and the trackers write them.

use vstd::prelude::*;

verus! {

/// The number that two bytes spell, most significant byte first.
pub open spec fn be_u16(bytes: Seq<u8>) -> int {
    bytes[0] * 256 + bytes[1]
}

/// The number that four bytes spell, most significant byte first.
pub open spec fn be_u32(bytes: Seq<u8>) -> int {
    bytes[0] * 16777216 + bytes[1] * 65536 + bytes[2] * 256 + bytes[3]
}

/// The four bytes that spell the low 32 bits of `value`, most significant
/// byte first.
pub open spec fn u32_be_bytes(value: int) -> Seq<u8> {
    seq![
        ((value / 16777216) % 256) as u8,
        ((value / 65536) % 256) as u8,
        ((value / 256) % 256) as u8,
        (value % 256) as u8,
    ]
}

/// Reading back what was written gives the number again.
pub proof fn law_be_u32_read_back(value: int)
    requires
        0 <= value < 4294967296,
    ensures
        u32_be_bytes(value).len() == 4,
        be_u32(u32_be_bytes(value)) == value,
{
}

/// Writing what was read gives the bytes again.
pub proof fn law_be_u32_written_back(bytes: Seq<u8>)
    requires
        bytes.len() == 4,
    ensures
        0 <= be_u32(bytes) < 4294967296,
        u32_be_bytes(be_u32(bytes)) == bytes,
{
    let b0 = bytes[0] as int;
    let b1 = bytes[1] as int;
    let b2 = bytes[2] as int;
    let b3 = bytes[3] as int;
    let value = be_u32(bytes);
    assert(value == b0 * 16777216 + b1 * 65536 + b2 * 256 + b3);
    assert(value % 256 == b3);
    assert(value / 256 == b0 * 65536 + b1 * 256 + b2);
    assert((value / 256) % 256 == b2);
    assert(value / 65536 == b0 * 256 + b1);
    assert((value / 65536) % 256 == b1);
    assert(value / 16777216 == b0);
    let written = u32_be_bytes(value);
    assert(written[0] == bytes[0]);
    assert(written[1] == bytes[1]);
    assert(written[2] == bytes[2]);
    assert(written[3] == bytes[3]);
    assert(written =~= bytes);
}

/// Reads the big-endian `u16` at `bytes[at..at + 2]`.
pub fn read_be_u16(bytes: &[u8], at: usize) -> (value: u16)
    requires
        at + 2 <= bytes@.len(),
    ensures
        value == be_u16(bytes@.subrange(at as int, at + 2)),
{
    let hi: u16 = bytes[at] as u16;
    let lo: u16 = bytes[at + 1] as u16;
    hi * 256 + lo
}

/// Reads the big-endian `u32` at `bytes[at..at + 4]`.
pub fn read_be_u32(bytes: &[u8], at: usize) -> (value: u32)
    requires
        at + 4 <= bytes@.len(),
    ensures
        value == be_u32(bytes@.subrange(at as int, at + 4)),
{
    let b0: u32 = bytes[at] as u32;
    let b1: u32 = bytes[at + 1] as u32;
    let b2: u32 = bytes[at + 2] as u32;
    let b3: u32 = bytes[at + 3] as u32;
    b0 * 16777216 + b1 * 65536 + b2 * 256 + b3
}

} // verus!
