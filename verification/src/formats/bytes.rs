//! Numbers in byte strings.
use vstd::prelude::*;

verus! {

/// The 16-bit little-endian number at `at`.
pub open spec fn le16(data: Seq<u8>, at: int) -> int {
    data[at] + 256 * data[at + 1]
}

/// The 16-bit big-endian number at `at`.
pub open spec fn be16(data: Seq<u8>, at: int) -> int {
    256 * data[at] + data[at + 1]
}

/// The 32-bit little-endian number at `at`.
pub open spec fn le32(data: Seq<u8>, at: int) -> int {
    data[at] + 256 * data[at + 1] + 0x1_0000 * data[at + 2] + 0x100_0000 * data[at + 3]
}

/// A byte taken as a signed number.
pub open spec fn signed8(b: u8) -> int {
    if b < 128 {
        b as int
    } else {
        b - 256
    }
}

pub fn read_le16(data: &[u8], at: usize) -> (r: u16)
    requires
        at + 1 < data@.len(),
    ensures
        r == le16(data@, at as int),
{
    data[at] as u16 + 256 * data[at + 1] as u16
}

pub fn read_be16(data: &[u8], at: usize) -> (r: u16)
    requires
        at + 1 < data@.len(),
    ensures
        r == be16(data@, at as int),
{
    256 * data[at] as u16 + data[at + 1] as u16
}

pub fn read_le32(data: &[u8], at: usize) -> (r: u32)
    requires
        at + 3 < data@.len(),
    ensures
        r == le32(data@, at as int),
{
    data[at] as u32 + 256 * data[at + 1] as u32 + 0x1_0000 * data[at + 2] as u32 + 0x100_0000
        * data[at + 3] as u32
}

pub fn read_signed8(b: u8) -> (r: i32)
    ensures
        r == signed8(b),
{
    if b < 128 {
        b as i32
    } else {
        b as i32 - 256
    }
}

/// Where the first 0 byte stands, or the length without one.
pub open spec fn zero_at(bytes: Seq<u8>) -> int
    decreases bytes.len(),
{
    if bytes.len() == 0 || bytes[0] == 0 {
        0
    } else {
        1 + zero_at(bytes.drop_first())
    }
}

/// The bytes before the first 0.
pub open spec fn until_zero(bytes: Seq<u8>) -> Seq<u8> {
    bytes.take(zero_at(bytes))
}

proof fn lemma_zero_at(bytes: Seq<u8>)
    ensures
        0 <= zero_at(bytes) <= bytes.len(),
    decreases bytes.len(),
{
    if bytes.len() > 0 && bytes[0] != 0 {
        lemma_zero_at(bytes.drop_first());
    }
}

/// The bytes before the first 0.
pub fn before_zero(bytes: &[u8]) -> (r: &[u8])
    ensures
        r@ == until_zero(bytes@),
{
    let mut n: usize = 0;
    assert(bytes@.skip(0) =~= bytes@);
    while n < bytes.len() && bytes[n] != 0
        invariant
            n <= bytes@.len(),
            zero_at(bytes@) == n + zero_at(bytes@.skip(n as int)),
        decreases bytes@.len() - n,
    {
        assert(bytes@.skip(n as int).drop_first() =~= bytes@.skip(n + 1));
        n += 1;
    }
    let r: &[u8] = vstd::slice::slice_subrange(bytes, 0, n);
    assert(r@ =~= bytes@.take(n as int));
    r
}

} // verus!
