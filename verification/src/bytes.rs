//! Little-endian encoding and byte sums.

use vstd::prelude::*;

verus! {

/// The two bytes of a 16-bit number, the low byte first.
pub open spec fn little_u16(x: u16) -> Seq<u8> {
    seq![(x % 256) as u8, (x / 256) as u8]
}

/// The four bytes of a 32-bit number, the low byte first.
pub open spec fn little_u32(x: u32) -> Seq<u8> {
    seq![
        (x % 256) as u8,
        (x / 256 % 256) as u8,
        (x / 65536 % 256) as u8,
        (x / 16777216) as u8,
    ]
}

/// The number that two bytes encode.
pub open spec fn read_u16(bytes: Seq<u8>) -> int {
    bytes[0] + 256 * bytes[1]
}

/// The number that four bytes encode.
pub open spec fn read_u32(bytes: Seq<u8>) -> int {
    bytes[0] + 256 * bytes[1] + 65536 * bytes[2] + 16777216 * bytes[3]
}

/// The sum of some bytes.
pub open spec fn byte_sum(bytes: Seq<u8>) -> nat
    decreases bytes.len(),
{
    if bytes.len() == 0 {
        0
    } else {
        byte_sum(bytes.drop_last()) + bytes.last() as nat
    }
}

/// Reading an encoded number gives the number back.
pub proof fn law_read_gives_back(x: u16, y: u32)
    ensures
        read_u16(little_u16(x)) == x,
        read_u32(little_u32(y)) == y,
{
}

/// The sum of a concatenation is the sum of the parts' sums.
pub proof fn law_byte_sum_adds(a: Seq<u8>, b: Seq<u8>)
    ensures
        byte_sum(a + b) == byte_sum(a) + byte_sum(b),
    decreases b.len(),
{
    if b.len() == 0 {
        assert(a + b =~= a);
    } else {
        assert((a + b).drop_last() =~= a + b.drop_last());
        law_byte_sum_adds(a, b.drop_last());
    }
}

/// The low byte of an encoded number comes first: each byte weighs 256 times as
/// much as the one before it.
pub proof fn law_low_byte_first(x: u16, y: u32)
    ensures
        little_u16(x).len() == 2,
        little_u16(x)[0] + 256 * little_u16(x)[1] == x,
        little_u32(y).len() == 4,
        little_u32(y)[0] + 256 * little_u32(y)[1] + 65536 * little_u32(y)[2] + 16777216
            * little_u32(y)[3] == y,
{
}

/// The sum of no bytes is zero, and the sum of one byte is the byte.
pub proof fn law_byte_sum_of_one(byte: u8)
    ensures
        byte_sum(seq![]) == 0,
        byte_sum(seq![byte]) == byte,
{
    reveal_with_fuel(byte_sum, 2);
}

/// Appends bytes.
pub(crate) fn append(buffer: &mut Vec<u8>, bytes: &[u8])
    ensures
        final(buffer)@ == old(buffer)@ + bytes@,
{
    buffer.extend_from_slice(bytes);
    assert(buffer@ =~= old(buffer)@ + bytes@);
}

/// Appends a 16-bit number, the low byte first.
pub(crate) fn append_u16(buffer: &mut Vec<u8>, x: u16)
    ensures
        final(buffer)@ == old(buffer)@ + little_u16(x),
{
    buffer.push((x % 256) as u8);
    buffer.push((x / 256) as u8);
    assert(buffer@ =~= old(buffer)@ + little_u16(x));
}

/// Appends a 32-bit number, the low byte first.
pub(crate) fn append_u32(buffer: &mut Vec<u8>, x: u32)
    ensures
        final(buffer)@ == old(buffer)@ + little_u32(x),
{
    buffer.push((x % 256) as u8);
    buffer.push((x / 256 % 256) as u8);
    buffer.push((x / 65536 % 256) as u8);
    buffer.push((x / 16777216) as u8);
    assert(buffer@ =~= old(buffer)@ + little_u32(x));
}

/// The sum of some bytes, modulo the size of a 32-bit number.
pub fn checksum(bytes: &[u8]) -> (result: u32)
    ensures
        result == byte_sum(bytes@) % 0x1_0000_0000,
{
    let mut sum: u32 = 0;
    let mut i: usize = 0;
    while i < bytes.len()
        invariant
            i <= bytes.len(),
            sum == byte_sum(bytes@.take(i as int)) % 0x1_0000_0000,
        decreases bytes.len() - i,
    {
        assert(bytes@.take(i + 1).drop_last() =~= bytes@.take(i as int));
        sum = sum.wrapping_add(bytes[i] as u32);
        i = i + 1;
    }
    assert(bytes@.take(bytes.len() as int) =~= bytes@);
    sum
}

} // verus!
