//! Integers in network byte order.
use vstd::prelude::*;

verus! {

/// The two bytes of `value`, the most significant one first.
pub open spec fn be16(value: u16) -> Seq<u8> {
    seq![(value / 0x100) as u8, (value % 0x100) as u8]
}

/// The four bytes of `value`, the most significant one first.
pub open spec fn be32(value: u32) -> Seq<u8> {
    seq![
        (value / 0x100_0000) as u8,
        (value / 0x1_0000 % 0x100) as u8,
        (value / 0x100 % 0x100) as u8,
        (value % 0x100) as u8,
    ]
}

/// The integer that the two bytes of `s` at `i` stand for.
pub open spec fn be16_at(s: Seq<u8>, i: int) -> int {
    s[i] * 0x100 + s[i + 1]
}

/// The integer that the four bytes of `s` at `i` stand for.
pub open spec fn be32_at(s: Seq<u8>, i: int) -> int {
    s[i] * 0x100_0000 + s[i + 1] * 0x1_0000 + s[i + 2] * 0x100 + s[i + 3]
}

/// Two bytes written in network byte order are read back as the integer they were written for.
pub proof fn lemma_be16_reads_back(value: u16)
    ensures
        be16(value).len() == 2,
        be16_at(be16(value), 0) == value,
{
}

/// Four bytes written in network byte order are read back as the integer they were written for.
pub proof fn lemma_be32_reads_back(value: u32)
    ensures
        be32(value).len() == 4,
        be32_at(be32(value), 0) == value,
{
}

/// Appends `value` in network byte order.
pub fn push_be16(out: &mut Vec<u8>, value: u16)
    ensures
        final(out)@ == old(out)@ + be16(value),
{
    out.push((value / 0x100) as u8);
    out.push((value % 0x100) as u8);
    assert(out@ =~= old(out)@ + be16(value));
}

/// Appends `value` in network byte order.
pub fn push_be32(out: &mut Vec<u8>, value: u32)
    ensures
        final(out)@ == old(out)@ + be32(value),
{
    out.push((value / 0x100_0000) as u8);
    out.push((value / 0x1_0000 % 0x100) as u8);
    out.push((value / 0x100 % 0x100) as u8);
    out.push((value % 0x100) as u8);
    assert(out@ =~= old(out)@ + be32(value));
}

/// Reads the four bytes at `i` in network byte order.
pub fn read_be32(bytes: &[u8], i: usize) -> (value: u32)
    requires
        i + 4 <= bytes@.len(),
    ensures
        value == be32_at(bytes@, i as int),
{
    bytes[i] as u32 * 0x100_0000 + bytes[i + 1] as u32 * 0x1_0000 + bytes[i + 2] as u32 * 0x100
        + bytes[i + 3] as u32
}

/// Appends the bytes of `from` that stand at `start` up to `end`.
pub fn push_range(out: &mut Vec<u8>, from: &[u8], start: usize, end: usize)
    requires
        start <= end <= from@.len(),
    ensures
        final(out)@ == old(out)@ + from@.subrange(start as int, end as int),
{
    let mut i: usize = start;
    while i < end
        invariant
            start <= i <= end <= from@.len(),
            out@ == old(out)@ + from@.subrange(start as int, i as int),
        decreases end - i,
    {
        out.push(from[i]);
        i += 1;
        assert(out@ =~= old(out)@ + from@.subrange(start as int, i as int));
    }
}

/// The most significant byte comes first: weighed by their places, the bytes add up to the
/// integer.
pub proof fn law_the_most_significant_byte_is_first(value: u32, half: u16)
    ensures
        be32(value).len() == 4,
        be32(value)[0] * 0x100_0000 + be32(value)[1] * 0x1_0000 + be32(value)[2] * 0x100 + be32(
            value,
        )[3] == value,
        be16(half).len() == 2,
        be16(half)[0] * 0x100 + be16(half)[1] == half,
{
}

/// Reading undoes writing the other way round too: the integer that is read from bytes, wherever
/// they stand, is written as these bytes.
pub proof fn law_bytes_are_written_as_read(s: Seq<u8>, i: int)
    requires
        0 <= i,
        i + 2 <= s.len(),
    ensures
        0 <= be16_at(s, i) <= u16::MAX,
        be16(be16_at(s, i) as u16) == s.subrange(i, i + 2),
        i + 4 <= s.len() ==> 0 <= be32_at(s, i) <= u32::MAX && be32(be32_at(s, i) as u32)
            == s.subrange(i, i + 4),
{
    assert(be16(be16_at(s, i) as u16) =~= s.subrange(i, i + 2));
    if i + 4 <= s.len() {
        lemma_four_bytes_are_written_as_read(s, i);
    }
}

/// As [`law_bytes_are_written_as_read`], for four bytes.
proof fn lemma_four_bytes_are_written_as_read(s: Seq<u8>, i: int)
    requires
        0 <= i,
        i + 4 <= s.len(),
    ensures
        0 <= be32_at(s, i) <= u32::MAX,
        be32(be32_at(s, i) as u32) == s.subrange(i, i + 4),
{
    let a: u8 = s[i];
    let b: u8 = s[i + 1];
    let c: u8 = s[i + 2];
    let d: u8 = s[i + 3];
    let v: u32 = be32_at(s, i) as u32;
    assert(v / 0x100_0000 == a && v / 0x1_0000 % 0x100 == b && v / 0x100 % 0x100 == c && v % 0x100
        == d) by (bit_vector)
        requires
            v == a * 0x100_0000 + b * 0x1_0000 + c * 0x100 + d,
    ;
    assert(be32(v) =~= s.subrange(i, i + 4));
}

} // verus!
