//! The removal of HDMV registration descriptors from a program map table (PMT).
//!
//! The muxer marks its program as HDMV. A demuxer that believes the mark expects an
//! AVCDecoderConfigurationRecord, which this stream does not have, so the mark is taken out of
//! every PMT on the way to the output. How a PMT is carried is the concern of
//! [`transport`](crate::transport).
use vstd::prelude::*;
use vstd::slice::slice_subrange;
use crate::bytes::{
    be32, be32_at, law_bytes_are_written_as_read, lemma_be32_reads_back, push_be32, push_range,
    read_be32,
};

verus! {

/// The 12-bit length in the two bytes at `i`, of which the upper four bits mean something else.
pub open spec fn length12(s: Seq<u8>, i: int) -> int {
    s[i] % 16 * 0x100 + s[i + 1]
}

/// Two bytes that hold a 12-bit length below the upper four bits of `upper`.
pub open spec fn with_length12(upper: u8, length: int) -> Seq<u8> {
    seq![(upper / 16 * 16 + length / 0x100) as u8, (length % 0x100) as u8]
}

/// One step of the checksum of MPEG-2 sections.
pub open spec fn crc_bit(crc: u32) -> u32 {
    if crc >= 0x8000_0000 {
        (crc << 1) ^ 0x04C1_1DB7
    } else {
        crc << 1
    }
}

/// `n` steps of the checksum.
pub open spec fn crc_bits(crc: u32, n: nat) -> u32
    decreases n,
{
    if n == 0 {
        crc
    } else {
        crc_bit(crc_bits(crc, (n - 1) as nat))
    }
}

/// The checksum of MPEG-2 sections: CRC-32 with polynomial 04C11DB7, most significant bit first.
pub open spec fn crc32(s: Seq<u8>) -> u32
    decreases s.len(),
{
    if s.len() == 0 {
        0xFFFF_FFFF
    } else {
        crc_bits(crc32(s.drop_last()) ^ ((s.last() as u32) << 24), 8)
    }
}

/// Whether `d` begins with a whole descriptor: a tag, a length, and as many bytes.
pub open spec fn has_descriptor(d: Seq<u8>) -> bool {
    d.len() >= 2 && 2 + d[1] <= d.len()
}

/// Whether the descriptor that `d` begins with is a registration (tag 5) of the format "HDMV".
pub open spec fn is_hdmv(d: Seq<u8>) -> bool {
    d[0] == 5 && d[1] >= 4 && d[2] == 0x48 && d[3] == 0x44 && d[4] == 0x4D && d[5] == 0x56
}

/// Whether there is an HDMV registration among descriptors.
pub open spec fn has_hdmv(d: Seq<u8>) -> bool
    decreases d.len(),
{
    has_descriptor(d) && (is_hdmv(d) || has_hdmv(d.skip(2 + d[1])))
}

/// Descriptors without the HDMV registrations among them. What follows the last whole descriptor
/// is kept.
pub open spec fn without_hdmv(d: Seq<u8>) -> Seq<u8>
    decreases d.len(),
{
    if !has_descriptor(d) {
        d
    } else if is_hdmv(d) {
        without_hdmv(d.skip(2 + d[1]))
    } else {
        d.take(2 + d[1]) + without_hdmv(d.skip(2 + d[1]))
    }
}

/// Whether `e` begins with a whole entry of the stream list: a type, a PID, a length, and as many
/// bytes of descriptors.
pub open spec fn has_stream(e: Seq<u8>) -> bool {
    e.len() >= 5 && 5 + length12(e, 3) <= e.len()
}

/// The descriptors of the entry that `e` begins with.
pub open spec fn stream_descriptors(e: Seq<u8>) -> Seq<u8> {
    e.subrange(5, 5 + length12(e, 3))
}

/// Whether there is an HDMV registration among the descriptors of any stream.
pub open spec fn any_stream_has_hdmv(e: Seq<u8>) -> bool
    decreases e.len(),
{
    has_stream(e) && (has_hdmv(stream_descriptors(e)) || any_stream_has_hdmv(
        e.skip(5 + length12(e, 3)),
    ))
}

/// The stream list with the HDMV registrations taken out of each entry. What follows the last
/// whole entry is kept.
pub open spec fn streams_without_hdmv(e: Seq<u8>) -> Seq<u8>
    decreases e.len(),
{
    if !has_stream(e) {
        e
    } else {
        let kept = without_hdmv(stream_descriptors(e));
        e.take(3) + with_length12(e[3], kept.len() as int) + kept + streams_without_hdmv(
            e.skip(5 + length12(e, 3)),
        )
    }
}

/// Whether the bytes are a PMT section: table 2 in the long form, as long as it says, with its
/// program descriptors inside and a checksum that matches.
pub open spec fn is_pmt(s: Seq<u8>) -> bool {
    &&& s.len() >= 16
    &&& s[0] == 2
    &&& s[1] >= 0x80
    &&& s.len() == 3 + length12(s, 1)
    &&& 16 + length12(s, 10) <= s.len()
    &&& be32_at(s, s.len() - 4) == crc32(s.take(s.len() - 4))
}

/// The program descriptors of a PMT section.
pub open spec fn program_descriptors(s: Seq<u8>) -> Seq<u8> {
    s.subrange(12, 12 + length12(s, 10))
}

/// The stream list of a PMT section.
pub open spec fn stream_list(s: Seq<u8>) -> Seq<u8> {
    s.subrange(12 + length12(s, 10), s.len() - 4)
}

/// Whether there is an HDMV registration in a PMT section.
pub open spec fn pmt_has_hdmv(s: Seq<u8>) -> bool {
    has_hdmv(program_descriptors(s)) || any_stream_has_hdmv(stream_list(s))
}

/// A PMT section without its checksum, with other program descriptors and another stream list.
#[verifier::opaque]
pub open spec fn pmt_body(s: Seq<u8>, descriptors: Seq<u8>, streams: Seq<u8>) -> Seq<u8> {
    s.take(1) + with_length12(s[1], (13 + descriptors.len() + streams.len()) as int) + s.subrange(3, 10)
        + with_length12(s[10], descriptors.len() as int) + descriptors + streams
}

/// A PMT section with the HDMV registrations taken out, and its lengths and checksum set right.
pub open spec fn cleaned(s: Seq<u8>) -> Seq<u8> {
    let body = pmt_body(
        s,
        without_hdmv(program_descriptors(s)),
        streams_without_hdmv(stream_list(s)),
    );
    body + be32(crc32(body))
}

/// What is taken out makes descriptors no longer; nothing is left of what was to go; where there
/// was nothing to go, nothing changed.
proof fn lemma_without_hdmv(d: Seq<u8>)
    ensures
        without_hdmv(d).len() <= d.len(),
        !has_hdmv(without_hdmv(d)),
        !has_hdmv(d) ==> without_hdmv(d) == d,
    decreases d.len(),
{
    if has_descriptor(d) {
        let n = 2 + d[1];
        lemma_without_hdmv(d.skip(n));
        if !is_hdmv(d) {
            let kept = without_hdmv(d);
            assert(kept.skip(n) =~= without_hdmv(d.skip(n)));
            assert(d.take(n) + d.skip(n) =~= d);
        }
    }
}

/// A 12-bit length is read back as it was written, below the same upper bits.
proof fn lemma_length12(upper: u8, length: int)
    requires
        0 <= length < 0x1000,
    ensures
        length12(with_length12(upper, length), 0) == length,
        with_length12(upper, length)[0] / 16 == upper / 16,
{
}

/// Writing the length that is there changes nothing.
proof fn lemma_same_length12(s: Seq<u8>, i: int)
    requires
        0 <= i,
        i + 2 <= s.len(),
    ensures
        with_length12(s[i], length12(s, i)) == s.subrange(i, i + 2),
{
    assert(with_length12(s[i], length12(s, i)) =~= s.subrange(i, i + 2));
}

/// As [`lemma_without_hdmv`], for the stream list.
proof fn lemma_streams_without_hdmv(e: Seq<u8>)
    ensures
        streams_without_hdmv(e).len() <= e.len(),
        !any_stream_has_hdmv(streams_without_hdmv(e)),
        !any_stream_has_hdmv(e) ==> streams_without_hdmv(e) == e,
    decreases e.len(),
{
    if has_stream(e) {
        let n = 5 + length12(e, 3);
        let d = stream_descriptors(e);
        let kept = without_hdmv(d);
        lemma_without_hdmv(d);
        lemma_streams_without_hdmv(e.skip(n));
        lemma_length12(e[3], kept.len() as int);
        lemma_same_length12(e, 3);
        let new = streams_without_hdmv(e);
        assert(length12(new, 3) == kept.len());
        assert(stream_descriptors(new) =~= kept);
        assert(new.skip((5 + kept.len()) as int) =~= streams_without_hdmv(e.skip(n)));
        if !any_stream_has_hdmv(e) {
            assert(new =~= e);
        }
    }
}

/// The parts of a PMT section that was put together stand where they are looked for.
proof fn lemma_pmt_parts(s: Seq<u8>, descriptors: Seq<u8>, streams: Seq<u8>, crc: u32)
    requires
        s.len() >= 16,
        descriptors.len() + streams.len() + 13 < 0x1000,
    ensures
        ({
            let body = pmt_body(s, descriptors, streams);
            let new = body + be32(crc);
            &&& body.len() == 12 + descriptors.len() + streams.len()
            &&& new.len() == 16 + descriptors.len() + streams.len()
            &&& new.take(new.len() - 4) == body
            &&& new[0] == s[0]
            &&& new[1] / 16 == s[1] / 16
            &&& length12(new, 1) == 13 + descriptors.len() + streams.len()
            &&& new.subrange(3, 10) == s.subrange(3, 10)
            &&& new[10] / 16 == s[10] / 16
            &&& length12(new, 10) == descriptors.len()
            &&& program_descriptors(new) == descriptors
            &&& stream_list(new) == streams
            &&& be32_at(new, new.len() - 4) == crc
        }),
{
    reveal(pmt_body);
    let body = pmt_body(s, descriptors, streams);
    let new = body + be32(crc);
    let outer = with_length12(s[1], (13 + descriptors.len() + streams.len()) as int);
    let inner = with_length12(s[10], descriptors.len() as int);
    lemma_length12(s[1], (13 + descriptors.len() + streams.len()) as int);
    lemma_length12(s[10], descriptors.len() as int);
    lemma_be32_reads_back(crc);
    assert(new[1] == outer[0] && new[2] == outer[1]);
    assert(new[10] == inner[0] && new[11] == inner[1]);
    assert(new.take(new.len() - 4) =~= body);
    assert(new.subrange(3, 10) =~= s.subrange(3, 10));
    assert(program_descriptors(new) =~= descriptors);
    assert(stream_list(new) =~= streams);
    let n = body.len() as int;
    assert(new[n] == be32(crc)[0] && new[n + 1] == be32(crc)[1] && new[n + 2] == be32(crc)[2]
        && new[n + 3] == be32(crc)[3]);
}

/// A PMT section is put together from its own parts.
proof fn lemma_pmt_is_its_parts(s: Seq<u8>)
    requires
        is_pmt(s),
    ensures
        pmt_body(s, program_descriptors(s), stream_list(s)) == s.take(s.len() - 4),
        be32(crc32(s.take(s.len() - 4))) == s.subrange(s.len() - 4, s.len() as int),
{
    reveal(pmt_body);
    lemma_same_length12(s, 1);
    lemma_same_length12(s, 10);
    law_bytes_are_written_as_read(s, s.len() - 4);
    let outer = s.subrange(1, 3);
    let inner = s.subrange(10, 12);
    assert(s.take(1) + outer + s.subrange(3, 10) + inner + program_descriptors(s) + stream_list(s)
        =~= s.take(s.len() - 4));
}

/// A cleaned PMT section is a PMT section, no longer than before and without HDMV registrations.
/// Its program number, version and clock PID are the same, and its descriptors and streams are
/// those that were there, in order, but for the HDMV registrations.
pub proof fn law_cleaned_pmt_keeps_the_rest(s: Seq<u8>)
    requires
        is_pmt(s),
    ensures
        cleaned(s).len() <= s.len(),
        is_pmt(cleaned(s)),
        !pmt_has_hdmv(cleaned(s)),
        program_descriptors(cleaned(s)) == without_hdmv(program_descriptors(s)),
        stream_list(cleaned(s)) == streams_without_hdmv(stream_list(s)),
        cleaned(s).subrange(3, 10) == s.subrange(3, 10),
{
    let d = program_descriptors(s);
    let e = stream_list(s);
    let info = without_hdmv(d);
    let streams = streams_without_hdmv(e);
    assert(info.len() <= d.len() && !has_hdmv(info)) by {
        lemma_without_hdmv(d);
    }
    assert(streams.len() <= e.len() && !any_stream_has_hdmv(streams)) by {
        lemma_streams_without_hdmv(e);
    }
    lemma_pmt_parts(s, info, streams, crc32(pmt_body(s, info, streams)));
}

/// A PMT section without HDMV registrations is clean already.
pub proof fn law_clean_pmt_is_kept(s: Seq<u8>)
    requires
        is_pmt(s),
        !pmt_has_hdmv(s),
    ensures
        cleaned(s) == s,
{
    let d = program_descriptors(s);
    let e = stream_list(s);
    assert(without_hdmv(d) == d) by {
        lemma_without_hdmv(d);
    }
    assert(streams_without_hdmv(e) == e) by {
        lemma_streams_without_hdmv(e);
    }
    lemma_pmt_is_its_parts(s);
    let end = s.len() - 4;
    assert(s.take(end) + s.subrange(end, s.len() as int) =~= s);
}

/// The checksum of an MPEG-2 section.
pub fn section_crc(bytes: &[u8]) -> (crc: u32)
    ensures
        crc == crc32(bytes@),
{
    let mut crc: u32 = 0xFFFF_FFFF;
    let mut i: usize = 0;
    assert(bytes@.take(0) =~= Seq::empty());
    while i < bytes.len()
        invariant
            i <= bytes@.len(),
            crc == crc32(bytes@.take(i as int)),
        decreases bytes@.len() - i,
    {
        let ghost before = crc ^ ((bytes@[i as int] as u32) << 24);
        crc = crc ^ ((bytes[i] as u32) << 24);
        let mut n: usize = 0;
        while n < 8
            invariant
                n <= 8,
                crc == crc_bits(before, n as nat),
            decreases 8 - n,
        {
            crc = if crc >= 0x8000_0000 {
                (crc << 1) ^ 0x04C1_1DB7
            } else {
                crc << 1
            };
            n += 1;
        }
        assert(bytes@.take(i + 1).drop_last() =~= bytes@.take(i as int));
        i += 1;
    }
    assert(bytes@.take(i as int) =~= bytes@);
    crc
}

/// The 12-bit length at `i`.
pub(crate) fn read_length12(bytes: &[u8], i: usize) -> (length: usize)
    requires
        i + 2 <= bytes@.len(),
    ensures
        length == length12(bytes@, i as int),
        length < 0x1000,
{
    (bytes[i] % 16) as usize * 0x100 + bytes[i + 1] as usize
}

/// Appends a 12-bit length below the upper four bits of `upper`.
fn push_length12(out: &mut Vec<u8>, upper: u8, length: usize)
    requires
        length < 0x1000,
    ensures
        final(out)@ == old(out)@ + with_length12(upper, length as int),
{
    out.push(upper / 16 * 16 + (length / 0x100) as u8);
    out.push((length % 0x100) as u8);
    assert(out@ =~= old(out)@ + with_length12(upper, length as int));
}

/// What is left of the descriptors from `i` on, by the one that begins there.
proof fn lemma_descriptor_at(d: Seq<u8>, i: int)
    requires
        0 <= i,
        i + 2 <= d.len(),
        i + 2 + d[i + 1] <= d.len(),
    ensures
        ({
            let n = 2 + d[i + 1];
            without_hdmv(d.skip(i)) == if n >= 6 && d[i] == 5 && d[i + 2] == 0x48 && d[i + 3]
                == 0x44 && d[i + 4] == 0x4D && d[i + 5] == 0x56 {
                without_hdmv(d.skip(i + n))
            } else {
                d.subrange(i, i + n) + without_hdmv(d.skip(i + n))
            }
        }),
{
    let n = 2 + d[i + 1];
    let rest = d.skip(i);
    assert(rest.skip(n) =~= d.skip(i + n));
    assert(rest.take(n) =~= d.subrange(i, i + n));
}

/// Descriptors without the HDMV registrations among them.
pub fn strip_descriptors(d: &[u8]) -> (kept: Vec<u8>)
    ensures
        kept@ == without_hdmv(d@),
{
    let mut kept: Vec<u8> = Vec::new();
    let mut i: usize = 0;
    assert(d@.skip(0) =~= d@);
    assert(kept@ + without_hdmv(d@) =~= without_hdmv(d@));
    while d.len() - i >= 2 && 2 + d[i + 1] as usize <= d.len() - i
        invariant
            i <= d.len(),
            kept@ + without_hdmv(d@.skip(i as int)) == without_hdmv(d@),
        decreases d@.len() - i,
    {
        let n: usize = 2 + d[i + 1] as usize;
        proof {
            lemma_descriptor_at(d@, i as int);
        }
        let hdmv = n >= 6 && d[i] == 5 && d[i + 2] == 0x48 && d[i + 3] == 0x44 && d[i + 4] == 0x4D
            && d[i + 5] == 0x56;
        if !hdmv {
            let ghost before = kept@;
            push_range(&mut kept, d, i, i + n);
            proof {
                vstd::seq_lib::lemma_concat_associative(
                    before,
                    d@.subrange(i as int, i + n),
                    without_hdmv(d@.skip(i + n)),
                );
            }
        }
        i += n;
    }
    push_range(&mut kept, d, i, d.len());
    assert(d@.subrange(i as int, d@.len() as int) =~= d@.skip(i as int));
    kept
}

/// The cleaned stream list from `i` on, by the entry that begins there.
proof fn lemma_stream_at(e: Seq<u8>, i: int)
    requires
        0 <= i,
        i + 5 <= e.len(),
        i + 5 + length12(e, i + 3) <= e.len(),
    ensures
        ({
            let n = 5 + length12(e, i + 3);
            let kept = without_hdmv(e.subrange(i + 5, i + n));
            &&& kept.len() <= length12(e, i + 3)
            &&& streams_without_hdmv(e.skip(i)) == e.subrange(i, i + 3) + with_length12(
                e[i + 3],
                kept.len() as int,
            ) + kept + streams_without_hdmv(e.skip(i + n))
        }),
{
    let n = 5 + length12(e, i + 3);
    let rest = e.skip(i);
    assert(rest[3] == e[i + 3] && rest[4] == e[i + 4]);
    assert(rest.skip(n) =~= e.skip(i + n));
    assert(rest.take(3) =~= e.subrange(i, i + 3));
    assert(stream_descriptors(rest) =~= e.subrange(i + 5, i + n));
    lemma_without_hdmv(e.subrange(i + 5, i + n));
}

/// Putting one after the other is associative.
proof fn lemma_join_four(a: Seq<u8>, b: Seq<u8>, c: Seq<u8>, d: Seq<u8>, e: Seq<u8>)
    ensures
        a + b + c + d + e == a + (b + c + d + e),
{
    assert(a + b + c + d + e =~= a + (b + c + d + e));
}

/// The stream list with the HDMV registrations taken out of each entry.
pub fn strip_streams(e: &[u8]) -> (kept: Vec<u8>)
    ensures
        kept@ == streams_without_hdmv(e@),
{
    let mut kept: Vec<u8> = Vec::new();
    let mut i: usize = 0;
    assert(e@.skip(0) =~= e@);
    assert(kept@ + streams_without_hdmv(e@) =~= streams_without_hdmv(e@));
    while e.len() - i >= 5 && 5 + read_length12(e, i + 3) <= e.len() - i
        invariant
            i <= e.len(),
            kept@ + streams_without_hdmv(e@.skip(i as int)) == streams_without_hdmv(e@),
        decreases e@.len() - i,
    {
        let n: usize = 5 + read_length12(e, i + 3);
        proof {
            lemma_stream_at(e@, i as int);
        }
        let ghost before = kept@;
        let mut descriptors = strip_descriptors(slice_subrange(e, i + 5, i + n));
        let ghost found = descriptors@;
        push_range(&mut kept, e, i, i + 3);
        push_length12(&mut kept, e[i + 3], descriptors.len());
        kept.append(&mut descriptors);
        proof {
            let start = e@.subrange(i as int, i + 3);
            let length = with_length12(e@[i + 3], found.len() as int);
            let rest = streams_without_hdmv(e@.skip(i + n));
            lemma_join_four(before, start, length, found, rest);
        }
        i += n;
    }
    push_range(&mut kept, e, i, e.len());
    assert(e@.subrange(i as int, e@.len() as int) =~= e@.skip(i as int));
    kept
}

/// A PMT section with the HDMV registrations taken out.
pub fn clean_section(s: &[u8]) -> (section: Vec<u8>)
    requires
        is_pmt(s@),
    ensures
        section@ == cleaned(s@),
{
    let length: usize = read_length12(s, 10);
    let mut descriptors = strip_descriptors(slice_subrange(s, 12, 12 + length));
    let mut streams = strip_streams(slice_subrange(s, 12 + length, s.len() - 4));
    proof {
        reveal(pmt_body);
        lemma_without_hdmv(program_descriptors(s@));
        lemma_streams_without_hdmv(stream_list(s@));
    }
    let mut section: Vec<u8> = Vec::with_capacity(s.len());
    push_range(&mut section, s, 0, 1);
    push_length12(&mut section, s[1], 13 + descriptors.len() + streams.len());
    push_range(&mut section, s, 3, 10);
    push_length12(&mut section, s[10], descriptors.len());
    section.append(&mut descriptors);
    section.append(&mut streams);
    assert(s@.subrange(0, 1) =~= s@.take(1));
    let crc: u32 = section_crc(section.as_slice());
    push_be32(&mut section, crc);
    section
}

/// Whether the bytes are a PMT section.
pub fn check_pmt(s: &[u8]) -> (pmt: bool)
    ensures
        pmt == is_pmt(s@),
        pmt == {
            &&& s@.len() >= 16
            &&& s@[0] == 2
            &&& s@[1] & 0x80 != 0
            &&& s@.len() == 3 + (s@[1] & 0x0F) * 0x100 + s@[2]
            &&& 16 + (s@[10] & 0x0F) * 0x100 + s@[11] <= s@.len()
            &&& s@.skip(s@.len() - 4) == be32(crc32(s@.take(s@.len() - 4)))
        },
{
    proof {
        law_a_pmt_is_known_by_its_form(s@);
        if s@.len() >= 16 {
            let n = s@.len() - 4;
            law_bytes_are_written_as_read(s@, n);
            lemma_be32_reads_back(crc32(s@.take(n)));
            assert(s@.skip(n) =~= s@.subrange(n, n + 4));
            assert(be32_at(s@.skip(n), 0) == be32_at(s@, n));
        }
    }
    if s.len() < 16 || s[0] != 2 || s[1] < 0x80 || s.len() != 3 + read_length12(s, 1) {
        return false;
    }
    if 16 + read_length12(s, 10) > s.len() {
        return false;
    }
    let body = slice_subrange(s, 0, s.len() - 4);
    assert(body@ =~= s@.take(s@.len() - 4));
    read_be32(s, s.len() - 4) == section_crc(body)
}

/// Parts of a byte, by masks and by division.
pub(crate) proof fn lemma_masks(b: u8)
    ensures
        b & 0x0F == b % 16,
        b & 0xF0 == b / 16 * 16,
        (b & 0x80 != 0) == (b >= 0x80),
{
    assert(b & 0x0F == b % 16) by (bit_vector);
    assert(b & 0xF0 == b / 16 * 16) by (bit_vector);
    assert((b & 0x80 != 0) == (b >= 0x80)) by (bit_vector);
}

/// A section is a PMT exactly if it has table 2 in the long form, is as long as the lower twelve
/// bits of its second and third byte say, has room for as many bytes of program descriptors as the
/// lower twelve bits of bytes ten and eleven say, and ends in its checksum.
pub proof fn law_a_pmt_is_known_by_its_form(s: Seq<u8>)
    ensures
        is_pmt(s) <==> {
            &&& s.len() >= 16
            &&& s[0] == 2
            &&& s[1] & 0x80 != 0
            &&& s.len() == 3 + (s[1] & 0x0F) * 0x100 + s[2]
            &&& 16 + (s[10] & 0x0F) * 0x100 + s[11] <= s.len()
            &&& s[s.len() - 4] * 0x100_0000 + s[s.len() - 3] * 0x1_0000 + s[s.len() - 2] * 0x100
                + s[s.len() - 1] == crc32(s.take(s.len() - 4))
        },
{
    lemma_masks(s[1]);
    lemma_masks(s[10]);
}

/// Whatever its program, version, section numbers and clock PID, a PMT is a PMT: of two sections
/// that differ only in these, and end in their checksums, both are or neither is.
pub proof fn law_any_program_and_version_is_a_pmt(a: Seq<u8>, b: Seq<u8>)
    requires
        a.len() == b.len(),
        a.len() >= 16,
        a.take(3) == b.take(3),
        a.subrange(10, a.len() - 4) == b.subrange(10, b.len() - 4),
        a.skip(a.len() - 4) == be32(crc32(a.take(a.len() - 4))),
        b.skip(b.len() - 4) == be32(crc32(b.take(b.len() - 4))),
    ensures
        is_pmt(a) == is_pmt(b),
{
    let n = a.len() - 4;
    assert(a[0] == a.take(3)[0] && a[1] == a.take(3)[1] && a[2] == a.take(3)[2]);
    assert(b[0] == b.take(3)[0] && b[1] == b.take(3)[1] && b[2] == b.take(3)[2]);
    assert(a[10] == a.subrange(10, n)[0] && a[11] == a.subrange(10, n)[1]);
    assert(b[10] == b.subrange(10, n)[0] && b[11] == b.subrange(10, n)[1]);
    lemma_be32_reads_back(crc32(a.take(n)));
    lemma_be32_reads_back(crc32(b.take(n)));
    assert(be32_at(a, n) == be32_at(a.skip(n), 0));
    assert(be32_at(b, n) == be32_at(b.skip(n), 0));
}

/// A byte more takes eight steps of division by the polynomial 04C11DB7, after it was added to the
/// upper eight bits of the remainder; division begins with all bits set.
pub proof fn law_the_checksum_is_a_remainder(s: Seq<u8>, byte: u8)
    ensures
        crc32(Seq::empty()) == 0xFFFF_FFFF,
        ({
            let step = |r: u32|
                if r & 0x8000_0000 != 0 {
                    (r << 1) ^ 0x04C1_1DB7
                } else {
                    r << 1
                };
            let r = crc32(s) ^ ((byte as u32) << 24);
            crc32(s.push(byte)) == step(step(step(step(step(step(step(step(r))))))))
        }),
{
    assert(s.push(byte).drop_last() =~= s);
    assert forall|r: u32| (#[trigger] crc_bit(r)) == if r & 0x8000_0000 != 0 {
        (r << 1) ^ 0x04C1_1DB7
    } else {
        r << 1
    } by {
        assert((r & 0x8000_0000 != 0) == (r >= 0x8000_0000)) by (bit_vector);
    }
    reveal_with_fuel(crc_bits, 9);
}

/// Steps of the checksum that find the highest bits clear only move the others up.
proof fn lemma_crc_of_clear_bits(r: u32)
    requires
        r < 0x100_0000,
    ensures
        crc_bits(r, 8) == r << 8,
{
    reveal_with_fuel(crc_bits, 9);
    assert(r << 1 < 0x8000_0000 && (r << 1) << 1 < 0x8000_0000 && ((r << 1) << 1) << 1 < 0x8000_0000
        && (((r << 1) << 1) << 1) << 1 < 0x8000_0000 && ((((r << 1) << 1) << 1) << 1) << 1
        < 0x8000_0000 && (((((r << 1) << 1) << 1) << 1) << 1) << 1 < 0x8000_0000 && ((((((r << 1)
        << 1) << 1) << 1) << 1) << 1) << 1 < 0x8000_0000 && (((((((r << 1) << 1) << 1) << 1) << 1)
        << 1) << 1) << 1 == r << 8) by (bit_vector)
        requires
            r < 0x100_0000,
    ;
}

/// Bytes with their own checksum after them have the checksum zero, whatever they are.
pub proof fn law_checked_bytes_have_checksum_zero(s: Seq<u8>)
    ensures
        crc32(s + be32(crc32(s))) == 0,
{
    let c = crc32(s);
    let sum = be32(c);
    let (b0, b1, b2, b3) = (sum[0], sum[1], sum[2], sum[3]);
    let s1 = s.push(b0);
    let s2 = s1.push(b1);
    let s3 = s2.push(b2);
    let s4 = s3.push(b3);
    assert(s + sum =~= s4);
    assert(s1.drop_last() =~= s && s2.drop_last() =~= s1 && s3.drop_last() =~= s2 && s4.drop_last()
        =~= s3);
    assert(b0 == c / 0x100_0000 && b1 == c / 0x1_0000 % 0x100 && b2 == c / 0x100 % 0x100 && b3 == c
        % 0x100);
    let r1 = c << 8;
    let r2 = r1 << 8;
    let r3 = r2 << 8;
    assert(c ^ ((b0 as u32) << 24) < 0x100_0000 && (c ^ ((b0 as u32) << 24)) << 8 == c << 8)
        by (bit_vector)
        requires
            b0 == c / 0x100_0000,
    ;
    lemma_crc_of_clear_bits(c ^ ((b0 as u32) << 24));
    assert(crc32(s1) == r1);
    assert(r1 ^ ((b1 as u32) << 24) < 0x100_0000 && (r1 ^ ((b1 as u32) << 24)) << 8 == r1 << 8)
        by (bit_vector)
        requires
            b1 == c / 0x1_0000 % 0x100,
            r1 == c << 8,
    ;
    lemma_crc_of_clear_bits(r1 ^ ((b1 as u32) << 24));
    assert(crc32(s2) == r2);
    assert(r2 ^ ((b2 as u32) << 24) < 0x100_0000 && (r2 ^ ((b2 as u32) << 24)) << 8 == r2 << 8)
        by (bit_vector)
        requires
            b2 == c / 0x100 % 0x100,
            r1 == c << 8,
            r2 == r1 << 8,
    ;
    lemma_crc_of_clear_bits(r2 ^ ((b2 as u32) << 24));
    assert(crc32(s3) == r3);
    assert(r3 ^ ((b3 as u32) << 24) == 0) by (bit_vector)
        requires
            b3 == c % 0x100,
            r1 == c << 8,
            r2 == r1 << 8,
            r3 == r2 << 8,
    ;
    lemma_crc_of_clear_bits(0);
    assert(0u32 << 8 == 0) by (bit_vector);
}

/// A registration of HDMV, whatever it holds besides, is taken out from before any descriptors; its
/// tag is 5, and the letters follow its length.
pub proof fn law_hdmv_registrations_are_taken_out(registration: Seq<u8>, rest: Seq<u8>)
    requires
        registration.len() >= 6,
        registration.len() == 2 + registration[1],
        registration[0] == 5,
        registration[2] == 0x48,
        registration[3] == 0x44,
        registration[4] == 0x4D,
        registration[5] == 0x56,
    ensures
        has_hdmv(registration + rest),
        without_hdmv(registration + rest) == without_hdmv(rest),
{
    let all = registration + rest;
    assert(all.skip(registration.len() as int) =~= rest);
    assert(is_hdmv(all));
}

/// Any other descriptor is kept in front of what is left of those after it, and what is no whole
/// descriptor is kept as it is.
pub proof fn law_other_descriptors_are_kept(descriptor: Seq<u8>, rest: Seq<u8>, tail: Seq<u8>)
    requires
        descriptor.len() >= 2,
        descriptor.len() == 2 + descriptor[1],
        descriptor[0] != 5 || descriptor.len() < 6 || descriptor[2] != 0x48 || descriptor[3] != 0x44
            || descriptor[4] != 0x4D || descriptor[5] != 0x56,
        tail.len() < 2 || 2 + tail[1] > tail.len(),
    ensures
        has_hdmv(descriptor + rest) == has_hdmv(rest),
        without_hdmv(descriptor + rest) == descriptor + without_hdmv(rest),
        !has_hdmv(tail),
        without_hdmv(tail) == tail,
{
    let all = descriptor + rest;
    let n = descriptor.len() as int;
    assert(all.skip(n) =~= rest);
    assert(all.take(n) =~= descriptor);
    assert(all[0] == descriptor[0] && all[1] == descriptor[1]);
    if n >= 6 {
        assert(all[2] == descriptor[2] && all[3] == descriptor[3] && all[4] == descriptor[4] && all[5]
            == descriptor[5]);
    }
    assert(!is_hdmv(all));
}

/// A stream keeps its type, its PID and its place, and loses the HDMV registrations among its
/// descriptors; the lower twelve bits of bytes three and four give their new length. What is no
/// whole stream is kept as it is.
pub proof fn law_streams_lose_only_hdmv_registrations(
    stream: Seq<u8>,
    rest: Seq<u8>,
    tail: Seq<u8>,
)
    requires
        stream.len() >= 5,
        stream.len() == 5 + (stream[3] & 0x0F) * 0x100 + stream[4],
        tail.len() < 5 || 5 + (tail[3] & 0x0F) * 0x100 + tail[4] > tail.len(),
    ensures
        any_stream_has_hdmv(stream + rest) == (has_hdmv(stream.skip(5)) || any_stream_has_hdmv(
            rest,
        )),
        ({
            let kept = without_hdmv(stream.skip(5));
            let new = streams_without_hdmv(stream + rest);
            let n = 5 + kept.len() as int;
            &&& new.len() >= n
            &&& new.take(3) == stream.take(3)
            &&& new[3] & 0xF0 == stream[3] & 0xF0
            &&& (new[3] & 0x0F) * 0x100 + new[4] == kept.len()
            &&& new.subrange(5, n) == kept
            &&& new.skip(n) == streams_without_hdmv(rest)
        }),
        !any_stream_has_hdmv(tail),
        streams_without_hdmv(tail) == tail,
{
    let all = stream + rest;
    lemma_masks(stream[3]);
    if tail.len() >= 5 {
        lemma_masks(tail[3]);
    }
    assert(all[3] == stream[3] && all[4] == stream[4]);
    assert(all.skip(stream.len() as int) =~= rest);
    assert(stream_descriptors(all) =~= stream.skip(5));
    let kept = without_hdmv(stream.skip(5));
    lemma_without_hdmv(stream.skip(5));
    let new = streams_without_hdmv(all);
    let n = 5 + kept.len() as int;
    lemma_masks(new[3]);
    lemma_length12(stream[3], kept.len() as int);
    assert(new.take(3) =~= stream.take(3));
    assert(new.subrange(5, n) =~= kept);
    assert(new.skip(n) =~= streams_without_hdmv(rest));
}

/// A cleaned PMT is a PMT with the same fields, whose program descriptors and streams are those
/// without the HDMV registrations, with both lengths set right and its own checksum at the end.
pub proof fn law_a_cleaned_pmt_is_set_right(s: Seq<u8>)
    requires
        is_pmt(s),
    ensures
        ({
            let n = 12 + (s[10] & 0x0F) * 0x100 + s[11];
            let info = without_hdmv(s.subrange(12, n));
            let streams = streams_without_hdmv(s.subrange(n, s.len() - 4));
            let new = cleaned(s);
            &&& pmt_has_hdmv(s) == (has_hdmv(s.subrange(12, n)) || any_stream_has_hdmv(
                s.subrange(n, s.len() - 4),
            ))
            &&& new.len() == 16 + info.len() + streams.len()
            &&& new[0] == 2
            &&& new[1] & 0xF0 == s[1] & 0xF0
            &&& (new[1] & 0x0F) * 0x100 + new[2] == new.len() - 3
            &&& new.subrange(3, 10) == s.subrange(3, 10)
            &&& new[10] & 0xF0 == s[10] & 0xF0
            &&& (new[10] & 0x0F) * 0x100 + new[11] == info.len()
            &&& new.subrange(12, 12 + info.len() as int) == info
            &&& new.subrange(12 + info.len() as int, new.len() - 4) == streams
            &&& new.skip(new.len() - 4) == be32(crc32(new.take(new.len() - 4)))
        }),
{
    let d = program_descriptors(s);
    let e = stream_list(s);
    let info = without_hdmv(d);
    let streams = streams_without_hdmv(e);
    let crc = crc32(pmt_body(s, info, streams));
    let new = cleaned(s);
    lemma_masks(s[1]);
    lemma_masks(s[10]);
    assert(info.len() <= d.len()) by {
        lemma_without_hdmv(d);
    }
    assert(streams.len() <= e.len()) by {
        lemma_streams_without_hdmv(e);
    }
    lemma_pmt_parts(s, info, streams, crc);
    lemma_masks(new[1]);
    lemma_masks(new[10]);
    assert(new.skip(new.len() - 4) =~= be32(crc));
}

} // verus!
