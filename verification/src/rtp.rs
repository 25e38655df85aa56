//! What is read from the header of an RTP packet.
use vstd::prelude::*;
use crate::bytes::read_be32;

verus! {

/// The length of an RTP header without extensions.
pub const RTP_HEADER: usize = 12;

/// Whether the P bit is set: the payload ends in padding.
pub open spec fn padding_bit(packet: Seq<u8>) -> bool {
    packet[0] / 0x20 % 2 == 1
}

/// Whether the marker bit is set: the packet ends a video frame.
pub open spec fn marker_bit(packet: Seq<u8>) -> bool {
    packet[1] / 0x80 == 1
}

/// Whether the packet is evidence of media: it has a whole header, and it is unpadded or ends a
/// frame.
pub open spec fn carries_media(packet: Seq<u8>) -> bool {
    packet.len() >= RTP_HEADER && (!padding_bit(packet) || marker_bit(packet))
}

/// The synchronization source in the header, if there is a whole header.
pub open spec fn ssrc_of(packet: Seq<u8>) -> Option<u32> {
    if packet.len() >= RTP_HEADER {
        Some(crate::bytes::be32_at(packet, 8) as u32)
    } else {
        None
    }
}

/// Whether an RTP packet is evidence that its stream carries real media, rather than being a
/// bandwidth-probing stream.
///
/// Some SFUs hand a WHEP consumer a padding-only stream alongside the real video, on the same
/// payload type and the same `a-mid`, so neither the caps nor the name of the pad can tell them
/// apart. Either of two signals is enough: a clear P bit is ordinary media, and a marker bit ends
/// a video frame, which a probing stream never does. The marker keeps this from misjudging a
/// sender that pads its media for rate control.
///
/// The length of the padding is no signal: its count is a single byte, so a payload of more than
/// 255 bytes is never all padding by that measure even when it carries no media.
pub fn rtp_carries_media(bytes: &[u8]) -> (media: bool)
    ensures
        media == carries_media(bytes@),
        media == (bytes@.len() >= 12 && (bytes@[0] & 0x20 == 0 || bytes@[1] & 0x80 != 0)),
{
    if bytes.len() < RTP_HEADER {
        return false;
    }
    let first: u8 = bytes[0];
    let second: u8 = bytes[1];
    assert((first & 0x20 == 0) == (first / 0x20 % 2 != 1)) by (bit_vector);
    assert((second & 0x80 != 0) == (second / 0x80 == 1)) by (bit_vector);
    first & 0x20 == 0 || second & 0x80 != 0
}

/// The synchronization source of an RTP packet.
pub fn rtp_ssrc(bytes: &[u8]) -> (ssrc: Option<u32>)
    ensures
        ssrc == ssrc_of(bytes@),
{
    if bytes.len() >= RTP_HEADER {
        Some(read_be32(bytes, 8))
    } else {
        None
    }
}

/// Two bits of the header decide: packets with whole headers that agree in padding and marker are
/// judged alike, whatever else they hold and however long they are.
pub proof fn law_media_is_judged_by_the_header(a: Seq<u8>, b: Seq<u8>)
    requires
        a.len() >= RTP_HEADER,
        b.len() >= RTP_HEADER,
        padding_bit(a) == padding_bit(b),
        marker_bit(a) == marker_bit(b),
    ensures
        carries_media(a) == carries_media(b),
{
}

/// A packet is evidence of media exactly if it has twelve bytes and the bit 0x20 of the first is
/// clear, or the bit 0x80 of the second is set.
pub proof fn law_two_bits_decide(packet: Seq<u8>)
    ensures
        carries_media(packet) == (packet.len() >= 12 && (packet[0] & 0x20 == 0 || packet[1] & 0x80
            != 0)),
{
    let first: u8 = packet[0];
    let second: u8 = packet[1];
    assert((first & 0x20 == 0) == (first / 0x20 % 2 != 1)) by (bit_vector);
    assert((second & 0x80 != 0) == (second / 0x80 == 1)) by (bit_vector);
}

/// The payload type, which are the lower seven bits of the second byte, does not matter, and
/// neither does any byte but the first two.
pub proof fn law_the_payload_type_does_not_matter(packet: Seq<u8>, other: Seq<u8>, kind: u8)
    requires
        packet.len() >= 12,
        other.len() >= 12,
        kind < 0x80,
        other[0] == packet[0],
        other[1] == packet[1] / 0x80 * 0x80 + kind,
    ensures
        carries_media(other) == carries_media(packet),
{
}

/// The source is read from a whole header, and there only: it is the integer that bytes eight to
/// eleven stand for, the most significant one first.
pub proof fn law_the_source_is_in_the_header(packet: Seq<u8>)
    ensures
        ssrc_of(packet) is Some == (packet.len() >= 12),
        ssrc_of(packet) matches Some(ssrc) ==> ssrc == packet[8] * 0x100_0000 + packet[9] * 0x1_0000
            + packet[10] * 0x100 + packet[11],
{
}

} // verus!
