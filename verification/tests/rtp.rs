use whep_srt::rtp::{rtp_carries_media, rtp_ssrc};

/// Build a minimal RTP packet: 12-byte header plus payload, with optional padding and marker
/// bits, so the tests exercise the same bytes an SFU would put on the wire.
fn rtp(padding: bool, marker: bool, payload: &[u8]) -> Vec<u8> {
    let mut p = vec![0u8; 12];
    p[0] = 0x80 | if padding { 0x20 } else { 0 };
    p[1] = 97 | if marker { 0x80 } else { 0 };
    p.extend_from_slice(payload);
    p
}

#[test]
fn unpadded_packets_are_media() {
    assert!(rtp_carries_media(&rtp(false, false, &[0x78, 0x00, 0x12, 0x67])));
}

#[test]
fn padded_packets_with_a_marker_are_still_media() {
    // A sender may pad its media for rate control; the marker ends a frame, so this is video.
    assert!(rtp_carries_media(&rtp(true, true, &[0x7c, 0x81, 0xe0])));
}

#[test]
fn padded_packets_without_a_marker_are_not_media() {
    // The shape of a bandwidth-probing packet: padding bit set, no marker, payload of zeros.
    assert!(!rtp_carries_media(&rtp(true, false, &[0x59, 0xf9, 0, 0, 0, 0])));
}

#[test]
fn a_large_padded_payload_is_still_not_media() {
    // Guards against judging by RFC 3550 pad length: over 255 bytes the single-byte pad count
    // cannot describe the whole payload, so a length-based test would wrongly call this media.
    let payload = {
        let mut v = vec![0x59, 0xf9];
        v.extend(std::iter::repeat_n(0u8, 1100));
        v
    };
    assert!(!rtp_carries_media(&rtp(true, false, &payload)));
}

#[test]
fn truncated_buffers_are_not_media() {
    assert!(!rtp_carries_media(&[0x80, 0x61, 0x00]));
    assert!(!rtp_carries_media(&[]));
}

#[test]
fn a_bare_header_is_judged_and_one_byte_less_is_not() {
    let header = rtp(false, false, &[]);
    assert!(rtp_carries_media(&header));
    assert!(!rtp_carries_media(&header[..11]));
}

#[test]
fn the_payload_does_not_change_the_judgement() {
    for padding in [false, true] {
        for marker in [false, true] {
            let short = rtp_carries_media(&rtp(padding, marker, &[]));
            let long = rtp_carries_media(&rtp(padding, marker, &[0xff; 900]));
            assert_eq!(short, long);
            assert_eq!(short, !padding || marker);
            // Nor does anything else in the header.
            let mut other = rtp(padding, marker, &[]);
            for byte in &mut other[2..] {
                *byte = 0xA5;
            }
            other[0] ^= 0xDF;
            other[1] ^= 0x7F;
            assert_eq!(rtp_carries_media(&other), short);
        }
    }
}

#[test]
fn the_ssrc_is_read_from_a_whole_header_only() {
    let mut packet = rtp(true, false, &[1, 2, 3]);
    packet[8..12].copy_from_slice(&[0xDE, 0xAD, 0xBE, 0xEF]);
    assert_eq!(rtp_ssrc(&packet), Some(0xDEAD_BEEF));
    assert_eq!(rtp_ssrc(&packet[..12]), Some(0xDEAD_BEEF));
    assert_eq!(rtp_ssrc(&packet[..11]), None);
}
