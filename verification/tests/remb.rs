use whep_srt::remb::{append_remb, build_remb, rtcp_sender};

/// Decode a REMB packet the way a receiver (SMB) would, so the tests assert on the wire format
/// rather than on our own construction of it.
fn parse_remb(p: &[u8]) -> (u32, u64, Vec<u32>) {
    assert_eq!(p[0], 0x8F, "V=2, FMT=15");
    assert_eq!(p[1], 0xCE, "PT=206 PSFB");
    let words = u16::from_be_bytes([p[2], p[3]]) as usize + 1;
    assert_eq!(words * 4, p.len(), "length field must match actual size");
    let sender = u32::from_be_bytes([p[4], p[5], p[6], p[7]]);
    assert_eq!(&p[8..12], &[0, 0, 0, 0], "media ssrc unused");
    assert_eq!(&p[12..16], b"REMB");
    let n = p[16] as usize;
    let exponent = (p[17] >> 2) as u32;
    let mantissa = (((p[17] & 0x03) as u32) << 16) | ((p[18] as u32) << 8) | p[19] as u32;
    let ssrcs = (0..n)
        .map(|i| {
            let o = 20 + i * 4;
            u32::from_be_bytes([p[o], p[o + 1], p[o + 2], p[o + 3]])
        })
        .collect();
    (sender, (mantissa as u64) << exponent, ssrcs)
}

/// Count the packets of compound RTCP; each must be of version 2 and as long as it says.
fn count_compound(p: &[u8]) -> usize {
    let mut at = 0;
    let mut count = 0;
    while at < p.len() {
        assert_eq!(p[at] >> 6, 2);
        at += (u16::from_be_bytes([p[at + 2], p[at + 3]]) as usize + 1) * 4;
        count += 1;
    }
    assert_eq!(at, p.len());
    count
}

#[test]
fn remb_round_trips_a_typical_bitrate() {
    let packet = build_remb(0xDEADBEEF, &[0x11223344], 10_000_000);
    let (sender, bitrate, ssrcs) = parse_remb(&packet);
    assert_eq!(sender, 0xDEADBEEF);
    assert_eq!(ssrcs, vec![0x11223344]);
    // Exponent scaling loses precision; 0.5% is far tighter than SMB cares about.
    let error = (bitrate as f64 - 10_000_000.0).abs() / 10_000_000.0;
    assert!(error < 0.005, "bitrate {bitrate} too far from 10 Mbps");
}

#[test]
fn remb_reports_every_observed_ssrc() {
    let packet = build_remb(1, &[0xAAAA_AAAA, 0xBBBB_BBBB, 0xCCCC_CCCC], 4_000_000);
    let (_, _, ssrcs) = parse_remb(&packet);
    assert_eq!(ssrcs, vec![0xAAAA_AAAA, 0xBBBB_BBBB, 0xCCCC_CCCC]);
    assert_eq!(packet.len(), 20 + 3 * 4);
}

#[test]
fn remb_is_valid_with_no_ssrcs_observed_yet() {
    // The bootstrap case: nothing has arrived, but the report must still be well formed —
    // waiting for an SSRC would deadlock, since the SFU sends nothing until it hears an estimate.
    let packet = build_remb(42, &[], 6_000_000);
    let (sender, _, ssrcs) = parse_remb(&packet);
    assert_eq!(sender, 42);
    assert!(ssrcs.is_empty());
    assert_eq!(packet.len(), 20);
}

#[test]
fn remb_handles_bitrates_that_need_no_exponent() {
    // Under 2^18 bps the mantissa holds the value outright, exponent 0.
    let packet = build_remb(7, &[9], 200_000);
    assert_eq!(packet[17] >> 2, 0, "exponent should be zero");
    let (_, bitrate, _) = parse_remb(&packet);
    assert_eq!(bitrate, 200_000, "small bitrates must be exact");
}

#[test]
fn remb_survives_an_absurdly_large_bitrate() {
    // Must not panic or overflow the 18-bit mantissa; 1 Gbps is well past anything real.
    let packet = build_remb(1, &[2], 1_000_000_000);
    let (_, bitrate, _) = parse_remb(&packet);
    let error = (bitrate as f64 - 1e9).abs() / 1e9;
    assert!(error < 0.005, "bitrate {bitrate} too far from 1 Gbps");
}

#[test]
fn the_bytes_of_a_report_are_these() {
    let packet = build_remb(0x01020304, &[0xA0B0C0D0], 1_000_000);
    // 1_000_000 = 250_000 * 2^2, and 250_000 is 0x3D090.
    assert_eq!(
        packet,
        vec![
            0x8F, 0xCE, 0x00, 0x05, 0x01, 0x02, 0x03, 0x04, 0, 0, 0, 0, b'R', b'E', b'M', b'B', 1,
            0x0B, 0xD0, 0x90, 0xA0, 0xB0, 0xC0, 0xD0,
        ]
    );
}

#[test]
fn the_claim_is_never_more_than_what_was_asked_for() {
    for bitrate in [0, 1, 262_143, 262_144, 262_145, 524_289, 10_000_001, u64::MAX] {
        let (_, carried, _) = parse_remb(&build_remb(1, &[], bitrate));
        assert!(carried <= bitrate);
        if bitrate <= 262_143 {
            assert_eq!(carried, bitrate);
        } else {
            assert!(bitrate - carried <= bitrate / 131_072);
        }
    }
}

#[test]
fn the_largest_bitrate_has_the_largest_mantissa() {
    let packet = build_remb(1, &[], u64::MAX);
    assert_eq!(packet[17] >> 2, 46);
    assert_eq!((packet[17] & 3, packet[18], packet[19]), (3, 0xFF, 0xFF));
}

#[test]
fn no_more_than_255_sources_are_named() {
    let many: Vec<u32> = (0..300).collect();
    let packet = build_remb(1, &many, 1_000);
    let (_, _, ssrcs) = parse_remb(&packet);
    assert_eq!(ssrcs, many[..255].to_vec());
    assert_eq!(packet.len(), 20 + 255 * 4);
}

#[test]
fn a_report_is_appended_for_the_same_sender() {
    // An empty receiver report of sender 0x0A0B0C0D.
    let existing = [0x80, 0xC9, 0, 1, 0x0A, 0x0B, 0x0C, 0x0D];
    assert_eq!(rtcp_sender(&existing), Some(0x0A0B0C0D));
    let combined = append_remb(&existing, &[5, 6], 200).unwrap();
    assert_eq!(&combined[..8], &existing);
    assert_eq!(parse_remb(&combined[8..]), (0x0A0B0C0D, 200_000, vec![5, 6]));
    assert_eq!(count_compound(&existing), 1);
    assert_eq!(count_compound(&combined), 2);
}

#[test]
fn nothing_is_appended_without_a_sender() {
    assert_eq!(rtcp_sender(&[0x80, 0xC9, 0, 1, 1, 2, 3]), None);
    assert_eq!(append_remb(&[0x80, 0xC9, 0, 1, 1, 2, 3], &[], 200), None);
    assert_eq!(append_remb(&[], &[], u64::MAX), None);
}

#[test]
fn a_bitrate_that_was_read_gives_the_same_report_again() {
    for bitrate in [0, 1, 0x3_FFFF, 0x4_0000, 0x4_0001, 10_000_001, 12_345_678_901, u64::MAX] {
        let packet = build_remb(7, &[1, 2], bitrate);
        let (_, read, _) = parse_remb(&packet);
        assert_eq!(build_remb(7, &[1, 2], read), packet);
    }
}
