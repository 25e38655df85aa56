use whep_srt::pmt::{check_pmt, clean_section, section_crc, strip_descriptors, strip_streams};

/// A program registration, as the muxer writes it.
const HDMV: [u8; 6] = [5, 4, b'H', b'D', b'M', b'V'];
/// A stream registration with additional bytes.
const HDMV_LONG: [u8; 10] = [5, 8, b'H', b'D', b'M', b'V', 0xFF, 0x1B, 0x44, 0x3F];
/// A registration of another format.
const OTHER: [u8; 6] = [5, 4, b'A', b'C', b'-', b'3'];

/// The checksum, one bit at a time with polynomial division.
fn crc(bytes: &[u8]) -> u32 {
    let mut crc = 0xFFFF_FFFFu32;
    for byte in bytes {
        for bit in (0..8).rev() {
            let top = (crc >> 31) as u8 ^ (byte >> bit & 1);
            crc <<= 1;
            if top == 1 {
                crc ^= 0x04C1_1DB7;
            }
        }
    }
    crc
}

/// An entry of the stream list.
fn stream(kind: u8, pid: u16, descriptors: &[u8]) -> Vec<u8> {
    let mut e = vec![kind, 0xE0 | (pid >> 8) as u8, pid as u8];
    e.extend((0xF000 | descriptors.len() as u16).to_be_bytes());
    e.extend(descriptors);
    e
}

/// A PMT section.
fn pmt(descriptors: &[u8], streams: &[u8]) -> Vec<u8> {
    let length = 13 + descriptors.len() + streams.len();
    let mut s = vec![2];
    s.extend((0xB000 | length as u16).to_be_bytes());
    s.extend([0, 1, 0xC1, 0, 0, 0xE0, 0x41]);
    s.extend((0xF000 | descriptors.len() as u16).to_be_bytes());
    s.extend(descriptors);
    s.extend(streams);
    let sum = crc(&s);
    s.extend(sum.to_be_bytes());
    s
}

#[test]
fn the_checksum_has_its_check_value() {
    assert_eq!(section_crc(b"123456789"), 0x0376_E6E7);
    assert_eq!(section_crc(b""), 0xFFFF_FFFF);
    let s = pmt(&HDMV, &stream(0x0F, 0x41, &[]));
    assert_eq!(section_crc(&s), 0);
}

#[test]
fn only_hdmv_registrations_are_taken_out_of_descriptors() {
    let all = [&HDMV[..], &OTHER, &HDMV_LONG, &[0x88, 4, 0x0F, 0xFF, 0xFC, 0xFC], &HDMV].concat();
    let kept = [&OTHER[..], &[0x88, 4, 0x0F, 0xFF, 0xFC, 0xFC]].concat();
    assert_eq!(strip_descriptors(&all), kept);
    assert_eq!(strip_descriptors(&kept), kept);
    assert!(strip_descriptors(&[]).is_empty());
    // Neither a registration that is too short nor one that is cut off is one of HDMV.
    assert_eq!(strip_descriptors(&[5, 3, b'H', b'D', b'M']), [5, 3, b'H', b'D', b'M']);
    assert_eq!(strip_descriptors(&HDMV[..5]), HDMV[..5]);
    assert_eq!(strip_descriptors(&[7]), [7]);
}

#[test]
fn stream_entries_keep_their_order_and_get_new_lengths() {
    let before = [
        stream(0x0F, 0x41, &OTHER),
        stream(0x1B, 0x42, &[&HDMV_LONG[..], &OTHER].concat()),
        vec![0x1B, 0xE0],
    ]
    .concat();
    let after = [stream(0x0F, 0x41, &OTHER), stream(0x1B, 0x42, &OTHER), vec![0x1B, 0xE0]].concat();
    assert_eq!(strip_streams(&before), after);
    assert_eq!(strip_streams(&after), after);
}

#[test]
fn a_cleaned_section_is_the_one_without_the_mark() {
    let audio = stream(0x0F, 0x41, &[]);
    let marked = pmt(
        &[&HDMV[..], &OTHER].concat(),
        &[audio.clone(), stream(0x1B, 0x42, &HDMV_LONG)].concat(),
    );
    let plain = pmt(&OTHER, &[audio, stream(0x1B, 0x42, &[])].concat());
    assert_eq!(clean_section(&marked), plain);
    assert_eq!(clean_section(&plain), plain);
}

#[test]
fn a_section_is_a_pmt_only_if_all_of_it_fits() {
    let good = pmt(&HDMV, &stream(0x1B, 0x41, &[]));
    assert!(check_pmt(&good));
    assert!(check_pmt(&pmt(&[], &[])));
    // Another table; the short form; a wrong length; descriptors that do not fit; a wrong bit.
    for (at, value) in [(0, 0x00), (1, 0x30), (2, 0x00), (11, 0xFF), (7, 0x02)] {
        let mut s = good.clone();
        s[at] = value;
        assert!(!check_pmt(&s));
    }
    assert!(!check_pmt(&good[..good.len() - 1]));
    assert!(!check_pmt(&[&good[..], &[0xFF]].concat()));
    assert!(!check_pmt(&good[..15]));
    assert!(!check_pmt(&[]));
}
