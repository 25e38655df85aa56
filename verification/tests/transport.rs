use whep_srt::transport::{check_begins_pmt, check_settled, release, restuff, HdmvFilter};

/// A program registration, as the muxer writes it.
const HDMV: [u8; 6] = [5, 4, b'H', b'D', b'M', b'V'];
/// A stream registration with additional bytes.
const HDMV_LONG: [u8; 10] = [5, 8, b'H', b'D', b'M', b'V', 0xFF, 0x1B, 0x44, 0x3F];
/// A registration of another format.
const OTHER: [u8; 6] = [5, 4, b'A', b'C', b'-', b'3'];

/// The checksum, one bit at a time with polynomial division.
fn crc(bytes: &[u8]) -> u32 {
    let mut crc = 0xFFFF_FFFFu32;
    for byte in bytes {
        for bit in (0..8).rev() {
            let top = (crc >> 31) as u8 ^ (byte >> bit & 1);
            crc <<= 1;
            if top == 1 {
                crc ^= 0x04C1_1DB7;
            }
        }
    }
    crc
}

/// An entry of the stream list.
fn stream(kind: u8, pid: u16, descriptors: &[u8]) -> Vec<u8> {
    let mut e = vec![kind, 0xE0 | (pid >> 8) as u8, pid as u8];
    e.extend((0xF000 | descriptors.len() as u16).to_be_bytes());
    e.extend(descriptors);
    e
}

/// A PMT section.
fn pmt(descriptors: &[u8], streams: &[u8]) -> Vec<u8> {
    let length = 13 + descriptors.len() + streams.len();
    let mut s = vec![2];
    s.extend((0xB000 | length as u16).to_be_bytes());
    s.extend([0, 1, 0xC1, 0, 0, 0xE0, 0x41]);
    s.extend((0xF000 | descriptors.len() as u16).to_be_bytes());
    s.extend(descriptors);
    s.extend(streams);
    let sum = crc(&s);
    s.extend(sum.to_be_bytes());
    s
}

/// The PMT of a program with many streams, all of them marked or none.
fn large_pmt(count: u16, marked: bool) -> Vec<u8> {
    let mut streams = Vec::new();
    for i in 0..count {
        let descriptors = if marked { [&HDMV_LONG[..], &OTHER].concat() } else { OTHER.to_vec() };
        streams.extend(stream(0x1B, 0x100 + i, &descriptors));
    }
    pmt(if marked { &HDMV } else { &[] }, &streams)
}

/// A section of another table.
fn other_section(length: usize) -> Vec<u8> {
    let mut s = vec![0xC0];
    s.extend((0x3000 | length as u16).to_be_bytes());
    s.extend((0..length).map(|i| i as u8));
    s
}

/// The packets of a PID that carry `content` from a section on, and stuffing after it.
fn packets(pid: u16, content: &[u8]) -> Vec<Vec<u8>> {
    let mut out = Vec::new();
    let mut rest = content;
    while out.is_empty() || !rest.is_empty() {
        let start = if out.is_empty() { 0x40 } else { 0 };
        let mut p = vec![0x47, start | (pid >> 8) as u8, pid as u8, 0x10 | out.len() as u8 % 16];
        if out.is_empty() {
            p.push(0);
        }
        let n = rest.len().min(188 - p.len());
        p.extend(&rest[..n]);
        p.resize(188, 0xFF);
        rest = &rest[n..];
        out.push(p);
    }
    out
}

/// A packet in which a section begins after the last bytes of another.
fn packet_with_pointer(pid: u16, end: &[u8], content: &[u8]) -> Vec<u8> {
    let mut p = vec![0x47, 0x40 | (pid >> 8) as u8, pid as u8, 0x15, end.len() as u8];
    p.extend(end);
    p.extend(content);
    assert!(p.len() <= 188);
    p.resize(188, 0xFF);
    p
}

/// A packet with the section at its very end, behind an adaptation field.
fn packet_with_adaptation(section: &[u8]) -> Vec<u8> {
    let field = 188 - 6 - section.len();
    let mut p = vec![0x47, 0x40, 0x20, 0x37, field as u8];
    p.push(0);
    p.resize(5 + field, 0xFF);
    p.push(0);
    p.extend(section);
    assert_eq!(p.len(), 188);
    p
}

/// A packet of video: the first of a frame, or a later one.
fn video(first: bool) -> Vec<u8> {
    let mut p = vec![0x47, if first { 0x41 } else { 0x01 }, 0x00, 0x10, 0, 0, 1, 0xE0];
    p.resize(188, 0x02);
    p
}

/// Reads the sections of a PID as a receiver does.
fn sections(stream: &[u8], pid: u16) -> Vec<Vec<u8>> {
    fn whole(pending: &mut Vec<u8>, out: &mut Vec<Vec<u8>>) {
        while pending.len() >= 3 && pending[0] != 0xFF {
            let n = 3 + (usize::from(pending[1] & 0x0F) << 8 | usize::from(pending[2]));
            if n > pending.len() {
                return;
            }
            out.push(pending.drain(..n).collect());
        }
    }
    let mut out = Vec::new();
    let mut pending: Option<Vec<u8>> = None;
    for p in stream.chunks(188) {
        assert_eq!((p.len(), p[0]), (188, 0x47));
        if u16::from(p[1] & 0x1F) << 8 | u16::from(p[2]) != pid {
            continue;
        }
        let start = if p[3] & 0x20 != 0 { 5 + usize::from(p[4]) } else { 4 };
        let payload = &p[start..];
        if p[1] & 0x40 == 0 {
            if let Some(bytes) = &mut pending {
                bytes.extend(payload);
                whole(bytes, &mut out);
            }
        } else {
            let (end, begin) = payload[1..].split_at(usize::from(payload[0]));
            if let Some(bytes) = &mut pending {
                bytes.extend(end);
                whole(bytes, &mut out);
            }
            let mut bytes = begin.to_vec();
            whole(&mut bytes, &mut out);
            pending = Some(bytes);
        }
    }
    out
}

/// What comes out of a new filter.
fn filtered(stream: &[u8]) -> Vec<u8> {
    HdmvFilter::new().push(stream)
}

#[test]
fn the_mark_is_taken_out_of_a_packet() {
    let marked = pmt(&HDMV, &stream(0x1B, 0x41, &HDMV_LONG));
    let plain = pmt(&[], &stream(0x1B, 0x41, &[]));
    assert_eq!(filtered(&packets(0x20, &marked)[0]), packets(0x20, &plain)[0]);

    let p = packet_with_adaptation(&marked);
    let start = 188 - marked.len();
    let out = filtered(&p);
    assert_eq!(out.len(), 188);
    assert_eq!(out[..start], p[..start]);
    assert_eq!(out[start..start + plain.len()], plain);
    assert!(out[start + plain.len()..].iter().all(|b| *b == 0xFF));
    assert_eq!(release(&p), out);
}

#[test]
fn the_mark_is_taken_out_of_a_map_that_spans_packets() {
    let marked = packets(0x20, &large_pmt(20, true)).concat();
    assert_eq!(marked.len(), 3 * 188);
    let out = filtered(&marked);
    assert_eq!(sections(&out, 0x20), [large_pmt(20, false)]);
    // The packets stay as they were but for what they carry.
    assert_eq!(out.len(), marked.len());
    for (after, before) in out.chunks(188).zip(marked.chunks(188)) {
        assert_eq!(after[..4], before[..4]);
    }
    assert_eq!(release(&marked), out);
}

#[test]
fn a_map_is_held_back_until_it_is_whole_and_other_packets_pass() {
    let map = packets(0x20, &large_pmt(20, true));
    let mut filter = HdmvFilter::new();
    assert_eq!(filter.push(&video(true)), video(true));
    assert!(filter.push(&map[0]).is_empty());
    assert_eq!(filter.push(&video(false)), video(false));
    assert!(filter.push(&map[1]).is_empty());
    assert_eq!(filter.push(&video(true)), video(true));
    assert_eq!(filter.push(&map[2]), filtered(&map.concat()));
    // The next one is treated alike.
    assert!(filter.push(&map[0]).is_empty());
    assert_eq!(filter.push(&[&map[1][..], &map[2]].concat()), filtered(&map.concat()));
}

#[test]
fn maps_of_different_programs_do_not_mix() {
    let one = packets(0x20, &large_pmt(20, true));
    let two = packets(0x30, &large_pmt(15, true));
    let out = filtered(&[&one[0][..], &two[0], &one[1], &two[1], &one[2]].concat());
    assert_eq!(out.len(), 5 * 188);
    assert_eq!(sections(&out, 0x20), [large_pmt(20, false)]);
    assert_eq!(sections(&out, 0x30), [large_pmt(15, false)]);
}

#[test]
fn the_buffers_of_a_stream_do_not_matter() {
    let mut bytes = Vec::new();
    for i in 0..6 {
        bytes.extend(video(i % 2 == 0));
        bytes.extend(packets(0x20, &large_pmt(4 * i, true)).concat());
    }
    let expected = filtered(&bytes);
    assert_eq!(expected.len(), bytes.len());
    for size in [1, 7, 100, 187, 188, 189, 1316] {
        let mut filter = HdmvFilter::new();
        let mut out = Vec::new();
        for buffer in bytes.chunks(size) {
            out.extend(filter.push(buffer));
        }
        assert_eq!(out, expected);
    }
    let plain: Vec<Vec<u8>> = (0..6).map(|i| large_pmt(4 * i, false)).collect();
    assert_eq!(sections(&expected, 0x20), plain);
}

#[test]
fn sections_around_a_map_are_kept() {
    let marked = pmt(&HDMV, &stream(0x1B, 0x41, &HDMV_LONG));
    let plain = pmt(&[], &stream(0x1B, 0x41, &[]));
    let (before, after) = (other_section(20), other_section(30));
    let content = [&before[..], &marked, &after, &marked].concat();
    let expected = [&before[..], &plain, &after, &plain].concat();
    assert_eq!(filtered(&packets(0x20, &content)[0]), packets(0x20, &expected)[0]);
    // A section that goes on in the next packets holds the map back with it.
    let long = other_section(400);
    let stream = packets(0x20, &[&marked[..], &long, &marked].concat());
    let out = filtered(&stream.concat());
    assert_eq!(sections(&out, 0x20), [plain.clone(), long, plain]);
    assert!(filtered(&stream[..2].concat()).is_empty());
}

#[test]
fn a_map_may_end_where_the_next_one_begins() {
    let (large, plain) = (large_pmt(12, true), large_pmt(12, false));
    let first = &packets(0x20, &large)[0];
    let end = &large[183..];
    let second = packet_with_pointer(0x20, end, &pmt(&HDMV, &[]));
    let stream = [&first[..], &second].concat();
    let out = filtered(&stream);
    assert_eq!(out.len(), stream.len());
    assert_eq!(sections(&out, 0x20), [plain.clone(), pmt(&[], &[])]);

    // One that is cut off stays as it is, and the one that begins behind it is cleaned.
    let cut = packet_with_pointer(0x20, &end[..10], &pmt(&HDMV, &[]));
    let out = filtered(&[&first[..], &cut].concat());
    assert_eq!(out[..188], first[..]);
    assert_eq!(out[188..], packet_with_pointer(0x20, &end[..10], &pmt(&[], &[])));

    // The next one goes on in its turn, and ends in the packet after that.
    let room = 188 - 5 - end.len();
    let second = packet_with_pointer(0x20, end, &large[..room]);
    let third = packet_with_pointer(0x20, &large[room..], &[]);
    let mut filter = HdmvFilter::new();
    assert!(filter.push(first).is_empty());
    let mut out = filter.push(&second);
    assert_eq!(out.len(), 188);
    out.extend(filter.push(&third));
    assert_eq!(out.len(), 3 * 188);
    assert_eq!(sections(&out, 0x20), [plain.clone(), plain]);
}

#[test]
fn unmarked_maps_stay_as_they_are_and_stripping_twice_is_stripping_once() {
    let unmarked = [
        packets(0x20, &large_pmt(20, false)).concat(),
        packets(0x20, &[&other_section(10)[..], &pmt(&OTHER, &[])].concat()).concat(),
        packet_with_adaptation(&pmt(&OTHER, &[])),
        packets(0x20, &large_pmt(18, false))[0].clone(),
        packet_with_pointer(0x20, &large_pmt(18, false)[183..], &large_pmt(2, false)),
    ]
    .concat();
    assert_eq!(filtered(&unmarked), unmarked);
    let marked = packets(0x20, &large_pmt(20, true)).concat();
    let once = filtered(&marked);
    assert_ne!(once, marked);
    assert_eq!(filtered(&once), once);
    assert_eq!(release(&once), once);
}

#[test]
fn other_packets_stay_as_they_are() {
    let good = packets(0x20, &pmt(&HDMV, &stream(0x1B, 0x41, &[]))).concat();
    let broken = |at: usize, value: u8| {
        let mut p = good.clone();
        p[at] = value;
        p
    };
    for p in [
        video(true),
        video(false),
        // No sync byte; no section begins; no payload; an empty adaptation field moves the pointer.
        broken(0, 0x48),
        broken(1, 0x00),
        broken(3, 0x27),
        broken(3, 0x37),
        // The pointer leads out of the packet; another table; the short form.
        broken(4, 0xFF),
        broken(5, 0x00),
        broken(6, 0x30),
        // The descriptors do not fit; a bit is wrong.
        broken(16, 0xFF),
        broken(12, 0x02),
    ] {
        assert_eq!(filtered(&p), p);
    }
    // Longer than the packet, and never finished.
    let p = broken(6, 0xBF);
    let mut filter = HdmvFilter::new();
    assert!(filter.push(&p).is_empty());
    let next = packets(0x20, &pmt(&OTHER, &[])).concat();
    assert_eq!(filter.push(&next), [&p[..], &next].concat());
}

#[test]
fn a_pointer_that_leads_out_of_the_packet_ends_what_is_held_back() {
    let map = packets(0x20, &large_pmt(20, true));
    let mut astray = map[0].clone();
    astray[4] = 184;
    let mut filter = HdmvFilter::new();
    assert!(filter.push(&map[0]).is_empty());
    assert_eq!(filter.push(&astray), [&map[0][..], &astray].concat());
    // What follows belongs to nothing.
    assert_eq!(filter.push(&map[1]), map[1]);
    // One less, and a section could begin right behind the packet.
    astray[4] = 183;
    assert!(filter.push(&map[0]).is_empty());
    assert_eq!(filter.push(&astray).len(), 2 * 188);
}

#[test]
fn less_than_a_packet_waits_for_the_rest() {
    let p = video(true);
    let mut filter = HdmvFilter::new();
    assert!(filter.push(&[]).is_empty());
    assert!(filter.push(&p[..187]).is_empty());
    assert_eq!(filter.push(&p[187..]), p);
    assert_eq!(filter.push(&[&p[..], &p[..1]].concat()), p);
    assert_eq!(filter.push(&p[1..]), p);
}

#[test]
fn sections_are_whole_or_not() {
    let map = pmt(&HDMV, &[]);
    let other = other_section(5);
    for (content, begins, settled) in [
        (vec![], false, true),
        (vec![0xFF, 2], false, true),
        (map.clone(), true, true),
        (map[..1].to_vec(), true, false),
        (map[..map.len() - 1].to_vec(), true, false),
        ([&other[..], &map[..2]].concat(), true, false),
        ([&other[..], &[0xFF], &map].concat(), false, true),
        (other[..7].to_vec(), false, false),
        ([&map[..], &other[..7]].concat(), true, false),
    ] {
        assert_eq!(check_begins_pmt(&content), begins);
        assert_eq!(check_settled(&content), settled);
    }
    // What follows the last whole section moves up with the others.
    let content = [&map[..], &other, &[0xC0, 0x30]].concat();
    let plain = pmt(&[], &[]);
    let expected = [&plain[..], &other, &[0xC0, 0x30], &[0xFF; 6]].concat();
    assert_eq!(restuff(&content), expected);
}
