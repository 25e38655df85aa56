//! The removal of HDMV registration descriptors from a transport stream.
//!
//! A program map table (PMT) is a section, and sections are carried in packets: they may follow
//! one another within a packet, and go on in later packets of the same PID, among packets of
//! other PIDs and across the buffers that a stream arrives in. Where a PMT does not end in the
//! packet it begins in, the packets of its PID are held back until it is whole. The sections
//! that remain move up, stuffing takes the place that is left, and no packet is added or lost.
use std::collections::BTreeMap;
use vstd::prelude::*;
use vstd::slice::slice_subrange;
use crate::bytes::push_range;
use crate::pmt::{
    check_pmt, clean_section, cleaned, is_pmt, law_clean_pmt_is_kept,
    law_cleaned_pmt_keeps_the_rest, lemma_masks, length12, pmt_has_hdmv, read_length12,
};

verus! {

broadcast use vstd::std_specs::btree::group_btree_axioms;

/// The length of a transport stream packet.
pub const TS_PACKET: usize = 188;

/// Where the payload of a packet begins: after the header and the adaptation field.
pub open spec fn payload_start(p: Seq<u8>) -> int {
    if p[3] / 0x20 % 2 == 1 {
        5 + p[4]
    } else {
        4
    }
}

/// Whether a packet carries payload.
pub open spec fn has_payload(p: Seq<u8>) -> bool {
    p[0] == 0x47 && p[3] / 0x10 % 2 == 1 && payload_start(p) < TS_PACKET
}

/// Whether something begins in the payload of a packet.
pub open spec fn is_start(p: Seq<u8>) -> bool {
    p[1] / 0x40 % 2 == 1
}

/// The PID of a packet.
pub open spec fn pid_of(p: Seq<u8>) -> u16 {
    (p[1] % 0x20 * 0x100 + p[2]) as u16
}

/// Where the first section that begins in a packet begins: where the pointer at the start of the
/// payload says.
pub open spec fn section_start(p: Seq<u8>) -> int {
    payload_start(p) + 1 + p[payload_start(p)]
}

/// The length of the section that `c` begins with.
pub open spec fn section_len(c: Seq<u8>) -> int {
    3 + length12(c, 1)
}

/// Whether `c` begins with a whole section, and not with stuffing.
pub open spec fn has_section(c: Seq<u8>) -> bool {
    c.len() >= 3 && c[0] != 0xFF && section_len(c) <= c.len()
}

/// Whether a PMT begins among the sections of `c`, be it whole or not.
pub open spec fn begins_pmt(c: Seq<u8>) -> bool
    decreases c.len(),
{
    c.len() > 0 && (c[0] == 2 || (has_section(c) && begins_pmt(c.skip(section_len(c)))))
}

/// Whether all sections of `c` are whole: nothing follows them but stuffing.
pub open spec fn is_settled(c: Seq<u8>) -> bool
    decreases c.len(),
{
    c.len() == 0 || c[0] == 0xFF || (has_section(c) && is_settled(c.skip(section_len(c))))
}

/// Whether there is an HDMV registration in a PMT among the sections of `c`.
pub open spec fn is_marked(c: Seq<u8>) -> bool
    decreases c.len(),
{
    has_section(c) && ((is_pmt(c.take(section_len(c))) && pmt_has_hdmv(c.take(section_len(c))))
        || is_marked(c.skip(section_len(c))))
}

/// A section, cleaned if it is a PMT.
pub open spec fn clean(s: Seq<u8>) -> Seq<u8> {
    if is_pmt(s) {
        cleaned(s)
    } else {
        s
    }
}

/// Sections with every PMT among them cleaned. What follows the last whole section is kept.
pub open spec fn clean_sections(c: Seq<u8>) -> Seq<u8>
    decreases c.len(),
{
    if has_section(c) {
        clean(c.take(section_len(c))) + clean_sections(c.skip(section_len(c)))
    } else {
        c
    }
}

/// Bytes with stuffing after them, up to a length.
pub open spec fn stuffed(c: Seq<u8>, length: nat) -> Seq<u8> {
    c + Seq::new((length - c.len()) as nat, |i: int| 0xFFu8)
}

/// Cleaned sections in the place of what was there: stuffing makes up for what was taken out.
pub open spec fn restuffed(c: Seq<u8>) -> Seq<u8> {
    stuffed(clean_sections(c), c.len())
}

/// The last packet of a group.
pub open spec fn last_packet(g: Seq<u8>) -> Seq<u8> {
    g.skip(g.len() - TS_PACKET)
}

/// The packets of a group before the last.
pub open spec fn front_packets(g: Seq<u8>) -> Seq<u8> {
    g.take(g.len() - TS_PACKET)
}

/// Whether the bytes are a group: one or more whole packets, in the first of which a section
/// begins, and each of the others with payload.
pub open spec fn is_group(g: Seq<u8>) -> bool
    decreases g.len(),
{
    if g.len() <= TS_PACKET {
        g.len() == TS_PACKET && payload_start(g) < TS_PACKET && section_start(g) <= TS_PACKET
    } else {
        is_group(front_packets(g)) && payload_start(last_packet(g)) < TS_PACKET
    }
}

/// What a group carries from where its first section begins.
pub open spec fn content(g: Seq<u8>) -> Seq<u8>
    decreases g.len(),
{
    if g.len() <= TS_PACKET {
        g.skip(section_start(g))
    } else {
        content(front_packets(g)) + last_packet(g).skip(payload_start(last_packet(g)))
    }
}

/// A group that carries `c` instead.
pub open spec fn refilled(g: Seq<u8>, c: Seq<u8>) -> Seq<u8>
    decreases g.len(),
{
    if g.len() <= TS_PACKET {
        g.take(section_start(g)) + c
    } else {
        let n = content(front_packets(g)).len() as int;
        refilled(front_packets(g), c.take(n)) + last_packet(g).take(payload_start(last_packet(g)))
            + c.skip(n)
    }
}

/// A group with every PMT in it cleaned.
pub open spec fn released(g: Seq<u8>) -> Seq<u8> {
    refilled(g, restuffed(content(g)))
}

/// What a group carries together with the end of its last section, which stands in the packet `p`
/// before the section that begins there.
pub open spec fn content_up_to(g: Seq<u8>, p: Seq<u8>) -> Seq<u8> {
    content(g) + p.subrange(payload_start(p) + 1, section_start(p))
}

/// A group whose last section ends in the packet `p`, with every PMT in it cleaned.
pub open spec fn released_up_to(g: Seq<u8>, p: Seq<u8>) -> Seq<u8> {
    refilled(g, restuffed(content_up_to(g, p)).take(content(g).len() as int))
}

/// The packet `p`, with every PMT cleaned that ends in it and began in the group `g`.
pub open spec fn joined(g: Seq<u8>, p: Seq<u8>) -> Seq<u8> {
    p.take(payload_start(p) + 1) + restuffed(content_up_to(g, p)).skip(content(g).len() as int)
        + p.skip(section_start(p))
}

/// What comes out at a packet, and the groups that are held back after it.
pub struct Passage {
    pub out: Seq<u8>,
    pub held: Map<u16, Seq<u8>>,
}

/// What becomes of a packet `p` in which a section begins, once what was held back of its PID is
/// `out`: it passes unless a PMT begins in it, and is held back if that is not whole yet.
pub open spec fn started(held: Map<u16, Seq<u8>>, out: Seq<u8>, p: Seq<u8>) -> Passage {
    let c = content(p);
    if !begins_pmt(c) {
        Passage { out: out + p, held: held.remove(pid_of(p)) }
    } else if is_settled(c) {
        Passage { out: out + released(p), held: held.remove(pid_of(p)) }
    } else {
        Passage { out, held: held.insert(pid_of(p), p) }
    }
}

/// What becomes of a packet.
///
/// - A packet without payload passes.
/// - One in which something begins ends what is held back of its PID, which may reach into it as
///   far as its pointer says. A pointer that leads out of the packet ends it right there.
/// - Any other goes on with what is held back of its PID, which is released once it is whole; if
///   there is nothing held back it passes.
#[verifier::opaque]
pub open spec fn passage(held: Map<u16, Seq<u8>>, p: Seq<u8>) -> Passage {
    let pid = pid_of(p);
    if !has_payload(p) {
        Passage { out: p, held }
    } else if is_start(p) {
        if section_start(p) > TS_PACKET {
            if held.contains_key(pid) {
                Passage { out: released(held[pid]) + p, held: held.remove(pid) }
            } else {
                Passage { out: p, held }
            }
        } else if held.contains_key(pid) {
            started(held, released_up_to(held[pid], p), joined(held[pid], p))
        } else {
            started(held, Seq::empty(), p)
        }
    } else if held.contains_key(pid) {
        let g = held[pid] + p;
        if is_settled(content(g)) {
            Passage { out: released(g), held: held.remove(pid) }
        } else {
            Passage { out: Seq::empty(), held: held.insert(pid, g) }
        }
    } else {
        Passage { out: p, held }
    }
}

/// What becomes of a run of bytes, packet by packet.
pub open spec fn passages(held: Map<u16, Seq<u8>>, bytes: Seq<u8>) -> Passage
    decreases bytes.len(),
{
    if bytes.len() < TS_PACKET {
        Passage { out: Seq::empty(), held }
    } else {
        let first = passage(held, bytes.take(TS_PACKET as int));
        let rest = passages(first.held, bytes.skip(TS_PACKET as int));
        Passage { out: first.out + rest.out, held: rest.held }
    }
}

/// The bytes after the last whole packet.
pub open spec fn leftover(bytes: Seq<u8>) -> Seq<u8> {
    bytes.skip(bytes.len() - bytes.len() % TS_PACKET as nat)
}

/// Whether all that is held back are groups.
pub open spec fn all_groups(held: Map<u16, Seq<u8>>) -> bool {
    forall|pid: u16| #[trigger] held.contains_key(pid) ==> is_group(held[pid])
}

/// Whether a PMT begins in all that is held back, and is not whole yet.
pub open spec fn all_unfinished(held: Map<u16, Seq<u8>>) -> bool {
    forall|pid: u16| #[trigger]
        held.contains_key(pid) ==> begins_pmt(content(held[pid])) && !is_settled(
            content(held[pid]),
        )
}

/// Cleaning makes sections no longer, and changes nothing where nothing is marked.
proof fn lemma_clean_sections(c: Seq<u8>)
    ensures
        clean_sections(c).len() <= c.len(),
        !is_marked(c) ==> clean_sections(c) == c,
    decreases c.len(),
{
    if has_section(c) {
        let n = section_len(c);
        let s = c.take(n);
        lemma_clean_sections(c.skip(n));
        if is_pmt(s) {
            law_cleaned_pmt_keeps_the_rest(s);
            if !pmt_has_hdmv(s) {
                law_clean_pmt_is_kept(s);
            }
        }
        assert(s + c.skip(n) =~= c);
    }
}

/// A whole section is the first of what begins with it.
proof fn lemma_section_comes_first(s: Seq<u8>, rest: Seq<u8>)
    requires
        s.len() >= 3,
        s[0] != 0xFF,
        section_len(s) == s.len(),
    ensures
        has_section(s + rest),
        section_len(s + rest) == s.len(),
        (s + rest).take(s.len() as int) == s,
        (s + rest).skip(s.len() as int) == rest,
{
    let all = s + rest;
    assert(all[0] == s[0] && all[1] == s[1] && all[2] == s[2]);
    assert(all.take(s.len() as int) =~= s);
    assert(all.skip(s.len() as int) =~= rest);
}

/// Whole sections, cleaned and with stuffing `t` after them, are whole sections without a mark.
proof fn lemma_cleaned_sections_are_unmarked(c: Seq<u8>, t: Seq<u8>)
    requires
        is_settled(c),
        t.len() == 0 || t[0] == 0xFF,
    ensures
        is_settled(clean_sections(c) + t),
        !is_marked(clean_sections(c) + t),
    decreases c.len(),
{
    if has_section(c) {
        let n = section_len(c);
        let s = c.take(n);
        let rest = clean_sections(c.skip(n));
        lemma_cleaned_sections_are_unmarked(c.skip(n), t);
        if is_pmt(s) {
            law_cleaned_pmt_keeps_the_rest(s);
        }
        lemma_section_comes_first(clean(s), rest + t);
        vstd::seq_lib::lemma_concat_associative(clean(s), rest, t);
    }
}

/// What takes the place of sections is as long as they were; if they were whole, they are whole
/// again and without a mark; if nothing was marked, they are the same.
proof fn lemma_restuffed(c: Seq<u8>)
    ensures
        restuffed(c).len() == c.len(),
        is_settled(c) ==> is_settled(restuffed(c)) && !is_marked(restuffed(c)),
        !is_marked(c) ==> restuffed(c) == c,
{
    lemma_clean_sections(c);
    if is_settled(c) {
        let t = Seq::new((c.len() - clean_sections(c).len()) as nat, |i: int| 0xFFu8);
        lemma_cleaned_sections_are_unmarked(c, t);
    }
    if !is_marked(c) {
        assert(restuffed(c) =~= c);
    }
}

/// The packets of a group are whole.
proof fn lemma_group_len(g: Seq<u8>)
    requires
        is_group(g),
    ensures
        g.len() >= TS_PACKET,
        g.len() % TS_PACKET as nat == 0,
    decreases g.len(),
{
    if g.len() > TS_PACKET {
        lemma_group_len(front_packets(g));
    }
}

/// The first packets of a group are a group, and the next one carries on.
proof fn lemma_group_prefix(g: Seq<u8>, i: int)
    requires
        is_group(g),
        TS_PACKET <= i <= g.len(),
        i % TS_PACKET as int == 0,
    ensures
        is_group(g.take(i)),
        i < g.len() ==> i + TS_PACKET <= g.len() && payload_start(g.subrange(i, i + TS_PACKET))
            < TS_PACKET,
    decreases g.len(),
{
    lemma_group_len(g);
    if i == g.len() {
        assert(g.take(i) =~= g);
    } else {
        let front = front_packets(g);
        lemma_group_prefix(front, i);
        assert(front.take(i) =~= g.take(i));
        if i == front.len() {
            assert(g.subrange(i, i + TS_PACKET) =~= last_packet(g));
        } else {
            assert(g.subrange(i, i + TS_PACKET) =~= front.subrange(i, i + TS_PACKET));
        }
    }
}

/// What the first packets of a group carry, by one packet more.
proof fn lemma_group_grows(g: Seq<u8>, i: int)
    requires
        TS_PACKET <= i,
        i + TS_PACKET <= g.len(),
    ensures
        front_packets(g.take(i + TS_PACKET)) == g.take(i),
        last_packet(g.take(i + TS_PACKET)) == g.subrange(i, i + TS_PACKET),
{
    assert(front_packets(g.take(i + TS_PACKET)) =~= g.take(i));
    assert(last_packet(g.take(i + TS_PACKET)) =~= g.subrange(i, i + TS_PACKET));
}

/// The first packets of a group carry no more than all of them.
proof fn lemma_content_grows(g: Seq<u8>, i: int)
    requires
        is_group(g),
        TS_PACKET <= i <= g.len(),
        i % TS_PACKET as int == 0,
    ensures
        content(g.take(i)).len() <= content(g).len(),
    decreases g.len() - i,
{
    lemma_group_len(g);
    if i == g.len() {
        assert(g.take(i) =~= g);
    } else {
        lemma_group_prefix(g, i);
        lemma_group_grows(g, i);
        lemma_content_grows(g, i + TS_PACKET);
    }
}

/// The header of a packet stays when its payload changes.
proof fn lemma_header_stays(p: Seq<u8>, q: Seq<u8>, n: int)
    requires
        p.len() == TS_PACKET,
        q.len() == TS_PACKET,
        payload_start(p) <= n <= TS_PACKET,
        p.take(n) == q.take(n),
    ensures
        payload_start(q) == payload_start(p),
        has_payload(q) == has_payload(p),
        is_start(q) == is_start(p),
        pid_of(q) == pid_of(p),
        n > payload_start(p) ==> section_start(q) == section_start(p),
        p.take(4) == q.take(4),
{
    assert(p.take(4) =~= p.take(n).take(4));
    assert(q.take(4) =~= q.take(n).take(4));
    assert forall|j: int| 0 <= j < n implies p[j] == q[j] by {
        assert(p.take(n)[j] == p[j]);
        assert(q.take(n)[j] == q[j]);
    }
}

/// Whether two runs of packets have the same packet headers.
pub open spec fn same_headers(a: Seq<u8>, b: Seq<u8>) -> bool
    decreases a.len(),
{
    &&& a.len() == b.len()
    &&& a.len() >= TS_PACKET ==> last_packet(a).take(4) == last_packet(b).take(4)
        && same_headers(front_packets(a), front_packets(b))
}

/// Bytes that are cut at two places and put together again are the same.
proof fn lemma_put_together(s: Seq<u8>, a: int, b: int)
    requires
        0 <= a <= b <= s.len(),
    ensures
        s.take(a) + s.subrange(a, b) + s.skip(b) == s,
{
    assert(s.take(a) + s.subrange(a, b) + s.skip(b) =~= s);
}

/// A first packet that carries something else.
proof fn lemma_first_refilled(g: Seq<u8>, c: Seq<u8>)
    requires
        is_group(g),
        g.len() == TS_PACKET,
        c.len() == content(g).len(),
    ensures
        refilled(g, c).len() == TS_PACKET,
        is_group(refilled(g, c)),
        content(refilled(g, c)) == c,
        c == content(g) ==> refilled(g, c) == g,
        same_headers(g, refilled(g, c)),
{
    let n = section_start(g);
    let new = refilled(g, c);
    assert(new.take(n) =~= g.take(n));
    lemma_header_stays(g, new, n);
    assert(new.skip(n) =~= c);
    assert(g.take(n) + g.skip(n) =~= g);
    assert(last_packet(g) =~= g);
    assert(last_packet(new) =~= new);
    assert(same_headers(front_packets(g), front_packets(new)));
}

/// A later packet that carries something else.
proof fn lemma_next_refilled(front: Seq<u8>, last: Seq<u8>, new_front: Seq<u8>, d: Seq<u8>)
    requires
        is_group(new_front),
        same_headers(front, new_front),
        last.len() == TS_PACKET,
        payload_start(last) < TS_PACKET,
        d.len() == TS_PACKET - payload_start(last),
    ensures
        ({
            let new = new_front + last.take(payload_start(last)) + d;
            &&& new.len() == front.len() + TS_PACKET
            &&& is_group(new)
            &&& content(new) == content(new_front) + d
            &&& same_headers(front + last, new)
        }),
{
    lemma_group_len(new_front);
    let start = payload_start(last);
    let new = new_front + last.take(start) + d;
    let new_last = last.take(start) + d;
    assert(front_packets(new) =~= new_front);
    assert(last_packet(new) =~= new_last);
    assert(new_last.take(start) =~= last.take(start));
    lemma_header_stays(last, new_last, start);
    assert(new_last.skip(start) =~= d);
    assert(front_packets(front + last) =~= front);
    assert(last_packet(front + last) =~= last);
}

/// A group that carries something else is a group, as long as before, with the same headers, and
/// it carries that; what it carried already makes no difference.
proof fn lemma_refilled(g: Seq<u8>, c: Seq<u8>)
    requires
        is_group(g),
        c.len() == content(g).len(),
    ensures
        refilled(g, c).len() == g.len(),
        is_group(refilled(g, c)),
        content(refilled(g, c)) == c,
        c == content(g) ==> refilled(g, c) == g,
        same_headers(g, refilled(g, c)),
    decreases g.len(),
{
    lemma_group_len(g);
    if g.len() <= TS_PACKET {
        lemma_first_refilled(g, c);
    } else {
        let front = front_packets(g);
        let last = last_packet(g);
        let n = content(front).len() as int;
        let start = payload_start(last);
        assert(front + last =~= g);
        lemma_refilled(front, c.take(n));
        lemma_next_refilled(front, last, refilled(front, c.take(n)), c.skip(n));
        assert(c.take(n) + c.skip(n) =~= c);
        if c == content(g) {
            assert(c.take(n) =~= content(front));
            assert(c.skip(n) =~= last.skip(start));
            let k = front.len() as int;
            lemma_put_together(g, k, k + start);
            assert(g.subrange(k, k + start) =~= last.take(start));
            assert(g.skip(k + start) =~= last.skip(start));
        }
    }
}

/// Up to its first section a group that carries something else is the same.
proof fn lemma_lead_stays(g: Seq<u8>, c: Seq<u8>)
    requires
        is_group(g),
        c.len() == content(g).len(),
    ensures
        0 <= section_start(g) <= TS_PACKET,
        refilled(g, c).take(section_start(g)) == g.take(section_start(g)),
    decreases g.len(),
{
    lemma_group_len(g);
    let k = section_start(g);
    let new = refilled(g, c);
    if g.len() <= TS_PACKET {
        assert(new.take(k) =~= g.take(k));
    } else {
        let front = front_packets(g);
        let n = content(front).len() as int;
        let new_front = refilled(front, c.take(n));
        lemma_lead_stays(front, c.take(n));
        lemma_refilled(front, c.take(n));
        assert(payload_start(front) == payload_start(g));
        assert(section_start(front) == k);
        assert(new.take(k) =~= new_front.take(k));
        assert(g.take(k) =~= front.take(k));
    }
}

/// A group whose sections are whole comes out without a mark, and as long as it went in. The
/// header of every packet is the same, and so is all that stands before the first section. What
/// it carries from there are the sections that were there, in order, each PMT among them cleaned,
/// and stuffing.
pub proof fn law_no_mark_is_left(g: Seq<u8>)
    requires
        is_group(g),
    ensures
        released(g).len() == g.len(),
        is_group(released(g)),
        content(released(g)) == restuffed(content(g)),
        is_settled(content(g)) ==> !is_marked(content(released(g))),
        same_headers(g, released(g)),
        released(g).take(section_start(g)) == g.take(section_start(g)),
{
    lemma_restuffed(content(g));
    lemma_refilled(g, restuffed(content(g)));
    lemma_lead_stays(g, restuffed(content(g)));
}

/// A group in which nothing is marked comes out as it went in.
pub proof fn law_unmarked_groups_are_kept(g: Seq<u8>)
    requires
        is_group(g),
        !is_marked(content(g)),
    ensures
        released(g) == g,
{
    lemma_restuffed(content(g));
    lemma_refilled(g, content(g));
}

/// Stripping twice is stripping once.
pub proof fn law_stripping_is_idempotent(g: Seq<u8>)
    requires
        is_group(g),
        is_settled(content(g)),
    ensures
        released(released(g)) == released(g),
{
    law_no_mark_is_left(g);
    law_unmarked_groups_are_kept(released(g));
}

/// A packet in which the bytes before its first section are others.
proof fn lemma_end_replaced(p: Seq<u8>, d: Seq<u8>)
    requires
        is_group(p),
        p.len() == TS_PACKET,
        d.len() == section_start(p) - payload_start(p) - 1,
    ensures
        ({
            let q = p.take(payload_start(p) + 1) + d + p.skip(section_start(p));
            &&& q.len() == TS_PACKET
            &&& is_group(q)
            &&& payload_start(q) == payload_start(p)
            &&& section_start(q) == section_start(p)
            &&& pid_of(q) == pid_of(p)
            &&& content(q) == content(p)
            &&& q.subrange(payload_start(p) + 1, section_start(p)) == d
            &&& d == p.subrange(payload_start(p) + 1, section_start(p)) ==> q == p
        }),
{
    let start = payload_start(p) + 1;
    let end = section_start(p);
    let q = p.take(start) + d + p.skip(end);
    assert(q.take(start) =~= p.take(start));
    lemma_header_stays(p, q, start);
    assert(q.skip(end) =~= p.skip(end));
    assert(q.subrange(start, end) =~= d);
    lemma_put_together(p, start, end);
}

/// A group whose last section ends in the packet in which the next section begins comes out
/// without a mark too. That packet stays as it is but for the end of that section, and if nothing
/// was marked both stay as they are.
pub proof fn law_no_mark_is_left_before_a_pointer(g: Seq<u8>, p: Seq<u8>)
    requires
        is_group(g),
        is_group(p),
        p.len() == TS_PACKET,
    ensures
        released_up_to(g, p).len() == g.len(),
        is_group(released_up_to(g, p)),
        same_headers(g, released_up_to(g, p)),
        released_up_to(g, p).take(section_start(g)) == g.take(section_start(g)),
        joined(g, p).len() == TS_PACKET,
        is_group(joined(g, p)),
        pid_of(joined(g, p)) == pid_of(p),
        content(joined(g, p)) == content(p),
        content_up_to(released_up_to(g, p), joined(g, p)) == restuffed(content_up_to(g, p)),
        is_settled(content_up_to(g, p)) ==> !is_marked(
            content_up_to(released_up_to(g, p), joined(g, p)),
        ),
        !is_marked(content_up_to(g, p)) ==> released_up_to(g, p) == g && joined(g, p) == p,
{
    let c = content_up_to(g, p);
    let new = restuffed(c);
    let n = content(g).len() as int;
    lemma_restuffed(c);
    lemma_refilled(g, new.take(n));
    lemma_lead_stays(g, new.take(n));
    lemma_end_replaced(p, new.skip(n));
    assert(new.take(n) + new.skip(n) =~= new);
    if !is_marked(c) {
        assert(c.take(n) =~= content(g));
        assert(c.skip(n) =~= p.subrange(payload_start(p) + 1, section_start(p)));
    }
}

/// A group and a packet with payload are a group.
proof fn lemma_group_goes_on(g: Seq<u8>, p: Seq<u8>)
    requires
        is_group(g),
        p.len() == TS_PACKET,
        payload_start(p) < TS_PACKET,
    ensures
        is_group(g + p),
{
    lemma_group_len(g);
    assert(front_packets(g + p) =~= g);
    assert(last_packet(g + p) =~= p);
}

/// How many bytes are held back of a PID.
pub open spec fn held_len(held: Map<u16, Seq<u8>>, pid: u16) -> int {
    if held.contains_key(pid) {
        held[pid].len() as int
    } else {
        0
    }
}

/// No packet is added or lost: what comes out and what is held back of a PID are as long as what
/// was held back and the packet. Nothing changes for other PIDs.
pub proof fn law_no_packet_is_lost(held: Map<u16, Seq<u8>>, p: Seq<u8>)
    requires
        all_groups(held),
        p.len() == TS_PACKET,
    ensures
        all_groups(passage(held, p).held),
        passage(held, p).out.len() + held_len(passage(held, p).held, pid_of(p)) == held_len(
            held,
            pid_of(p),
        ) + TS_PACKET,
        passage(held, p).held.remove(pid_of(p)) == held.remove(pid_of(p)),
{
    reveal(passage);
    let pid = pid_of(p);
    let after = passage(held, p).held;
    if has_payload(p) {
        if is_start(p) {
            if section_start(p) > TS_PACKET {
                if held.contains_key(pid) {
                    law_no_mark_is_left(held[pid]);
                }
            } else if held.contains_key(pid) {
                law_no_mark_is_left_before_a_pointer(held[pid], p);
                law_no_mark_is_left(joined(held[pid], p));
            } else {
                law_no_mark_is_left(p);
            }
        } else if held.contains_key(pid) {
            lemma_group_goes_on(held[pid], p);
            law_no_mark_is_left(held[pid] + p);
        }
    }
    assert(after.remove(pid) =~= held.remove(pid));
}

/// A PMT that begins among sections still begins there when more arrives.
proof fn lemma_begins_pmt_still(c: Seq<u8>, d: Seq<u8>)
    requires
        begins_pmt(c),
    ensures
        begins_pmt(c + d),
    decreases c.len(),
{
    if c[0] != 2 {
        let n = section_len(c);
        lemma_begins_pmt_still(c.skip(n), d);
        assert((c + d).skip(n) =~= c.skip(n) + d);
        assert((c + d)[0] == c[0] && (c + d)[1] == c[1] && (c + d)[2] == c[2]);
    }
}

/// Packets are held back only as long as a PMT in them is not whole.
pub proof fn law_only_unfinished_maps_are_held(held: Map<u16, Seq<u8>>, p: Seq<u8>)
    requires
        all_groups(held),
        all_unfinished(held),
        p.len() == TS_PACKET,
    ensures
        all_unfinished(passage(held, p).held),
{
    reveal(passage);
    let pid = pid_of(p);
    if has_payload(p) && held.contains_key(pid) {
        if is_start(p) && section_start(p) <= TS_PACKET {
            law_no_mark_is_left_before_a_pointer(held[pid], p);
        } else if !is_start(p) {
            let g = held[pid];
            lemma_group_len(g);
            assert(front_packets(g + p) =~= g);
            assert(last_packet(g + p) =~= p);
            lemma_begins_pmt_still(content(g), p.skip(payload_start(p)));
        }
    }
}

/// Where no PMT begins, nothing is marked.
proof fn lemma_unmarked_without_pmt(c: Seq<u8>)
    requires
        !begins_pmt(c),
    ensures
        !is_marked(c),
    decreases c.len(),
{
    if has_section(c) {
        assert(c.take(section_len(c))[0] == c[0]);
        lemma_unmarked_without_pmt(c.skip(section_len(c)));
    }
}

/// Cleaned or not, what a packet carries comes out of [`started`] without a mark if it is whole,
/// and all that stands before its first section is the same.
proof fn lemma_started_is_unmarked(held: Map<u16, Seq<u8>>, out: Seq<u8>, p: Seq<u8>)
    requires
        is_group(p),
        p.len() == TS_PACKET,
        !begins_pmt(content(p)) || is_settled(content(p)),
    ensures
        ({
            let last = started(held, out, p).out.skip(out.len() as int);
            &&& last.len() == TS_PACKET
            &&& is_group(last)
            &&& !is_marked(content(last))
            &&& last.take(section_start(p)) == p.take(section_start(p))
            &&& started(held, out, p).out.take(out.len() as int) == out
            &&& !started(held, out, p).held.contains_key(pid_of(p))
        }),
{
    law_no_mark_is_left(p);
    let all = started(held, out, p).out;
    let n = out.len() as int;
    assert(all.take(n) =~= out);
    if begins_pmt(content(p)) {
        assert(all.skip(n) =~= released(p));
    } else {
        assert(all.skip(n) =~= p);
        lemma_unmarked_without_pmt(content(p));
    }
}

/// The end of a section that stands in the packet `p` is the same in `q`, if they are the same up
/// to the section that begins there.
proof fn lemma_same_end(g: Seq<u8>, p: Seq<u8>, q: Seq<u8>)
    requires
        is_group(p),
        p.len() == TS_PACKET,
        q.len() == TS_PACKET,
        q.take(section_start(p)) == p.take(section_start(p)),
    ensures
        content_up_to(g, q) == content_up_to(g, p),
{
    let start = payload_start(p) + 1;
    let end = section_start(p);
    lemma_header_stays(p, q, end);
    assert(q.subrange(start, end) =~= q.take(end).subrange(start, end));
    assert(p.subrange(start, end) =~= p.take(end).subrange(start, end));
}

/// Sections that are whole with a packet come out without a mark.
///
/// - With nothing held back of its PID, the sections that begin in the packet.
/// - With something held back that the packet goes on with, both together.
/// - With something held back that the packet ends by its pointer, what was held back together
///   with its end in the packet, and the sections that begin in the packet. Of those two parts,
///   each that is whole is without a mark. What was held back comes out first and at once; the
///   packet follows, unless a PMT begins in it that is not whole yet. Then it is held back in its
///   turn, with the end of what came out already in it.
pub proof fn law_what_comes_out_is_unmarked(held: Map<u16, Seq<u8>>, p: Seq<u8>)
    requires
        all_groups(held),
        p.len() == TS_PACKET,
        has_payload(p),
    ensures
        ({
            let pid = pid_of(p);
            let out = passage(held, p).out;
            let after = passage(held, p).held;
            let n = held[pid].len() as int;
            &&& !held.contains_key(pid) && is_start(p) && section_start(p) <= TS_PACKET
                && is_settled(content(p)) ==> is_group(out) && !is_marked(content(out))
            &&& held.contains_key(pid) && !is_start(p) && is_settled(content(held[pid] + p))
                ==> is_group(out) && !is_marked(content(out))
            &&& held.contains_key(pid) && is_start(p) && section_start(p) <= TS_PACKET ==> {
                &&& out.take(n) == released_up_to(held[pid], p)
                &&& after.contains_key(pid) == (begins_pmt(content(p)) && !is_settled(content(p)))
                &&& !after.contains_key(pid) ==> {
                    &&& is_group(out.skip(n))
                    &&& !is_marked(content(out.skip(n)))
                    &&& is_settled(content_up_to(held[pid], p)) ==> !is_marked(
                        content_up_to(out.take(n), out.skip(n)),
                    )
                }
                &&& after.contains_key(pid) ==> {
                    &&& out.len() == n
                    &&& after[pid] == joined(held[pid], p)
                    &&& is_settled(content_up_to(held[pid], p)) ==> !is_marked(
                        content_up_to(out, after[pid]),
                    )
                }
            }
        }),
{
    reveal(passage);
    let pid = pid_of(p);
    let out = passage(held, p).out;
    if held.contains_key(pid) {
        let g = held[pid];
        if !is_start(p) {
            lemma_group_goes_on(g, p);
            law_no_mark_is_left(g + p);
        } else if section_start(p) <= TS_PACKET {
            let front = released_up_to(g, p);
            let q = joined(g, p);
            let n = g.len() as int;
            law_no_mark_is_left_before_a_pointer(g, p);
            if begins_pmt(content(p)) && !is_settled(content(p)) {
                assert(out.take(n) =~= front);
            } else {
                lemma_started_is_unmarked(held, front, q);
                lemma_same_end(front, q, out.skip(n));
            }
        }
    } else if is_start(p) && section_start(p) <= TS_PACKET && is_settled(content(p)) {
        lemma_started_is_unmarked(held, Seq::empty(), p);
        assert(out.skip(0) =~= out);
    }
}

/// A packet passes at once and unchanged, and holds nothing back, if it has no payload, or if
/// nothing of its PID is held back and no PMT begins in it.
pub proof fn law_other_packets_pass(held: Map<u16, Seq<u8>>, p: Seq<u8>)
    requires
        p.len() == TS_PACKET,
        !has_payload(p) || (!held.contains_key(pid_of(p)) && (!is_start(p) || section_start(p)
            > TS_PACKET || !begins_pmt(content(p)))),
    ensures
        passage(held, p).out == p,
        passage(held, p).held == held,
{
    reveal(passage);
    assert(held.remove(pid_of(p)) =~= held || held.contains_key(pid_of(p)));
    assert(Seq::<u8>::empty() + p =~= p);
}

/// Media pass at once and unchanged: nothing of their PIDs is ever held back, for an elementary
/// stream packet begins with a start code, and that is not where a PMT begins.
pub proof fn law_media_pass(held: Map<u16, Seq<u8>>, p: Seq<u8>)
    requires
        p.len() == TS_PACKET,
        !held.contains_key(pid_of(p)),
        has_payload(p) && is_start(p) ==> payload_start(p) + 4 <= TS_PACKET && p[payload_start(p)]
            == 0 && p[payload_start(p) + 1] == 0 && p[payload_start(p) + 2] == 1,
    ensures
        passage(held, p).out == p,
        passage(held, p).held == held,
{
    if has_payload(p) && is_start(p) {
        let c = content(p);
        let start = payload_start(p);
        assert(section_start(p) == start + 1);
        assert(c[0] == p[start + 1] && c[1] == p[start + 2] && c[2] == p[start + 3]);
        assert(!has_section(c));
    }
    law_other_packets_pass(held, p);
}

/// Sections that are whole in their packet come out at once: with nothing held back of its PID,
/// the packet is released on the spot.
pub proof fn law_whole_maps_pass_at_once(held: Map<u16, Seq<u8>>, p: Seq<u8>)
    requires
        p.len() == TS_PACKET,
        has_payload(p),
        is_start(p),
        section_start(p) <= TS_PACKET,
        !held.contains_key(pid_of(p)),
        is_settled(content(p)),
    ensures
        passage(held, p).out == released(p),
        passage(held, p).held == held,
{
    reveal(passage);
    assert(held.remove(pid_of(p)) =~= held);
    assert(Seq::<u8>::empty() + released(p) =~= released(p));
    if !begins_pmt(content(p)) {
        lemma_unmarked_without_pmt(content(p));
        law_unmarked_groups_are_kept(p);
    }
}

/// What becomes of bytes, by the first packet.
proof fn lemma_first_packet(held: Map<u16, Seq<u8>>, bytes: Seq<u8>)
    requires
        bytes.len() >= TS_PACKET,
    ensures
        ({
            let first = passage(held, bytes.take(TS_PACKET as int));
            let rest = bytes.skip(TS_PACKET as int);
            &&& passages(held, bytes).out == first.out + passages(first.held, rest).out
            &&& passages(held, bytes).held == passages(first.held, rest).held
            &&& leftover(bytes) == leftover(rest)
        }),
{
    let rest = bytes.skip(TS_PACKET as int);
    let n = bytes.len() % TS_PACKET as nat;
    assert(rest.len() % TS_PACKET as nat == n);
    assert(leftover(bytes) =~= leftover(rest));
}

/// The buffers that a stream arrives in do not matter: two in a row give what the two together
/// give, wherever the first one ends.
pub proof fn law_buffers_do_not_matter(held: Map<u16, Seq<u8>>, a: Seq<u8>, b: Seq<u8>)
    ensures
        ({
            let first = passages(held, a);
            let second = passages(first.held, leftover(a) + b);
            let both = passages(held, a + b);
            &&& both.out == first.out + second.out
            &&& both.held == second.held
            &&& leftover(a + b) == leftover(leftover(a) + b)
        }),
    decreases a.len(),
{
    let n = TS_PACKET as int;
    if a.len() < TS_PACKET {
        assert(leftover(a) =~= a);
        let second = passages(held, a + b);
        assert(Seq::<u8>::empty() + second.out =~= second.out);
    } else {
        let rest = a.skip(n);
        let one = passage(held, a.take(n));
        assert((a + b).take(n) =~= a.take(n));
        assert((a + b).skip(n) =~= rest + b);
        lemma_first_packet(held, a);
        lemma_first_packet(held, a + b);
        law_buffers_do_not_matter(one.held, rest, b);
        let first = passages(one.held, rest);
        let second = passages(first.held, leftover(rest) + b);
        vstd::seq_lib::lemma_concat_associative(one.out, first.out, second.out);
    }
}

/// What is left of sections from `i` on, by the one that begins there.
proof fn lemma_section_at(c: Seq<u8>, i: int)
    requires
        0 <= i <= c.len(),
    ensures
        has_section(c.skip(i)) == (i + 3 <= c.len() && c[i] != 0xFF && i + 3 + length12(c, i + 1)
            <= c.len()),
        has_section(c.skip(i)) ==> {
            let n = 3 + length12(c, i + 1);
            &&& section_len(c.skip(i)) == n
            &&& c.skip(i).take(n) == c.subrange(i, i + n)
            &&& c.skip(i).skip(n) == c.skip(i + n)
        },
{
    let rest = c.skip(i);
    if i + 3 <= c.len() {
        assert(rest[0] == c[i] && rest[1] == c[i + 1] && rest[2] == c[i + 2]);
        let n = section_len(rest);
        if n <= rest.len() {
            assert(rest.take(n) =~= c.subrange(i, i + n));
            assert(rest.skip(n) =~= c.skip(i + n));
        }
    }
}

/// The length of the section that begins at `i`, if there is a whole one.
fn section_at(c: &[u8], i: usize) -> (n: Option<usize>)
    requires
        i <= c@.len(),
    ensures
        n is Some == has_section(c@.skip(i as int)),
        n matches Some(n) ==> n == section_len(c@.skip(i as int)) && n >= 3 && i + n <= c@.len()
            && c@.skip(i as int).take(n as int) == c@.subrange(i as int, i + n) && c@.skip(
            i as int,
        ).skip(n as int) == c@.skip(i + n),
{
    proof {
        lemma_section_at(c@, i as int);
    }
    if c.len() - i < 3 || c[i] == 0xFF {
        return None;
    }
    let n: usize = 3 + read_length12(c, i + 1);
    if n <= c.len() - i {
        Some(n)
    } else {
        None
    }
}

/// Whether a PMT begins among sections.
pub fn check_begins_pmt(c: &[u8]) -> (begins: bool)
    ensures
        begins == begins_pmt(c@),
{
    let mut i: usize = 0;
    assert(c@.skip(0) =~= c@);
    while i < c.len()
        invariant
            i <= c.len(),
            begins_pmt(c@) == begins_pmt(c@.skip(i as int)),
        decreases c@.len() - i,
    {
        assert(c@.skip(i as int)[0] == c@[i as int]);
        if c[i] == 2 {
            return true;
        }
        match section_at(c, i) {
            Some(n) => {
                i += n;
            },
            None => {
                return false;
            },
        }
    }
    false
}

/// Whether all sections are whole.
pub fn check_settled(c: &[u8]) -> (settled: bool)
    ensures
        settled == is_settled(c@),
{
    let mut i: usize = 0;
    assert(c@.skip(0) =~= c@);
    while i < c.len()
        invariant
            i <= c.len(),
            is_settled(c@) == is_settled(c@.skip(i as int)),
        decreases c@.len() - i,
    {
        assert(c@.skip(i as int)[0] == c@[i as int]);
        if c[i] == 0xFF {
            return true;
        }
        match section_at(c, i) {
            Some(n) => {
                i += n;
            },
            None => {
                return false;
            },
        }
    }
    true
}

/// Sections with every PMT among them cleaned, and stuffing after them.
pub fn restuff(c: &[u8]) -> (out: Vec<u8>)
    ensures
        out@ == restuffed(c@),
{
    let mut out: Vec<u8> = Vec::with_capacity(c.len());
    let mut i: usize = 0;
    assert(c@.skip(0) =~= c@);
    assert(out@ + clean_sections(c@) =~= clean_sections(c@));
    loop
        invariant
            i <= c.len(),
            out@ + clean_sections(c@.skip(i as int)) == clean_sections(c@),
        ensures
            !has_section(c@.skip(i as int)),
        decreases c@.len() - i,
    {
        let n: usize = match section_at(c, i) {
            Some(n) => n,
            None => {
                break;
            },
        };
        let ghost before = out@;
        let s = slice_subrange(c, i, i + n);
        if check_pmt(s) {
            let mut section = clean_section(s);
            out.append(&mut section);
        } else {
            push_range(&mut out, c, i, i + n);
        }
        proof {
            vstd::seq_lib::lemma_concat_associative(
                before,
                clean(s@),
                clean_sections(c@.skip(i + n)),
            );
        }
        i += n;
    }
    push_range(&mut out, c, i, c.len());
    assert(c@.subrange(i as int, c@.len() as int) =~= c@.skip(i as int));
    proof {
        lemma_clean_sections(c@);
    }
    let ghost sections = out@;
    while out.len() < c.len()
        invariant
            sections.len() <= out@.len() <= c@.len(),
            out@ == stuffed(sections, out@.len()),
        decreases c@.len() - out@.len(),
    {
        out.push(0xFF);
        assert(out@ =~= stuffed(sections, out@.len()));
    }
    out
}

/// Where the payload of a packet begins.
fn read_payload_start(p: &[u8]) -> (start: usize)
    requires
        p@.len() >= 5,
    ensures
        start == payload_start(p@),
{
    if p[3] / 0x20 % 2 == 1 {
        5 + p[4] as usize
    } else {
        4
    }
}

/// The PID of a packet.
fn read_pid(p: &[u8]) -> (pid: u16)
    requires
        p@.len() >= 3,
    ensures
        pid == pid_of(p@),
{
    (p[1] % 0x20) as u16 * 0x100 + p[2] as u16
}

/// What a group carries.
fn group_content(g: &[u8]) -> (c: Vec<u8>)
    requires
        is_group(g@),
    ensures
        c@ == content(g@),
{
    proof {
        lemma_group_len(g@);
        lemma_group_prefix(g@, TS_PACKET as int);
    }
    let first = slice_subrange(g, 0, TS_PACKET);
    assert(first@ =~= g@.take(TS_PACKET as int));
    let start: usize = read_payload_start(first);
    let start: usize = start + 1 + first[start] as usize;
    let mut c: Vec<u8> = Vec::with_capacity(g.len());
    push_range(&mut c, first, start, TS_PACKET);
    assert(c@ =~= content(g@.take(TS_PACKET as int)));
    let mut i: usize = TS_PACKET;
    while i < g.len()
        invariant
            is_group(g@),
            TS_PACKET <= i <= g.len(),
            i % TS_PACKET == 0,
            c@ == content(g@.take(i as int)),
        decreases g@.len() - i,
    {
        proof {
            lemma_group_prefix(g@, i as int);
            lemma_group_grows(g@, i as int);
        }
        let p = slice_subrange(g, i, i + TS_PACKET);
        let start: usize = read_payload_start(p);
        push_range(&mut c, p, start, TS_PACKET);
        assert(p@.subrange(start as int, TS_PACKET as int) =~= p@.skip(start as int));
        i += TS_PACKET;
    }
    assert(g@.take(i as int) =~= g@);
    c
}

/// A group that carries `c` instead.
fn refill(g: &[u8], c: &[u8]) -> (out: Vec<u8>)
    requires
        is_group(g@),
        c@.len() == content(g@).len(),
    ensures
        out@ == refilled(g@, c@),
{
    proof {
        lemma_group_len(g@);
        lemma_group_prefix(g@, TS_PACKET as int);
        lemma_content_grows(g@, TS_PACKET as int);
    }
    let first = slice_subrange(g, 0, TS_PACKET);
    assert(first@ =~= g@.take(TS_PACKET as int));
    let start: usize = read_payload_start(first);
    let start: usize = start + 1 + first[start] as usize;
    let mut out: Vec<u8> = Vec::with_capacity(g.len());
    let mut n: usize = TS_PACKET - start;
    push_range(&mut out, first, 0, start);
    push_range(&mut out, c, 0, n);
    assert(out@ =~= refilled(g@.take(TS_PACKET as int), c@.take(n as int)));
    let mut i: usize = TS_PACKET;
    while i < g.len()
        invariant
            is_group(g@),
            c@.len() == content(g@).len(),
            TS_PACKET <= i <= g.len(),
            i % TS_PACKET == 0,
            n == content(g@.take(i as int)).len(),
            n <= c@.len(),
            out@ == refilled(g@.take(i as int), c@.take(n as int)),
        decreases g@.len() - i,
    {
        proof {
            lemma_group_prefix(g@, i as int);
            lemma_group_grows(g@, i as int);
            lemma_content_grows(g@, i + TS_PACKET);
        }
        let p = slice_subrange(g, i, i + TS_PACKET);
        let start: usize = read_payload_start(p);
        let size: usize = TS_PACKET - start;
        assert(content(g@.take(i + TS_PACKET)) == content(g@.take(i as int)) + p@.skip(
            start as int,
        ));
        assert(n + size <= c.len());
        push_range(&mut out, p, 0, start);
        push_range(&mut out, c, n, n + size);
        proof {
            let upto = c@.take(n + size);
            assert(upto.take(n as int) =~= c@.take(n as int));
            assert(upto.skip(n as int) =~= c@.subrange(n as int, n + size));
            assert(p@.subrange(0, start as int) =~= p@.take(start as int));
        }
        n += size;
        i += TS_PACKET;
    }
    assert(g@.take(i as int) =~= g@);
    assert(c@.take(n as int) =~= c@);
    out
}

/// A group with every PMT in it cleaned.
pub fn release(g: &[u8]) -> (out: Vec<u8>)
    requires
        is_group(g@),
    ensures
        out@ == released(g@),
{
    let c = group_content(g);
    let new = restuff(c.as_slice());
    proof {
        lemma_restuffed(content(g@));
    }
    refill(g, new.as_slice())
}

/// A group whose last section ends in the packet `p`, and that packet, with every PMT cleaned
/// that began in the group.
pub fn release_up_to(g: &[u8], p: &[u8]) -> (out: (Vec<u8>, Vec<u8>))
    requires
        is_group(g@),
        is_group(p@),
        p@.len() == TS_PACKET,
    ensures
        out.0@ == released_up_to(g@, p@),
        out.1@ == joined(g@, p@),
{
    let start: usize = read_payload_start(p) + 1;
    let end: usize = start + p[start - 1] as usize;
    let mut c = group_content(g);
    let n: usize = c.len();
    push_range(&mut c, p, start, end);
    let new = restuff(c.as_slice());
    proof {
        lemma_restuffed(content_up_to(g@, p@));
    }
    let front = slice_subrange(new.as_slice(), 0, n);
    assert(front@ =~= new@.take(n as int));
    let out = refill(g, front);
    let mut join: Vec<u8> = Vec::with_capacity(TS_PACKET);
    push_range(&mut join, p, 0, start);
    push_range(&mut join, new.as_slice(), n, new.len());
    push_range(&mut join, p, end, TS_PACKET);
    assert(join@ =~= joined(g@, p@));
    (out, join)
}

/// Takes the HDMV registrations out of a transport stream as it goes by.
pub struct HdmvFilter {
    partial: Vec<u8>,
    held: BTreeMap<u16, Vec<u8>>,
}

/// The state of an [`HdmvFilter`].
#[verifier::ext_equal]
pub struct FilterView {
    /// The beginning of a packet whose end has not arrived yet.
    pub partial: Seq<u8>,
    /// The packets that are held back, by their PID.
    pub held: Map<u16, Seq<u8>>,
}

impl View for HdmvFilter {
    type V = FilterView;

    closed spec fn view(&self) -> FilterView {
        FilterView {
            partial: self.partial@,
            held: self.held@.map_values(|group: Vec<u8>| group@),
        }
    }
}

impl HdmvFilter {
    /// Less than a packet is left over, and what is held back are groups with an unfinished PMT.
    pub open spec fn wf(&self) -> bool {
        self@.partial.len() < TS_PACKET && all_groups(self@.held) && all_unfinished(self@.held)
    }

    /// Nothing has gone by yet.
    pub fn new() -> (filter: HdmvFilter)
        ensures
            filter.wf(),
            filter@ == (FilterView { partial: Seq::empty(), held: Map::empty() }),
    {
        let filter = HdmvFilter { partial: Vec::new(), held: BTreeMap::new() };
        assert(filter@.held =~= Map::empty());
        filter
    }

    /// Takes what is held back of a PID.
    fn take_held(&mut self, pid: u16) -> (group: Option<Vec<u8>>)
        ensures
            final(self)@.partial == old(self)@.partial,
            final(self)@.held == old(self)@.held.remove(pid),
            group is Some == old(self)@.held.contains_key(pid),
            group matches Some(group) ==> group@ == old(self)@.held[pid],
    {
        let group = self.held.remove(&pid);
        assert(self@.held =~= old(self)@.held.remove(pid));
        group
    }

    /// Holds a group back.
    fn hold(&mut self, pid: u16, group: Vec<u8>)
        ensures
            final(self)@.partial == old(self)@.partial,
            final(self)@.held == old(self)@.held.insert(pid, group@),
    {
        self.held.insert(pid, group);
        assert(self@.held =~= old(self)@.held.insert(pid, group@));
    }

    /// Decides on a packet in which a section begins.
    fn start(&mut self, p: Vec<u8>, out: &mut Vec<u8>)
        requires
            is_group(p@),
            p@.len() == TS_PACKET,
            !old(self)@.held.contains_key(pid_of(p@)),
        ensures
            final(self)@.partial == old(self)@.partial,
            final(out)@ == started(old(self)@.held, old(out)@, p@).out,
            final(self)@.held == started(old(self)@.held, old(out)@, p@).held,
    {
        let mut p = p;
        let pid: u16 = read_pid(p.as_slice());
        let c = group_content(p.as_slice());
        assert(self@.held.remove(pid) =~= self@.held);
        if !check_begins_pmt(c.as_slice()) {
            out.append(&mut p);
        } else if check_settled(c.as_slice()) {
            let mut group = release(p.as_slice());
            out.append(&mut group);
        } else {
            self.hold(pid, p);
        }
    }

    /// Decides on a packet.
    fn pass(&mut self, p: &[u8], out: &mut Vec<u8>)
        requires
            all_groups(old(self)@.held),
            p@.len() == TS_PACKET,
        ensures
            all_groups(final(self)@.held),
            final(self)@.partial == old(self)@.partial,
            final(out)@ == old(out)@ + passage(old(self)@.held, p@).out,
            final(self)@.held == passage(old(self)@.held, p@).held,
    {
        proof {
            reveal(passage);
            law_no_packet_is_lost(self@.held, p@);
        }
        let ghost before = self@.held;
        let start: usize = read_payload_start(p);
        assert(p@.subrange(0, p@.len() as int) =~= p@);
        if p[0] != 0x47 || p[3] / 0x10 % 2 != 1 || start >= TS_PACKET {
            push_range(out, p, 0, p.len());
            return;
        }
        let pid: u16 = read_pid(p);
        let held = self.take_held(pid);
        if p[1] / 0x40 % 2 != 1 {
            match held {
                Some(held) => {
                    let mut group = held;
                    push_range(&mut group, p, 0, p.len());
                    proof {
                        lemma_group_goes_on(before[pid], p@);
                    }
                    let c = group_content(group.as_slice());
                    if check_settled(c.as_slice()) {
                        let mut whole = release(group.as_slice());
                        out.append(&mut whole);
                    } else {
                        self.hold(pid, group);
                        assert(self@.held =~= before.insert(pid, before[pid] + p@));
                        assert(out@ =~= old(out)@ + Seq::<u8>::empty());
                    }
                },
                None => {
                    push_range(out, p, 0, p.len());
                    assert(self@.held =~= before);
                },
            }
            return;
        }
        if start + 1 + p[start] as usize > TS_PACKET {
            match held {
                Some(group) => {
                    let mut broken = release(group.as_slice());
                    out.append(&mut broken);
                    assert(out@ + p@ =~= old(out)@ + (released(before[pid]) + p@));
                },
                None => {
                    assert(self@.held =~= before);
                },
            }
            push_range(out, p, 0, p.len());
            return;
        }
        let mut passed: Vec<u8> = Vec::new();
        match held {
            Some(group) => {
                let (front, join) = release_up_to(group.as_slice(), p);
                proof {
                    law_no_mark_is_left_before_a_pointer(before[pid], p@);
                }
                passed = front;
                self.start(join, &mut passed);
                proof {
                    let q = joined(before[pid], p@);
                    assert(before.remove(pid).insert(pid, q) =~= before.insert(pid, q));
                    assert(before.remove(pid).remove(pid) =~= before.remove(pid));
                }
            },
            None => {
                let mut packet: Vec<u8> = Vec::with_capacity(TS_PACKET);
                push_range(&mut packet, p, 0, p.len());
                assert(packet@ =~= p@);
                assert(self@.held =~= before);
                self.start(packet, &mut passed);
            },
        }
        out.append(&mut passed);
    }

    /// Lets `bytes` go by, and returns what comes out.
    ///
    /// Packets come out at once, except for those of a PMT that is not whole yet: they come out
    /// when it is. Bytes may be split anywhere, also within a packet.
    pub fn push(&mut self, bytes: &[u8]) -> (out: Vec<u8>)
        requires
            old(self).wf(),
        ensures
            final(self).wf(),
            out@ == passages(old(self)@.held, old(self)@.partial + bytes@).out,
            final(self)@.held == passages(old(self)@.held, old(self)@.partial + bytes@).held,
            final(self)@.partial == leftover(old(self)@.partial + bytes@),
    {
        let mut input: Vec<u8> = Vec::new();
        input.append(&mut self.partial);
        push_range(&mut input, bytes, 0, bytes.len());
        assert(input@ =~= old(self)@.partial + bytes@);
        let mut out: Vec<u8> = Vec::with_capacity(input.len());
        let mut i: usize = 0;
        assert(input@.skip(0) =~= input@);
        let ghost first = self@.held;
        assert(first =~= old(self)@.held);
        assert(out@ + passages(first, input@).out =~= passages(first, input@).out);
        while input.len() - i >= TS_PACKET
            invariant
                i <= input.len(),
                i % TS_PACKET == 0,
                all_groups(self@.held),
                all_unfinished(self@.held),
                self@.partial.len() == 0,
                out@ + passages(self@.held, input@.skip(i as int)).out == passages(
                    first,
                    input@,
                ).out,
                passages(self@.held, input@.skip(i as int)).held == passages(first, input@).held,
            decreases input@.len() - i,
        {
            let ghost held = self@.held;
            let ghost rest = input@.skip(i as int);
            let ghost before = out@;
            let p = slice_subrange(input.as_slice(), i, i + TS_PACKET);
            proof {
                law_only_unfinished_maps_are_held(held, p@);
            }
            self.pass(p, &mut out);
            proof {
                let n = TS_PACKET as int;
                assert(p@ =~= rest.take(n));
                assert(rest.skip(n) =~= input@.skip(i + n));
                vstd::seq_lib::lemma_concat_associative(
                    before,
                    passage(held, p@).out,
                    passages(self@.held, rest.skip(n)).out,
                );
            }
            i += TS_PACKET;
        }
        let ghost held = self@.held;
        push_range(&mut self.partial, input.as_slice(), i, input.len());
        assert(self@.held =~= held);
        assert(out@ + Seq::<u8>::empty() =~= out@);
        assert(self@.partial =~= leftover(input@));
        out
    }
}

/// What the header of a packet says, bit by bit: bit 0x40 of the second byte that something begins
/// in the payload, the thirteen bits below bit 0x20 of it the PID, bit 0x20 of the fourth that there
/// is an adaptation field, whose length follows, and bit 0x10 of it that there is payload.
pub proof fn law_packets_are_known_by_their_headers(p: Seq<u8>)
    requires
        p.len() == 188,
    ensures
        ({
            let start: int = if p[3] & 0x20 != 0 {
                5 + p[4]
            } else {
                4
            };
            &&& payload_start(p) == start
            &&& has_payload(p) <==> p[0] == 0x47 && p[3] & 0x10 != 0 && start < 188
            &&& is_start(p) <==> p[1] & 0x40 != 0
            &&& pid_of(p) == (p[1] & 0x1F) * 0x100 + p[2]
            &&& section_start(p) == start + 1 + p[start]
        }),
{
    let (a, b): (u8, u8) = (p[1], p[3]);
    assert((b & 0x20 != 0) == (b / 0x20 % 2 == 1)) by (bit_vector);
    assert((b & 0x10 != 0) == (b / 0x10 % 2 == 1)) by (bit_vector);
    assert((a & 0x40 != 0) == (a / 0x40 % 2 == 1)) by (bit_vector);
    assert(a & 0x1F == a % 0x20) by (bit_vector);
}

/// A whole section counts for itself, whatever follows it: it is cleaned if it is a PMT and kept
/// otherwise, a PMT begins with it if it has table 2, and it is marked if it is a PMT with an HDMV
/// registration. Its length stands in the lower twelve bits of its second and third byte.
pub proof fn law_sections_count_for_themselves(s: Seq<u8>, rest: Seq<u8>)
    requires
        s.len() >= 3,
        s[0] != 0xFF,
        s.len() == 3 + (s[1] & 0x0F) * 0x100 + s[2],
    ensures
        is_pmt(s) ==> clean_sections(s + rest) == cleaned(s) + clean_sections(rest),
        !is_pmt(s) ==> clean_sections(s + rest) == s + clean_sections(rest),
        begins_pmt(s + rest) <==> s[0] == 2 || begins_pmt(rest),
        is_settled(s + rest) <==> is_settled(rest),
        is_marked(s + rest) <==> (is_pmt(s) && pmt_has_hdmv(s)) || is_marked(rest),
{
    lemma_masks(s[1]);
    lemma_section_comes_first(s, rest);
    assert((s + rest)[0] == s[0]);
}

/// What is no whole section is kept. If it is stuffing, or nothing, all is whole; otherwise a
/// section has begun that is not, and it is that of a PMT if it has table 2.
pub proof fn law_what_is_no_whole_section_is_kept(t: Seq<u8>)
    requires
        t.len() < 3 || t[0] == 0xFF || 3 + (t[1] & 0x0F) * 0x100 + t[2] > t.len(),
    ensures
        clean_sections(t) == t,
        !is_marked(t),
        is_settled(t) <==> t.len() == 0 || t[0] == 0xFF,
        begins_pmt(t) <==> t.len() > 0 && t[0] == 2,
{
    if t.len() >= 3 {
        lemma_masks(t[1]);
    }
}

/// What takes the place of sections is as long as they were: the cleaned sections, and bytes of
/// 0xFF after them.
pub proof fn law_stuffing_makes_up_for_what_was_taken_out(c: Seq<u8>)
    ensures
        restuffed(c).len() == c.len(),
        clean_sections(c).len() <= c.len(),
        restuffed(c).take(clean_sections(c).len() as int) == clean_sections(c),
        forall|i: int| clean_sections(c).len() <= i < c.len() ==> #[trigger] restuffed(c)[i] == 0xFF,
{
    lemma_restuffed(c);
    lemma_clean_sections(c);
    assert(restuffed(c).take(clean_sections(c).len() as int) =~= clean_sections(c));
}

/// What packets carry: the first one from where the pointer at the start of its payload leads, and
/// each of the others all of its payload. One in which the next section begins carries on with the
/// bytes between its pointer and that section.
pub proof fn law_packets_carry_their_payloads(first: Seq<u8>, g: Seq<u8>, p: Seq<u8>)
    requires
        first.len() == 188,
        g.len() >= 188,
        p.len() == 188,
    ensures
        content(first) == first.skip(section_start(first)),
        content(g + p) == content(g) + p.skip(payload_start(p)),
        content_up_to(g, p) == content(g) + p.subrange(payload_start(p) + 1, section_start(p)),
{
    assert(front_packets(g + p) =~= g);
    assert(last_packet(g + p) =~= p);
}

/// A group that carries something else begins with its other packets, and its last one begins as
/// before.
proof fn lemma_refilled_by_packets(g: Seq<u8>, c: Seq<u8>)
    requires
        is_group(g),
        g.len() > TS_PACKET,
        c.len() == content(g).len(),
    ensures
        ({
            let front = front_packets(g);
            let taken = c.take(content(front).len() as int);
            let n = front.len() as int;
            let start = payload_start(last_packet(g));
            &&& is_group(front)
            &&& taken.len() == content(front).len()
            &&& 0 <= start < TS_PACKET
            &&& refilled(g, c).len() == g.len()
            &&& refilled(g, c).take(n) == refilled(front, taken)
            &&& refilled(g, c).subrange(n, n + start) == last_packet(g).take(start)
        }),
{
    let front = front_packets(g);
    let last = last_packet(g);
    let taken = c.take(content(front).len() as int);
    let start = payload_start(last);
    lemma_refilled(front, taken);
    let new_front = refilled(front, taken);
    let new = refilled(g, c);
    let n = front.len() as int;
    assert(new == new_front + last.take(start) + c.skip(content(front).len() as int));
    assert(new.take(n) =~= new_front);
    assert(new.subrange(n, n + start) =~= last.take(start));
}

/// Nothing of a first packet changes before its payload when it carries something else.
proof fn lemma_first_keeps_its_header(g: Seq<u8>, c: Seq<u8>)
    requires
        is_group(g),
        g.len() == TS_PACKET,
        c.len() == content(g).len(),
    ensures
        refilled(g, c).subrange(0, payload_start(g)) == g.subrange(0, payload_start(g)),
{
    lemma_lead_stays(g, c);
    let (n, m) = (payload_start(g), section_start(g));
    assert(refilled(g, c).subrange(0, n) =~= refilled(g, c).take(m).take(n));
    assert(g.subrange(0, n) =~= g.take(m).take(n));
}

/// Nothing of a packet changes before its payload, be it the header or the adaptation field, when
/// its group carries something else.
proof fn lemma_refilled_keeps_headers(g: Seq<u8>, c: Seq<u8>, k: int)
    requires
        is_group(g),
        c.len() == content(g).len(),
        0 <= k < g.len(),
        k % TS_PACKET as int == 0,
    ensures
        k + TS_PACKET <= g.len(),
        ({
            let n = payload_start(g.subrange(k, k + TS_PACKET));
            &&& n < TS_PACKET
            &&& refilled(g, c).subrange(k, k + n) == g.subrange(k, k + n)
        }),
    decreases g.len(),
{
    lemma_group_len(g);
    assert(k + TS_PACKET <= g.len());
    let new = refilled(g, c);
    if g.len() <= TS_PACKET {
        lemma_first_keeps_its_header(g, c);
        assert(g.subrange(0, TS_PACKET as int) =~= g);
    } else {
        let front = front_packets(g);
        lemma_refilled_by_packets(g, c);
        lemma_group_len(front);
        let end = front.len() as int;
        if k < end {
            lemma_refilled_keeps_headers(front, c.take(content(front).len() as int), k);
            let n = payload_start(front.subrange(k, k + TS_PACKET));
            assert(g.subrange(k, k + TS_PACKET) =~= front.subrange(k, k + TS_PACKET));
            assert(g.subrange(k, k + n) =~= front.subrange(k, k + n));
            assert(new.subrange(k, k + n) =~= new.take(end).subrange(k, k + n));
        } else {
            assert(g.subrange(k, k + TS_PACKET) =~= last_packet(g));
            let n = payload_start(last_packet(g));
            assert(g.subrange(k, k + n) =~= last_packet(g).take(n));
        }
    }
}

/// Of the packets of a group only payload changes: each comes out with the header and the
/// adaptation field that it went in with.
pub proof fn law_only_payload_changes(g: Seq<u8>, p: Seq<u8>, k: int)
    requires
        is_group(g),
        is_group(p),
        p.len() == 188,
        0 <= k < g.len(),
        k % 188 == 0,
    ensures
        k + 188 <= g.len(),
        ({
            let n = payload_start(g.subrange(k, k + 188));
            &&& released(g).subrange(k, k + n) == g.subrange(k, k + n)
            &&& released_up_to(g, p).subrange(k, k + n) == g.subrange(k, k + n)
        }),
        joined(g, p).take(payload_start(p) + 1) == p.take(payload_start(p) + 1),
        joined(g, p).skip(section_start(p)) == p.skip(section_start(p)),
{
    lemma_restuffed(content(g));
    lemma_restuffed(content_up_to(g, p));
    lemma_refilled_keeps_headers(g, restuffed(content(g)), k);
    let ends = restuffed(content_up_to(g, p));
    let n = content(g).len() as int;
    lemma_refilled_keeps_headers(g, ends.take(n), k);
    let q = joined(g, p);
    assert(q.take(payload_start(p) + 1) =~= p.take(payload_start(p) + 1));
    assert(q.skip(section_start(p)) =~= p.skip(section_start(p)));
}

/// A PMT that is not whole in its packet is not let through: with nothing held back of its PID, the
/// packet is held back.
pub proof fn law_an_unfinished_map_is_held_back(held: Map<u16, Seq<u8>>, p: Seq<u8>)
    requires
        p.len() == 188,
        has_payload(p),
        is_start(p),
        section_start(p) <= 188,
        !held.contains_key(pid_of(p)),
        begins_pmt(content(p)),
        !is_settled(content(p)),
    ensures
        passage(held, p).out.len() == 0,
        passage(held, p).held == held.insert(pid_of(p), p),
{
    reveal(passage);
}

/// A packet that goes on with what is held back is held back with it until all is whole, and then
/// all of it comes out, cleaned.
pub proof fn law_a_map_comes_out_when_it_is_whole(held: Map<u16, Seq<u8>>, p: Seq<u8>)
    requires
        p.len() == 188,
        has_payload(p),
        !is_start(p),
        held.contains_key(pid_of(p)),
    ensures
        ({
            let g = held[pid_of(p)] + p;
            &&& is_settled(content(g)) ==> passage(held, p).out == released(g) && passage(
                held,
                p,
            ).held == held.remove(pid_of(p))
            &&& !is_settled(content(g)) ==> passage(held, p).out.len() == 0 && passage(
                held,
                p,
            ).held == held.insert(pid_of(p), g)
        }),
{
    reveal(passage);
}

/// A packet that ends what is held back lets that out first, cleaned together with its end in the
/// packet, and is then treated like one with nothing held back before it. If its pointer leads out
/// of it, it passes as it is behind what was held back.
pub proof fn law_a_packet_ends_what_is_held_back(held: Map<u16, Seq<u8>>, p: Seq<u8>)
    requires
        all_groups(held),
        p.len() == 188,
        has_payload(p),
        is_start(p),
        held.contains_key(pid_of(p)),
    ensures
        ({
            let pid = pid_of(p);
            let g = held[pid];
            let rest = held.remove(pid);
            &&& section_start(p) > 188 ==> passage(held, p).out == released(g) + p && passage(
                held,
                p,
            ).held == rest
            &&& section_start(p) <= 188 ==> passage(held, p).out == released_up_to(g, p) + passage(
                rest,
                joined(g, p),
            ).out && passage(held, p).held == passage(rest, joined(g, p)).held
        }),
{
    reveal(passage);
    let pid = pid_of(p);
    let g = held[pid];
    let rest = held.remove(pid);
    if section_start(p) <= 188 {
        let q = joined(g, p);
        let front = released_up_to(g, p);
        law_no_mark_is_left_before_a_pointer(g, p);
        assert(q.take(payload_start(p) + 1) =~= p.take(payload_start(p) + 1));
        lemma_header_stays(p, q, payload_start(p) + 1);
        assert(rest.insert(pid, q) =~= held.insert(pid, q));
        assert(rest.remove(pid) =~= rest);
        let empty = Seq::<u8>::empty();
        assert(front + (empty + q) =~= front + q);
        assert(front + (empty + released(q)) =~= front + released(q));
        assert(front + empty =~= front);
    }
}

/// What becomes of a packet depends on what is held back of its own PID only.
pub proof fn law_programs_do_not_mix(
    held: Map<u16, Seq<u8>>,
    other: Map<u16, Seq<u8>>,
    p: Seq<u8>,
)
    requires
        p.len() == 188,
        all_groups(held),
        held.contains_key(pid_of(p)) == other.contains_key(pid_of(p)),
        held.contains_key(pid_of(p)) ==> held[pid_of(p)] == other[pid_of(p)],
    ensures
        ({
            let pid = pid_of(p);
            let (one, two) = (passage(held, p), passage(other, p));
            &&& one.out == two.out
            &&& one.held.contains_key(pid) == two.held.contains_key(pid)
            &&& one.held.contains_key(pid) ==> one.held[pid] == two.held[pid]
        }),
{
    reveal(passage);
    let pid = pid_of(p);
    if has_payload(p) && is_start(p) && section_start(p) <= TS_PACKET && held.contains_key(pid) {
        law_no_mark_is_left_before_a_pointer(held[pid], p);
    }
}

/// Packets pass one after the other, and what is less than a packet is left over: all that follows
/// the last whole packet, and nothing else.
pub proof fn law_packets_pass_in_turn(held: Map<u16, Seq<u8>>, p: Seq<u8>, rest: Seq<u8>)
    requires
        p.len() == 188,
    ensures
        passages(held, p + rest).out == passage(held, p).out + passages(
            passage(held, p).held,
            rest,
        ).out,
        passages(held, p + rest).held == passages(passage(held, p).held, rest).held,
        leftover(p + rest) == leftover(rest),
        rest.len() < 188 ==> passages(held, rest).out.len() == 0 && passages(held, rest).held
            == held && leftover(rest) == rest,
{
    lemma_first_packet(held, p + rest);
    assert((p + rest).take(188) =~= p);
    assert((p + rest).skip(188) =~= rest);
    if rest.len() < 188 {
        assert(leftover(rest) =~= rest);
    }
}

/// Whether the bytes are packets of one PID with payload, in the first of which and in no other
/// something begins.
pub open spec fn is_run(g: Seq<u8>) -> bool
    decreases g.len(),
{
    if g.len() <= 188 {
        g.len() == 188 && has_payload(g) && is_start(g) && section_start(g) <= 188
    } else {
        let last = last_packet(g);
        is_run(front_packets(g)) && has_payload(last) && !is_start(last) && pid_of(last) == pid_of(
            g,
        )
    }
}

/// Packets are a group exactly if the first one has a payload that begins with a pointer into the
/// packet, and each of the others a payload. They are a run exactly if, besides, all of them are
/// of one PID, and something begins in the first and in no other.
pub proof fn law_groups_and_runs_are_made_of_packets(first: Seq<u8>, g: Seq<u8>, p: Seq<u8>)
    requires
        first.len() == 188,
        g.len() >= 188,
        p.len() == 188,
    ensures
        is_group(first) <==> payload_start(first) < 188 && section_start(first) <= 188,
        is_group(g + p) <==> is_group(g) && payload_start(p) < 188,
        is_run(first) <==> has_payload(first) && is_start(first) && section_start(first) <= 188,
        is_run(g + p) <==> is_run(g) && has_payload(p) && !is_start(p) && pid_of(p) == pid_of(g),
{
    assert(front_packets(g + p) =~= g);
    assert(last_packet(g + p) =~= p);
    assert(pid_of(g + p) == pid_of(g));
}

/// A run of packets is a group.
proof fn lemma_run_is_a_group(g: Seq<u8>)
    requires
        is_run(g),
    ensures
        is_group(g),
    decreases g.len(),
{
    if g.len() > 188 {
        lemma_run_is_a_group(front_packets(g));
    }
}

/// What becomes of a run whose packets were all held back but for the last.
proof fn lemma_run_goes_on(held: Map<u16, Seq<u8>>, g: Seq<u8>)
    requires
        is_run(g),
        g.len() > 188,
        passages(held, front_packets(g)).out.len() == 0,
        passages(held, front_packets(g)).held == held.insert(pid_of(g), front_packets(g)),
        leftover(front_packets(g)).len() == 0,
    ensures
        is_settled(content(g)) ==> passages(held, g).out == released(g) && passages(held, g).held
            == held.remove(pid_of(g)),
        !is_settled(content(g)) ==> passages(held, g).out.len() == 0 && passages(held, g).held
            == held.insert(pid_of(g), g),
        leftover(g).len() == 0,
{
    let front = front_packets(g);
    let last = last_packet(g);
    let between = held.insert(pid_of(g), front);
    let empty = Seq::<u8>::empty();
    assert(front + last =~= g);
    law_buffers_do_not_matter(held, front, last);
    assert(leftover(front) + last =~= last);
    assert(last + empty =~= last);
    law_packets_pass_in_turn(between, last, empty);
    law_a_map_comes_out_when_it_is_whole(between, last);
    assert(passages(held, g).out =~= passage(between, last).out);
    assert(between.remove(pid_of(g)) =~= held.remove(pid_of(g)));
    assert(between.insert(pid_of(g), g) =~= held.insert(pid_of(g), g));
}

/// As long as nothing is whole, all of a run is held back.
proof fn lemma_an_unfinished_run_is_held_back(held: Map<u16, Seq<u8>>, g: Seq<u8>)
    requires
        is_run(g),
        !held.contains_key(pid_of(g)),
        begins_pmt(content(g.take(188))),
        forall|k: int|
            188 <= k <= g.len() && k % 188 == 0 ==> !is_settled(content(#[trigger] g.take(k))),
    ensures
        passages(held, g).out.len() == 0,
        passages(held, g).held == held.insert(pid_of(g), g),
        leftover(g).len() == 0,
    decreases g.len(),
{
    lemma_run_is_a_group(g);
    lemma_group_len(g);
    assert(g.take(g.len() as int) =~= g);
    if g.len() <= 188 {
        law_an_unfinished_map_is_held_back(held, g);
        assert(g + Seq::empty() =~= g);
        law_packets_pass_in_turn(held, g, Seq::empty());
    } else {
        lemma_front_of_an_unfinished_run(g);
        lemma_an_unfinished_run_is_held_back(held, front_packets(g));
        lemma_run_goes_on(held, g);
    }
}

/// The front of a run of which nothing is whole before its end is a run of which nothing is whole.
proof fn lemma_front_of_an_unfinished_run(g: Seq<u8>)
    requires
        is_run(g),
        g.len() > 188,
        forall|k: int|
            188 <= k < g.len() && k % 188 == 0 ==> !is_settled(content(#[trigger] g.take(k))),
    ensures
        ({
            let front = front_packets(g);
            &&& front.len() >= 188
            &&& pid_of(front) == pid_of(g)
            &&& front.take(188) == g.take(188)
            &&& forall|k: int|
                188 <= k <= front.len() && k % 188 == 0 ==> !is_settled(
                    content(#[trigger] front.take(k)),
                )
        }),
{
    let front = front_packets(g);
    lemma_run_is_a_group(front);
    lemma_group_len(front);
    assert(front.take(188) =~= g.take(188));
    assert forall|k: int| 188 <= k <= front.len() && k % 188 == 0 implies !is_settled(
        content(#[trigger] front.take(k)),
    ) by {
        assert(front.take(k) =~= g.take(k));
    }
}

/// A program map that spans any number of packets comes out with the last of them: its packets, as
/// many as they were and with the same headers, carrying the cleaned map. Nothing is held back
/// then that was not before.
pub proof fn law_a_map_that_spans_packets_is_cleaned(held: Map<u16, Seq<u8>>, g: Seq<u8>)
    requires
        is_run(g),
        !held.contains_key(pid_of(g)),
        begins_pmt(content(g.take(188))),
        is_settled(content(g)),
        forall|k: int|
            188 <= k < g.len() && k % 188 == 0 ==> !is_settled(content(#[trigger] g.take(k))),
    ensures
        passages(held, g).out.len() == g.len(),
        same_headers(g, passages(held, g).out),
        content(passages(held, g).out) == restuffed(content(g)),
        !is_marked(content(passages(held, g).out)),
        passages(held, g).held == held,
{
    lemma_run_is_a_group(g);
    law_no_mark_is_left(g);
    if g.len() <= 188 {
        law_whole_maps_pass_at_once(held, g);
        let empty = Seq::<u8>::empty();
        assert(g + empty =~= g);
        law_packets_pass_in_turn(held, g, empty);
        assert(passages(held, g).out =~= released(g));
    } else {
        lemma_front_of_an_unfinished_run(g);
        lemma_an_unfinished_run_is_held_back(held, front_packets(g));
        lemma_run_goes_on(held, g);
        assert(held.remove(pid_of(g)) =~= held);
    }
}

} // verus!
