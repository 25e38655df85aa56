//! The bandwidth report (REMB, draft-alvestrand-rmcat-remb) that is appended to outgoing RTCP.
use vstd::arithmetic::power2::{lemma_pow2_pos, lemma_pow2_unfold, lemma2_to64, pow2};
use vstd::prelude::*;
use crate::bytes::{
    be16, be16_at, be32, be32_at, law_bytes_are_written_as_read, lemma_be16_reads_back,
    lemma_be32_reads_back, push_be16, push_be32, read_be32,
};

verus! {

/// The largest bitrate that is carried without an exponent: the mantissa has 18 bits.
pub const MAX_MANTISSA: u64 = 0x3_FFFF;

/// The most SSRCs that one report names: their count is a single byte.
pub const MAX_SSRCS: usize = 255;

/// How often `bitrate` is halved until the mantissa holds it.
pub open spec fn exponent(bitrate: nat) -> nat
    decreases bitrate,
{
    if bitrate <= MAX_MANTISSA {
        0
    } else {
        exponent(bitrate / 2) + 1
    }
}

/// `bitrate`, halved until the mantissa holds it.
pub open spec fn mantissa(bitrate: nat) -> nat
    decreases bitrate,
{
    if bitrate <= MAX_MANTISSA {
        bitrate
    } else {
        mantissa(bitrate / 2)
    }
}

/// The bitrate that a receiver reads from the report.
pub open spec fn carried(bitrate: nat) -> nat {
    mantissa(bitrate) * pow2(exponent(bitrate))
}

/// How many of `count` SSRCs are named.
pub open spec fn named(count: nat) -> nat {
    if count <= MAX_SSRCS {
        count
    } else {
        MAX_SSRCS as nat
    }
}

/// SSRCs in network byte order, one after the other.
pub open spec fn ssrc_bytes(ssrcs: Seq<u32>) -> Seq<u8>
    decreases ssrcs.len(),
{
    if ssrcs.len() == 0 {
        Seq::empty()
    } else {
        ssrc_bytes(ssrcs.drop_last()) + be32(ssrcs.last())
    }
}

/// The fixed part of a report: version 2 and format 15, packet type 206, the length in 32-bit
/// words minus one, the sender, an unused media source, the letters "REMB", the number of SSRCs,
/// and the bitrate as a 6-bit exponent and an 18-bit mantissa.
pub open spec fn remb_head(sender: u32, count: nat, bitrate: nat) -> Seq<u8> {
    seq![0x8Fu8, 0xCEu8] + be16((4 + count) as u16) + be32(sender) + be32(0) + seq![
        0x52u8,
        0x45u8,
        0x4Du8,
        0x42u8,
        count as u8,
        (exponent(bitrate) * 4 + mantissa(bitrate) / 0x1_0000) as u8,
        (mantissa(bitrate) / 0x100 % 0x100) as u8,
        (mantissa(bitrate) % 0x100) as u8,
    ]
}

/// The report of `sender` that claims `bitrate` bits per second for the first 255 of `ssrcs`.
pub open spec fn remb_packet(sender: u32, ssrcs: Seq<u32>, bitrate: nat) -> Seq<u8> {
    remb_head(sender, named(ssrcs.len()), bitrate) + ssrc_bytes(
        ssrcs.take(named(ssrcs.len()) as int),
    )
}

/// A report as its receiver reads it.
#[verifier::ext_equal]
pub struct Report {
    pub sender: int,
    pub bitrate: int,
    pub ssrcs: Seq<int>,
}

/// Reads a report. `None` stands for bytes that are no report, or that are not as long as they
/// say.
pub open spec fn read_report(p: Seq<u8>) -> Option<Report> {
    if p.len() >= 20 && p[0] == 0x8F && p[1] == 0xCE && (be16_at(p, 2) + 1) * 4 == p.len()
        && be32_at(p, 8) == 0 && p.subrange(12, 16) == seq![0x52u8, 0x45u8, 0x4Du8, 0x42u8]
        && p.len() == 20 + 4 * p[16] {
        Some(
            Report {
                sender: be32_at(p, 4),
                bitrate: (p[17] % 4 * 0x1_0000 + p[18] * 0x100 + p[19]) * pow2(
                    (p[17] / 4) as nat,
                ),
                ssrcs: Seq::new(p[16] as nat, |i: int| be32_at(p, 20 + 4 * i)),
            },
        )
    } else {
        None
    }
}

/// The length in bytes that the header of an RTCP packet gives.
pub open spec fn rtcp_length(p: Seq<u8>) -> int {
    (be16_at(p, 2) + 1) * 4
}

/// Whether the bytes are RTCP packets of version 2, each as long as its header says, one after
/// the other and nothing else.
pub open spec fn is_compound(p: Seq<u8>) -> bool
    decreases p.len(),
{
    ||| p.len() == 0
    ||| {
        &&& p.len() >= 4
        &&& p[0] / 0x40 == 2
        &&& rtcp_length(p) <= p.len()
        &&& is_compound(p.skip(rtcp_length(p)))
    }
}

/// Outgoing RTCP with a report of the same sender after what is there already, or nothing if it
/// is too short to hold a sender.
pub open spec fn with_report(existing: Seq<u8>, ssrcs: Seq<u32>, kbps: nat) -> Option<Seq<u8>> {
    if existing.len() < 8 {
        None
    } else {
        Some(existing + remb_packet(be32_at(existing, 4) as u32, ssrcs, kbps * 1000))
    }
}

/// A bitrate of fewer than `18 + k` bits is halved at most `k` times.
proof fn lemma_exponent_bound(bitrate: nat, k: nat)
    requires
        bitrate < 0x4_0000 * pow2(k),
    ensures
        exponent(bitrate) <= k,
    decreases k,
{
    if bitrate > MAX_MANTISSA {
        if k == 0 {
            lemma2_to64();
        } else {
            lemma_pow2_unfold(k);
            assert(bitrate / 2 < 0x4_0000 * pow2((k - 1) as nat)) by (nonlinear_arith)
                requires
                    bitrate < 0x4_0000 * pow2(k),
                    pow2(k) == 2 * pow2((k - 1) as nat),
            ;
            lemma_exponent_bound(bitrate / 2, (k - 1) as nat);
        }
    }
}

/// The exponent of a 64-bit bitrate fits in its 6 bits, and the mantissa in its 18.
pub proof fn lemma_scale_fits(bitrate: u64)
    ensures
        exponent(bitrate as nat) <= 46,
        mantissa(bitrate as nat) <= MAX_MANTISSA,
{
    assert(pow2(46) == 0x4000_0000_0000) by {
        lemma2_to64();
        vstd::arithmetic::power2::lemma_pow2_adds(32, 14);
    }
    lemma_exponent_bound(bitrate as nat, 46);
    lemma_mantissa_fits(bitrate as nat);
}

/// The mantissa has at most 18 bits, and all 18 where the bitrate was halved.
proof fn lemma_mantissa_fits(bitrate: nat)
    ensures
        mantissa(bitrate) <= MAX_MANTISSA,
        bitrate > MAX_MANTISSA ==> mantissa(bitrate) >= 0x2_0000,
    decreases bitrate,
{
    if bitrate > MAX_MANTISSA {
        lemma_mantissa_fits(bitrate / 2);
    }
}

/// Halving loses less than one step of the exponent.
proof fn lemma_carried(bitrate: nat)
    ensures
        carried(bitrate) <= bitrate < carried(bitrate) + pow2(exponent(bitrate)),
    decreases bitrate,
{
    lemma2_to64();
    if bitrate > MAX_MANTISSA {
        lemma_carried(bitrate / 2);
        let e = exponent(bitrate);
        lemma_pow2_unfold(e);
        let step = pow2((e - 1) as nat);
        assert(mantissa(bitrate) * (2 * step) == 2 * (mantissa(bitrate) * step))
            by (nonlinear_arith);
        assert(carried(bitrate) == 2 * carried(bitrate / 2));
    } else {
        assert(mantissa(bitrate) * pow2(0) == bitrate) by (nonlinear_arith)
            requires
                mantissa(bitrate) == bitrate,
                pow2(0) == 1,
        ;
    }
}

/// The claim is conservative: what a receiver reads is never more than what was asked for. It is
/// exact for bitrates that the mantissa holds, and otherwise short by less than one part in
/// 131072 (well below half a percent).
pub proof fn law_claim_is_conservative(bitrate: u64)
    ensures
        carried(bitrate as nat) <= bitrate,
        bitrate <= MAX_MANTISSA ==> carried(bitrate as nat) == bitrate,
        bitrate > MAX_MANTISSA ==> (bitrate - carried(bitrate as nat)) * 0x2_0000 < bitrate,
{
    lemma2_to64();
    lemma_carried(bitrate as nat);
    if bitrate > MAX_MANTISSA {
        lemma_mantissa_fits(bitrate as nat);
        let step = pow2(exponent(bitrate as nat));
        assert(mantissa(bitrate as nat) * step >= 0x2_0000 * step) by (nonlinear_arith)
            requires
                mantissa(bitrate as nat) >= 0x2_0000,
        ;
    }
}

/// The bitrate that a report carries is scaled as the one it was made from.
proof fn lemma_carried_scales_alike(bitrate: nat)
    ensures
        exponent(carried(bitrate)) == exponent(bitrate),
        mantissa(carried(bitrate)) == mantissa(bitrate),
    decreases bitrate,
{
    lemma2_to64();
    let m = mantissa(bitrate);
    if bitrate > MAX_MANTISSA {
        let half = carried(bitrate / 2);
        lemma_carried_scales_alike(bitrate / 2);
        lemma_mantissa_fits(bitrate);
        let e = exponent(bitrate);
        lemma_pow2_unfold(e);
        let step = pow2((e - 1) as nat);
        lemma_pow2_pos((e - 1) as nat);
        assert(m * (2 * step) == 2 * (m * step)) by (nonlinear_arith);
        assert(carried(bitrate) == 2 * half);
        assert(m * step >= 0x2_0000) by (nonlinear_arith)
            requires
                m >= 0x2_0000,
                step >= 1,
        ;
        assert(carried(bitrate) / 2 == half);
    } else {
        assert(m * pow2(0) == m) by (nonlinear_arith)
            requires
                pow2(0) == 1,
        ;
    }
}

/// Rounding happens once: the bitrate that a receiver reads from a report, put into a report
/// again, gives the same report.
pub proof fn law_a_carried_bitrate_is_carried_unchanged(
    sender: u32,
    ssrcs: Seq<u32>,
    bitrate: u64,
)
    ensures
        remb_packet(sender, ssrcs, carried(bitrate as nat)) == remb_packet(
            sender,
            ssrcs,
            bitrate as nat,
        ),
        carried(carried(bitrate as nat)) == carried(bitrate as nat),
{
    lemma_carried_scales_alike(bitrate as nat);
}

/// Each SSRC takes four bytes, and they stand in order.
proof fn lemma_ssrc_bytes(ssrcs: Seq<u32>)
    ensures
        ssrc_bytes(ssrcs).len() == 4 * ssrcs.len(),
        forall|i: int|
            0 <= i < ssrcs.len() ==> #[trigger] be32_at(ssrc_bytes(ssrcs), 4 * i) == ssrcs[i],
    decreases ssrcs.len(),
{
    if ssrcs.len() > 0 {
        let front = ssrcs.drop_last();
        lemma_ssrc_bytes(front);
        lemma_be32_reads_back(ssrcs.last());
        assert forall|i: int| 0 <= i < ssrcs.len() implies #[trigger] be32_at(
            ssrc_bytes(ssrcs),
            4 * i,
        ) == ssrcs[i] by {
            if i < front.len() {
                assert(be32_at(ssrc_bytes(front), 4 * i) == front[i]);
            }
        }
    }
}

/// A report is 20 bytes and four more for each SSRC it names, which is what its length field
/// says.
pub proof fn law_report_is_as_long_as_it_says(sender: u32, ssrcs: Seq<u32>, bitrate: u64)
    ensures
        remb_packet(sender, ssrcs, bitrate as nat).len() == 20 + 4 * named(ssrcs.len()),
        rtcp_length(remb_packet(sender, ssrcs, bitrate as nat)) == remb_packet(
            sender,
            ssrcs,
            bitrate as nat,
        ).len(),
{
    lemma_ssrc_bytes(ssrcs.take(named(ssrcs.len()) as int));
}

/// A receiver reads from a report the sender, the first 255 SSRCs in order, and the bitrate that
/// the report carries; with no SSRC the report is just as well formed.
pub proof fn law_report_reads_back(sender: u32, ssrcs: Seq<u32>, bitrate: u64)
    ensures
        read_report(remb_packet(sender, ssrcs, bitrate as nat)) == Some(
            (Report {
                sender: sender as int,
                bitrate: carried(bitrate as nat) as int,
                ssrcs: Seq::new(named(ssrcs.len()), |i: int| ssrcs[i] as int),
            }),
        ),
{
    let n = named(ssrcs.len());
    let list = ssrcs.take(n as int);
    let p = remb_packet(sender, ssrcs, bitrate as nat);
    lemma_ssrc_bytes(list);
    lemma_be16_reads_back((4 + n) as u16);
    lemma_be32_reads_back(sender);
    lemma_be32_reads_back(0);
    lemma_scale_fits(bitrate);
    assert(p.subrange(12, 16) =~= seq![0x52u8, 0x45u8, 0x4Du8, 0x42u8]);
    let m = mantissa(bitrate as nat);
    assert(p[17] == exponent(bitrate as nat) * 4 + m / 0x1_0000);
    assert(p[17] / 4 == exponent(bitrate as nat));
    assert(p[17] % 4 * 0x1_0000 + p[18] * 0x100 + p[19] == m);
    assert forall|i: int| 0 <= i < n implies #[trigger] be32_at(p, 20 + 4 * i) == ssrcs[i] by {
        assert(be32_at(ssrc_bytes(list), 4 * i) == list[i]);
    }
    let read = read_report(p).unwrap();
    assert(read.ssrcs =~= Seq::new(n, |i: int| ssrcs[i] as int));
}

/// Compound RTCP put after compound RTCP is compound RTCP.
proof fn lemma_compounds_join(a: Seq<u8>, b: Seq<u8>)
    requires
        is_compound(a),
        is_compound(b),
    ensures
        is_compound(a + b),
    decreases a.len(),
{
    if a.len() == 0 {
        assert(a + b =~= b);
    } else {
        let n = rtcp_length(a);
        lemma_compounds_join(a.skip(n), b);
        assert((a + b).skip(n) =~= a.skip(n) + b);
    }
}

/// Appending needs no parsing: a report after compound RTCP leaves it compound RTCP, with what
/// was there unchanged in front.
pub proof fn law_appending_keeps_rtcp_compound(existing: Seq<u8>, ssrcs: Seq<u32>, kbps: u64)
    requires
        is_compound(existing),
        existing.len() >= 8,
        kbps * 1000 <= u64::MAX,
    ensures
        with_report(existing, ssrcs, kbps as nat) is Some,
        is_compound(with_report(existing, ssrcs, kbps as nat).unwrap()),
        existing.is_prefix_of(with_report(existing, ssrcs, kbps as nat).unwrap()),
{
    let sender = be32_at(existing, 4) as u32;
    let p = remb_packet(sender, ssrcs, kbps as nat * 1000);
    law_report_is_as_long_as_it_says(sender, ssrcs, (kbps * 1000) as u64);
    assert(p[0] == 0x8F);
    assert(is_compound(p.skip(rtcp_length(p))));
    assert(is_compound(p));
    lemma_compounds_join(existing, p);
}

/// Builds an RTCP REMB packet that advertises `bitrate_bps` as the receiver's available bandwidth
/// for `media_ssrcs`.
///
/// An SFU decides how much to send an endpoint from the REMB which that endpoint reports. Without
/// one it leaves the endpoint at its configured initial estimate, and on loss only ever goes down
/// from there. The claim is an assertion and no measurement: it is honest only on a link whose
/// capacity is known.
///
/// The bitrate is rounded down to what 18 bits and an exponent hold, and no more than 255 SSRCs
/// are named.
pub fn build_remb(sender_ssrc: u32, media_ssrcs: &[u32], bitrate_bps: u64) -> (packet: Vec<u8>)
    ensures
        packet@ == remb_packet(sender_ssrc, media_ssrcs@, bitrate_bps as nat),
{
    proof {
        lemma_scale_fits(bitrate_bps);
    }
    let mut scaled: u64 = bitrate_bps;
    let mut halvings: u32 = 0;
    while scaled > MAX_MANTISSA
        invariant
            exponent(bitrate_bps as nat) <= 46,
            exponent(bitrate_bps as nat) == halvings + exponent(scaled as nat),
            mantissa(bitrate_bps as nat) == mantissa(scaled as nat),
        decreases scaled,
    {
        assert(scaled >> 1 == scaled / 2) by (bit_vector);
        scaled >>= 1;
        halvings += 1;
    }
    let bits: u32 = scaled as u32;

    let n: usize = if media_ssrcs.len() < MAX_SSRCS {
        media_ssrcs.len()
    } else {
        MAX_SSRCS
    };
    let mut packet: Vec<u8> = Vec::with_capacity(20 + 4 * n);
    packet.push(0x8F);
    packet.push(0xCE);
    push_be16(&mut packet, 4 + n as u16);
    push_be32(&mut packet, sender_ssrc);
    push_be32(&mut packet, 0);
    packet.push(0x52);
    packet.push(0x45);
    packet.push(0x4D);
    packet.push(0x42);
    packet.push(n as u8);
    packet.push((halvings * 4 + bits / 0x1_0000) as u8);
    packet.push((bits / 0x100 % 0x100) as u8);
    packet.push((bits % 0x100) as u8);
    let ghost head = remb_head(sender_ssrc, n as nat, bitrate_bps as nat);
    assert(packet@ =~= head);

    let mut i: usize = 0;
    assert(media_ssrcs@.take(0) =~= Seq::empty());
    while i < n
        invariant
            i <= n <= media_ssrcs@.len(),
            packet@ == head + ssrc_bytes(media_ssrcs@.take(i as int)),
        decreases n - i,
    {
        push_be32(&mut packet, media_ssrcs[i]);
        proof {
            let next = media_ssrcs@.take(i + 1);
            assert(next.drop_last() =~= media_ssrcs@.take(i as int));
            assert(packet@ =~= head + ssrc_bytes(next));
        }
        i += 1;
    }
    packet
}

/// The sender of the first report in an outgoing RTCP packet, which is this session's own SSRC.
pub fn rtcp_sender(existing: &[u8]) -> (sender: Option<u32>)
    ensures
        sender == (if existing@.len() < 8 {
            None
        } else {
            Some(be32_at(existing@, 4) as u32)
        }),
        sender is Some == (existing@.len() >= 8),
        sender matches Some(ssrc) ==> ssrc == existing@[4] * 0x100_0000 + existing@[5] * 0x1_0000
            + existing@[6] * 0x100 + existing@[7],
{
    if existing.len() < 8 {
        None
    } else {
        Some(read_be32(existing, 4))
    }
}

/// Appends a report of `kbps` kilobits per second to outgoing RTCP.
///
/// The report is sent with whatever SSRCs are known, none at first: an SFU forwards nothing until
/// it hears an estimate, so waiting for an SSRC would be waiting forever.
pub fn append_remb(existing: &[u8], ssrcs: &[u32], kbps: u64) -> (combined: Option<Vec<u8>>)
    requires
        existing@.len() >= 8 ==> kbps * 1000 <= u64::MAX,
    ensures
        combined is Some == with_report(existing@, ssrcs@, kbps as nat) is Some,
        combined matches Some(c) ==> with_report(existing@, ssrcs@, kbps as nat) == Some(c@),
{
    let sender = match rtcp_sender(existing) {
        Some(sender) => sender,
        None => return None,
    };
    let mut report = build_remb(sender, ssrcs, kbps * 1000);
    let mut combined: Vec<u8> = Vec::with_capacity(existing.len());
    combined.extend_from_slice(existing);
    assert(combined@ =~= existing@);
    combined.append(&mut report);
    Some(combined)
}

/// What a report says, byte by byte: its kind, its length in words minus one, its sender, and the
/// first 255 of the SSRCs, all with the most significant byte first.
pub proof fn law_a_report_names_its_sender_and_sources(sender: u32, ssrcs: Seq<u32>, bitrate: u64)
    ensures
        ({
            let p = remb_packet(sender, ssrcs, bitrate as nat);
            let n: int = if ssrcs.len() <= 255 {
                ssrcs.len() as int
            } else {
                255
            };
            &&& p.len() == 20 + 4 * n
            &&& p[0] == 0x8F && p[1] == 0xCE
            &&& p[2] * 0x100 + p[3] == 4 + n
            &&& p[4] * 0x100_0000 + p[5] * 0x1_0000 + p[6] * 0x100 + p[7] == sender
            &&& p[8] == 0 && p[9] == 0 && p[10] == 0 && p[11] == 0
            &&& p[12] == 0x52 && p[13] == 0x45 && p[14] == 0x4D && p[15] == 0x42
            &&& p[16] == n
            &&& forall|i: int|
                0 <= i < n ==> #[trigger] ssrcs[i] == p[20 + 4 * i] * 0x100_0000 + p[21 + 4 * i]
                    * 0x1_0000 + p[22 + 4 * i] * 0x100 + p[23 + 4 * i]
        }),
{
    let n = named(ssrcs.len());
    let list = ssrcs.take(n as int);
    let p = remb_packet(sender, ssrcs, bitrate as nat);
    lemma_ssrc_bytes(list);
    assert forall|i: int| 0 <= i < n implies #[trigger] ssrcs[i] == p[20 + 4 * i] * 0x100_0000 + p[
        21 + 4 * i] * 0x1_0000 + p[22 + 4 * i] * 0x100 + p[23 + 4 * i] by {
        let names = ssrc_bytes(list);
        assert(be32_at(names, 4 * i) == list[i]);
        assert(p[20 + 4 * i] == names[4 * i] && p[21 + 4 * i] == names[4 * i + 1] && p[22 + 4 * i]
            == names[4 * i + 2] && p[23 + 4 * i] == names[4 * i + 3]);
    }
}

/// What a report claims, as it stands in its bytes: a mantissa in the lower 18 bits, to be doubled
/// as often as the six bits above them say. That is never more than the bitrate asked for, is
/// exactly that if 18 bits hold it, and otherwise is the closest that an 18-bit mantissa comes to
/// it from below: it falls short by less than one step of the mantissa, and the mantissa is full.
pub proof fn law_a_report_claims_the_bitrate(sender: u32, ssrcs: Seq<u32>, bitrate: u64)
    ensures
        ({
            let p = remb_packet(sender, ssrcs, bitrate as nat);
            let bits = p[17] % 4 * 0x1_0000 + p[18] * 0x100 + p[19];
            let step = pow2((p[17] / 4) as nat);
            &&& p.len() >= 20
            &&& bits * step <= bitrate
            &&& bitrate < bits * step + step
            &&& bitrate <= 0x3_FFFF ==> bits * step == bitrate && p[17] / 4 == 0
            &&& bitrate > 0x3_FFFF ==> bits >= 0x2_0000
            &&& (bitrate - bits * step) * 0x2_0000 <= bitrate
        }),
{
    let p = remb_packet(sender, ssrcs, bitrate as nat);
    law_report_is_as_long_as_it_says(sender, ssrcs, bitrate);
    lemma_scale_fits(bitrate);
    lemma_carried(bitrate as nat);
    lemma_mantissa_fits(bitrate as nat);
    law_claim_is_conservative(bitrate);
    let m = mantissa(bitrate as nat);
    assert(p[17] == exponent(bitrate as nat) * 4 + m / 0x1_0000);
    assert(p[17] / 4 == exponent(bitrate as nat));
    assert(p[17] % 4 * 0x1_0000 + p[18] * 0x100 + p[19] == m);
}

/// What is appended to outgoing RTCP claims the bandwidth that was set, in bits per second, for
/// the first 255 of the SSRCs, in the name of the sender of what is there already, which is kept in
/// front. A receiver reads it so. Nothing is appended to what is too short to name a sender.
pub proof fn law_an_appended_report_claims_what_was_set(
    existing: Seq<u8>,
    ssrcs: Seq<u32>,
    kbps: u64,
)
    requires
        kbps * 1000 <= 0xFFFF_FFFF_FFFF_FFFF,
    ensures
        existing.len() < 8 ==> with_report(existing, ssrcs, kbps as nat) is None,
        existing.len() >= 8 ==> {
            let all = with_report(existing, ssrcs, kbps as nat).unwrap();
            let p = all.skip(existing.len() as int);
            let bits = p[17] % 4 * 0x1_0000 + p[18] * 0x100 + p[19];
            let claim = bits * pow2((p[17] / 4) as nat);
            let n: int = if ssrcs.len() <= 255 {
                ssrcs.len() as int
            } else {
                255
            };
            &&& with_report(existing, ssrcs, kbps as nat) is Some
            &&& all.len() == existing.len() + 20 + 4 * n
            &&& all.take(existing.len() as int) == existing
            &&& p.subrange(4, 8) == existing.subrange(4, 8)
            &&& claim <= kbps * 1000
            &&& (kbps * 1000 - claim) * 0x2_0000 <= kbps * 1000
            &&& read_report(p) matches Some(report)
            &&& report.sender == existing[4] * 0x100_0000 + existing[5] * 0x1_0000 + existing[6]
                * 0x100 + existing[7]
            &&& report.bitrate == claim
            &&& report.ssrcs.len() == n
            &&& forall|i: int| 0 <= i < n ==> #[trigger] report.ssrcs[i] == ssrcs[i]
        },
{
    if existing.len() >= 8 {
        let sender = be32_at(existing, 4) as u32;
        let bitrate = (kbps * 1000) as u64;
        let all = with_report(existing, ssrcs, kbps as nat).unwrap();
        let p = remb_packet(sender, ssrcs, bitrate as nat);
        assert(all.skip(existing.len() as int) =~= p);
        assert(all.take(existing.len() as int) =~= existing);
        law_a_report_names_its_sender_and_sources(sender, ssrcs, bitrate);
        law_a_report_claims_the_bitrate(sender, ssrcs, bitrate);
        law_report_reads_back(sender, ssrcs, bitrate);
        law_bytes_are_written_as_read(existing, 4);
        law_bytes_are_written_as_read(p, 4);
    }
}

/// Compound RTCP is made of packets: one of version 2 that is as long as its header says may be put
/// in front of anything without changing whether that is compound RTCP, and nothing at all is.
pub proof fn law_compound_rtcp_is_made_of_packets(packet: Seq<u8>, rest: Seq<u8>)
    requires
        packet.len() >= 4,
        packet[0] & 0xC0 == 0x80,
        packet.len() == (packet[2] * 0x100 + packet[3] + 1) * 4,
    ensures
        is_compound(Seq::empty()),
        is_compound(packet + rest) == is_compound(rest),
{
    let first: u8 = packet[0];
    assert(first / 0x40 == 2) by (bit_vector)
        requires
            first & 0xC0 == 0x80,
    ;
    let all = packet + rest;
    assert(rtcp_length(all) == packet.len());
    assert(all.skip(rtcp_length(all)) =~= rest);
}

} // verus!
