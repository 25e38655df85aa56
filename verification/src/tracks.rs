//! Which track is mixed, bridged, discarded, or kept waiting.
use std::collections::BTreeSet;
use vstd::laws_cmp::obeys_cmp;
use vstd::prelude::*;
use vstd::std_specs::btree::{increasing_seq, spec_btree_keys_iter};
use vstd::std_specs::cmp::OrdSpec;
use vstd::std_specs::iter::IteratorSpec;
use crate::chain::{route_of, video_route, VideoRoute};
use crate::rtp::{
    carries_media, law_the_source_is_in_the_header, law_two_bits_decide, rtp_carries_media, rtp_ssrc,
    ssrc_of,
};
use crate::text::same_text;

verus! {

broadcast use vstd::std_specs::btree::group_btree_axioms;

/// What the caps of a track say.
pub enum TrackCaps {
    /// The pad has no caps.
    Missing,
    /// The caps have no structure.
    NoStructure,
    /// The structure has no media field.
    NoMedia,
    /// The media type, and the encoding name (empty if there is none).
    Media { media: String, encoding_name: String },
}

/// Why nothing can be read from the caps of a track.
#[derive(Clone, Copy, Debug, PartialEq, Eq, Structural)]
pub enum CapsFault {
    NoCaps,
    NoStructure,
    NoMedia,
}

/// Why a video track is discarded.
#[derive(Clone, Copy, Debug, PartialEq, Eq, Structural)]
pub enum DiscardReason {
    /// Another video track was already bridged.
    AlreadyBridged,
    /// Video bridging is disabled.
    Disabled,
}

/// What is done with a track when a buffer of it arrives.
#[derive(Clone, Copy, Debug, PartialEq, Eq, Structural)]
pub enum Decision {
    /// Nothing: its caps cannot be read.
    Fault(CapsFault),
    /// It is decoded and mixed.
    MixAudio,
    /// Nothing yet: the buffer is dropped, and the next one is looked at.
    Wait,
    /// Its buffers go nowhere.
    DiscardVideo(DiscardReason),
    /// It becomes the video of the output.
    BridgeVideo(VideoRoute),
    /// Nothing: it is neither audio nor video.
    Unhandled,
}

/// What the tracks have in common: whether a video track was bridged, and which synchronization
/// sources were seen.
pub struct Tracks {
    bridged: bool,
    ssrcs: BTreeSet<u32>,
}

/// The state of [`Tracks`].
#[verifier::ext_equal]
pub struct TracksView {
    pub bridged: bool,
    pub ssrcs: Set<u32>,
}

impl View for Tracks {
    type V = TracksView;

    closed spec fn view(&self) -> TracksView {
        TracksView { bridged: self.bridged, ssrcs: self.ssrcs@ }
    }
}

/// The bytes of a buffer, if they could be read.
pub open spec fn contents(buffer: Option<&[u8]>) -> Option<Seq<u8>> {
    match buffer {
        Some(bytes) => Some(bytes@),
        None => None,
    }
}

/// Whether a buffer proves that its track carries media.
pub open spec fn proves_media(buffer: Option<Seq<u8>>) -> bool {
    buffer matches Some(bytes) && carries_media(bytes)
}

/// Whether the caps are those of a video track.
pub open spec fn is_video(caps: TrackCaps) -> bool {
    caps matches TrackCaps::Media { media, .. } && media@ == "video"@
}

/// What is done with a track when `buffer` arrives on it. `bridged` tells whether a video track
/// was bridged before.
pub open spec fn decide(
    bridge_video: bool,
    bridged: bool,
    buffer: Option<Seq<u8>>,
    caps: TrackCaps,
) -> Decision {
    match caps {
        TrackCaps::Missing => Decision::Fault(CapsFault::NoCaps),
        TrackCaps::NoStructure => Decision::Fault(CapsFault::NoStructure),
        TrackCaps::NoMedia => Decision::Fault(CapsFault::NoMedia),
        TrackCaps::Media { media, encoding_name } => if media@ == "audio"@ {
            Decision::MixAudio
        } else if media@ != "video"@ {
            Decision::Unhandled
        } else if !bridge_video {
            Decision::DiscardVideo(DiscardReason::Disabled)
        } else if !proves_media(buffer) {
            Decision::Wait
        } else if bridged {
            Decision::DiscardVideo(DiscardReason::AlreadyBridged)
        } else {
            Decision::BridgeVideo(route_of(encoding_name@))
        },
    }
}

/// The sources seen once `buffer` has arrived: whatever its track is, a whole RTP header counts.
pub open spec fn with_source(ssrcs: Set<u32>, buffer: Option<Seq<u8>>) -> Set<u32> {
    match buffer {
        Some(bytes) => match ssrc_of(bytes) {
            Some(ssrc) => ssrcs.insert(ssrc),
            None => ssrcs,
        },
        None => ssrcs,
    }
}

/// The state once `buffer` has arrived on a track.
pub open spec fn step(
    state: TracksView,
    bridge_video: bool,
    buffer: Option<Seq<u8>>,
    caps: TrackCaps,
) -> TracksView {
    TracksView {
        bridged: state.bridged || decide(bridge_video, state.bridged, buffer, caps) is BridgeVideo,
        ssrcs: with_source(state.ssrcs, buffer),
    }
}

/// The element that a track is linked to: a decoder where it is decoded, a sink where its buffers
/// go nowhere. Video that is passed through goes to its chain directly, and otherwise nothing is
/// linked.
pub open spec fn entry_of(decision: Decision) -> Option<Seq<char>> {
    match decision {
        Decision::MixAudio | Decision::BridgeVideo(VideoRoute::Transcode) => Some("decodebin"@),
        Decision::DiscardVideo(_) => Some("fakesink"@),
        _ => None,
    }
}

/// The factory of the element that a track is linked to.
pub fn entry_factory(decision: &Decision) -> (factory: Option<String>)
    ensures
        factory is Some == entry_of(*decision) is Some,
        factory matches Some(name) ==> entry_of(*decision) == Some(name@),
        factory matches Some(name) ==> name@ == (if decision is DiscardVideo {
            "fakesink"@
        } else {
            "decodebin"@
        }),
{
    match decision {
        Decision::MixAudio => Some("decodebin".to_owned()),
        Decision::BridgeVideo(VideoRoute::Transcode) => Some("decodebin".to_owned()),
        Decision::DiscardVideo(_) => Some("fakesink".to_owned()),
        _ => None,
    }
}

impl Decision {
    /// Whether the next buffer of the track is to be looked at too. If so this one is dropped, so
    /// that it does not reach the pad, which is still unlinked; otherwise it passes on.
    pub fn keeps_looking(&self) -> (again: bool)
        ensures
            again == (*self == Decision::Wait),
    {
        match self {
            Decision::Wait => true,
            _ => false,
        }
    }
}

impl Tracks {
    /// No track has arrived yet.
    pub fn new() -> (tracks: Tracks)
        ensures
            tracks@ == (TracksView { bridged: false, ssrcs: Set::empty() }),
    {
        let tracks = Tracks { bridged: false, ssrcs: BTreeSet::new() };
        assert(tracks@ =~= TracksView { bridged: false, ssrcs: Set::empty() });
        tracks
    }

    /// Decides what is done with a track when a buffer of it arrives. `buffer` is `None` if its
    /// bytes could not be read.
    ///
    /// A video track is bridged only once a buffer proves that it carries media, and only the
    /// first one is. Until then its buffers are dropped and nothing is decided, so that a
    /// padding-only stream, which never proves anything, cannot take the only place.
    pub fn on_buffer(
        &mut self,
        bridge_video: bool,
        buffer: Option<&[u8]>,
        caps: &TrackCaps,
    ) -> (decision: Decision)
        ensures
            decision == decide(bridge_video, old(self)@.bridged, contents(buffer), *caps),
            final(self)@ == step(old(self)@, bridge_video, contents(buffer), *caps),
    {
        let mut proven = false;
        if let Some(bytes) = buffer {
            if let Some(ssrc) = rtp_ssrc(bytes) {
                self.ssrcs.insert(ssrc);
            }
            proven = rtp_carries_media(bytes);
        }
        match caps {
            TrackCaps::Missing => Decision::Fault(CapsFault::NoCaps),
            TrackCaps::NoStructure => Decision::Fault(CapsFault::NoStructure),
            TrackCaps::NoMedia => Decision::Fault(CapsFault::NoMedia),
            TrackCaps::Media { media, encoding_name } => {
                if same_text(media.as_str(), "audio") {
                    Decision::MixAudio
                } else if !same_text(media.as_str(), "video") {
                    Decision::Unhandled
                } else if !bridge_video {
                    Decision::DiscardVideo(DiscardReason::Disabled)
                } else if !proven {
                    Decision::Wait
                } else if self.bridged {
                    Decision::DiscardVideo(DiscardReason::AlreadyBridged)
                } else {
                    self.bridged = true;
                    Decision::BridgeVideo(video_route(encoding_name.as_str()))
                }
            },
        }
    }

    /// The synchronization sources seen so far, in ascending order.
    pub fn ssrcs(&self) -> (list: Vec<u32>)
        ensures
            list@.to_set() == self@.ssrcs,
            forall|i: int, j: int| 0 <= i < j < list@.len() ==> list@[i] < list@[j],
    {
        let mut list: Vec<u32> = Vec::new();
        let ghost sorted = spec_btree_keys_iter(&self.ssrcs).remaining();
        for ssrc in it: self.ssrcs.iter()
            invariant
                it.seq() == sorted,
                list@.len() == it.index(),
                forall|i: int| 0 <= i < list@.len() ==> list@[i] == *it.seq()[i],
        {
            list.push(*ssrc);
        }
        assert(list@ =~= sorted.unref());
        proof {
            assert(obeys_cmp::<&u32>());
            assert(increasing_seq(sorted));
            assert forall|i: int, j: int| 0 <= i < j < list@.len() implies list@[i] < list@[j] by {
                assert(OrdSpec::cmp_spec(&sorted[i], &sorted[j]) is Less);
            }
        }
        list
    }
}

/// The arrival of a buffer on a track.
pub struct Arrival {
    pub buffer: Option<Seq<u8>>,
    pub caps: TrackCaps,
}

/// Whether the arrival is that of video which proves that it carries media.
pub open spec fn is_proven_video(arrival: Arrival) -> bool {
    is_video(arrival.caps) && proves_media(arrival.buffer)
}

/// The state after `arrivals`, on whatever tracks, in this order.
pub open spec fn state_after(bridge_video: bool, arrivals: Seq<Arrival>) -> TracksView
    decreases arrivals.len(),
{
    if arrivals.len() == 0 {
        TracksView { bridged: false, ssrcs: Set::empty() }
    } else {
        let last = arrivals.last();
        step(state_after(bridge_video, arrivals.drop_last()), bridge_video, last.buffer, last.caps)
    }
}

/// What is decided at arrival `i`.
pub open spec fn decision_at(bridge_video: bool, arrivals: Seq<Arrival>, i: int) -> Decision {
    let before = state_after(bridge_video, arrivals.take(i));
    decide(bridge_video, before.bridged, arrivals[i].buffer, arrivals[i].caps)
}

/// The state after `k` arrivals tells whether a video track was bridged among them.
proof fn lemma_bridged_after(bridge_video: bool, arrivals: Seq<Arrival>, k: int)
    requires
        0 <= k <= arrivals.len(),
    ensures
        state_after(bridge_video, arrivals.take(k)).bridged <==> exists|i: int|
            0 <= i < k && #[trigger] decision_at(bridge_video, arrivals, i) is BridgeVideo,
    decreases k,
{
    if k > 0 {
        lemma_bridged_after(bridge_video, arrivals, k - 1);
        let upto = arrivals.take(k);
        assert(upto.drop_last() =~= arrivals.take(k - 1));
        assert(upto.last() == arrivals[k - 1]);
        let latest = decision_at(bridge_video, arrivals, k - 1);
        if state_after(bridge_video, arrivals.take(k - 1)).bridged {
            let i = choose|i: int|
                0 <= i < k - 1 && #[trigger] decision_at(bridge_video, arrivals, i) is BridgeVideo;
            assert(0 <= i < k && decision_at(bridge_video, arrivals, i) is BridgeVideo);
        }
        if exists|i: int|
            0 <= i < k && #[trigger] decision_at(bridge_video, arrivals, i) is BridgeVideo {
            let i = choose|i: int|
                0 <= i < k && #[trigger] decision_at(bridge_video, arrivals, i) is BridgeVideo;
            if i < k - 1 {
                assert(0 <= i < k - 1 && decision_at(bridge_video, arrivals, i) is BridgeVideo);
            }
        }
        assert(state_after(bridge_video, arrivals.take(k)).bridged == (state_after(
            bridge_video,
            arrivals.take(k - 1),
        ).bridged || latest is BridgeVideo));
    }
}

/// At most one video track is ever bridged, however many there are and however their buffers
/// interleave.
pub proof fn law_one_video_track_is_bridged(
    bridge_video: bool,
    arrivals: Seq<Arrival>,
    i: int,
    j: int,
)
    requires
        0 <= i < arrivals.len(),
        0 <= j < arrivals.len(),
        decision_at(bridge_video, arrivals, i) is BridgeVideo,
        decision_at(bridge_video, arrivals, j) is BridgeVideo,
    ensures
        i == j,
{
    lemma_bridged_after(bridge_video, arrivals, i);
    lemma_bridged_after(bridge_video, arrivals, j);
}

/// The first video that proves that it carries media is bridged, by the route of its encoding.
/// Video that arrived before it was kept waiting, and took nothing from it; proven video that
/// arrives after it is discarded.
pub proof fn law_first_proven_video_wins(arrivals: Seq<Arrival>, first: int)
    requires
        0 <= first < arrivals.len(),
        is_proven_video(arrivals[first]),
        forall|i: int| 0 <= i < first ==> !is_proven_video(#[trigger] arrivals[i]),
    ensures
        arrivals[first].caps matches TrackCaps::Media { encoding_name, .. } && decision_at(
            true,
            arrivals,
            first,
        ) == Decision::BridgeVideo(route_of(encoding_name@)),
        forall|i: int|
            0 <= i < first && is_video((#[trigger] arrivals[i]).caps) ==> decision_at(
                true,
                arrivals,
                i,
            ) == Decision::Wait,
        forall|i: int|
            first < i < arrivals.len() && is_proven_video(#[trigger] arrivals[i]) ==> decision_at(
                true,
                arrivals,
                i,
            ) == Decision::DiscardVideo(DiscardReason::AlreadyBridged),
{
    reveal_strlit("audio");
    reveal_strlit("video");
    assert("audio"@[0] != "video"@[0]);
    lemma_bridged_after(true, arrivals, first);
    assert forall|i: int| 0 <= i < first implies !(#[trigger] decision_at(
        true,
        arrivals,
        i,
    ) is BridgeVideo) by {
        assert(!is_proven_video(arrivals[i]));
    }
    assert forall|i: int|
        first < i < arrivals.len() && is_proven_video(#[trigger] arrivals[i]) implies decision_at(
        true,
        arrivals,
        i,
    ) == Decision::DiscardVideo(DiscardReason::AlreadyBridged) by {
        lemma_bridged_after(true, arrivals, i);
        assert(decision_at(true, arrivals, first) is BridgeVideo);
    }
}

/// With bridging disabled every video track is discarded at its first buffer, proven or not.
pub proof fn law_disabled_video_is_discarded(arrivals: Seq<Arrival>, i: int)
    requires
        0 <= i < arrivals.len(),
        is_video(arrivals[i].caps),
    ensures
        decision_at(false, arrivals, i) == Decision::DiscardVideo(DiscardReason::Disabled),
{
    reveal_strlit("audio");
    reveal_strlit("video");
    assert("audio"@[0] != "video"@[0]);
}

/// Audio is mixed whatever happened to video, every track of it.
pub proof fn law_every_audio_track_is_mixed(bridge_video: bool, arrivals: Seq<Arrival>, i: int)
    requires
        0 <= i < arrivals.len(),
        arrivals[i].caps matches TrackCaps::Media { media, .. } && media@ == "audio"@,
    ensures
        decision_at(bridge_video, arrivals, i) == Decision::MixAudio,
{
}

/// The sources reported are those of the packets that arrived with a whole header, no more and
/// no less; with no packet there are none.
pub proof fn law_sources_are_those_that_arrived(
    bridge_video: bool,
    arrivals: Seq<Arrival>,
    ssrc: u32,
)
    ensures
        state_after(bridge_video, arrivals).ssrcs.contains(ssrc) <==> exists|i: int|
            0 <= i < arrivals.len() && ((#[trigger] arrivals[i]).buffer matches Some(bytes)
                && ssrc_of(bytes) == Some(ssrc)),
    decreases arrivals.len(),
{
    if arrivals.len() > 0 {
        let front = arrivals.drop_last();
        law_sources_are_those_that_arrived(bridge_video, front, ssrc);
        if state_after(bridge_video, front).ssrcs.contains(ssrc) {
            let i = choose|i: int|
                0 <= i < front.len() && ((#[trigger] front[i]).buffer matches Some(bytes)
                    && ssrc_of(bytes) == Some(ssrc));
            assert(arrivals[i] == front[i]);
        }
        if exists|i: int|
            0 <= i < arrivals.len() && ((#[trigger] arrivals[i]).buffer matches Some(bytes)
                && ssrc_of(bytes) == Some(ssrc)) {
            let i = choose|i: int|
                0 <= i < arrivals.len() && ((#[trigger] arrivals[i]).buffer matches Some(bytes)
                    && ssrc_of(bytes) == Some(ssrc));
            if i < front.len() {
                assert(front[i] == arrivals[i]);
            }
        }
        assert(arrivals[arrivals.len() - 1] == arrivals.last());
    }
}

/// Video proves that it carries media by a buffer with a whole RTP header in which the bit 0x20 of
/// the first byte is clear or the bit 0x80 of the second is set; a buffer that could not be read
/// proves nothing.
pub proof fn law_video_is_proven_by_two_bits(
    media: String,
    encoding_name: String,
    buffer: Option<Seq<u8>>,
)
    ensures
        proves_media(buffer) <==> (buffer matches Some(bytes) && bytes.len() >= 12 && (bytes[0] & 0x20
            == 0 || bytes[1] & 0x80 != 0)),
        is_video(TrackCaps::Media { media, encoding_name }) <==> media@ == "video"@,
        !is_video(TrackCaps::Missing) && !is_video(TrackCaps::NoStructure) && !is_video(
            TrackCaps::NoMedia,
        ),
        is_proven_video(Arrival { buffer, caps: TrackCaps::Media { media, encoding_name } }) <==> (
        media@ == "video"@ && (buffer matches Some(bytes) && bytes.len() >= 12 && (bytes[0] & 0x20
            == 0 || bytes[1] & 0x80 != 0))),
{
    if let Some(bytes) = buffer {
        law_two_bits_decide(bytes);
    }
}

/// Which decision is made when, for a track with readable caps: by what the medium is called,
/// whether video is bridged at all, whether the buffer proves that it carries media, whether
/// another track was bridged before, and whether the encoding is H.264; by nothing else.
pub proof fn law_decisions_are_made_for_these_reasons(
    bridge_video: bool,
    bridged: bool,
    buffer: Option<Seq<u8>>,
    media: String,
    encoding_name: String,
)
    ensures
        ({
            let decision = decide(
                bridge_video,
                bridged,
                buffer,
                TrackCaps::Media { media, encoding_name },
            );
            let video = media@ == "video"@;
            let proven = buffer matches Some(bytes) && bytes.len() >= 12 && (bytes[0] & 0x20 == 0
                || bytes[1] & 0x80 != 0);
            let h264 = encoding_name@ == "H264"@;
            &&& decision == Decision::MixAudio <==> media@ == "audio"@
            &&& decision == Decision::Unhandled <==> media@ != "audio"@ && !video
            &&& decision == Decision::DiscardVideo(DiscardReason::Disabled) <==> video
                && !bridge_video
            &&& decision == Decision::Wait <==> video && bridge_video && !proven
            &&& decision == Decision::DiscardVideo(DiscardReason::AlreadyBridged) <==> video
                && bridge_video && proven && bridged
            &&& decision == Decision::BridgeVideo(VideoRoute::Passthrough) <==> video
                && bridge_video && proven && !bridged && h264
            &&& decision == Decision::BridgeVideo(VideoRoute::Transcode) <==> video && bridge_video
                && proven && !bridged && !h264
            &&& !(decision is Fault)
        }),
{
    reveal_strlit("audio");
    reveal_strlit("video");
    assert("audio"@[0] != "video"@[0]);
    if let Some(bytes) = buffer {
        law_two_bits_decide(bytes);
    }
}

/// Without readable caps nothing is decided but what is wrong with them, whatever arrives.
pub proof fn law_unreadable_caps_are_faults(
    bridge_video: bool,
    bridged: bool,
    buffer: Option<Seq<u8>>,
)
    ensures
        decide(bridge_video, bridged, buffer, TrackCaps::Missing) == Decision::Fault(
            CapsFault::NoCaps,
        ),
        decide(bridge_video, bridged, buffer, TrackCaps::NoStructure) == Decision::Fault(
            CapsFault::NoStructure,
        ),
        decide(bridge_video, bridged, buffer, TrackCaps::NoMedia) == Decision::Fault(
            CapsFault::NoMedia,
        ),
{
}

/// What is remembered of a buffer: that a track was bridged, from then on, and the source in a
/// whole RTP header, whatever the track is and whatever is decided.
pub proof fn law_what_is_remembered(
    state: TracksView,
    bridge_video: bool,
    buffer: Option<Seq<u8>>,
    caps: TrackCaps,
    ssrc: u32,
)
    ensures
        ({
            let after = step(state, bridge_video, buffer, caps);
            &&& after.bridged <==> state.bridged || decide(
                bridge_video,
                state.bridged,
                buffer,
                caps,
            ) is BridgeVideo
            &&& after.ssrcs.contains(ssrc) <==> state.ssrcs.contains(ssrc) || (buffer matches Some(
                bytes,
            ) && bytes.len() >= 12 && ssrc == bytes[8] * 0x100_0000 + bytes[9] * 0x1_0000
                + bytes[10] * 0x100 + bytes[11])
        }),
{
    if let Some(bytes) = buffer {
        law_the_source_is_in_the_header(bytes);
    }
}

/// A buffer that could be read is looked at as it is.
pub proof fn law_buffers_are_looked_at_as_they_are(bytes: &[u8])
    ensures
        contents(Some(bytes)) == Some(bytes@),
        contents(None) is None,
{
}

/// Tracks that are decoded enter at a decoder, be they audio or video; tracks that are discarded
/// enter at a sink, whatever the reason. No other track is linked to an element of its own.
pub proof fn law_tracks_enter_where_they_belong(reason: DiscardReason, fault: CapsFault)
    ensures
        entry_of(Decision::MixAudio) == Some("decodebin"@),
        entry_of(Decision::BridgeVideo(VideoRoute::Transcode)) == Some("decodebin"@),
        entry_of(Decision::DiscardVideo(reason)) == Some("fakesink"@),
        entry_of(Decision::BridgeVideo(VideoRoute::Passthrough)) is None,
        entry_of(Decision::Wait) is None,
        entry_of(Decision::Unhandled) is None,
        entry_of(Decision::Fault(fault)) is None,
{
}

} // verus!
