//! The elements that are attached to the pipeline, and the names they are found by.
use vstd::prelude::*;
use crate::decimal::{
    all_digits, decimal, digits, law_decimal_has_no_leading_zeros, lemma_digits_stand_for, value,
};
use crate::text::{has_prefix, same_text, starts_with};

verus! {

/// A property of an element, in the textual form that the framework parses.
pub struct Property {
    pub name: String,
    pub value: String,
}

/// An element to create: its factory, and the properties to set on it.
pub struct Element {
    pub factory: String,
    pub properties: Vec<Property>,
}

impl View for Property {
    type V = (Seq<char>, Seq<char>);

    open spec fn view(&self) -> (Seq<char>, Seq<char>) {
        (self.name@, self.value@)
    }
}

/// Properties, each as its name and its value.
pub open spec fn property_views(properties: Seq<Property>) -> Seq<(Seq<char>, Seq<char>)> {
    Seq::new(properties.len(), |i: int| properties[i]@)
}

impl View for Element {
    type V = (Seq<char>, Seq<(Seq<char>, Seq<char>)>);

    open spec fn view(&self) -> (Seq<char>, Seq<(Seq<char>, Seq<char>)>) {
        (self.factory@, property_views(self.properties@))
    }
}

/// Elements, each as its factory and its properties.
pub open spec fn element_views(elements: Seq<Element>) -> Seq<
    (Seq<char>, Seq<(Seq<char>, Seq<char>)>),
> {
    Seq::new(elements.len(), |i: int| elements[i]@)
}

/// How a bridged video track gets into the output.
#[derive(Clone, Copy, Debug, PartialEq, Eq, Structural)]
pub enum VideoRoute {
    /// The H.264 stream is copied.
    Passthrough,
    /// The stream is decoded and encoded to H.264.
    Transcode,
}

/// The elements of the pipeline that are configured when they appear.
#[derive(Clone, Copy, Debug, PartialEq, Eq, Structural)]
pub enum ElementKind {
    RtpBin,
    WebRtcBin,
    Other,
}

/// The direction of a pad.
#[derive(Clone, Copy, Debug, PartialEq, Eq, Structural)]
pub enum Direction {
    Unknown,
    Src,
    Sink,
}

/// When a pad is there.
#[derive(Clone, Copy, Debug, PartialEq, Eq, Structural)]
pub enum Presence {
    Always,
    Sometimes,
    Request,
}

/// A pad template of the muxer.
pub struct PadTemplate {
    pub direction: Direction,
    pub presence: Presence,
    /// Whether its caps admit H.264.
    pub accepts_h264: bool,
}

/// An element without properties.
pub open spec fn plain(factory: Seq<char>) -> (Seq<char>, Seq<(Seq<char>, Seq<char>)>) {
    (factory, Seq::empty())
}

/// The converters between a decoded audio track and the mixer.
pub open spec fn audio_elements() -> Seq<(Seq<char>, Seq<(Seq<char>, Seq<char>)>)> {
    seq![
        plain("audioconvert"@),
        plain("audioresample"@),
        ("capsfilter"@, seq![("caps"@, "audio/x-raw,format=F32LE,rate=48000"@)]),
    ]
}

/// The elements between a video track and the muxer. A track that is passed through is taken out
/// of RTP and parsed; any other, once decoded, is converted and encoded without B-frames or
/// lookahead. Either way the parameter sets are repeated before every key frame.
pub open spec fn video_elements(
    route: VideoRoute,
    preset: Seq<char>,
    bitrate: u32,
    key_int: u32,
) -> Seq<(Seq<char>, Seq<(Seq<char>, Seq<char>)>)> {
    let parse = ("h264parse"@, seq![("config-interval"@, "-1"@)]);
    match route {
        VideoRoute::Passthrough => seq![plain("rtph264depay"@), parse],
        VideoRoute::Transcode => seq![
            plain("videoconvert"@),
            (
                "x264enc"@,
                seq![
                    ("tune"@, "zerolatency"@),
                    ("speed-preset"@, preset),
                    ("bitrate"@, digits(bitrate as nat)),
                    ("key-int-max"@, digits(key_int as nat)),
                ],
            ),
            parse,
            (
                "capsfilter"@,
                seq![("caps"@, "video/x-h264,stream-format=byte-stream,alignment=au"@)],
            ),
            plain("queue"@),
        ],
    }
}

/// The route of a video track, by the encoding name in its caps.
pub open spec fn route_of(encoding_name: Seq<char>) -> VideoRoute {
    if encoding_name == "H264"@ {
        VideoRoute::Passthrough
    } else {
        VideoRoute::Transcode
    }
}

/// What an element is, by the name of its type.
pub open spec fn kind_of(gtype: Seq<char>) -> ElementKind {
    if gtype == "GstRtpBin"@ {
        ElementKind::RtpBin
    } else if gtype == "GstWebRTCBin"@ {
        ElementKind::WebRtcBin
    } else {
        ElementKind::Other
    }
}

/// The properties of the RTP session: the jitterbuffer latency, and that late packets are
/// dropped, which keeps audio from stalling after a long mute with early packet loss.
pub open spec fn rtpbin_settings(latency: u64) -> Seq<(Seq<char>, Seq<char>)> {
    seq![("latency"@, digits(latency as nat)), ("drop-on-latency"@, "true"@)]
}

/// The property that tells the mixer how late its inputs may be: milliseconds, written in
/// nanoseconds.
pub open spec fn mixer_setting(latency: u64) -> (Seq<char>, Seq<char>) {
    ("min-upstream-latency"@, digits(latency as nat) + "000000"@)
}

/// Whether a pad of the muxer can be requested for the video.
pub open spec fn takes_video(template: PadTemplate) -> bool {
    &&& template.direction == Direction::Sink
    &&& template.presence == Presence::Request
    &&& template.accepts_h264
}

/// A property.
fn property(name: &str, value: &str) -> (p: Property)
    ensures
        p@ == (name@, value@),
{
    Property { name: name.to_owned(), value: value.to_owned() }
}

/// An element without properties.
fn plain_element(factory: &str) -> (e: Element)
    ensures
        e@ == plain(factory@),
{
    let e = Element { factory: factory.to_owned(), properties: Vec::new() };
    assert(property_views(e.properties@) =~= Seq::empty());
    e
}

/// An element with one property.
fn element_with(factory: &str, name: &str, value: &str) -> (e: Element)
    ensures
        e@ == (factory@, seq![(name@, value@)]),
{
    let mut properties: Vec<Property> = Vec::new();
    properties.push(property(name, value));
    let e = Element { factory: factory.to_owned(), properties };
    assert(property_views(e.properties@) =~= seq![(name@, value@)]);
    e
}

/// The converters between a decoded audio track and the mixer, in order.
pub fn audio_chain() -> (chain: Vec<Element>)
    ensures
        element_views(chain@) == audio_elements(),
{
    let mut chain: Vec<Element> = Vec::new();
    chain.push(plain_element("audioconvert"));
    chain.push(plain_element("audioresample"));
    chain.push(element_with("capsfilter", "caps", "audio/x-raw,format=F32LE,rate=48000"));
    assert(element_views(chain@) =~= audio_elements());
    chain
}

/// The elements between a video track and the muxer, in order.
pub fn video_chain(route: VideoRoute, preset: &str, bitrate: u32, key_int: u32) -> (chain: Vec<
    Element,
>)
    ensures
        element_views(chain@) == video_elements(route, preset@, bitrate, key_int),
{
    let mut chain: Vec<Element> = Vec::new();
    match route {
        VideoRoute::Passthrough => {
            chain.push(plain_element("rtph264depay"));
            chain.push(element_with("h264parse", "config-interval", "-1"));
        },
        VideoRoute::Transcode => {
            let mut properties: Vec<Property> = Vec::new();
            properties.push(property("tune", "zerolatency"));
            properties.push(property("speed-preset", preset));
            properties.push(property("bitrate", decimal(bitrate as u64).as_str()));
            properties.push(property("key-int-max", decimal(key_int as u64).as_str()));
            let encoder = Element { factory: "x264enc".to_owned(), properties };
            assert(encoder@ == video_elements(route, preset@, bitrate, key_int)[1]) by {
                assert(property_views(encoder.properties@) =~= video_elements(
                    route,
                    preset@,
                    bitrate,
                    key_int,
                )[1].1);
            }
            chain.push(plain_element("videoconvert"));
            chain.push(encoder);
            chain.push(element_with("h264parse", "config-interval", "-1"));
            chain.push(
                element_with(
                    "capsfilter",
                    "caps",
                    "video/x-h264,stream-format=byte-stream,alignment=au",
                ),
            );
            chain.push(plain_element("queue"));
        },
    }
    assert(element_views(chain@) =~= video_elements(route, preset@, bitrate, key_int));
    chain
}

/// The route of a video track: H.264 is copied, everything else is re-encoded.
pub fn video_route(encoding_name: &str) -> (route: VideoRoute)
    ensures
        route == route_of(encoding_name@),
{
    if same_text(encoding_name, "H264") {
        VideoRoute::Passthrough
    } else {
        VideoRoute::Transcode
    }
}

/// What an element that appeared in the pipeline is.
pub fn element_kind(gtype: &str) -> (kind: ElementKind)
    ensures
        kind == kind_of(gtype@),
{
    if same_text(gtype, "GstRtpBin") {
        ElementKind::RtpBin
    } else if same_text(gtype, "GstWebRTCBin") {
        ElementKind::WebRtcBin
    } else {
        ElementKind::Other
    }
}

/// The properties to set on the RTP session.
pub fn rtpbin_properties(latency: u64) -> (properties: Vec<Property>)
    ensures
        property_views(properties@) == rtpbin_settings(latency),
{
    let mut properties: Vec<Property> = Vec::new();
    properties.push(property("latency", decimal(latency).as_str()));
    properties.push(property("drop-on-latency", "true"));
    assert(property_views(properties@) =~= rtpbin_settings(latency));
    properties
}

/// The property to set on the mixer.
pub fn mixer_property(latency: u64) -> (p: Property)
    ensures
        p@ == mixer_setting(latency),
{
    let mut nanoseconds = decimal(latency);
    nanoseconds.append("000000");
    property("min-upstream-latency", nanoseconds.as_str())
}

/// Whether outgoing RTCP leaves the RTP session through this pad.
pub fn sends_rtcp(pad_name: &str) -> (sends: bool)
    ensures
        sends == has_prefix(pad_name@, "send_rtcp_src"@),
{
    starts_with(pad_name, "send_rtcp_src")
}

/// The name under which a track is exposed outside of its bin.
pub fn ghost_pad_name(media_type: &str, pad_name: &str) -> (name: String)
    ensures
        name@ == media_type@ + "_"@ + pad_name@,
{
    let mut name = media_type.to_owned();
    name.append("_");
    name.append(pad_name);
    name
}

/// Through how many bins a track has to be exposed by hand. The first track is linked
/// automatically; any other passes out of the bin it appeared in, and out of the one around that
/// unless that is the pipeline already.
pub fn ghost_pad_levels(linked: bool, grandparent_is_pipeline: bool) -> (levels: usize)
    ensures
        levels == (if linked {
            0usize
        } else if grandparent_is_pipeline {
            1
        } else {
            2
        }),
{
    if linked {
        0
    } else if grandparent_is_pipeline {
        1
    } else {
        2
    }
}

/// The first template of the muxer that a video pad can be requested from.
pub fn find_video_template(templates: &[PadTemplate]) -> (found: Option<usize>)
    ensures
        match found {
            Some(i) => i < templates@.len() && takes_video(templates@[i as int]) && forall|j: int|
                0 <= j < i ==> !takes_video(#[trigger] templates@[j]),
            None => forall|j: int|
                0 <= j < templates@.len() ==> !takes_video(#[trigger] templates@[j]),
        },
        found matches Some(i) ==> templates@[i as int].direction == Direction::Sink
            && templates@[i as int].presence == Presence::Request
            && templates@[i as int].accepts_h264,
        forall|j: int|
            0 <= j < (match found {
                Some(i) => i as int,
                None => templates@.len() as int,
            }) ==> (#[trigger] templates@[j]).direction != Direction::Sink
                || templates@[j].presence != Presence::Request || !templates@[j].accepts_h264,
{
    let mut i: usize = 0;
    while i < templates.len()
        invariant
            i <= templates@.len(),
            forall|j: int| 0 <= j < i ==> !takes_video(#[trigger] templates@[j]),
        decreases templates@.len() - i,
    {
        let template = &templates[i];
        if template.direction == Direction::Sink && template.presence == Presence::Request
            && template.accepts_h264 {
            return Some(i);
        }
        i += 1;
    }
    None
}

/// Appending a zero multiplies by ten.
proof fn lemma_append_zero(s: Seq<char>)
    requires
        all_digits(s),
    ensures
        all_digits(s.push('0')),
        value(s.push('0')) == value(s) * 10,
{
    assert(s.push('0').drop_last() =~= s);
}

/// The mixer is told, in nanoseconds, the very latency that the RTP session is told in
/// milliseconds.
pub proof fn law_mixer_latency_is_the_session_latency(latency: u64)
    ensures
        all_digits(mixer_setting(latency).1),
        value(mixer_setting(latency).1) == latency * 1_000_000,
        value(rtpbin_settings(latency)[0].1) == latency,
{
    let s = digits(latency as nat);
    lemma_digits_stand_for(latency as nat);
    lemma_append_zero(s);
    lemma_append_zero(s.push('0'));
    lemma_append_zero(s.push('0').push('0'));
    lemma_append_zero(s.push('0').push('0').push('0'));
    lemma_append_zero(s.push('0').push('0').push('0').push('0'));
    lemma_append_zero(s.push('0').push('0').push('0').push('0').push('0'));
    reveal_strlit("000000");
    assert(s + "000000"@ =~= s.push('0').push('0').push('0').push('0').push('0').push('0'));
}

/// What is said of a property is said of its name and its value; of an element, of its factory and
/// of each of its properties; of a chain, of each of its elements.
pub proof fn law_nothing_is_left_out_of_a_chain(chain: Seq<Element>, i: int, j: int)
    requires
        0 <= i < chain.len(),
        0 <= j < chain[i].properties@.len(),
    ensures
        element_views(chain).len() == chain.len(),
        element_views(chain)[i].0 == chain[i].factory@,
        element_views(chain)[i].1.len() == chain[i].properties@.len(),
        element_views(chain)[i].1[j] == (
            chain[i].properties@[j].name@,
            chain[i].properties@[j].value@,
        ),
{
}

/// As [`law_nothing_is_left_out_of_a_chain`], for an element without properties, and for
/// properties alone.
pub proof fn law_nothing_is_left_out_of_an_element(element: Element, property: Property, j: int)
    ensures
        property@ == (property.name@, property.value@),
        element@.0 == element.factory@,
        element@.1 == property_views(element.properties@),
        property_views(element.properties@).len() == element.properties@.len(),
        0 <= j < element.properties@.len() ==> property_views(element.properties@)[j] == (
            element.properties@[j].name@,
            element.properties@[j].value@,
        ),
{
}

/// The encoder gets the very preset, bitrate and key frame distance that were asked for, whatever
/// they are: the preset as it is, and the two integers in decimal digits that stand for them.
/// Besides, it is told to encode without delay, and nothing else.
pub proof fn law_the_encoder_is_set_as_asked(preset: Seq<char>, bitrate: u32, key_int: u32)
    ensures
        ({
            let encoder = video_elements(VideoRoute::Transcode, preset, bitrate, key_int)[1];
            let set = encoder.1;
            &&& encoder.0 == "x264enc"@
            &&& set.len() == 4
            &&& set[0].0 == "tune"@ && set[0].1 == "zerolatency"@
            &&& set[1].0 == "speed-preset"@ && set[1].1 == preset
            &&& set[2].0 == "bitrate"@ && set[2].1.len() > 0
            &&& forall|i: int|
                0 <= i < set[2].1.len() ==> '0' <= #[trigger] set[2].1[i] && set[2].1[i] <= '9'
            &&& value(set[2].1) == bitrate
            &&& set[3].0 == "key-int-max"@ && set[3].1.len() > 0
            &&& forall|i: int|
                0 <= i < set[3].1.len() ==> '0' <= #[trigger] set[3].1[i] && set[3].1[i] <= '9'
            &&& value(set[3].1) == key_int
        }),
{
    law_decimal_has_no_leading_zeros(bitrate as nat);
    law_decimal_has_no_leading_zeros(key_int as nat);
}

/// Around the encoder stand a converter before it, and after it a parser, a filter for whole
/// frames with start codes, and a queue. None of them is set by what was asked for.
pub proof fn law_the_transcoding_chain_is_in_order(preset: Seq<char>, bitrate: u32, key_int: u32)
    ensures
        ({
            let chain = video_elements(VideoRoute::Transcode, preset, bitrate, key_int);
            &&& chain.len() == 5
            &&& chain[0].0 == "videoconvert"@ && chain[0].1.len() == 0
            &&& chain[1].0 == "x264enc"@
            &&& chain[2].0 == "h264parse"@ && chain[2].1.len() == 1
            &&& chain[2].1[0].0 == "config-interval"@ && chain[2].1[0].1 == "-1"@
            &&& chain[3].0 == "capsfilter"@ && chain[3].1.len() == 1
            &&& chain[3].1[0].0 == "caps"@
            &&& chain[3].1[0].1 == "video/x-h264,stream-format=byte-stream,alignment=au"@
            &&& chain[4].0 == "queue"@ && chain[4].1.len() == 0
        }),
{
}

/// A track that is passed through is not encoded: it is taken out of RTP and parsed, and the
/// parameter sets are repeated before every key frame, whatever was asked of the encoder.
pub proof fn law_passthrough_does_not_encode(preset: Seq<char>, bitrate: u32, key_int: u32)
    ensures
        ({
            let chain = video_elements(VideoRoute::Passthrough, preset, bitrate, key_int);
            &&& chain.len() == 2
            &&& chain[0].0 == "rtph264depay"@ && chain[0].1.len() == 0
            &&& chain[1].0 == "h264parse"@ && chain[1].1.len() == 1
            &&& chain[1].1[0].0 == "config-interval"@ && chain[1].1[0].1 == "-1"@
        }),
{
}

/// Decoded audio is converted and resampled to what the mixer takes.
pub proof fn law_audio_is_brought_to_one_format()
    ensures
        audio_elements().len() == 3,
        audio_elements()[0].0 == "audioconvert"@ && audio_elements()[0].1.len() == 0,
        audio_elements()[1].0 == "audioresample"@ && audio_elements()[1].1.len() == 0,
        audio_elements()[2].0 == "capsfilter"@ && audio_elements()[2].1.len() == 1,
        audio_elements()[2].1[0].0 == "caps"@,
        audio_elements()[2].1[0].1 == "audio/x-raw,format=F32LE,rate=48000"@,
{
}

/// H.264 is passed through, and only H.264: two encodings take the same route exactly if both are
/// H.264 or neither is.
pub proof fn law_only_h264_is_passed_through(encoding_name: Seq<char>, other: Seq<char>)
    ensures
        route_of("H264"@) == VideoRoute::Passthrough,
        encoding_name != "H264"@ ==> route_of(encoding_name) == VideoRoute::Transcode,
        route_of(encoding_name) == route_of(other) <==> (encoding_name == "H264"@) == (other
            == "H264"@),
{
}

/// An element is configured by the exact name of its type.
pub proof fn law_elements_are_known_by_their_exact_type(gtype: Seq<char>)
    ensures
        kind_of(gtype) == ElementKind::RtpBin <==> gtype == "GstRtpBin"@,
        kind_of(gtype) == ElementKind::WebRtcBin <==> gtype == "GstWebRTCBin"@,
        kind_of(gtype) == ElementKind::Other <==> gtype != "GstRtpBin"@ && gtype
            != "GstWebRTCBin"@,
{
    reveal_strlit("GstRtpBin");
    reveal_strlit("GstWebRTCBin");
    assert("GstRtpBin"@.len() != "GstWebRTCBin"@.len());
}

/// The RTP session gets the very latency that was asked for, and drops what comes later. The mixer
/// gets the same in nanoseconds, which is a million times the number.
pub proof fn law_the_latency_is_the_one_asked_for(latency: u64)
    ensures
        ({
            let set = rtpbin_settings(latency);
            &&& set.len() == 2
            &&& set[0].0 == "latency"@ && set[0].1.len() > 0
            &&& forall|i: int|
                0 <= i < set[0].1.len() ==> '0' <= #[trigger] set[0].1[i] && set[0].1[i] <= '9'
            &&& value(set[0].1) == latency
            &&& set[1].0 == "drop-on-latency"@ && set[1].1 == "true"@
        }),
        ({
            let set = mixer_setting(latency);
            &&& set.0 == "min-upstream-latency"@ && set.1.len() > 0
            &&& forall|i: int| 0 <= i < set.1.len() ==> '0' <= #[trigger] set.1[i] && set.1[i] <= '9'
            &&& value(set.1) == latency * 1_000_000
        }),
{
    law_decimal_has_no_leading_zeros(latency as nat);
    law_mixer_latency_is_the_session_latency(latency);
    let text = mixer_setting(latency).1;
    assert forall|i: int| 0 <= i < text.len() implies '0' <= #[trigger] text[i] && text[i]
        <= '9' by {
        assert(crate::decimal::is_digit(text[i]));
    }
}

/// A video pad is requested from a sink template that has pads on request and takes H.264; all
/// three are needed.
pub proof fn law_video_needs_a_requested_h264_sink(template: PadTemplate)
    ensures
        takes_video(template) <==> template.direction == Direction::Sink && template.presence
            == Presence::Request && template.accepts_h264,
{
}

} // verus!
