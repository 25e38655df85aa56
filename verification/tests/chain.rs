use whep_srt::chain::{
    audio_chain, element_kind, find_video_template, ghost_pad_levels, ghost_pad_name,
    mixer_property, rtpbin_properties, sends_rtcp, video_chain, video_route, Direction, Element,
    ElementKind, PadTemplate, Presence, VideoRoute,
};

/// The elements as one line each: the factory, then its properties.
fn lines(chain: &[Element]) -> Vec<String> {
    chain
        .iter()
        .map(|e| {
            let mut line = e.factory.clone();
            for p in &e.properties {
                line += &format!(" {}={}", p.name, p.value);
            }
            line
        })
        .collect()
}

#[test]
fn audio_is_converted_to_what_the_mixer_takes() {
    assert_eq!(
        lines(&audio_chain()),
        [
            "audioconvert",
            "audioresample",
            "capsfilter caps=audio/x-raw,format=F32LE,rate=48000",
        ]
    );
}

#[test]
fn transcoded_video_is_encoded_as_configured() {
    assert_eq!(
        lines(&video_chain(VideoRoute::Transcode, "fast", 8000, 60)),
        [
            "videoconvert",
            "x264enc tune=zerolatency speed-preset=fast bitrate=8000 key-int-max=60",
            "h264parse config-interval=-1",
            "capsfilter caps=video/x-h264,stream-format=byte-stream,alignment=au",
            "queue",
        ]
    );
    let slow = lines(&video_chain(VideoRoute::Transcode, "slow", u32::MAX, 0));
    assert_eq!(
        slow[1],
        "x264enc tune=zerolatency speed-preset=slow bitrate=4294967295 key-int-max=0"
    );
}

#[test]
fn passed_through_video_is_only_parsed() {
    assert_eq!(
        lines(&video_chain(VideoRoute::Passthrough, "fast", 8000, 60)),
        ["rtph264depay", "h264parse config-interval=-1"]
    );
}

#[test]
fn the_route_follows_the_encoding_name() {
    assert_eq!(video_route("H264"), VideoRoute::Passthrough);
    assert_eq!(video_route("h264"), VideoRoute::Transcode);
    assert_eq!(video_route("H265"), VideoRoute::Transcode);
    assert_eq!(video_route(""), VideoRoute::Transcode);
}

#[test]
fn elements_are_told_by_their_type() {
    assert_eq!(element_kind("GstRtpBin"), ElementKind::RtpBin);
    assert_eq!(element_kind("GstWebRTCBin"), ElementKind::WebRtcBin);
    assert_eq!(element_kind("GstRtpBin2"), ElementKind::Other);
    assert_eq!(element_kind(""), ElementKind::Other);
}

#[test]
fn session_and_mixer_are_told_the_same_latency() {
    for latency in [0u64, 200, 2000, u64::MAX] {
        let session = rtpbin_properties(latency);
        assert_eq!(session.len(), 2);
        assert_eq!(session[0].name, "latency");
        assert_eq!(session[0].value, latency.to_string());
        assert_eq!(session[1].name, "drop-on-latency");
        assert_eq!(session[1].value, "true");
        let mixer = mixer_property(latency);
        assert_eq!(mixer.name, "min-upstream-latency");
        assert_eq!(
            mixer.value.parse::<u128>().unwrap(),
            latency as u128 * 1_000_000
        );
    }
    assert_eq!(mixer_property(200).value, "200000000");
}

#[test]
fn rtcp_leaves_through_its_pads() {
    assert!(sends_rtcp("send_rtcp_src_0"));
    assert!(sends_rtcp("send_rtcp_src"));
    assert!(!sends_rtcp("send_rtp_src_0"));
    assert!(!sends_rtcp("recv_send_rtcp_src_0"));
}

#[test]
fn ghost_pads_are_named_and_counted() {
    assert_eq!(ghost_pad_name("audio", "src_3"), "audio_src_3");
    assert_eq!(ghost_pad_levels(true, false), 0);
    assert_eq!(ghost_pad_levels(true, true), 0);
    assert_eq!(ghost_pad_levels(false, true), 1);
    assert_eq!(ghost_pad_levels(false, false), 2);
}

#[test]
fn the_first_template_that_takes_video_is_found() {
    let template = |direction, presence, accepts_h264| PadTemplate {
        direction,
        presence,
        accepts_h264,
    };
    let templates = [
        template(Direction::Src, Presence::Request, true),
        template(Direction::Sink, Presence::Always, true),
        template(Direction::Sink, Presence::Sometimes, true),
        template(Direction::Unknown, Presence::Request, true),
        template(Direction::Sink, Presence::Request, false),
        template(Direction::Sink, Presence::Request, true),
        template(Direction::Sink, Presence::Request, true),
    ];
    assert_eq!(find_video_template(&templates), Some(5));
    assert_eq!(find_video_template(&templates[..5]), None);
    assert_eq!(find_video_template(&[]), None);
}
