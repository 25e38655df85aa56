use whep_srt::chain::VideoRoute;
use whep_srt::tracks::{
    entry_factory, CapsFault, Decision, DiscardReason, TrackCaps, Tracks,
};

fn packet(padding: bool, ssrc: u32) -> Vec<u8> {
    let mut p = vec![0u8; 16];
    p[0] = 0x80 | if padding { 0x20 } else { 0 };
    p[1] = 97;
    p[8..12].copy_from_slice(&ssrc.to_be_bytes());
    p
}

fn media(media: &str, encoding_name: &str) -> TrackCaps {
    TrackCaps::Media {
        media: media.to_string(),
        encoding_name: encoding_name.to_string(),
    }
}

#[test]
fn the_first_proven_video_track_is_bridged_and_later_ones_are_discarded() {
    let mut tracks = Tracks::new();
    let video = media("video", "VP8");
    let probing = packet(true, 1);
    let real = packet(false, 2);
    // The probing stream arrives first and takes nothing.
    assert_eq!(tracks.on_buffer(true, Some(&probing), &video), Decision::Wait);
    assert_eq!(tracks.on_buffer(true, None, &video), Decision::Wait);
    assert_eq!(
        tracks.on_buffer(true, Some(&real), &video),
        Decision::BridgeVideo(VideoRoute::Transcode)
    );
    assert_eq!(
        tracks.on_buffer(true, Some(&real), &video),
        Decision::DiscardVideo(DiscardReason::AlreadyBridged)
    );
    // The probing stream still proves nothing.
    assert_eq!(tracks.on_buffer(true, Some(&probing), &video), Decision::Wait);
}

#[test]
fn h264_is_passed_through_and_everything_else_is_transcoded() {
    for (encoding, route) in [
        ("H264", VideoRoute::Passthrough),
        ("VP8", VideoRoute::Transcode),
        ("VP9", VideoRoute::Transcode),
        ("H265", VideoRoute::Transcode),
        ("AV1", VideoRoute::Transcode),
        ("", VideoRoute::Transcode),
    ] {
        let mut tracks = Tracks::new();
        let decision = tracks.on_buffer(true, Some(&packet(false, 1)), &media("video", encoding));
        assert_eq!(decision, Decision::BridgeVideo(route));
    }
}

#[test]
fn disabled_video_is_discarded_proven_or_not() {
    let mut tracks = Tracks::new();
    let video = media("video", "H264");
    for buffer in [packet(true, 1), packet(false, 1)] {
        assert_eq!(
            tracks.on_buffer(false, Some(&buffer), &video),
            Decision::DiscardVideo(DiscardReason::Disabled)
        );
    }
    // Nothing was bridged meanwhile.
    assert_eq!(
        tracks.on_buffer(true, Some(&packet(false, 1)), &video),
        Decision::BridgeVideo(VideoRoute::Passthrough)
    );
}

#[test]
fn every_audio_track_is_mixed() {
    let mut tracks = Tracks::new();
    let audio = media("audio", "OPUS");
    for bridge_video in [false, true, true] {
        let decision = tracks.on_buffer(bridge_video, Some(&packet(true, 1)), &audio);
        assert_eq!(decision, Decision::MixAudio);
        tracks.on_buffer(true, Some(&packet(false, 2)), &media("video", "VP8"));
    }
}

#[test]
fn unreadable_caps_and_other_media_are_left_alone() {
    let mut tracks = Tracks::new();
    let buffer = packet(false, 1);
    for (caps, decision) in [
        (TrackCaps::Missing, Decision::Fault(CapsFault::NoCaps)),
        (TrackCaps::NoStructure, Decision::Fault(CapsFault::NoStructure)),
        (TrackCaps::NoMedia, Decision::Fault(CapsFault::NoMedia)),
        (media("application", ""), Decision::Unhandled),
        (media("", ""), Decision::Unhandled),
        (media("videos", ""), Decision::Unhandled),
    ] {
        assert_eq!(tracks.on_buffer(true, Some(&buffer), &caps), decision);
        assert!(!decision.keeps_looking());
    }
}

#[test]
fn only_waiting_keeps_looking() {
    assert!(Decision::Wait.keeps_looking());
    assert!(!Decision::MixAudio.keeps_looking());
    assert!(!Decision::BridgeVideo(VideoRoute::Transcode).keeps_looking());
    assert!(!Decision::DiscardVideo(DiscardReason::Disabled).keeps_looking());
}

#[test]
fn sources_are_listed_once_and_in_order() {
    let mut tracks = Tracks::new();
    assert!(tracks.ssrcs().is_empty());
    for (ssrc, caps) in [
        (0xBBBB_BBBB, media("audio", "OPUS")),
        (7, media("video", "VP8")),
        (0xBBBB_BBBB, TrackCaps::Missing),
        (9, media("application", "")),
        (7, media("video", "VP8")),
    ] {
        tracks.on_buffer(true, Some(&packet(true, ssrc)), &caps);
    }
    // No whole header, no source.
    tracks.on_buffer(true, Some(&packet(true, 3)[..11]), &media("video", "VP8"));
    tracks.on_buffer(true, None, &media("video", "VP8"));
    assert_eq!(tracks.ssrcs(), vec![7, 9, 0xBBBB_BBBB]);
}

#[test]
fn decoded_tracks_enter_at_a_decoder_and_discarded_ones_at_a_sink() {
    for (decision, factory) in [
        (Decision::MixAudio, Some("decodebin")),
        (Decision::BridgeVideo(VideoRoute::Transcode), Some("decodebin")),
        (Decision::BridgeVideo(VideoRoute::Passthrough), None),
        (Decision::DiscardVideo(DiscardReason::AlreadyBridged), Some("fakesink")),
        (Decision::DiscardVideo(DiscardReason::Disabled), Some("fakesink")),
        (Decision::Wait, None),
        (Decision::Unhandled, None),
        (Decision::Fault(CapsFault::NoCaps), None),
    ] {
        assert_eq!(entry_factory(&decision).as_deref(), factory);
    }
}
