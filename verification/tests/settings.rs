use whep_srt::args::{parse_remb_kbps, resolve_latency, Args, Options};
use whep_srt::bus::{concerns_pipeline, dot_file_name, react, BusMessage};
use whep_srt::decimal::{decimal, parse_u64};
use whep_srt::launch::{pipeline_description, source_description, WhepSource};
use whep_srt::text::{contains, same_text, starts_with};

fn bare(bridge_video: bool) -> Options {
    Options {
        input_url: "http://localhost:8889/mystream/whep".to_string(),
        output_url: None,
        dot_debug: false,
        latency: None,
        auth_token: None,
        bridge_video,
        video_bitrate: None,
        video_preset: None,
        video_key_int: None,
    }
}

#[test]
fn the_defaults_are_the_documented_ones() {
    let args = Args::from_options(bare(false));
    assert_eq!(args.input_url, "http://localhost:8889/mystream/whep");
    assert_eq!(args.output_url, "srt://0.0.0.0:1234?mode=listener");
    assert!(!args.dot_debug);
    assert_eq!(args.latency, 200);
    assert_eq!(args.auth_token, None);
    assert!(!args.bridge_video);
    assert_eq!(args.video_bitrate, 8000);
    assert_eq!(args.video_preset, "fast");
    assert_eq!(args.video_key_int, 60);
}

#[test]
fn the_default_latency_is_longer_with_video() {
    assert_eq!(Args::from_options(bare(true)).latency, 2000);
    assert_eq!(resolve_latency(None, false), 200);
    assert_eq!(resolve_latency(None, true), 2000);
    assert_eq!(resolve_latency(Some(0), true), 0);
    assert_eq!(resolve_latency(Some(350), false), 350);
}

#[test]
fn what_was_asked_for_is_kept() {
    let args = Args::from_options(Options {
        input_url: "in".to_string(),
        output_url: Some("srt://192.168.1.100:5000?mode=caller".to_string()),
        dot_debug: true,
        latency: Some(500),
        auth_token: Some("SECRET".to_string()),
        bridge_video: true,
        video_bitrate: Some(4000),
        video_preset: Some("veryfast".to_string()),
        video_key_int: Some(30),
    });
    assert_eq!(args.output_url, "srt://192.168.1.100:5000?mode=caller");
    assert!(args.dot_debug);
    assert_eq!(args.latency, 500);
    assert_eq!(args.auth_token, Some("SECRET".to_string()));
    assert!(args.bridge_video);
    assert_eq!(args.video_bitrate, 4000);
    assert_eq!(args.video_preset, "veryfast");
    assert_eq!(args.video_key_int, 30);
}

#[test]
fn the_claim_is_off_unless_it_is_a_positive_integer() {
    assert_eq!(parse_remb_kbps(None), None);
    for off in ["", "0", "000", "-5", "fast", "10 ", " 10", "1_000", "1.5"] {
        assert_eq!(parse_remb_kbps(Some(off)), None);
    }
    assert_eq!(parse_remb_kbps(Some("10000")), Some(10_000));
    assert_eq!(parse_remb_kbps(Some("+7")), Some(7));
}

#[test]
fn integers_are_read_as_the_standard_library_reads_them() {
    for text in [
        "", "+", "-", "0", "00", "+0", "-0", "1", "+1", "++1", "+-1", "9", "10", "007", "12a", "a12",
        "1 2", "18446744073709551615", "18446744073709551616", "018446744073709551615",
        "99999999999999999999", "184467440737095516150", "184467440737095516150x", "\u{0661}",
    ] {
        assert_eq!(parse_u64(text), text.parse::<u64>().ok(), "{text}");
    }
}

#[test]
fn integers_are_written_in_decimal_and_read_back() {
    for n in [0, 1, 9, 10, 99, 100, 1234567890, u64::MAX - 1, u64::MAX] {
        assert_eq!(decimal(n), n.to_string());
        assert_eq!(parse_u64(&decimal(n)), Some(n));
    }
}

#[test]
fn texts_are_compared_whole_from_the_start_and_anywhere() {
    assert!(same_text("", "") && same_text("näme", "näme"));
    assert!(!same_text("video", "videos") && !same_text("video", "vidео"));
    assert!(starts_with("abc", "") && starts_with("abc", "ab") && starts_with("abc", "abc"));
    assert!(!starts_with("abc", "b") && !starts_with("ab", "abc"));
    assert!(contains("", "") && contains("aab", "ab") && contains("abab", "bab"));
    assert!(!contains("ab", "abc") && !contains("abac", "abc") && !contains("", "a"));
}

#[test]
fn the_later_source_takes_a_token_and_the_first_one_does_not() {
    let token = Some("t0k".to_string());
    assert_eq!(
        source_description(WhepSource::WhepClientSrc, "http://h/w", &None),
        "whepclientsrc name=input signaller::whep-endpoint=\"http://h/w\""
    );
    assert_eq!(
        source_description(WhepSource::WhepClientSrc, "http://h/w", &token),
        "whepclientsrc name=input signaller::whep-endpoint=\"http://h/w\" signaller::auth-token=\"t0k\""
    );
    assert_eq!(
        source_description(WhepSource::WhepSrc, "http://h/w", &token),
        "whepsrc name=input use-link-headers=false whep-endpoint=\"http://h/w\" audio_caps=\"application/x-rtp, media=(string)audio, encoding-name=(string)opus, payload=(int)96, encoding-params=(string)2, clock-rate=(int)48000\" video-caps=\"\""
    );
}

#[test]
fn the_pipeline_mixes_silence_and_ends_in_srt() {
    let args = Args::from_options(bare(false));
    assert_eq!(
        pipeline_description(WhepSource::WhepClientSrc, &args),
        "whepclientsrc name=input signaller::whep-endpoint=\"http://localhost:8889/mystream/whep\" \
         audiotestsrc wave=silence is-live=true ! audio/x-raw,format=F32LE,rate=48000,channels=2 ! \
         liveadder name=mixer ! avenc_aac ! aacparse ! mux. \
         mpegtsmux name=mux alignment=7 ! queue ! \
         srtsink uri=\"srt://0.0.0.0:1234?mode=listener\" sync=false wait-for-connection=false latency=100"
    );
}

#[test]
fn the_bridge_stops_at_the_end_and_at_errors() {
    for dot_debug in [false, true] {
        assert!(react(&BusMessage::Eos, dot_debug).stop);
        assert_eq!(react(&BusMessage::Eos, dot_debug).dump, None);
        assert!(react(&BusMessage::Error, dot_debug).stop);
        assert!(!react(&BusMessage::Other, dot_debug).stop);
        assert_eq!(react(&BusMessage::Other, dot_debug).dump, None);
    }
    assert_eq!(react(&BusMessage::Error, false).dump, None);
    assert_eq!(react(&BusMessage::Error, true).dump, Some("error".to_string()));
}

#[test]
fn graphs_are_written_for_the_pipeline_only() {
    let change = |source: &str| BusMessage::StateChanged {
        source: source.to_string(),
        state: "Playing".to_string(),
    };
    let reaction = react(&change("GstPipeline"), true);
    assert!(!reaction.stop);
    assert_eq!(reaction.dump, Some("Playing".to_string()));
    assert_eq!(react(&change("GstPipeline"), false).dump, None);
    assert_eq!(react(&change("GstQueue"), true).dump, None);
    assert!(concerns_pipeline("MyGstPipelineX"));
    assert!(!concerns_pipeline("GstBin"));
}

#[test]
fn graph_files_are_named_by_time_and_label() {
    assert_eq!(dot_file_name(1729000000, "Playing"), "1729000000-Playing");
    assert_eq!(dot_file_name(1729000000, "error"), "1729000000-error");
}

#[test]
fn dot_files_of_other_seconds_or_labels_have_other_names() {
    let mut names = Vec::new();
    for secs in [1, 10, 11, 1729000000] {
        for label in ["Playing", "error", "", "-", "0-Playing"] {
            names.push(dot_file_name(secs, label));
        }
    }
    let count = names.len();
    names.sort();
    names.dedup();
    assert_eq!(names.len(), count);
}
