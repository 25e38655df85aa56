//! The settings of the bridge and their defaults.
use vstd::prelude::*;
use crate::decimal::{digits, law_decimal_reads_back, parse_u64, parsed};

verus! {

/// Where the stream goes unless told otherwise: listeners may connect on port 1234.
pub const DEFAULT_OUTPUT_URL: &'static str = "srt://0.0.0.0:1234?mode=listener";

/// The jitterbuffer latency in milliseconds for audio alone.
pub const DEFAULT_LATENCY: u64 = 200;

/// The jitterbuffer latency in milliseconds when video is bridged. WebRTC video commonly shows
/// one to two seconds of RTP clock skew, and a short window would drop the key frames that the
/// rest of the chain depends on.
pub const DEFAULT_VIDEO_LATENCY: u64 = 2000;

/// The bitrate of re-encoded video in kilobits per second.
pub const DEFAULT_VIDEO_BITRATE: u32 = 8000;

/// The speed preset of the video encoder.
pub const DEFAULT_VIDEO_PRESET: &'static str = "fast";

/// The largest distance between key frames, in frames.
pub const DEFAULT_VIDEO_KEY_INT: u32 = 60;

/// What was asked for on the command line or in the environment; `None` where nothing was.
#[derive(Clone, Debug)]
pub struct Options {
    /// WHEP source URL.
    pub input_url: String,
    /// SRT output stream URL.
    pub output_url: Option<String>,
    /// Output debug .dot files.
    pub dot_debug: bool,
    /// Jitterbuffer latency in milliseconds.
    pub latency: Option<u64>,
    /// Authorization token for the WHEP endpoint.
    pub auth_token: Option<String>,
    /// Bridge video tracks.
    pub bridge_video: bool,
    /// x264enc bitrate in kbps.
    pub video_bitrate: Option<u32>,
    /// x264enc speed-preset.
    pub video_preset: Option<String>,
    /// x264enc key-int-max.
    pub video_key_int: Option<u32>,
}

/// The settings of the bridge.
#[derive(Clone, Debug)]
pub struct Args {
    /// WHEP source URL.
    pub input_url: String,
    /// SRT output stream URL.
    pub output_url: String,
    /// Output debug .dot files.
    pub dot_debug: bool,
    /// Jitterbuffer latency in milliseconds (sets rtpbin latency and liveadder
    /// min-upstream-latency).
    pub latency: u64,
    /// Authorization token for the WHEP endpoint.
    pub auth_token: Option<String>,
    /// Bridge video tracks from WHEP to the SRT output.
    pub bridge_video: bool,
    /// x264enc bitrate in kbps (used when video is re-encoded).
    pub video_bitrate: u32,
    /// x264enc speed-preset. Slower presets give better quality at the same bitrate but use more
    /// CPU.
    pub video_preset: String,
    /// x264enc key-int-max: the largest distance between key frames, in frames. Smaller values
    /// give faster initial sync for new viewers but compress worse.
    pub video_key_int: u32,
}

/// The text given, or the default.
pub open spec fn text_or(given: Option<String>, default: Seq<char>) -> Seq<char> {
    match given {
        Some(text) => text@,
        None => default,
    }
}

/// The number given, or the default.
pub open spec fn number_or<N>(given: Option<N>, default: N) -> N {
    match given {
        Some(number) => number,
        None => default,
    }
}

/// The default latency, which is longer when video is bridged.
pub open spec fn default_latency(bridge_video: bool) -> u64 {
    if bridge_video {
        DEFAULT_VIDEO_LATENCY
    } else {
        DEFAULT_LATENCY
    }
}

/// The bandwidth to claim, in kilobits per second: a positive integer, or else nothing.
pub open spec fn claimed_kbps(setting: Option<Seq<char>>) -> Option<u64> {
    match setting {
        Some(text) => match parsed(text) {
            Some(kbps) => if kbps > 0 {
                Some(kbps)
            } else {
                None
            },
            None => None,
        },
        None => None,
    }
}

/// The jitterbuffer latency: what was asked for, or the default for what is bridged.
pub fn resolve_latency(given: Option<u64>, bridge_video: bool) -> (latency: u64)
    ensures
        latency == number_or(given, default_latency(bridge_video)),
        given matches Some(asked) ==> latency == asked,
        given is None ==> latency == (if bridge_video {
            2000u64
        } else {
            200u64
        }),
{
    match given {
        Some(latency) => latency,
        None => if bridge_video {
            DEFAULT_VIDEO_LATENCY
        } else {
            DEFAULT_LATENCY
        },
    }
}

/// The text given, or the default.
fn resolve_text(given: Option<String>, default: &str) -> (text: String)
    ensures
        text@ == text_or(given, default@),
{
    match given {
        Some(text) => text,
        None => default.to_owned(),
    }
}

/// The number given, or the default.
fn resolve_number(given: Option<u32>, default: u32) -> (number: u32)
    ensures
        number == number_or(given, default),
{
    match given {
        Some(number) => number,
        None => default,
    }
}

impl Args {
    /// Fills in the defaults for whatever was not asked for.
    pub fn from_options(options: Options) -> (args: Args)
        ensures
            args.input_url == options.input_url,
            args.output_url@ == text_or(options.output_url, DEFAULT_OUTPUT_URL@),
            args.dot_debug == options.dot_debug,
            args.latency == number_or(options.latency, default_latency(options.bridge_video)),
            args.auth_token == options.auth_token,
            args.bridge_video == options.bridge_video,
            args.video_bitrate == number_or(options.video_bitrate, DEFAULT_VIDEO_BITRATE),
            args.video_preset@ == text_or(options.video_preset, DEFAULT_VIDEO_PRESET@),
            args.video_key_int == number_or(options.video_key_int, DEFAULT_VIDEO_KEY_INT),
            options.output_url matches Some(url) ==> args.output_url@ == url@,
            options.output_url is None ==> args.output_url@ == "srt://0.0.0.0:1234?mode=listener"@,
            options.latency matches Some(latency) ==> args.latency == latency,
            options.latency is None && options.bridge_video ==> args.latency == 2000,
            options.latency is None && !options.bridge_video ==> args.latency == 200,
            options.video_bitrate matches Some(bitrate) ==> args.video_bitrate == bitrate,
            options.video_bitrate is None ==> args.video_bitrate == 8000,
            options.video_preset matches Some(preset) ==> args.video_preset@ == preset@,
            options.video_preset is None ==> args.video_preset@ == "fast"@,
            options.video_key_int matches Some(distance) ==> args.video_key_int == distance,
            options.video_key_int is None ==> args.video_key_int == 60,
    {
        Args {
            input_url: options.input_url,
            output_url: resolve_text(options.output_url, DEFAULT_OUTPUT_URL),
            dot_debug: options.dot_debug,
            latency: resolve_latency(options.latency, options.bridge_video),
            auth_token: options.auth_token,
            bridge_video: options.bridge_video,
            video_bitrate: resolve_number(options.video_bitrate, DEFAULT_VIDEO_BITRATE),
            video_preset: resolve_text(options.video_preset, DEFAULT_VIDEO_PRESET),
            video_key_int: resolve_number(options.video_key_int, DEFAULT_VIDEO_KEY_INT),
        }
    }
}

/// Reads the bandwidth to claim from its setting. The claim is off unless the setting is a
/// positive integer.
pub fn parse_remb_kbps(setting: Option<&str>) -> (kbps: Option<u64>)
    ensures
        kbps == claimed_kbps(
            match setting {
                Some(text) => Some(text@),
                None => None,
            },
        ),
{
    match setting {
        Some(text) => match parse_u64(text) {
            Some(kbps) => if kbps > 0 {
                Some(kbps)
            } else {
                None
            },
            None => None,
        },
        None => None,
    }
}

/// What was asked for is used as it is, whatever the default; the default is used only where
/// nothing was.
pub proof fn law_what_was_asked_for_is_used(
    text: String,
    number: u64,
    count: u32,
    default_text: Seq<char>,
    default: u64,
    default_count: u32,
)
    ensures
        text_or(Some(text), default_text) == text@,
        text_or(None, default_text) == default_text,
        number_or(Some(number), default) == number,
        number_or(None, default) == default,
        number_or(Some(count), default_count) == count,
        number_or(None, default_count) == default_count,
{
}

/// The defaults that are documented.
pub proof fn law_defaults_are_the_documented_ones()
    ensures
        DEFAULT_OUTPUT_URL@ == "srt://0.0.0.0:1234?mode=listener"@,
        default_latency(false) == 200,
        default_latency(true) == 2000,
        DEFAULT_VIDEO_BITRATE == 8000,
        DEFAULT_VIDEO_PRESET@ == "fast"@,
        DEFAULT_VIDEO_KEY_INT == 60,
{
}

/// A claim is made for exactly the positive integer that was set, and for nothing else: not for
/// zero, not for text that is no integer, and not where nothing was set.
pub proof fn law_a_claim_is_what_was_set(text: Seq<char>, kbps: u64)
    ensures
        kbps > 0 ==> claimed_kbps(Some(digits(kbps as nat))) == Some(kbps),
        claimed_kbps(Some(text)) == Some(kbps) <==> kbps > 0 && parsed(text) == Some(kbps),
        claimed_kbps(None) is None,
{
    law_decimal_reads_back(kbps);
}

} // verus!
