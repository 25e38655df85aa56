//! The text of the pipeline that is started.
use vstd::prelude::*;
use crate::args::Args;
use crate::text::{has_part, has_prefix, law_a_part_has_text_around_it};

verus! {

/// The element that receives the WHEP stream.
#[derive(Clone, Copy, Debug, PartialEq, Eq, Structural)]
pub enum WhepSource {
    /// The first implementation, which is built on webrtcbin directly.
    WhepSrc,
    /// The later one, which uses the signaller interface and is meant to replace the first.
    WhepClientSrc,
}

/// The part of the text that receives from `whep_url`. Only the later source takes a token.
pub open spec fn source_text(
    source: WhepSource,
    whep_url: Seq<char>,
    auth_token: Option<Seq<char>>,
) -> Seq<char> {
    match source {
        WhepSource::WhepSrc => "whepsrc name=input use-link-headers=false whep-endpoint=\""@
            + whep_url + "\" "@
            + "audio_caps=\"application/x-rtp, media=(string)audio, encoding-name=(string)opus, payload=(int)96, encoding-params=(string)2, clock-rate=(int)48000\""@
            + " video-caps=\"\""@,
        WhepSource::WhepClientSrc => {
            let endpoint = "whepclientsrc name=input signaller::whep-endpoint=\""@ + whep_url
                + "\""@;
            match auth_token {
                Some(token) => endpoint + " signaller::auth-token=\""@ + token + "\""@,
                None => endpoint,
            }
        },
    }
}

/// The whole text: the source, silence that keeps the output going without input, the mixer and
/// the audio encoder, the muxer, and the SRT output to `output_url`.
pub open spec fn pipeline_text(source: Seq<char>, output_url: Seq<char>) -> Seq<char> {
    source
        + " audiotestsrc wave=silence is-live=true ! audio/x-raw,format=F32LE,rate=48000,channels=2 ! "@
        + "liveadder name=mixer"@ + " ! avenc_aac ! aacparse ! mux. "@
        + "mpegtsmux name=mux alignment=7 ! queue ! srtsink uri=\""@ + output_url
        + "\" sync=false wait-for-connection=false latency=100"@
}

/// The token, as text.
pub open spec fn token_text(auth_token: Option<String>) -> Option<Seq<char>> {
    match auth_token {
        Some(token) => Some(token@),
        None => None,
    }
}

/// The stream goes to the output URL, whatever it is: the text ends in the SRT output with exactly
/// that URL in quotes. Before that stand the source as it was given, and after it silence, the
/// mixer, the audio encoder and the muxer, the same for every source and URL.
pub proof fn law_the_output_url_is_where_the_stream_goes(source: Seq<char>, output_url: Seq<char>)
    ensures
        ({
            let text = pipeline_text(source, output_url);
            let end = "srtsink uri=\""@ + output_url
                + "\" sync=false wait-for-connection=false latency=100"@;
            let n = text.len() - end.len();
            &&& n >= source.len()
            &&& text.skip(n) == end
            &&& text.take(source.len() as int) == source
            &&& text.subrange(source.len() as int, n)
                == " audiotestsrc wave=silence is-live=true ! audio/x-raw,format=F32LE,rate=48000,channels=2 ! liveadder name=mixer ! avenc_aac ! aacparse ! mux. mpegtsmux name=mux alignment=7 ! queue ! "@
        }),
{
    let text = pipeline_text(source, output_url);
    let end = "srtsink uri=\""@ + output_url
        + "\" sync=false wait-for-connection=false latency=100"@;
    let n = text.len() - end.len();
    reveal_strlit("srtsink uri=\"");
    reveal_strlit("mpegtsmux name=mux alignment=7 ! queue ! srtsink uri=\"");
    reveal_strlit(" ! avenc_aac ! aacparse ! mux. ");
    reveal_strlit("liveadder name=mixer");
    reveal_strlit(
        " audiotestsrc wave=silence is-live=true ! audio/x-raw,format=F32LE,rate=48000,channels=2 ! ",
    );
    reveal_strlit(
        " audiotestsrc wave=silence is-live=true ! audio/x-raw,format=F32LE,rate=48000,channels=2 ! liveadder name=mixer ! avenc_aac ! aacparse ! mux. mpegtsmux name=mux alignment=7 ! queue ! ",
    );
    let middle =
        " audiotestsrc wave=silence is-live=true ! audio/x-raw,format=F32LE,rate=48000,channels=2 ! liveadder name=mixer ! avenc_aac ! aacparse ! mux. mpegtsmux name=mux alignment=7 ! queue ! "@;
    let parts =
        " audiotestsrc wave=silence is-live=true ! audio/x-raw,format=F32LE,rate=48000,channels=2 ! "@
        + "liveadder name=mixer"@ + " ! avenc_aac ! aacparse ! mux. "@
        + "mpegtsmux name=mux alignment=7 ! queue ! srtsink uri=\""@;
    assert(parts =~= middle + "srtsink uri=\""@);
    assert(text =~= source + middle + end);
    assert(text.skip(n) =~= end);
    assert(text.take(source.len() as int) =~= source);
    assert(text.subrange(source.len() as int, n) =~= middle);
}

/// Pipelines to different URLs have different texts, and so have pipelines with different sources.
pub proof fn law_different_pipelines_have_different_texts(
    source: Seq<char>,
    output_url: Seq<char>,
    other_source: Seq<char>,
    other_url: Seq<char>,
)
    ensures
        pipeline_text(source, output_url) == pipeline_text(source, other_url) ==> output_url
            == other_url,
        pipeline_text(source, output_url) == pipeline_text(other_source, output_url) ==> source
            == other_source,
{
    let (a, b) = (pipeline_text(source, output_url), pipeline_text(source, other_url));
    let c = pipeline_text(other_source, output_url);
    let before = (a.len() - output_url.len()
        - "\" sync=false wait-for-connection=false latency=100"@.len()) as int;
    assert(a.subrange(before, before + output_url.len()) =~= output_url);
    if a == b {
        assert(b.subrange(before, before + other_url.len()) =~= other_url);
    }
    assert(a.take(source.len() as int) =~= source);
    if a == c {
        assert(c.take(other_source.len() as int) =~= other_source);
    }
}

/// The stream is received from the URL that was given, whatever it is: the text of either source
/// has exactly that URL in quotes as its endpoint. The token, exactly as given, is what the later
/// source has besides if there is one; the first has none in any case.
pub proof fn law_the_source_has_its_url_and_token(whep_url: Seq<char>, token: Seq<char>)
    ensures
        source_text(WhepSource::WhepClientSrc, whep_url, None)
            == "whepclientsrc name=input signaller::whep-endpoint=\""@ + whep_url + "\""@,
        source_text(WhepSource::WhepClientSrc, whep_url, Some(token)) == source_text(
            WhepSource::WhepClientSrc,
            whep_url,
            None,
        ) + " signaller::auth-token=\""@ + token + "\""@,
        has_prefix(
            source_text(WhepSource::WhepSrc, whep_url, None),
            "whepsrc name=input use-link-headers=false whep-endpoint=\""@ + whep_url + "\" "@,
        ),
        source_text(WhepSource::WhepSrc, whep_url, None).len()
            == "whepsrc name=input use-link-headers=false whep-endpoint=\""@.len() + whep_url.len()
            + "\" "@.len()
            + "audio_caps=\"application/x-rtp, media=(string)audio, encoding-name=(string)opus, payload=(int)96, encoding-params=(string)2, clock-rate=(int)48000\" video-caps=\"\""@.len(),
        has_part(
            source_text(WhepSource::WhepSrc, whep_url, None),
            "audio_caps=\"application/x-rtp, media=(string)audio, encoding-name=(string)opus, payload=(int)96, encoding-params=(string)2, clock-rate=(int)48000\" video-caps=\"\""@,
        ),
        source_text(WhepSource::WhepSrc, whep_url, Some(token)) == source_text(
            WhepSource::WhepSrc,
            whep_url,
            None,
        ),
{
    let start = "whepsrc name=input use-link-headers=false whep-endpoint=\""@ + whep_url + "\" "@;
    let caps =
        "audio_caps=\"application/x-rtp, media=(string)audio, encoding-name=(string)opus, payload=(int)96, encoding-params=(string)2, clock-rate=(int)48000\" video-caps=\"\""@;
    reveal_strlit(
        "audio_caps=\"application/x-rtp, media=(string)audio, encoding-name=(string)opus, payload=(int)96, encoding-params=(string)2, clock-rate=(int)48000\" video-caps=\"\"",
    );
    reveal_strlit(
        "audio_caps=\"application/x-rtp, media=(string)audio, encoding-name=(string)opus, payload=(int)96, encoding-params=(string)2, clock-rate=(int)48000\"",
    );
    reveal_strlit(" video-caps=\"\"");
    let text = source_text(WhepSource::WhepSrc, whep_url, None);
    assert(text =~= start + caps);
    assert(text.take(start.len() as int) =~= start);
    assert(text =~= start + caps + Seq::empty());
    law_a_part_has_text_around_it(text, start, caps, Seq::empty());
}

/// A token is used as it is.
pub proof fn law_the_token_is_used_as_given(token: String)
    ensures
        token_text(Some(token)) == Some(token@),
        token_text(None) is None,
{
}

/// Describes the element that receives from `whep_url`.
pub fn source_description(source: WhepSource, whep_url: &str, auth_token: &Option<String>) -> (text:
    String)
    ensures
        text@ == source_text(source, whep_url@, token_text(*auth_token)),
{
    match source {
        WhepSource::WhepSrc => {
            let mut text = "whepsrc name=input use-link-headers=false whep-endpoint=\"".to_owned();
            text.append(whep_url);
            text.append("\" ");
            text.append(
                "audio_caps=\"application/x-rtp, media=(string)audio, encoding-name=(string)opus, payload=(int)96, encoding-params=(string)2, clock-rate=(int)48000\"",
            );
            text.append(" video-caps=\"\"");
            text
        },
        WhepSource::WhepClientSrc => {
            let mut text = "whepclientsrc name=input signaller::whep-endpoint=\"".to_owned();
            text.append(whep_url);
            text.append("\"");
            if let Some(token) = auth_token {
                text.append(" signaller::auth-token=\"");
                text.append(token.as_str());
                text.append("\"");
            }
            text
        },
    }
}

/// Describes the pipeline to start.
pub fn pipeline_description(source: WhepSource, args: &Args) -> (text: String)
    ensures
        text@ == pipeline_text(
            source_text(source, args.input_url@, token_text(args.auth_token)),
            args.output_url@,
        ),
{
    let mut text = source_description(source, args.input_url.as_str(), &args.auth_token);
    text.append(
        " audiotestsrc wave=silence is-live=true ! audio/x-raw,format=F32LE,rate=48000,channels=2 ! ",
    );
    text.append("liveadder name=mixer");
    text.append(" ! avenc_aac ! aacparse ! mux. ");
    text.append("mpegtsmux name=mux alignment=7 ! queue ! srtsink uri=\"");
    text.append(args.output_url.as_str());
    text.append("\" sync=false wait-for-connection=false latency=100");
    text
}

} // verus!
