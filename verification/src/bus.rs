//! What is done about messages of the pipeline.
use vstd::prelude::*;
use crate::decimal::{
    decimal, digits, is_digit, law_decimal_has_no_leading_zeros, lemma_digits_stand_for, value,
};
use crate::text::{contains, has_part, law_a_part_has_text_around_it};

verus! {

/// A message on the bus of the pipeline.
pub enum BusMessage {
    /// An element changed its state: the name of its type, and its new state.
    StateChanged { source: String, state: String },
    /// The stream ended.
    Eos,
    /// An element failed.
    Error,
    /// Anything else.
    Other,
}

/// What is done about a message.
pub struct Reaction {
    /// Whether the bridge stops.
    pub stop: bool,
    /// The label of the graph to write for debugging, if one is to be written.
    pub dump: Option<String>,
}

/// Whether the message tells of a state change of the pipeline itself.
pub open spec fn is_pipeline_change(message: BusMessage) -> bool {
    message matches BusMessage::StateChanged { source, .. } && has_part(source@, "GstPipeline"@)
}

/// Whether the bridge stops at the message: at the end of the stream, and at an error.
pub open spec fn stops(message: BusMessage) -> bool {
    message is Eos || message is Error
}

/// The label of the graph to write at the message: with debugging on, the new state of the
/// pipeline, or `error`.
pub open spec fn dump_label(message: BusMessage, dot_debug: bool) -> Option<Seq<char>> {
    if !dot_debug {
        None
    } else if message is Error {
        Some("error"@)
    } else if is_pipeline_change(message) {
        Some(message->state@)
    } else {
        None
    }
}

/// The label of a reaction, as text.
pub open spec fn label_text(label: Option<String>) -> Option<Seq<char>> {
    match label {
        Some(text) => Some(text@),
        None => None,
    }
}

/// Whether a state change of an element of this type is one of the pipeline.
pub fn concerns_pipeline(source: &str) -> (concerns: bool)
    ensures
        concerns == has_part(source@, "GstPipeline"@),
{
    contains(source, "GstPipeline")
}

/// Decides what is done about a message.
pub fn react(message: &BusMessage, dot_debug: bool) -> (reaction: Reaction)
    ensures
        reaction.stop == stops(*message),
        label_text(reaction.dump) == dump_label(*message, dot_debug),
        reaction.stop == (message is Eos || message is Error),
        !dot_debug ==> reaction.dump is None,
{
    match message {
        BusMessage::StateChanged { source, state } => {
            if dot_debug && concerns_pipeline(source.as_str()) {
                Reaction { stop: false, dump: Some(state.as_str().to_owned()) }
            } else {
                Reaction { stop: false, dump: None }
            }
        },
        BusMessage::Eos => Reaction { stop: true, dump: None },
        BusMessage::Error => {
            if dot_debug {
                Reaction { stop: true, dump: Some("error".to_owned()) }
            } else {
                Reaction { stop: true, dump: None }
            }
        },
        BusMessage::Other => Reaction { stop: false, dump: None },
    }
}

/// The name, without its extension, of the file that a graph is written to: the time in seconds,
/// and the label.
pub open spec fn dot_name(epoch_secs: nat, label: Seq<char>) -> Seq<char> {
    digits(epoch_secs) + "-"@ + label
}

/// Files do not collide: graphs of different seconds or with different labels have different
/// names.
pub proof fn law_dot_files_do_not_collide(
    secs: nat,
    label: Seq<char>,
    other_secs: nat,
    other_label: Seq<char>,
)
    requires
        dot_name(secs, label) == dot_name(other_secs, other_label),
    ensures
        secs == other_secs,
        label == other_label,
{
    reveal_strlit("-");
    let (a, b) = (digits(secs), digits(other_secs));
    let (name, other) = (dot_name(secs, label), dot_name(other_secs, other_label));
    lemma_digits_stand_for(secs);
    lemma_digits_stand_for(other_secs);
    assert(name[a.len() as int] == '-' && other[b.len() as int] == '-');
    if a.len() < b.len() {
        assert(is_digit(b[a.len() as int]));
    } else if b.len() < a.len() {
        assert(is_digit(a[b.len() as int]));
    }
    assert(name.take(a.len() as int) =~= a && other.take(b.len() as int) =~= b);
    assert(name.skip(a.len() as int + 1) =~= label && other.skip(b.len() as int + 1)
        =~= other_label);
}

/// The name, without its extension, of the file that a graph is written to.
pub fn dot_file_name(epoch_secs: u64, label: &str) -> (name: String)
    ensures
        name@ == dot_name(epoch_secs as nat, label@),
{
    let mut name = decimal(epoch_secs);
    name.append("-");
    name.append(label);
    name
}

/// The bridge stops at the end of the stream and at an error, at every one and at nothing else.
pub proof fn law_the_bridge_stops_at_the_end_and_at_errors(source: String, state: String)
    ensures
        stops(BusMessage::Eos),
        stops(BusMessage::Error),
        !stops(BusMessage::StateChanged { source, state }),
        !stops(BusMessage::Other),
{
}

/// Graphs are written only for debugging: at an error, and at every change of the state of the
/// pipeline, labelled with the new state as it is. Whose change it is tells the name of its type,
/// wherever in it the pipeline is named.
pub proof fn law_graphs_are_written_for_debugging(
    message: BusMessage,
    source: String,
    state: String,
    before: Seq<char>,
    after: Seq<char>,
)
    ensures
        dump_label(message, false) is None,
        dump_label(BusMessage::Error, true) == Some("error"@),
        dump_label(BusMessage::Eos, true) is None,
        dump_label(BusMessage::Other, true) is None,
        source@ == before + "GstPipeline"@ + after ==> dump_label(
            BusMessage::StateChanged { source, state },
            true,
        ) == Some(state@),
        dump_label(BusMessage::StateChanged { source, state }, true) is None || (dump_label(
            BusMessage::StateChanged { source, state },
            true,
        ) == Some(state@) && exists|a: Seq<char>, b: Seq<char>|
            source@ == #[trigger] (a + "GstPipeline"@ + b)),
{
    law_a_part_has_text_around_it(source@, before, "GstPipeline"@, after);
}

/// A label is the text that it is, and no label is none.
pub proof fn law_labels_are_used_as_they_are(label: String)
    ensures
        label_text(Some(label)) == Some(label@),
        label_text(None) is None,
{
}

/// The name of a file is the time in decimal digits, a hyphen, and the label as it is.
pub proof fn law_dot_files_are_named_by_time_and_label(secs: nat, label: Seq<char>)
    ensures
        ({
            let name = dot_name(secs, label);
            let n = name.len() - label.len() - 1;
            &&& n > 0
            &&& forall|i: int| 0 <= i < n ==> '0' <= #[trigger] name[i] && name[i] <= '9'
            &&& value(name.take(n)) == secs
            &&& name[0] == '0' ==> n == 1
            &&& name[n] == '-'
            &&& name.skip(n + 1) == label
        }),
{
    reveal_strlit("-");
    law_decimal_has_no_leading_zeros(secs);
    let name = dot_name(secs, label);
    let n = name.len() - label.len() - 1;
    assert(name.take(n) =~= digits(secs));
    assert(name.skip(n + 1) =~= label);
    assert forall|i: int| 0 <= i < n implies '0' <= #[trigger] name[i] && name[i] <= '9' by {
        assert(name[i] == digits(secs)[i]);
    }
}

} // verus!
