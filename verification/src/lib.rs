//! The decisions behind a bridge from WHEP (WebRTC over HTTP) to SRT.
//!
//! Everything the bridge decides or computes stands here, as functions from plain values to
//! plain values; the multimedia framework, the command line and the network are left to the
//! program that calls them.
//!
//! - [`args`]: the settings, their defaults, and the bandwidth claim read from the environment.
//! - [`launch`]: the text of the pipeline that is started.
//! - [`chain`]: the elements that are attached to the pipeline for each track.
//! - [`rtp`]: what is read from the header of an RTP packet.
//! - [`remb`]: the bandwidth report that is appended to outgoing RTCP.
//! - [`tracks`]: which track is mixed, bridged, discarded, or kept waiting.
//! - [`pmt`]: the removal of a registration descriptor from the MPEG-TS program map.
//! - [`transport`]: the same, for a program map that is carried in transport stream packets.
//! - [`bus`]: what is done about messages of the pipeline.
//! - [`bytes`], [`decimal`], [`text`]: integers in bytes and in digits, and comparisons of text.
pub mod args;
pub mod bus;
pub mod bytes;
pub mod chain;
pub mod decimal;
pub mod launch;
pub mod pmt;
pub mod remb;
pub mod rtp;
pub mod text;
pub mod tracks;
pub mod transport;

pub use crate::args::Args;
pub use crate::remb::build_remb;
pub use crate::rtp::rtp_carries_media;
