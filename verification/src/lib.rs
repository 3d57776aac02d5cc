//! `fermix-stt`: a local speech-to-text sidecar, as a verified library.
//!
//! Layering, outermost first:
//!
//! - [`args`]: what an invocation asks for.
//! - [`session`]: the dispatch state machine and every protocol obligation, with
//!   [`dialogue`], what it answers to everything, and [`laws`] and [`runs`], what
//!   holds of every session and of whole runs.
//! - [`ndjson`]: line framing, with the 8 MiB ceiling in both directions.
//! - [`protocol`]: every event and op, and the bytes an event becomes, with
//!   [`json`] and [`text`] underneath, and [`wire`], what the bytes come to.
//! - [`decode`], [`resample`], [`payload`], [`pcm`]: container or payload to 16 kHz
//!   mono samples.
//! - [`vad`]: segmentation of a live stream into utterances, with
//!   [`segmentation`], what that means, and [`utterances`] and [`cutting`], what
//!   holds of it.
//! - [`asr`], [`engine`]: the recognition backend.
use vstd::prelude::*;

pub mod args;
pub mod asr;
pub mod cutting;
pub mod decode;
pub mod dialogue;
pub mod engine;
pub mod json;
pub mod laws;
pub mod ndjson;
pub mod payload;
pub mod pcm;
pub mod protocol;
pub mod resample;
pub mod runs;
pub mod segmentation;
pub mod session;
pub mod text;
pub mod utterances;
pub mod vad;
pub mod wire;

verus! {

/// This sidecar's version, reported in `hello` as `stt_version`.
pub const VERSION: &'static str = "0.1.0";

} // verus!
