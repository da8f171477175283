//! A phonetic memoization layer for text-to-speech.
//!
//! Generated speech is decomposed into reusable audio primitives (phrases,
//! words, morphemes, diphones, phonemes). Later requests are resolved against
//! the cached units, and only the missing spans go to a speech provider.

pub mod align;
pub mod answers;
pub mod audio;
pub mod base64;
pub mod big;
pub mod bytes;
pub mod chain;
pub mod cli;
pub mod codec;
pub mod command;
pub mod compose;
pub mod corpus;
pub mod coverage;
pub mod digest;
pub mod double;
pub mod edges;
pub mod error;
pub mod eval;
pub mod fade;
pub mod features;
pub mod figures;
pub mod frac;
pub mod fragments;
pub mod g2p;
pub mod gates;
pub mod heard;
pub mod http;
pub mod json;
pub mod judged;
pub mod lattice;
pub mod laws;
pub mod limits;
pub mod manifest;
pub mod measure;
pub mod numeral;
pub mod pipeline;
pub mod plan;
pub mod planned;
pub mod playback;
pub mod providers;
pub mod recorded;
pub mod render;
pub mod replay;
pub mod report;
pub mod reuse;
pub mod search;
pub mod select;
pub mod server;
pub mod shown;
pub mod speak;
pub mod ssml;
pub mod stats;
pub mod store;
pub mod text;
pub mod tts;
pub mod units;

pub use error::{MimicError, Result};

use vstd::prelude::*;

verus! {

/// Canonical audio format for the whole pipeline: 16 kHz mono i16 PCM.
pub const SAMPLE_RATE: u32 = 16_000;

/// Crossfade applied at unit joins when splicing.
pub const CROSSFADE_MS: u32 = 10;

} // verus!
