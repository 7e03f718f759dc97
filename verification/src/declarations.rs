//! Error codes and the configuration constants of the engine.
//!
//! The DSP constants are part of the wire-level contract of a catalog: hashes
//! computed with different constants are incompatible, so changing any of them
//! requires re-enrolling every recording.

use vstd::prelude::*;

verus! {

pub const FILE_NOT_FOUND: u8 = 1;

pub const INCOMPATIBLE_FILE_ERROR: u8 = 2;

pub const NO_SONG_MATCH_ERROR: u8 = 3;

pub const SPECTROGRAM_GENERATION_FAILURE: u8 = 4;

pub const DATABASE_INSERT_ERROR: u8 = 5;

pub const DATABASE_QUERY_ERROR: u8 = 6;

pub const SPOTIFY_ERROR: u8 = 7;

/// A recognition whose best score is below this threshold is reported by the
/// caller as "no confident match".
pub const MATCH_SCORE_THRESHOLD: u64 = 15;

/// Cutoff of the low-pass filter, in Hz.
pub const MAX_FREQUENCY: u32 = 5000;

/// The stream is decimated to `sample_rate / DSP_RATIO` before the DFT.
pub const DSP_RATIO: u32 = 4;

/// Number of samples (and frequency bins) of one spectrogram frame.
pub const WINDOW_SIZE: usize = 1024;

/// Step between the starts of consecutive frames; frames overlap by half.
pub const SCROLL_SIZE: usize = WINDOW_SIZE / 2;

/// Each peak is paired with up to this many following peaks.
pub const TARGET_ZONE_SIZE: usize = 5;

} // verus!
