//! A content-based audio identification engine.
//!
//! A recording is reduced to a sparse set of time–frequency peaks, pairs of
//! peaks are packed into 32-bit fingerprint hashes, and the hashes are kept in
//! an inverted index.  A query snippet is recognized by looking its hashes up
//! in the index and scoring each candidate song by the largest cluster of
//! coherent time offsets.
//!
//! All signal processing is done in fixed-point integer arithmetic so that the
//! whole pipeline is deterministic and every stage carries an exact contract.

pub mod assoc;
pub mod catalog;
pub mod declarations;
pub mod shazam;
pub mod spectrogram;
pub mod fingerprint;
pub mod math;
pub mod wav;
