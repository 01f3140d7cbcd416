//! Content-defined chunking and chunk-level deltas between two versions of a byte stream.
//!
//! A stream is cut into chunks at positions chosen by a rolling hash (`rolling_hasher`,
//! `polynomial`, `moving_sum`, `slicer`), each chunk is fingerprinted with a cryptographic
//! digest (`digester`), a longest common subsequence of the two fingerprint lists is
//! computed (`lcs`, `hunt_szymanski`), and the result is turned into a list of byte ranges,
//! read from the old or the new stream, that rebuild the new stream (`delta`, `differ`,
//! `patcher`). `helper` holds the small numeric routines.

pub mod helper;

pub mod rolling_hasher;
pub mod polynomial;
pub mod moving_sum;
pub mod digester;
pub mod slicer;
pub mod delta;
pub mod lcs;
pub mod hunt_szymanski;
pub mod differ;
pub mod patcher;
