//! Reading, writing and streaming of wav audio.
//!
//! Audio is handled as channel-major blocks: one vector of samples per
//! channel. The wav container is decoded and encoded by the `hound` crate,
//! two-dimensional arrays come from `ndarray`. Samples are 16-bit PCM where
//! they meet a file and of any copyable type elsewhere.

pub mod array;
pub mod codec;
pub mod error;
pub mod files;
pub mod laws;
pub mod layout;
pub mod lengths;
pub mod pointwise;
pub mod queue;
pub mod reader;
pub mod session;
pub mod trace;
pub mod verbosity;
pub mod writer;
