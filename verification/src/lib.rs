//! Verified core of a sidecar client for a line-oriented music-server
//! protocol: response framing with whole-line terminal matching, response
//! decoding with last-value-wins merge semantics, history-weighted playlist
//! selection under a duration budget, and the queue/resume policy around a
//! batched enqueue.

pub mod collection;
pub mod decoder;
pub mod history;
pub mod protocol;
pub mod selector;
pub mod session;
pub mod stats;
pub mod text;
