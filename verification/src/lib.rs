//! Verified core of an HLS (M3U8) segment-download pipeline.
//!
//! The library parses a media playlist into ordered segment references,
//! models the bounded-concurrency fetch scheduler as a state machine,
//! tracks progress, stores segment artifacts under ordinal-derived names,
//! and emits the concat-style input list and muxer arguments for the
//! external muxer. All I/O (HTTP, files, process spawning) lives outside
//! the library.

pub mod listing;
pub mod muxer;
pub mod parse;
pub mod progress;
pub mod resolve;
pub mod sched;
pub mod store;
