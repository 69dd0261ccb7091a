//! Host-side decoder and correlator for a firmware trace stream.
//!
//! Instrumented firmware emits a byte stream of frames, each tagging a
//! tracepoint occurrence with a timestamp.  This crate holds the verified
//! core of the host tool: the tracepoint metadata model and its Span/Instant
//! classification, the incremental stream decoder, the bounded fan-out event
//! bus, the stateful correlation engine that pairs occurrences into spans,
//! and the rendering of the resulting event records as JSON bytes.

pub mod trace_point;
pub mod decoder;
pub mod bus;
pub mod engine;
pub mod render;
