//! Real-time trace aggregation: a verified core for an OpenTelemetry
//! span-ingestion and fan-out backend.
//!
//! The library models the shared application state (topology nodes and
//! edges, in-flight traces, span indexes, counters) as a plain value and
//! verifies every transition on it: span ingestion, throttled topology
//! updates, trace finalization, and stale-trace eviction.  I/O, the gRPC
//! and WebSocket plumbing, and message serialization live outside the
//! library and drive it with plain values.

pub mod attrs;
pub mod label;
pub mod model;
pub mod otlp;
pub mod session;
pub mod state;

pub use model::Edge;
pub use model::Node;
