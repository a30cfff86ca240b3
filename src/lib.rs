//! Core of the geo-tracking backend: the telemetry record model, the binary
//! wire format and its stream framing, the deduplicating time-indexed storage
//! engine, and the decision logic of the dispatch actor and the ingestors.

pub mod data;
pub mod wire;
pub mod framing;
pub mod encode;
pub mod dispatch;
pub mod storage;
pub mod ingest;
