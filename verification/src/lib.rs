//! Core engine of an in-memory distributed-tracing collector.
//!
//! Services emit [`model::Span`] values; the collector groups them by
//! [`ids::TraceId`] into rooted [`trace::Trace`] trees, keeps them for a
//! bounded time window, answers point and filtered queries, and fans out
//! lifecycle events to live subscribers.
//!
//! The crate is organised leaves first:
//! - [`ids`]: fixed-width trace/span identifiers and nanosecond timestamps;
//! - [`model`]: the span-level value types;
//! - [`trace`]: the pure assembly of a flat span batch into a trace tree;
//! - [`store`]: the mutable, TTL-scoped index of traces;
//! - [`query`]: filtering, sorting and summarisation over the store;
//! - [`bus`]: bounded fan-out of lifecycle events to subscribers;
//! - [`service`]: the call-shaped facade a transport layer drives;
//! - [`batch`]: the batching decisions of a span-sending client;
//! - [`laws`]: the engine's cross-cutting guarantees, proved once;
//! - [`seed`]: demonstration traces for exercising a fresh collector.

pub mod ids;
pub mod model;
pub mod trace;
pub mod batch;
pub mod bus;
pub mod store;
pub mod query;
pub mod service;
pub mod laws;
pub mod seed;
