//! A line-oriented key/value protocol served over a readiness-driven reactor,
//! with the connection bookkeeping, framing and latency accounting verified.
pub mod bench;
pub mod codec;
pub mod connection;
pub mod outside;
pub mod server;
pub mod slab;
pub mod store;
