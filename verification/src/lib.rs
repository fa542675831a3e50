//! A passive network traffic monitor's core: decoders that turn raw frames
//! into typed events, TTL- and size-bounded per-metric stores that accumulate
//! them, and threshold analyzers that read, alert and evict.

pub mod analyzers;
pub mod caches;
pub mod config;
pub mod decode;
pub mod dns;
pub mod ttl_map;
