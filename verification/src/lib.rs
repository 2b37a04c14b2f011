//! A time-varying graph (TVG): a directed graph whose edges carry ordered
//! collections of time intervals (optionally with a numeric payload), together
//! with a depth-bounded streaming path search and a flat exchange codec.
//!
//! Interval endpoints and payloads are IEEE-754 single-precision values,
//! carried as their bit patterns (`u32`), since equality between edges is
//! defined bit-for-bit on the endpoints.

pub mod channel;
pub mod search;
pub mod serialization;
pub mod tvg;
pub mod tvg_path;
