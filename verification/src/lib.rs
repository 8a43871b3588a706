//! A small multi-table key-value store library: an engine-independent
//! store abstraction, a verified in-memory engine, an ordered scan
//! pipeline with bounded backpressure, and a thin service layer.
//!
//! - `model`: the mathematical model — table maps, the byte-lexicographic
//!   key order, and the laws the store obeys.
//! - `store`: the capability interface every engine implements.
//! - `mem`: the verified in-memory engine.
//! - `bytes`: executable byte-key helpers proved against the order.
//! - `scan`: the bounded result channel and the verified scan producer.
//! - `service`: decoded requests in, responses and scan streams out.
//! - `args`: the program's arguments and the data-path computation.

pub mod args;
pub mod bytes;
pub mod mem;
pub mod model;
pub mod scan;
pub mod service;
pub mod store;

use vstd::prelude::*;

verus! {

/// Maximum number of named tables one database environment may hold.
pub const MAX_TABLES: usize = 10;

/// Per-item send timeout of the scan pipeline, in milliseconds.
pub const SEND_TIMEOUT_MS: u64 = 3000;

} // verus!
