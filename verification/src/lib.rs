//! Multi-channel audio level monitoring: interleaved samples are routed into
//! per-channel period buffers, drained into measurement records at each
//! period boundary, handed to a consumer through a single-slot channel and
//! kept in a short rolling history from which level snapshots are taken.
//!
//! Samples and levels are carried as the raw 32-bit words of single-precision
//! values; this crate routes, buffers and groups them and never does
//! arithmetic on them.

pub mod channels;
pub mod config;
pub mod demux;
pub mod handoff;
pub mod history;
pub mod period;
pub mod record;
pub mod ring;
pub mod routing;
pub mod stream;
pub mod window;
