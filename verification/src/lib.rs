//! Address-range expansion, reachability bookkeeping and report formatting
//! for a mass IPv4 pinger and port scanner.
//!
//! IPv4 addresses are held as their 32-bit big-endian value (`u32`), so that
//! the order of addresses is the order of integers.

pub mod text;
pub mod parser;
pub mod pings;
pub mod stats;
pub mod saver;
pub mod launch;
