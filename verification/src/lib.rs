//! A durable, append-only record log, modelled at the byte level.
//!
//! The engine accepts opaque byte payloads, assigns each a monotonically
//! increasing 64-bit offset, and lays records out in segmented files: each
//! segment pairs an append-only store file of length-prefixed frames with a
//! fixed-size index of `(relative_offset, byte_position)` entries.  The log
//! routes appends to the active (last) segment, rotates segments when a file
//! reaches its configured cap, dispatches point reads by offset, supports
//! bulk sequential reads and prefix truncation, and recovers its state from
//! the segment files written by an earlier run.
//!
//! File contents are held here as plain byte vectors; reading the files from
//! a directory on open, and writing them back on close, is left to an
//! unverified shell around this crate.

pub mod config;
pub mod error;
pub mod index;
pub mod log;
pub mod multi_reader;
pub mod numeral;
pub mod record;
pub mod segment;
pub mod store;
