//! Configuration of the log: file-size caps for a segment's two files and
//! the base offset of the very first segment.

use vstd::prelude::*;

verus! {

/// Default cap, in bytes, applied to a segment file whose configured cap is 0.
pub const DEFAULT_MAX_BYTES: u64 = 1024;

/// Caps and the initial offset for the segments of one log.
#[derive(Clone, Copy)]
pub struct SegmentConfig {
    /// Seal a segment once its store file has reached this many bytes.
    pub max_store_bytes: u64,
    /// Seal a segment once its index file has reached this many bytes; the
    /// index file is pre-sized to exactly this length while the segment is
    /// open.
    pub max_index_bytes: u64,
    /// Base offset of the first segment when the log starts empty.
    pub initial_offset: u64,
}

/// Configuration of one log.
#[derive(Clone, Copy)]
pub struct Config {
    /// Settings shared by every segment of the log.
    pub segment: SegmentConfig,
}

impl Config {
    /// The configuration the log actually runs with: a cap of 0 stands for
    /// the default of `DEFAULT_MAX_BYTES`.
    pub open spec fn effective(self) -> Config {
        Config {
            segment: SegmentConfig {
                max_store_bytes: if self.segment.max_store_bytes == 0 {
                    DEFAULT_MAX_BYTES
                } else {
                    self.segment.max_store_bytes
                },
                max_index_bytes: if self.segment.max_index_bytes == 0 {
                    DEFAULT_MAX_BYTES
                } else {
                    self.segment.max_index_bytes
                },
                initial_offset: self.segment.initial_offset,
            },
        }
    }
}

impl Default for Config {
    /// All caps 0 (so the defaults apply) and an initial offset of 0.
    fn default() -> (c: Config)
        ensures
            c.segment.max_store_bytes == 0,
            c.segment.max_index_bytes == 0,
            c.segment.initial_offset == 0,
    {
        Config {
            segment: SegmentConfig {
                max_store_bytes: 0,
                max_index_bytes: 0,
                initial_offset: 0,
            },
        }
    }
}

impl Default for SegmentConfig {
    /// All fields 0.
    fn default() -> (c: SegmentConfig)
        ensures
            c.max_store_bytes == 0,
            c.max_index_bytes == 0,
            c.initial_offset == 0,
    {
        SegmentConfig { max_store_bytes: 0, max_index_bytes: 0, initial_offset: 0 }
    }
}

} // verus!
