//! Post-capture processing core of a sampling profiler.
//!
//! Converts per-process streams of raw instruction-pointer stacks,
//! text-log-derived span/event markers, and scalar counter samples into a
//! resolved, categorized profile: library (un)map operations are replayed in
//! timestamp order to resolve raw addresses, asynchronous start/end log
//! records are paired into timed spans, and everything is interned into a
//! shared output profile.

use vstd::prelude::*;

pub mod counter_file;
pub mod graph_color;
pub mod handles;
pub mod mapping;
pub mod marker_file;
pub mod process_sample_data;
pub mod profile;
pub mod stack;
pub mod text;

verus! {

/// Converts raw monotonic ticks into profile-relative timestamps by
/// subtracting the reference tick of the capture (saturating at zero for
/// ticks that predate the reference).
#[derive(Clone, Copy, Debug)]
pub struct TimestampConverter {
    pub reference_raw: u64,
}

impl TimestampConverter {
    pub fn new(reference_raw: u64) -> (r: TimestampConverter)
        ensures
            r.reference_raw == reference_raw,
    {
        TimestampConverter { reference_raw }
    }

    /// The profile timestamp for a raw tick value.
    pub open spec fn spec_convert(self, raw: u64) -> u64 {
        if raw >= self.reference_raw {
            (raw - self.reference_raw) as u64
        } else {
            0
        }
    }

    pub fn convert_time(&self, raw: u64) -> (t: u64)
        ensures
            t == self.spec_convert(raw),
    {
        if raw >= self.reference_raw {
            raw - self.reference_raw
        } else {
            0
        }
    }
}

} // verus!
