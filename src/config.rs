use vstd::prelude::*;

verus! {

/// Fixed-point scale of fractions: `PPM` stands for 1.
pub const PPM: u64 = 1000000;

/// The spike threshold never drops below this fraction (0.01) for large feeds.
pub const MIN_THRESHOLD: u64 = 10000;

/// Below this many listeners a feed counts as small.
pub const LOW_LISTENER_LIMIT: u32 = 50;

/// The order in which updated feeds are shown.
#[derive(Clone, Copy, Debug, PartialEq, Eq, Structural)]
pub enum SortOrder {
    Ascending,
    Descending,
}

/// The tuning constants of spike detection and of the corrective baseline.
/// Fractions are in parts per million.
pub struct Config {
    /// Base fraction by which a value must exceed the average to be a spike.
    pub spike: u32,
    /// Added to the threshold for each listener a small feed is below the limit.
    pub low_listener_increase: u32,
    /// Taken off the threshold of a large feed for each `high_listener_dec_every`
    /// listeners of rise.
    pub high_listener_dec: u32,
    /// The rise, in whole listeners, for which `high_listener_dec` is taken off.
    pub high_listener_dec_every: u32,
    /// The corrective baseline is dropped once the average is within this
    /// fraction of it.
    pub reset_pcnt: u32,
    /// Fraction of the way the corrective baseline moves toward the average
    /// each cycle.
    pub adjust_pcnt: u32,
    /// Consecutive spikes past which the corrective baseline is set.
    pub spikes_required: u8,
    /// Feeds with fewer listeners are skipped.
    pub minimum_listeners: u32,
    /// The order in which updated feeds are shown.
    pub sort_order: SortOrder,
}

impl Config {
    /// A usable configuration: the decay period is positive and the
    /// adjustment fraction is at most one.
    pub open spec fn wf(&self) -> bool {
        &&& self.high_listener_dec_every > 0
        &&& self.adjust_pcnt <= PPM
    }
}

} // verus!
