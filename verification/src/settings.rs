//! The tunable settings, their defaults and bounds, and what they mean for the
//! fixed-size tracking table.

use crate::ratio::Decimal;
use vstd::prelude::*;

verus! {

/// Physical number of slots of the tracking table. Shared memory is sized once
/// at start-up, so `max_tracked_blockers` is a soft cap within this capacity.
pub const MAX_BLOCKERS: usize = 128;

/// Physical length of the waiter history of one blocker; `history_window` is a
/// soft cap within it.
pub const HISTORY_LEN: usize = 16;

pub const DEFAULT_SAMPLE_INTERVAL_MS: i32 = 100;

pub const MIN_SAMPLE_INTERVAL_MS: i32 = 10;

pub const MAX_SAMPLE_INTERVAL_MS: i32 = 10_000;

pub const DEFAULT_MAX_TRACKED_BLOCKERS: i32 = 64;

pub const MIN_MAX_TRACKED_BLOCKERS: i32 = 8;

pub const MAX_MAX_TRACKED_BLOCKERS: i32 = 512;

pub const DEFAULT_HISTORY_WINDOW: i32 = 8;

pub const MIN_HISTORY_WINDOW: i32 = 4;

pub const MAX_HISTORY_WINDOW: i32 = 64;

/// Default alert threshold, in hundredths.
pub const DEFAULT_RISK_THRESHOLD_PERCENT: u64 = 75;

/// Default weight of the growth of the waiter queue, in hundredths.
pub const DEFAULT_WEIGHT_VELOCITY_PERCENT: u64 = 35;

/// Default weight of the hold-time overrun, in hundredths.
pub const DEFAULT_WEIGHT_DURATION_PERCENT: u64 = 30;

/// Default weight of the lock severity, in hundredths.
pub const DEFAULT_WEIGHT_LOCK_MODE_PERCENT: u64 = 20;

/// Default weight of the wait-chain depth, in hundredths.
pub const DEFAULT_WEIGHT_CASCADE_DEPTH_PERCENT: u64 = 15;

/// `n` hundredths.
pub open spec fn hundredths(n: u64) -> Decimal {
    Decimal { digits: n, places: 2 }
}

/// The scoring weights, each at most one.
#[derive(Copy, Clone, Debug, PartialEq, Eq, Structural)]
pub struct Weights {
    pub velocity: Decimal,
    pub duration: Decimal,
    pub lock_mode: Decimal,
    pub cascade_depth: Decimal,
}

impl Weights {
    /// Every weight lies between zero and one.
    pub open spec fn valid(self) -> bool {
        &&& self.velocity.in_unit()
        &&& self.duration.in_unit()
        &&& self.lock_mode.in_unit()
        &&& self.cascade_depth.in_unit()
    }
}

impl Default for Weights {
    fn default() -> (r: Self)
        ensures
            r.velocity == hundredths(DEFAULT_WEIGHT_VELOCITY_PERCENT),
            r.duration == hundredths(DEFAULT_WEIGHT_DURATION_PERCENT),
            r.lock_mode == hundredths(DEFAULT_WEIGHT_LOCK_MODE_PERCENT),
            r.cascade_depth == hundredths(DEFAULT_WEIGHT_CASCADE_DEPTH_PERCENT),
            r.valid(),
    {
        Weights {
            velocity: Decimal::percent(DEFAULT_WEIGHT_VELOCITY_PERCENT),
            duration: Decimal::percent(DEFAULT_WEIGHT_DURATION_PERCENT),
            lock_mode: Decimal::percent(DEFAULT_WEIGHT_LOCK_MODE_PERCENT),
            cascade_depth: Decimal::percent(DEFAULT_WEIGHT_CASCADE_DEPTH_PERCENT),
        }
    }
}

/// The settings that the sampler runs under.
#[derive(Copy, Clone, Debug, PartialEq, Eq, Structural)]
pub struct Settings {
    /// Sampler interval in milliseconds.
    pub sample_interval_ms: i32,
    /// Alert threshold.
    pub risk_threshold: Decimal,
    /// Number of distinct blocking pids to track.
    pub max_tracked_blockers: i32,
    /// Number of samples kept per tracked blocker.
    pub history_window: i32,
    pub weights: Weights,
}

/// `x` brought into the range from `lo` to `hi`.
pub open spec fn clamped(x: int, lo: int, hi: int) -> int {
    if x < lo {
        lo
    } else if x > hi {
        hi
    } else {
        x
    }
}

impl Settings {
    /// The threshold and the weights lie between zero and one.
    pub open spec fn valid(self) -> bool {
        self.risk_threshold.in_unit() && self.weights.valid()
    }

    /// The number of blockers that may be tracked at once.
    pub open spec fn tracked_cap(self) -> int {
        clamped(self.max_tracked_blockers as int, 1, MAX_BLOCKERS as int)
    }

    /// The number of samples that the history of a blocker may hold.
    pub open spec fn history_cap(self) -> int {
        clamped(self.history_window as int, 1, HISTORY_LEN as int)
    }

    /// `max_tracked_blockers`, clamped to the physical table size.
    pub fn effective_max_tracked_blockers(&self) -> (r: usize)
        ensures
            r == self.tracked_cap(),
            1 <= r <= MAX_BLOCKERS,
            1 <= self.max_tracked_blockers <= 128 ==> r == self.max_tracked_blockers,
            self.max_tracked_blockers < 1 ==> r == 1,
            self.max_tracked_blockers > 128 ==> r == 128,
    {
        if self.max_tracked_blockers < 1 {
            1
        } else if self.max_tracked_blockers as usize > MAX_BLOCKERS {
            MAX_BLOCKERS
        } else {
            self.max_tracked_blockers as usize
        }
    }

    /// `history_window`, clamped to the physical history length.
    pub fn effective_history_window(&self) -> (r: usize)
        ensures
            r == self.history_cap(),
            1 <= r <= HISTORY_LEN,
            1 <= self.history_window <= 16 ==> r == self.history_window,
            self.history_window < 1 ==> r == 1,
            self.history_window > 16 ==> r == 16,
    {
        if self.history_window < 1 {
            1
        } else if self.history_window as usize > HISTORY_LEN {
            HISTORY_LEN
        } else {
            self.history_window as usize
        }
    }

    /// How long the worker sleeps between two samples: the configured interval,
    /// but never less than ten milliseconds.
    pub fn latch_timeout_ms(&self) -> (r: u64)
        ensures
            r == if self.sample_interval_ms < MIN_SAMPLE_INTERVAL_MS {
                MIN_SAMPLE_INTERVAL_MS as int
            } else {
                self.sample_interval_ms as int
            },
            r >= 10,
            r >= self.sample_interval_ms,
            r == 10 || r == self.sample_interval_ms,
    {
        if self.sample_interval_ms < MIN_SAMPLE_INTERVAL_MS {
            MIN_SAMPLE_INTERVAL_MS as u64
        } else {
            self.sample_interval_ms as u64
        }
    }
}

impl Default for Settings {
    fn default() -> (r: Self)
        ensures
            r.sample_interval_ms == DEFAULT_SAMPLE_INTERVAL_MS,
            r.risk_threshold == hundredths(DEFAULT_RISK_THRESHOLD_PERCENT),
            r.max_tracked_blockers == DEFAULT_MAX_TRACKED_BLOCKERS,
            r.history_window == DEFAULT_HISTORY_WINDOW,
            r.weights.velocity == hundredths(DEFAULT_WEIGHT_VELOCITY_PERCENT),
            r.weights.duration == hundredths(DEFAULT_WEIGHT_DURATION_PERCENT),
            r.weights.lock_mode == hundredths(DEFAULT_WEIGHT_LOCK_MODE_PERCENT),
            r.weights.cascade_depth == hundredths(DEFAULT_WEIGHT_CASCADE_DEPTH_PERCENT),
            r.valid(),
    {
        Settings {
            sample_interval_ms: DEFAULT_SAMPLE_INTERVAL_MS,
            risk_threshold: Decimal::percent(DEFAULT_RISK_THRESHOLD_PERCENT),
            max_tracked_blockers: DEFAULT_MAX_TRACKED_BLOCKERS,
            history_window: DEFAULT_HISTORY_WINDOW,
            weights: Weights::default(),
        }
    }
}

/// The database that the worker connects to: the configured one, or `postgres`
/// where none is configured.
pub fn worker_database(configured: Option<String>) -> (r: String)
    ensures
        r@ == (match configured {
            Some(name) => name@,
            None => "postgres"@,
        }),
{
    match configured {
        Some(name) => name,
        None => "postgres".to_owned(),
    }
}

/// Raising a cap past the physical capacity changes nothing: every larger value
/// of `max_tracked_blockers` or `history_window` has the effect of the capacity
/// itself.
pub proof fn law_caps_cannot_grow_capacity(settings: Settings)
    ensures
        settings.max_tracked_blockers >= MAX_BLOCKERS ==> settings.tracked_cap() == MAX_BLOCKERS,
        settings.history_window >= HISTORY_LEN ==> settings.history_cap() == HISTORY_LEN,
        1 <= settings.tracked_cap() <= MAX_BLOCKERS,
        1 <= settings.history_cap() <= HISTORY_LEN,
{
}

/// Within the capacity of 128 blockers and 16 samples a cap is what was asked for;
/// less than one counts as one, and more than the capacity as the capacity. A
/// larger request never gives a smaller cap.
pub proof fn law_caps_follow_the_request(a: Settings, b: Settings)
    ensures
        1 <= a.max_tracked_blockers <= 128 ==> a.tracked_cap() == a.max_tracked_blockers,
        a.max_tracked_blockers < 1 ==> a.tracked_cap() == 1,
        a.max_tracked_blockers > 128 ==> a.tracked_cap() == 128,
        1 <= a.history_window <= 16 ==> a.history_cap() == a.history_window,
        a.history_window < 1 ==> a.history_cap() == 1,
        a.history_window > 16 ==> a.history_cap() == 16,
        a.max_tracked_blockers <= b.max_tracked_blockers ==> a.tracked_cap() <= b.tracked_cap(),
        a.history_window <= b.history_window ==> a.history_cap() <= b.history_cap(),
{
}

/// The defaults: a threshold of 0.75, and weights that add up to one.
pub proof fn law_defaults(threshold: real, weights: (real, real, real, real))
    requires
        threshold * 100real == DEFAULT_RISK_THRESHOLD_PERCENT as real,
        weights.0 * 100real == DEFAULT_WEIGHT_VELOCITY_PERCENT as real,
        weights.1 * 100real == DEFAULT_WEIGHT_DURATION_PERCENT as real,
        weights.2 * 100real == DEFAULT_WEIGHT_LOCK_MODE_PERCENT as real,
        weights.3 * 100real == DEFAULT_WEIGHT_CASCADE_DEPTH_PERCENT as real,
    ensures
        threshold * 4real == 3real,
        weights.0 + weights.1 + weights.2 + weights.3 == 1real,
        weights.0 > weights.1 > weights.2 > weights.3 > 0real,
{
}

} // verus!
