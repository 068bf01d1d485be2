//! Retransmission timing.
//!
//! Points in time and lengths of time are nanoseconds; points in time count
//! from an epoch of the caller's choice.

use vstd::prelude::*;

verus! {

/// Floor of the adaptive retransmission timeout, and its value before the
/// first round-trip sample: 300 ms.
pub const ACK_TIMEOUT: u64 = 300_000_000;

/// Ceiling of the retransmission timeout: 5 s. Below [`LINK_DEAD_DEADLINE`].
pub const ACK_TIMEOUT_MAX: u64 = 5_000_000_000;

/// How long an acknowledgement waits for outgoing data to ride on: 15 ms.
pub const ACK_DELAY: u64 = 15_000_000;

/// Without forward progress for this long the link is dead: 6 s.
pub const LINK_DEAD_DEADLINE: u64 = 6_000_000_000;

/// Pause between two transmissions, to spare the controller's buffer: 3 ms.
pub const INTER_FRAME_GAP: u64 = 3_000_000;

/// How often round-trip telemetry is reported: 30 s.
pub const RTT_STATS_WINDOW: u64 = 30_000_000_000;

pub const NANOS_PER_MILLI: u64 = 1_000_000;

pub const NANOS_PER_SEC: u64 = 1_000_000_000;

/// Points in time up to this one leave room for every deadline that is set
/// relative to them.
pub const CLOCK_LIMIT: u64 = 18_446_744_067_709_551_615;

pub open spec fn abs_diff(a: int, b: int) -> int {
    if a <= b {
        b - a
    } else {
        a - b
    }
}

/// Time from `earlier` to `later`; zero if they are the other way round.
pub open spec fn elapsed(later: u64, earlier: u64) -> u64 {
    if later >= earlier {
        (later - earlier) as u64
    } else {
        0
    }
}

/// Time from `earlier` to `later`; zero if they are the other way round.
pub fn saturating_duration_since(later: u64, earlier: u64) -> (d: u64)
    ensures
        d == elapsed(later, earlier),
{
    if later >= earlier {
        later - earlier
    } else {
        0
    }
}

/// Retransmission-timeout estimator of RFC 6298. It is fed only with round
/// trips of fragments that were never retransmitted, so an acknowledgement
/// that might belong to either transmission cannot spoil the estimate.
#[derive(Clone, Copy)]
pub struct RtoEstimator {
    /// Smoothed round-trip time; `None` until the first sample.
    pub srtt: Option<u64>,
    /// Smoothed mean deviation.
    pub rttvar: u64,
}

impl RtoEstimator {
    pub open spec fn initial() -> RtoEstimator {
        RtoEstimator { srtt: None, rttvar: 0 }
    }

    /// The estimator after the sample `r`: the first sample sets the average
    /// to `r` and the deviation to half of it; each later one weighs an eighth
    /// in the average and a quarter in the deviation.
    pub open spec fn sampled(self, r: u64) -> RtoEstimator {
        match self.srtt {
            None => RtoEstimator { srtt: Some(r), rttvar: r / 2 },
            Some(srtt) => RtoEstimator {
                srtt: Some(((srtt * 7 + r) / 8) as u64),
                rttvar: ((self.rttvar * 3 + abs_diff(srtt as int, r as int)) / 4) as u64,
            },
        }
    }

    /// Average plus four deviations, kept within
    /// [`ACK_TIMEOUT`] and [`ACK_TIMEOUT_MAX`].
    pub open spec fn timeout(self) -> u64 {
        match self.srtt {
            None => ACK_TIMEOUT,
            Some(srtt) => {
                let t = srtt + self.rttvar * 4;
                if t < ACK_TIMEOUT {
                    ACK_TIMEOUT
                } else if t > ACK_TIMEOUT_MAX {
                    ACK_TIMEOUT_MAX
                } else {
                    t as u64
                }
            },
        }
    }

    pub fn new() -> (est: Self)
        ensures
            est == Self::initial(),
    {
        RtoEstimator { srtt: None, rttvar: 0 }
    }

    /// Takes in one round-trip time.
    pub fn sample(&mut self, r: u64)
        ensures
            *final(self) == old(self).sampled(r),
    {
        match self.srtt {
            None => {
                self.srtt = Some(r);
                self.rttvar = r / 2;
            },
            Some(srtt) => {
                let dev: u64 = if srtt <= r {
                    r - srtt
                } else {
                    srtt - r
                };
                let rttvar: u128 = (self.rttvar as u128 * 3 + dev as u128) / 4;
                let average: u128 = (srtt as u128 * 7 + r as u128) / 8;
                self.rttvar = rttvar as u64;
                self.srtt = Some(average as u64);
            },
        }
    }

    /// The retransmission timeout.
    pub fn rto(&self) -> (timeout: u64)
        ensures
            timeout == self.timeout(),
            ACK_TIMEOUT <= timeout <= ACK_TIMEOUT_MAX,
    {
        match self.srtt {
            None => ACK_TIMEOUT,
            Some(srtt) => {
                let t: u128 = srtt as u128 + self.rttvar as u128 * 4;
                if t < ACK_TIMEOUT as u128 {
                    ACK_TIMEOUT
                } else if t > ACK_TIMEOUT_MAX as u128 {
                    ACK_TIMEOUT_MAX
                } else {
                    t as u64
                }
            },
        }
    }
}

/// The timeout stays within its floor and ceiling, and the ceiling leaves room
/// for a retransmission before the link is declared dead.
pub proof fn law_timeout_is_bounded(est: RtoEstimator)
    ensures
        ACK_TIMEOUT <= est.timeout() <= ACK_TIMEOUT_MAX,
        ACK_TIMEOUT_MAX < LINK_DEAD_DEADLINE,
{
}

/// Whatever the samples, the average stays between the smallest and the
/// largest of the old average and the new sample, and no sample makes the
/// deviation larger than both the old deviation and the distance of the sample.
pub proof fn law_average_is_between(est: RtoEstimator, r: u64)
    requires
        est.srtt is Some,
    ensures
        ({
            let srtt = est.srtt->Some_0;
            let next = est.sampled(r);
            &&& next.srtt is Some
            &&& (srtt <= next.srtt->Some_0 <= r || r <= next.srtt->Some_0 <= srtt)
            &&& (next.rttvar <= est.rttvar || next.rttvar <= abs_diff(srtt as int, r as int))
        }),
{
}

/// The first sample is the average, and half of it the deviation. Each later
/// one weighs an eighth in the average and its distance from the average a
/// quarter in the deviation, on whichever side of the average it lies; both are
/// rounded down.
pub proof fn law_samples_weigh_the_same_on_both_sides(est: RtoEstimator, r: u64)
    ensures
        est.sampled(r).srtt is Some,
        est.srtt is None ==> {
            let next = est.sampled(r);
            &&& next.srtt == Some(r)
            &&& 2 * next.rttvar <= r < 2 * next.rttvar + 2
        },
        est.srtt matches Some(srtt) ==> {
            let average = est.sampled(r).srtt->Some_0;
            let deviation = est.sampled(r).rttvar;
            &&& 8 * average <= 7 * srtt + r < 8 * average + 8
            &&& srtt <= r ==> 4 * deviation <= 3 * est.rttvar + (r - srtt) < 4 * deviation + 4
            &&& r <= srtt ==> 4 * deviation <= 3 * est.rttvar + (srtt - r) < 4 * deviation + 4
        },
{
}

/// The timeout is 300 ms before the first sample. After that it is the average
/// and four deviations, unless that is below 300 ms or above 5 s.
pub proof fn law_timeout_follows_the_estimate(est: RtoEstimator)
    ensures
        RtoEstimator::initial().srtt is None,
        est.srtt is None ==> est.timeout() == 300_000_000,
        est.srtt matches Some(srtt) ==> {
            let t = est.timeout();
            &&& 300_000_000 <= t <= 5_000_000_000
            &&& t > 300_000_000 ==> t <= srtt + 4 * est.rttvar
            &&& t < 5_000_000_000 ==> t >= srtt + 4 * est.rttvar
        },
{
}

/// What elapsed from an earlier to a later time, added to the earlier, is the
/// later; nothing elapses backwards.
pub proof fn law_time_adds_up(later: u64, earlier: u64)
    ensures
        earlier <= later ==> earlier + elapsed(later, earlier) == later,
        later <= earlier ==> elapsed(later, earlier) == 0,
{
}

/// Any time up to the limit of the clock can have the span of a dead link added.
pub proof fn law_deadlines_fit(now: u64)
    ensures
        now <= CLOCK_LIMIT <==> now + 6_000_000_000 <= u64::MAX,
{
}

} // verus!
