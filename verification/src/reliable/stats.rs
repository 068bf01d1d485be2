//! Round-trip and retransmission telemetry.

use crate::reliable::rto::{
    elapsed, saturating_duration_since, NANOS_PER_MILLI, NANOS_PER_SEC, RTT_STATS_WINDOW,
};
use vstd::prelude::*;
use vstd::relations::sorted_by;
use vstd::seq_lib::lemma_sorted_unique;

verus! {

/// At most this many round-trip samples are kept per window.
pub const RTT_SAMPLES_CAP: usize = 512;

/// `x + 1`, or `x` where there is no larger number.
pub open spec fn bumped(x: u32) -> u32 {
    if x == u32::MAX {
        x
    } else {
        (x + 1) as u32
    }
}

/// One window of telemetry. A fragment that was retransmitted before its
/// acknowledgement came is counted but not sampled: its acknowledgement cannot
/// be attributed to one transmission (Karn's algorithm). The counters stop at
/// their largest value.
pub struct RttStats {
    /// Round trips of fragments that were sent once, up to [`RTT_SAMPLES_CAP`].
    pub samples: Vec<u64>,
    /// Fragments acknowledged in this window.
    pub acked: u32,
    /// How many of them had been retransmitted.
    pub acked_after_retransmit: u32,
    /// Retransmissions in this window.
    pub retransmits: u32,
    /// Largest retransmission count of one fragment in this window.
    pub max_retransmits: u32,
    pub window_started_at: u64,
}

#[verifier::ext_equal]
pub struct RttStatsView {
    pub samples: Seq<u64>,
    pub acked: u32,
    pub acked_after_retransmit: u32,
    pub retransmits: u32,
    pub max_retransmits: u32,
    pub window_started_at: u64,
}

/// Distribution of the samples of one window, in whole milliseconds.
#[derive(Clone, Copy, Debug, PartialEq, Eq)]
pub struct RttSummary {
    pub samples: usize,
    pub min_ms: u64,
    pub p50_ms: u64,
    pub p95_ms: u64,
    pub max_ms: u64,
    pub mean_ms: u64,
}

/// A finished window.
#[derive(Clone, Copy, Debug, PartialEq, Eq)]
pub struct WindowReport {
    pub window_s: u64,
    /// `None` if every acknowledged fragment had been retransmitted.
    pub latency: Option<RttSummary>,
    pub acked: u32,
    pub acked_after_retransmit: u32,
    pub retransmits: u32,
    pub max_retransmits: u32,
}

/// The samples in ascending order.
pub open spec fn ascending(samples: Seq<u64>) -> Seq<u64> {
    samples.sort_by(|a: u64, b: u64| a <= b)
}

/// The sample below which about `p` per cent of the samples lie.
pub open spec fn percentile(samples: Seq<u64>, p: int) -> u64 {
    ascending(samples)[(samples.len() - 1) * p / 100]
}

/// Sum of the samples, each rounded down to whole milliseconds.
pub open spec fn sum_ms(samples: Seq<u64>) -> int
    decreases samples.len(),
{
    if samples.len() == 0 {
        0
    } else {
        sum_ms(samples.drop_last()) + samples.last() / NANOS_PER_MILLI
    }
}

pub open spec fn summary_of(samples: Seq<u64>) -> Option<RttSummary> {
    if samples.len() == 0 {
        None
    } else {
        Some(
            RttSummary {
                samples: samples.len() as usize,
                min_ms: percentile(samples, 0) / NANOS_PER_MILLI,
                p50_ms: percentile(samples, 50) / NANOS_PER_MILLI,
                p95_ms: percentile(samples, 95) / NANOS_PER_MILLI,
                max_ms: percentile(samples, 100) / NANOS_PER_MILLI,
                mean_ms: (sum_ms(samples) / samples.len() as int) as u64,
            },
        )
    }
}

impl View for RttStats {
    type V = RttStatsView;

    open spec fn view(&self) -> RttStatsView {
        RttStatsView {
            samples: self.samples@,
            acked: self.acked,
            acked_after_retransmit: self.acked_after_retransmit,
            retransmits: self.retransmits,
            max_retransmits: self.max_retransmits,
            window_started_at: self.window_started_at,
        }
    }
}

impl RttStatsView {
    pub open spec fn starting(now: u64) -> RttStatsView {
        RttStatsView {
            samples: Seq::empty(),
            acked: 0,
            acked_after_retransmit: 0,
            retransmits: 0,
            max_retransmits: 0,
            window_started_at: now,
        }
    }

    pub open spec fn wf(self) -> bool {
        self.samples.len() <= RTT_SAMPLES_CAP
    }

    /// With one acknowledged fragment recorded.
    pub open spec fn with_ack(self, rtt: u64, fragment_retransmits: u32) -> RttStatsView {
        RttStatsView {
            samples: if fragment_retransmits == 0 && self.samples.len() < RTT_SAMPLES_CAP {
                self.samples.push(rtt)
            } else {
                self.samples
            },
            acked: bumped(self.acked),
            acked_after_retransmit: if fragment_retransmits == 0 {
                self.acked_after_retransmit
            } else {
                bumped(self.acked_after_retransmit)
            },
            ..self
        }
    }

    /// With one retransmission recorded, the `fragment_retransmits`th of its fragment.
    pub open spec fn with_retransmit(self, fragment_retransmits: u32) -> RttStatsView {
        RttStatsView {
            retransmits: bumped(self.retransmits),
            max_retransmits: if self.max_retransmits < fragment_retransmits {
                fragment_retransmits
            } else {
                self.max_retransmits
            },
            ..self
        }
    }

    /// Whether the window is over at `now`.
    pub open spec fn is_over(self, now: u64) -> bool {
        elapsed(now, self.window_started_at) >= RTT_STATS_WINDOW
    }

    pub open spec fn saw_traffic(self) -> bool {
        self.acked != 0 || self.retransmits != 0
    }

    /// What there is to report at `now`: nothing before the window is over,
    /// nor about a window without traffic.
    pub open spec fn report(self, now: u64) -> Option<WindowReport> {
        if self.is_over(now) && self.saw_traffic() {
            Some(
                WindowReport {
                    window_s: elapsed(now, self.window_started_at) / NANOS_PER_SEC,
                    latency: summary_of(self.samples),
                    acked: self.acked,
                    acked_after_retransmit: self.acked_after_retransmit,
                    retransmits: self.retransmits,
                    max_retransmits: self.max_retransmits,
                },
            )
        } else {
            None
        }
    }

    /// The window that goes on after `now`.
    pub open spec fn rolled(self, now: u64) -> RttStatsView {
        if !self.is_over(now) {
            self
        } else if self.saw_traffic() {
            Self::starting(now)
        } else {
            RttStatsView { window_started_at: now, ..self }
        }
    }
}

/// Sorts a copy of the samples.
fn sorted_copy(samples: &Vec<u64>) -> (out: Vec<u64>)
    ensures
        out@ == ascending(samples@),
        out@.len() == samples@.len(),
{
    let ghost leq = |a: u64, b: u64| a <= b;
    let mut out: Vec<u64> = Vec::new();
    let mut i: usize = 0;
    assert(samples@.take(0) =~= Seq::<u64>::empty());
    while i < samples.len()
        invariant
            0 <= i <= samples.len(),
            leq == (|a: u64, b: u64| a <= b),
            sorted_by(out@, leq),
            out@.to_multiset() == samples@.take(i as int).to_multiset(),
        decreases samples.len() - i,
    {
        let x: u64 = samples[i];
        let mut j: usize = 0;
        while j < out.len() && out[j] <= x
            invariant
                0 <= j <= out.len(),
                forall|k: int| 0 <= k < j ==> out@[k] <= x,
            decreases out.len() - j,
        {
            j += 1;
        }
        let ghost before = out@;
        out.insert(j, x);
        proof {
            assert forall|a: int, b: int| 0 <= a < b < out@.len() implies #[trigger] leq(
                out@[a],
                out@[b],
            ) by {
                if b < j {
                    assert(leq(before[a], before[b]));
                } else if b > j && a < j {
                    assert(leq(before[a], before[b - 1]));
                } else if b > j && a > j {
                    assert(leq(before[a - 1], before[b - 1]));
                } else if a == j {
                    if b - 1 > j {
                        assert(leq(before[j as int], before[b - 1]));
                    }
                }
            }
            vstd::seq_lib::to_multiset_insert(before, j as int, x);
            vstd::seq_lib::to_multiset_build(samples@.take(i as int), x);
            assert(samples@.take(i + 1) =~= samples@.take(i as int).push(x));
        }
        i += 1;
    }
    proof {
        assert(samples@.take(i as int) =~= samples@);
        samples@.lemma_sort_by_ensures(leq);
        lemma_sorted_unique(out@, samples@.sort_by(leq), leq);
        vstd::seq_lib::to_multiset_len(out@);
        vstd::seq_lib::to_multiset_len(samples@);
    }
    out
}

/// Distribution of the samples; `None` if there are none.
pub fn summarise(samples: &Vec<u64>) -> (summary: Option<RttSummary>)
    requires
        samples@.len() <= RTT_SAMPLES_CAP,
    ensures
        summary == summary_of(samples@),
{
    let len: usize = samples.len();
    if len == 0 {
        return None;
    }
    let sorted: Vec<u64> = sorted_copy(samples);
    let mut sum: u64 = 0;
    let mut i: usize = 0;
    while i < len
        invariant
            len == samples@.len(),
            len <= RTT_SAMPLES_CAP,
            0 <= i <= len,
            sum == sum_ms(samples@.take(i as int)),
            sum <= i * 18_446_744_073_709,
        decreases len - i,
    {
        assert(samples@.take(i + 1).drop_last() =~= samples@.take(i as int));
        sum += samples[i] / NANOS_PER_MILLI;
        i += 1;
    }
    assert(samples@.take(len as int) =~= samples@);
    Some(
        RttSummary {
            samples: len,
            min_ms: sorted[0] / NANOS_PER_MILLI,
            p50_ms: sorted[(len - 1) * 50 / 100] / NANOS_PER_MILLI,
            p95_ms: sorted[(len - 1) * 95 / 100] / NANOS_PER_MILLI,
            max_ms: sorted[len - 1] / NANOS_PER_MILLI,
            mean_ms: sum / len as u64,
        },
    )
}

impl RttStats {
    pub fn new(now: u64) -> (stats: Self)
        ensures
            stats@ == RttStatsView::starting(now),
    {
        RttStats {
            samples: Vec::new(),
            acked: 0,
            acked_after_retransmit: 0,
            retransmits: 0,
            max_retransmits: 0,
            window_started_at: now,
        }
    }

    /// Records one acknowledged fragment.
    pub fn record_ack(&mut self, rtt: u64, fragment_retransmits: u32)
        ensures
            final(self)@ == old(self)@.with_ack(rtt, fragment_retransmits),
    {
        self.acked = self.acked.saturating_add(1);
        if fragment_retransmits == 0 {
            if self.samples.len() < RTT_SAMPLES_CAP {
                self.samples.push(rtt);
            }
        } else {
            self.acked_after_retransmit = self.acked_after_retransmit.saturating_add(1);
        }
    }

    /// Records one retransmission.
    pub fn record_retransmit(&mut self, fragment_retransmits: u32)
        ensures
            final(self)@ == old(self)@.with_retransmit(fragment_retransmits),
    {
        self.retransmits = self.retransmits.saturating_add(1);
        if self.max_retransmits < fragment_retransmits {
            self.max_retransmits = fragment_retransmits;
        }
    }

    /// Starts a fresh window.
    pub fn reset(&mut self, now: u64)
        ensures
            final(self)@ == RttStatsView::starting(now),
    {
        *self = Self::new(now);
    }

    /// Ends the window if it is over at `now`, and reports it if it saw traffic.
    pub fn roll(&mut self, now: u64) -> (report: Option<WindowReport>)
        requires
            old(self)@.wf(),
        ensures
            report == old(self)@.report(now),
            final(self)@ == old(self)@.rolled(now),
    {
        let window: u64 = saturating_duration_since(now, self.window_started_at);
        if window < RTT_STATS_WINDOW {
            return None;
        }
        if self.acked == 0 && self.retransmits == 0 {
            self.window_started_at = now;
            return None;
        }
        let report = WindowReport {
            window_s: window / NANOS_PER_SEC,
            latency: summarise(&self.samples),
            acked: self.acked,
            acked_after_retransmit: self.acked_after_retransmit,
            retransmits: self.retransmits,
            max_retransmits: self.max_retransmits,
        };
        self.reset(now);
        Some(report)
    }
}

/// The summary's figures are in order, as those of one distribution are.
pub proof fn law_summary_is_ordered(samples: Seq<u64>)
    requires
        samples.len() > 0,
    ensures
        summary_of(samples) matches Some(s) && s.min_ms <= s.p50_ms <= s.p95_ms <= s.max_ms,
{
    let leq = |a: u64, b: u64| a <= b;
    samples.lemma_sort_by_ensures(leq);
    vstd::seq_lib::to_multiset_len(samples);
    vstd::seq_lib::to_multiset_len(samples.sort_by(leq));
    let n = samples.len() - 1;
    let sorted = ascending(samples);
    assert forall|i: int, j: int| 0 <= i <= j <= n implies #[trigger] sorted[i]
        <= #[trigger] sorted[j] by {
        if i < j {
            assert(leq(sorted[i], sorted[j]));
        }
    }
}

/// Every acknowledged fragment is counted; one that was sent once gives a
/// sample, as long as there are fewer than 512, and one that was sent again is
/// counted as such and gives none.
pub proof fn law_acknowledgements_are_counted(s: RttStatsView, rtt: u64, resent: u32)
    ensures
        ({
            let t = s.with_ack(rtt, resent);
            &&& s.acked < u32::MAX ==> t.acked == s.acked + 1
            &&& s.acked == u32::MAX ==> t.acked == u32::MAX
            &&& resent == 0 ==> t.acked_after_retransmit == s.acked_after_retransmit
            &&& resent > 0 && s.acked_after_retransmit < u32::MAX ==> t.acked_after_retransmit
                == s.acked_after_retransmit + 1
            &&& resent > 0 && s.acked_after_retransmit == u32::MAX ==> t.acked_after_retransmit
                == u32::MAX
            &&& resent == 0 && s.samples.len() < 512 ==> t.samples == s.samples.push(rtt)
            &&& resent > 0 || s.samples.len() >= 512 ==> t.samples == s.samples
            &&& t.retransmits == s.retransmits
            &&& t.max_retransmits == s.max_retransmits
            &&& t.window_started_at == s.window_started_at
        }),
{
}

/// Every retransmission is counted, and the largest count of one fragment kept;
/// nothing else changes.
pub proof fn law_retransmissions_are_counted(s: RttStatsView, resent: u32)
    ensures
        ({
            let t = s.with_retransmit(resent);
            &&& s.retransmits < u32::MAX ==> t.retransmits == s.retransmits + 1
            &&& s.retransmits == u32::MAX ==> t.retransmits == u32::MAX
            &&& t.max_retransmits >= resent && t.max_retransmits >= s.max_retransmits
            &&& t.max_retransmits == resent || t.max_retransmits == s.max_retransmits
            &&& t.samples == s.samples
            &&& t.acked == s.acked
            &&& t.acked_after_retransmit == s.acked_after_retransmit
            &&& t.window_started_at == s.window_started_at
        }),
{
}

/// A window is reported exactly when 30 s have passed since it started and
/// something was acknowledged or sent again in it. The report says how long it
/// was, in whole seconds, and gives its counts; samples are summarised if there
/// are any.
pub proof fn law_reports_say_what_was_counted(s: RttStatsView, now: u64)
    ensures
        s.report(now) is Some <==> now >= s.window_started_at + 30_000_000_000 && (s.acked > 0
            || s.retransmits > 0),
        s.report(now) matches Some(r) ==> {
            &&& r.window_s * 1_000_000_000 <= now - s.window_started_at < (r.window_s + 1)
                * 1_000_000_000
            &&& r.acked == s.acked
            &&& r.acked_after_retransmit == s.acked_after_retransmit
            &&& r.retransmits == s.retransmits
            &&& r.max_retransmits == s.max_retransmits
            &&& r.latency == summary_of(s.samples)
            &&& r.latency is None <==> s.samples.len() == 0
        },
{
}

/// A window goes on until 30 s have passed. Then the next one starts, with all
/// counts at zero and no samples; a window in which nothing happened has none
/// of its counts changed.
pub proof fn law_windows_start_afresh(s: RttStatsView, now: u64)
    ensures
        now < s.window_started_at + 30_000_000_000 ==> s.rolled(now) == s,
        now >= s.window_started_at + 30_000_000_000 ==> {
            let t = s.rolled(now);
            &&& t.window_started_at == now
            &&& t.acked == 0 && t.retransmits == 0
            &&& s.acked > 0 || s.retransmits > 0 ==> t.samples.len() == 0
                && t.acked_after_retransmit == 0 && t.max_retransmits == 0
            &&& s.acked == 0 && s.retransmits == 0 ==> t.samples == s.samples
                && t.acked_after_retransmit == s.acked_after_retransmit && t.max_retransmits
                == s.max_retransmits
        },
        RttStatsView::starting(now).samples.len() == 0,
        RttStatsView::starting(now).acked == 0,
        RttStatsView::starting(now).acked_after_retransmit == 0,
        RttStatsView::starting(now).retransmits == 0,
        RttStatsView::starting(now).max_retransmits == 0,
        RttStatsView::starting(now).window_started_at == now,
{
}

proof fn lemma_sum_is_bounded(samples: Seq<u64>)
    ensures
        0 <= sum_ms(samples) <= samples.len() * 18_446_744_073_709,
    decreases samples.len(),
{
    if samples.len() > 0 {
        lemma_sum_is_bounded(samples.drop_last());
    }
}

/// The sum of the samples in whole milliseconds grows with each of them.
pub proof fn law_sum_adds_up(samples: Seq<u64>, sample: u64)
    ensures
        sum_ms(Seq::<u64>::empty()) == 0,
        sum_ms(samples.push(sample)) == sum_ms(samples) + sample / 1_000_000,
{
    assert(samples.push(sample).drop_last() =~= samples);
}

/// The figures of a summary are those of the samples put in order: the
/// smallest, those below which half and 95 per cent of the others lie, and the
/// largest, and the mean of all; in whole milliseconds, rounded down.
pub proof fn law_summary_is_by_rank(samples: Seq<u64>, ordered: Seq<u64>)
    requires
        0 < samples.len() <= 512,
        ordered.to_multiset() == samples.to_multiset(),
        forall|i: int, j: int| 0 <= i < j < ordered.len() ==> ordered[i] <= ordered[j],
    ensures
        summary_of(Seq::<u64>::empty()) is None,
        summary_of(samples) matches Some(s) && {
            let n = samples.len();
            &&& ordered.len() == n
            &&& s.samples == n
            &&& s.min_ms == ordered[0] / 1_000_000
            &&& s.p50_ms == ordered[(n - 1) * 50 / 100] / 1_000_000
            &&& s.p95_ms == ordered[(n - 1) * 95 / 100] / 1_000_000
            &&& s.max_ms == ordered[n - 1] / 1_000_000
            &&& s.mean_ms * n <= sum_ms(samples) < s.mean_ms * n + n
        },
{
    let leq = |a: u64, b: u64| a <= b;
    let n = samples.len() as int;
    samples.lemma_sort_by_ensures(leq);
    assert(sorted_by(ordered, leq)) by {
        assert forall|i: int, j: int| 0 <= i < j < ordered.len() implies #[trigger] leq(
            ordered[i],
            ordered[j],
        ) by {
            assert(ordered[i] <= ordered[j]);
        }
    }
    lemma_sorted_unique(ordered, samples.sort_by(leq), leq);
    vstd::seq_lib::to_multiset_len(ordered);
    vstd::seq_lib::to_multiset_len(samples);
    lemma_sum_is_bounded(samples);
    let sum = sum_ms(samples);
    let mean = sum / n;
    vstd::arithmetic::div_mod::lemma_fundamental_div_mod(sum, n);
    assert(0 <= mean <= sum) by (nonlinear_arith)
        requires
            mean == sum / n,
            n > 0,
            sum >= 0,
    ;
    assert(mean * n == n * mean) by (nonlinear_arith);
    assert(n * 18_446_744_073_709 <= 512 * 18_446_744_073_709);
}

} // verus!
