//! Which round trips are measured, and when they are reported.

use crate::reliable::model::{rto_after, rtt_after, Channel, InFlight};
use crate::reliable::rto::{elapsed, RtoEstimator, RTT_STATS_WINDOW};
use crate::reliable::stats::RttStatsView;
use vstd::prelude::*;

verus! {

/// Every one of these fragments was sent more than once.
pub open spec fn all_resent(acked: Seq<InFlight>) -> bool {
    forall|i: int| 0 <= i < acked.len() ==> (#[trigger] acked[i]).retransmits != 0
}

proof fn lemma_resent_are_not_sampled(
    rtt: RttStatsView,
    rto: RtoEstimator,
    acked: Seq<InFlight>,
    now: u64,
)
    requires
        all_resent(acked),
    ensures
        rtt_after(rtt, acked, now).samples == rtt.samples,
        rto_after(rto, acked, now) == rto,
    decreases acked.len(),
{
    if acked.len() > 0 {
        let before = acked.drop_last();
        assert forall|i: int| 0 <= i < before.len() implies (#[trigger] before[i]).retransmits
            != 0 by {
            assert(before[i] == acked[i]);
        }
        assert(acked[acked.len() - 1].retransmits != 0);
        lemma_resent_are_not_sampled(rtt, rto, before, now);
    }
}

/// An acknowledgement that may belong to either of two transmissions spoils no
/// estimate: fragments that were sent again give no sample, neither to the
/// timeout nor to the telemetry.
pub proof fn law_ambiguous_round_trips_are_not_measured(s: Channel, ack_seq: u8, now: u64)
    requires
        s.send_wf(),
        s.ack_counts(ack_seq),
        all_resent(s.in_flight.take(s.acked_count(ack_seq))),
    ensures
        s.on_ack(ack_seq, now).rto == s.rto,
        rtt_after(s.rtt, s.in_flight.take(s.acked_count(ack_seq)), now).samples == s.rtt.samples,
{
    lemma_resent_are_not_sampled(
        s.rtt,
        s.rto,
        s.in_flight.take(s.acked_count(ack_seq)),
        now,
    );
}

/// A fragment that was sent once is measured from when it was sent.
pub proof fn law_clean_round_trips_are_measured(s: Channel, ack_seq: u8, now: u64)
    requires
        s.send_wf(),
        s.acked_count(ack_seq) == 1,
        s.ack_counts(ack_seq),
        s.in_flight[0].retransmits == 0,
    ensures
        s.on_ack(ack_seq, now).rto == s.rto.sampled(elapsed(now, s.in_flight[0].first_sent_at)),
{
    let acked = s.in_flight.take(1);
    reveal_with_fuel(rto_after, 2);
    assert(acked.drop_last() =~= Seq::<InFlight>::empty());
    assert(acked.last() == s.in_flight[0]);
}

proof fn lemma_window_start_is_kept(rtt: RttStatsView, acked: Seq<InFlight>, now: u64)
    ensures
        rtt_after(rtt, acked, now).window_started_at == rtt.window_started_at,
    decreases acked.len(),
{
    if acked.len() > 0 {
        lemma_window_start_is_kept(rtt, acked.drop_last(), now);
    }
}

/// There is at most one report per window: after one, whatever is
/// acknowledged, there is none until another window has passed.
pub proof fn law_one_report_per_window(
    rtt: RttStatsView,
    now: u64,
    acked: Seq<InFlight>,
    later: u64,
)
    requires
        rtt.report(now) is Some,
        later < now + RTT_STATS_WINDOW,
    ensures
        rtt_after(rtt.rolled(now), acked, later).report(later) is None,
{
    lemma_window_start_is_kept(rtt.rolled(now), acked, later);
}

} // verus!
