use neutrino_ble::reliable::rto::{
    saturating_duration_since, RtoEstimator, ACK_TIMEOUT, ACK_TIMEOUT_MAX, LINK_DEAD_DEADLINE,
    RTT_STATS_WINDOW,
};
use neutrino_ble::reliable::stats::{RttStats, RTT_SAMPLES_CAP};

const fn ms(n: u64) -> u64 {
    n * 1_000_000
}

#[test]
fn test_rto_estimator_floor_before_first_sample() {
    let est = RtoEstimator::new();
    assert_eq!(est.rto(), ACK_TIMEOUT, "cold estimator = the floor");
}

#[test]
fn test_rto_estimator_clamps_fast_link_to_floor() {
    let mut est = RtoEstimator::new();
    // Idle-link samples (~85ms): srtt + 4*rttvar ~ 250ms < floor.
    for _ in 0..10 {
        est.sample(ms(85));
    }
    assert_eq!(est.rto(), ACK_TIMEOUT);
}

#[test]
fn test_rto_estimator_tracks_slow_trains_and_caps() {
    let mut est = RtoEstimator::new();
    for _ in 0..5 {
        est.sample(ms(800));
    }
    assert!(
        est.rto() > ms(800),
        "adapted RTO must exceed the observed RTT, got {:?}",
        est.rto()
    );
    // Pathological samples clamp at the cap (which stays below
    // LINK_DEAD_DEADLINE so a retransmit always precedes link death).
    est.sample(ms(30_000));
    assert_eq!(est.rto(), ACK_TIMEOUT_MAX);
    assert!(ACK_TIMEOUT_MAX < LINK_DEAD_DEADLINE);
}

#[test]
fn test_rto_estimator_decays_back_after_trains_stop() {
    let mut est = RtoEstimator::new();
    for _ in 0..5 {
        est.sample(ms(800));
    }
    // The distribution shift first spikes rttvar, so convergence back to the
    // floor takes ~40 samples.
    for _ in 0..40 {
        est.sample(ms(85));
    }
    assert_eq!(est.rto(), ACK_TIMEOUT, "the average converges to the floor");
}

#[test]
fn estimator_formula() {
    let mut est = RtoEstimator::new();
    est.sample(ms(400));
    // 400 + 4 * 200
    assert_eq!(est.rto(), ms(1200));
    est.sample(ms(800));
    // srtt = (7 * 400 + 800) / 8 = 450, rttvar = (3 * 200 + 400) / 4 = 250
    assert_eq!(est.srtt, Some(ms(450)));
    assert_eq!(est.rttvar, ms(250));
    assert_eq!(est.rto(), ms(1450));
}

#[test]
fn estimator_takes_the_largest_sample() {
    let mut est = RtoEstimator::new();
    est.sample(u64::MAX);
    est.sample(u64::MAX);
    est.sample(0);
    assert_eq!(est.rto(), ACK_TIMEOUT_MAX);
}

#[test]
fn durations_saturate() {
    assert_eq!(saturating_duration_since(ms(5), ms(3)), ms(2));
    assert_eq!(saturating_duration_since(ms(3), ms(5)), 0);
}

#[test]
fn no_report_before_the_window_is_over() {
    let mut stats = RttStats::new(ms(10));
    stats.record_ack(ms(90), 0);
    assert!(stats.roll(ms(10) + RTT_STATS_WINDOW - 1).is_none());
    assert_eq!(stats.acked, 1);
}

#[test]
fn quiet_window_restarts_without_report() {
    let mut stats = RttStats::new(0);
    assert!(stats.roll(RTT_STATS_WINDOW).is_none());
    assert_eq!(stats.window_started_at, RTT_STATS_WINDOW);
}

#[test]
fn report_summarises_the_window() {
    let mut stats = RttStats::new(0);
    for n in [30u64, 10, 20, 40, 100] {
        stats.record_ack(ms(n), 0);
    }
    stats.record_ack(ms(7), 2);
    stats.record_retransmit(1);
    stats.record_retransmit(2);
    stats.record_retransmit(1);
    let report = stats.roll(RTT_STATS_WINDOW + ms(1500)).expect("a report is due");
    assert_eq!(report.window_s, 31);
    assert_eq!(report.acked, 6);
    assert_eq!(report.acked_after_retransmit, 1);
    assert_eq!(report.retransmits, 3);
    assert_eq!(report.max_retransmits, 2);
    let latency = report.latency.expect("there are clean samples");
    assert_eq!(latency.samples, 5);
    assert_eq!(latency.min_ms, 10);
    assert_eq!(latency.p50_ms, 30);
    assert_eq!(latency.p95_ms, 40); // index (5 - 1) * 95 / 100 = 3
    assert_eq!(latency.max_ms, 100);
    assert_eq!(latency.mean_ms, 40);
    assert_eq!(stats.acked, 0);
    assert!(stats.samples.is_empty());
    assert_eq!(stats.window_started_at, RTT_STATS_WINDOW + ms(1500));
}

#[test]
fn report_without_clean_samples() {
    let mut stats = RttStats::new(0);
    stats.record_ack(ms(7), 1);
    let report = stats.roll(RTT_STATS_WINDOW).expect("a report is due");
    assert!(report.latency.is_none());
    assert_eq!(report.acked_after_retransmit, 1);
}

#[test]
fn samples_are_capped() {
    let mut stats = RttStats::new(0);
    for _ in 0..RTT_SAMPLES_CAP + 5 {
        stats.record_ack(ms(1), 0);
    }
    assert_eq!(stats.samples.len(), RTT_SAMPLES_CAP);
    assert_eq!(stats.acked as usize, RTT_SAMPLES_CAP + 5);
}

#[test]
fn counters_stop_at_their_largest_value() {
    let mut stats = RttStats::new(0);
    stats.acked = u32::MAX;
    stats.retransmits = u32::MAX;
    stats.record_ack(ms(1), 0);
    stats.record_retransmit(3);
    assert_eq!(stats.acked, u32::MAX);
    assert_eq!(stats.retransmits, u32::MAX);
    assert_eq!(stats.max_retransmits, 3);
}
