use neutrino_ble::reliable::channel::ReliableChannel;
use neutrino_ble::reliable::rto::{
    ACK_DELAY, ACK_TIMEOUT, ACK_TIMEOUT_MAX, INTER_FRAME_GAP, LINK_DEAD_DEADLINE,
};
use neutrino_ble::reliable::send_loop::{SendLoop, Step};
use neutrino_ble::reliable::wire::{FRAGMENT_CANARY, HEADER_SIZE};

const T0: u64 = 1_000_000_000;

const fn ms(n: u64) -> u64 {
    n * 1_000_000
}

/// What the loop is doing.
enum Doing {
    /// Pausing after a transmission.
    Pausing(u64),
    Sleeping { until: Option<u64>, retransmit_at: Option<u64> },
    Ended,
}

/// A send loop with a clock of its own.
struct Driver {
    ch: ReliableChannel,
    send_loop: SendLoop,
    now: u64,
    doing: Doing,
    sent: Vec<Vec<u8>>,
}

impl Driver {
    fn new(chunk_size: usize) -> Driver {
        Driver {
            ch: ReliableChannel::new(chunk_size, 1472, T0),
            send_loop: SendLoop::new(),
            now: T0,
            doing: Doing::Pausing(T0),
            sent: Vec::new(),
        }
    }

    fn poll(&mut self) {
        self.doing = match self.send_loop.poll(&mut self.ch, self.now).step {
            Step::Transmit(msg) => {
                self.sent.push(msg);
                Doing::Pausing(self.now + INTER_FRAME_GAP)
            }
            Step::LinkDead => Doing::Ended,
            Step::Sleep { until, retransmit_at } => Doing::Sleeping { until, retransmit_at },
        };
    }

    /// Lets `span` pass.
    fn advance(&mut self, span: u64) {
        let end = self.now + span;
        loop {
            match self.doing {
                Doing::Pausing(until) if until <= end => {
                    self.now = until;
                    self.poll();
                }
                Doing::Sleeping { until: Some(until), retransmit_at } if until <= end => {
                    self.now = self.now.max(until);
                    if let Some(at) = retransmit_at {
                        if let Some(msg) = self.send_loop.timer_expired(&mut self.ch, at, self.now) {
                            self.sent.push(msg);
                        }
                    }
                    self.poll();
                }
                _ => break,
            }
        }
        self.now = end;
    }

    /// Something happened on the channel.
    fn wake(&mut self) {
        if let Doing::Sleeping { .. } = self.doing {
            self.poll();
        }
    }

    fn enqueue(&mut self, data: &[u8]) {
        assert!(self.ch.enqueue_datagram(data.to_vec()));
        self.wake();
    }

    fn receive(&mut self, value: &[u8]) {
        if self.ch.receive_fragment(value, self.now).wake {
            self.wake();
        }
    }

    fn is_finished(&self) -> bool {
        matches!(self.doing, Doing::Ended)
    }
}

#[test]
fn test_send_loop_delivers_fragments() {
    let mut d = Driver::new(512);
    d.enqueue(b"hello");
    d.advance(ms(50));
    d.receive(&[0x00, 0x10]);
    d.ch.mark_dead();
    d.wake();
    assert!(d.is_finished());
    assert_eq!(d.sent.len(), 1);
    assert_eq!(d.sent[0].last().copied(), Some(FRAGMENT_CANARY));
    assert_eq!(&d.sent[0][HEADER_SIZE..d.sent[0].len() - 1], b"hello");
}

#[test]
fn test_send_loop_deadline_declares_link_dead() {
    let mut d = Driver::new(512);
    d.enqueue(b"data");
    // Well past LINK_DEAD_DEADLINE with no ACKs.
    for _ in 0..30 {
        d.advance(ms(500));
        if d.is_finished() {
            break;
        }
    }
    assert!(d.is_finished());
    assert!(d.ch.state.link_dead);
}

#[test]
fn test_adapted_rto_suppresses_spurious_train_retransmit() {
    let mut d = Driver::new(512);
    for _ in 0..5 {
        d.ch.state.rto.sample(ms(800));
    }
    let rto = d.ch.state.rto.rto();
    assert!(rto > ms(800), "warmup: rto = {rto:?}");
    // A fragment un-ACKed for 500ms: a fixed 300ms timer would have fired;
    // the adapted one must not.
    d.enqueue(b"next");
    d.advance(ms(500));
    assert_eq!(d.ch.retransmit_counter, 0, "no spurious retransmit within the adapted RTO");
    // But a genuine loss still recovers.
    d.advance(ms(2500));
    assert!(
        d.ch.retransmit_counter > 0,
        "a genuinely lost fragment must still be retransmitted"
    );
}

#[test]
fn test_new_send_does_not_reset_retry_backoff() {
    let mut d = Driver::new(512);
    d.enqueue(b"stuck");
    d.advance(ms(400));
    assert_eq!(d.ch.retransmit_counter, 1, "first retransmit should have fired after ACK_TIMEOUT");
    // Backoff is now 600ms; a fresh datagram must not change it.
    d.enqueue(b"fresh");
    d.advance(ms(400));
    assert_eq!(
        d.ch.retransmit_counter, 1,
        "new Send must not reset the retransmit backoff on the stuck head"
    );
    assert_eq!(d.send_loop.timeout, ms(600));
    // Sent at 0, again at 300; the next is due at 900.
    d.advance(ms(99));
    assert_eq!(d.ch.retransmit_counter, 1);
    d.advance(ms(1));
    assert_eq!(d.ch.retransmit_counter, 2);
}

#[test]
fn test_wake_churn_does_not_starve_retransmit() {
    let mut d = Driver::new(512);
    d.enqueue(b"stuck");
    for _ in 0..10 {
        d.advance(ms(100));
        d.wake();
    }
    assert!(
        d.ch.retransmit_counter >= 1,
        "wake churn must not postpone the anchored retransmit deadline"
    );
}

#[test]
fn test_mark_dead_wakes_parked_send_loop() {
    let mut d = Driver::new(512);
    d.enqueue(b"stuck");
    d.advance(ms(60));
    assert!(!d.is_finished(), "loop should be parked waiting for ACK");
    d.ch.mark_dead();
    d.wake();
    assert!(d.is_finished(), "mark_dead must wake the parked loop");
}

#[test]
fn test_link_dead_fires_within_deadline() {
    let mut d = Driver::new(512);
    d.enqueue(b"stuck");
    let start = d.now;
    for _ in 0..60 {
        d.advance(ms(250));
        if d.is_finished() {
            break;
        }
    }
    assert!(d.is_finished(), "send loop should have exited");
    let elapsed = d.now - start;
    assert!(elapsed >= LINK_DEAD_DEADLINE, "declared dead too early: elapsed={elapsed:?}");
    assert!(
        elapsed < LINK_DEAD_DEADLINE + ms(750),
        "declared dead too late: elapsed={elapsed:?}"
    );
}

#[test]
fn test_deadline_resets_when_head_advances() {
    let mut d = Driver::new(512);
    d.enqueue(b"one");
    // Burn ~4s of the deadline with retransmits.
    for _ in 0..8 {
        d.advance(ms(500));
    }
    assert!(!d.is_finished(), "loop should still be alive pre-ACK");
    d.receive(&[0x00, 0x10]);
    d.enqueue(b"two");
    for _ in 0..8 {
        d.advance(ms(500));
    }
    assert!(
        !d.is_finished(),
        "after head advanced, deadline should have reset and loop should be alive"
    );
}

#[test]
fn send_loop_appends_canary_to_every_fragment() {
    let mut d = Driver::new(32);
    d.enqueue(&[0xAB; 100]);
    d.advance(ms(50));
    assert!(!d.sent.is_empty(), "expected at least one fragment on the wire");
    for (i, frame) in d.sent.iter().enumerate() {
        assert_eq!(
            frame.last().copied(),
            Some(FRAGMENT_CANARY),
            "fragment {i} did not end with FRAGMENT_CANARY: {frame:?}"
        );
    }
}

#[test]
fn fragments_are_paced() {
    let mut d = Driver::new(10);
    d.enqueue(&[1; 21]);
    d.advance(0);
    assert_eq!(d.sent.len(), 1);
    d.advance(INTER_FRAME_GAP - 1);
    assert_eq!(d.sent.len(), 1);
    d.advance(1);
    assert_eq!(d.sent.len(), 2);
}

#[test]
fn timeouts_double_up_to_the_ceiling() {
    let mut l = SendLoop::new();
    let mut ch = ReliableChannel::new(512, 1472, T0);
    assert_eq!(l.timeout, ACK_TIMEOUT);
    for expected in [600u64, 1200, 2400, 4800, 5000, 5000] {
        assert!(l.timer_expired(&mut ch, T0, T0).is_none(), "nothing is in flight");
        assert_eq!(l.timeout, ms(expected));
    }
    assert_eq!(l.timeout, ACK_TIMEOUT_MAX);
}

#[test]
fn early_timer_changes_nothing() {
    let mut d = Driver::new(512);
    d.enqueue(b"x");
    d.advance(ms(10));
    let now = d.now;
    assert!(d.send_loop.timer_expired(&mut d.ch, now + 1, now).is_none());
    assert_eq!(d.ch.retransmit_counter, 0);
    assert_eq!(d.send_loop.timeout, ACK_TIMEOUT);
}

#[test]
fn idle_loop_sleeps_for_a_delayed_acknowledgement() {
    let mut d = Driver::new(512);
    d.advance(0);
    assert!(matches!(d.doing, Doing::Sleeping { until: None, retransmit_at: None }));
    d.receive(&[0x30, 0x00, b'x', FRAGMENT_CANARY]);
    match d.doing {
        Doing::Sleeping { until, retransmit_at } => {
            assert_eq!(until, Some(T0 + ACK_DELAY));
            assert_eq!(retransmit_at, None);
        }
        _ => panic!("expected a sleep"),
    }
    d.advance(ACK_DELAY);
    assert_eq!(d.sent, vec![vec![0x00, 0x10]]);
}

#[test]
fn sleep_ends_with_the_first_deadline() {
    let mut d = Driver::new(512);
    d.enqueue(b"x");
    d.advance(INTER_FRAME_GAP);
    match d.doing {
        Doing::Sleeping { until, retransmit_at } => {
            assert_eq!(retransmit_at, Some(T0 + ACK_TIMEOUT));
            assert_eq!(until, retransmit_at);
        }
        _ => panic!("expected a sleep"),
    }
    d.receive(&[0x30, 0x00, b'y', FRAGMENT_CANARY]);
    match d.doing {
        Doing::Sleeping { until, retransmit_at } => {
            assert_eq!(retransmit_at, Some(T0 + ACK_TIMEOUT));
            assert_eq!(until, Some(d.now + ACK_DELAY));
        }
        _ => panic!("expected a sleep"),
    }
}

#[test]
fn a_retransmission_precedes_death() {
    let mut d = Driver::new(512);
    d.ch.state.rto.sample(ms(100_000));
    d.enqueue(b"slow");
    d.advance(ms(4999));
    assert_eq!(d.ch.retransmit_counter, 0);
    d.advance(ms(1));
    assert_eq!(d.ch.retransmit_counter, 1);
    assert!(!d.is_finished());
    d.advance(ms(1000));
    assert!(d.is_finished());
}

#[test]
fn progress_refreshes_the_timeout() {
    let mut d = Driver::new(512);
    d.enqueue(b"one");
    d.enqueue(b"two");
    d.advance(ms(1000));
    assert_eq!(d.send_loop.timeout, ms(1200));
    d.receive(&[0x00, 0x10]);
    // The head was retransmitted, so it gives no sample and the floor is back.
    assert_eq!(d.send_loop.timeout, ACK_TIMEOUT);
}

#[test]
fn idle_time_does_not_count_against_the_link() {
    let mut d = Driver::new(512);
    d.advance(ms(20_000));
    d.enqueue(b"late");
    d.advance(ms(5_999));
    assert!(!d.is_finished());
    d.advance(ms(1));
    assert!(d.is_finished());
}

#[test]
fn dead_links_stay_dead() {
    let mut d = Driver::new(512);
    d.enqueue(b"x");
    d.advance(ms(10));
    d.ch.mark_dead();
    d.receive(&[0x30, 0x10, b'y', FRAGMENT_CANARY]);
    d.ch.take_undelivered();
    assert!(d.ch.state.link_dead);
    for _ in 0..3 {
        assert!(matches!(d.send_loop.poll(&mut d.ch, d.now).step, Step::LinkDead));
    }
}

#[test]
fn a_lost_acknowledgement_costs_one_round_trip() {
    let mut d = Driver::new(512);
    let mut peer = ReliableChannel::new(512, 1472, T0);
    d.enqueue(b"once");
    d.advance(ms(1));
    assert_eq!(peer.receive_fragment(&d.sent[0], d.now).delivered.len(), 1);
    // Its acknowledgement is lost; the fragment comes again.
    peer.state.take_ack();
    d.advance(ms(300));
    assert_eq!(d.sent.len(), 2);
    assert!(peer.receive_fragment(&d.sent[1], d.now).delivered.is_empty());
    assert_eq!(peer.state.ack_pending, Some(0));
    d.receive(&[0x00, 0x10]);
    assert_eq!(d.ch.state.in_flight_count(), 0);
}
