//! Mathematical model of one end of a reliable channel: its state and what
//! each event makes of it.

use crate::reliable::reassembly::{fragment_count, split, Reassembly};
use crate::reliable::rto::{elapsed, RtoEstimator, ACK_DELAY, CLOCK_LIMIT};
use crate::reliable::stats::{bumped, RttStatsView, WindowReport};
use crate::reliable::wire::{
    ack_byte, ack_message, data_message, dist, frame_of, Frag, FrameView, HEADER_SIZE, WINDOW_SIZE,
};
use vstd::prelude::*;

verus! {

/// How many datagrams and fragments may wait to be sent.
pub const SEND_QUEUE_CAPACITY: usize = 32;

/// A fragment that has been sent and not been acknowledged.
#[verifier::ext_equal]
pub struct InFlight {
    pub seq: u8,
    /// The message as it was first sent.
    pub wire: Seq<u8>,
    pub first_sent_at: u64,
    pub last_sent_at: u64,
    pub retransmits: u32,
}

/// A fragment that arrived ahead of its turn.
#[verifier::ext_equal]
pub struct Buffered {
    pub seq: u8,
    pub frag: Frag,
}

/// A datagram that was split and is not fully acknowledged.
#[verifier::ext_equal]
pub struct Unacked {
    /// How many of its fragments are still to be acknowledged.
    pub remaining: nat,
    pub datagram: Seq<u8>,
}

/// What the sending side does next.
pub enum Outcome {
    Send(Seq<u8>),
    Wait,
    Dead,
}

/// State of one end of a channel.
#[verifier::ext_equal]
pub struct Channel {
    /// Datagrams that are still whole.
    pub send_queue: Seq<Seq<u8>>,
    /// Fragments that have not been sent.
    pub frag_queue: Seq<Frag>,
    /// Datagrams that were split and are not fully acknowledged, in sending order.
    pub unacked: Seq<Unacked>,
    /// Sequence number of the next new fragment.
    pub send_next: u8,
    /// Sequence number of the oldest fragment in flight.
    pub send_base: u8,
    pub in_flight: Seq<InFlight>,
    /// Sequence number of the fragment that the receiving side needs next.
    pub recv_next: u8,
    pub reassembly: Reassembly,
    pub recv_buf: Seq<Buffered>,
    pub ack_pending: Option<u8>,
    pub ack_deadline: Option<u64>,
    pub rtt: RttStatsView,
    pub rto: RtoEstimator,
    /// When an acknowledgement last moved the window, or sending began anew.
    pub last_progress_at: u64,
    pub link_dead: bool,
}

/// Fragments still to be acknowledged, over all of `unacked`.
pub open spec fn total_remaining(unacked: Seq<Unacked>) -> nat
    decreases unacked.len(),
{
    if unacked.len() == 0 {
        0
    } else {
        total_remaining(unacked.drop_last()) + unacked.last().remaining
    }
}

/// After the acknowledgement of one more fragment. Fragments are acknowledged
/// in the order in which they were sent, so it belongs to the oldest datagram.
pub open spec fn settle_one(unacked: Seq<Unacked>) -> Seq<Unacked> {
    if unacked.len() == 0 {
        unacked
    } else if unacked[0].remaining <= 1 {
        unacked.skip(1)
    } else {
        unacked.update(
            0,
            Unacked { remaining: (unacked[0].remaining - 1) as nat, ..unacked[0] },
        )
    }
}

/// After the acknowledgement of `n` more fragments.
pub open spec fn settle(unacked: Seq<Unacked>, n: nat) -> Seq<Unacked>
    decreases n,
{
    if n == 0 {
        unacked
    } else {
        settle_one(settle(unacked, (n - 1) as nat))
    }
}

/// The telemetry after the fragments `acked` were acknowledged at `now`.
pub open spec fn rtt_after(rtt: RttStatsView, acked: Seq<InFlight>, now: u64) -> RttStatsView
    decreases acked.len(),
{
    if acked.len() == 0 {
        rtt
    } else {
        rtt_after(rtt, acked.drop_last(), now).with_ack(
            elapsed(now, acked.last().first_sent_at),
            acked.last().retransmits,
        )
    }
}

/// The estimator after the fragments `acked` were acknowledged at `now`: only
/// those that were sent once count.
pub open spec fn rto_after(rto: RtoEstimator, acked: Seq<InFlight>, now: u64) -> RtoEstimator
    decreases acked.len(),
{
    if acked.len() == 0 {
        rto
    } else {
        let before = rto_after(rto, acked.drop_last(), now);
        if acked.last().retransmits == 0 {
            before.sampled(elapsed(now, acked.last().first_sent_at))
        } else {
            before
        }
    }
}

/// Payload bytes that fit into a message of `chunk_size` bytes; negative if
/// not even the framing does.
pub open spec fn payload_room(chunk_size: usize) -> int {
    chunk_size - HEADER_SIZE - 1
}

impl Channel {
    /// A channel on which nothing has happened.
    pub open spec fn initial(now: u64) -> Channel {
        Channel {
            send_queue: Seq::empty(),
            frag_queue: Seq::empty(),
            unacked: Seq::empty(),
            send_next: 0,
            send_base: 0,
            in_flight: Seq::empty(),
            recv_next: 0,
            reassembly: Reassembly::fresh(),
            recv_buf: Seq::empty(),
            ack_pending: None,
            ack_deadline: None,
            rtt: RttStatsView::starting(now),
            rto: RtoEstimator::initial(),
            last_progress_at: now,
            link_dead: false,
        }
    }

    pub open spec fn in_flight_count(self) -> int {
        dist(self.send_base as int, self.send_next as int)
    }

    pub open spec fn can_send(self) -> bool {
        self.in_flight_count() < WINDOW_SIZE
    }

    pub open spec fn in_recv_window(self, seq: u8) -> bool {
        dist(self.recv_next as int, seq as int) < WINDOW_SIZE
    }

    pub open spec fn is_buffered(self, seq: u8) -> bool {
        exists|i: int| 0 <= i < self.recv_buf.len() && (#[trigger] self.recv_buf[i]).seq == seq
    }

    /// What holds of the sending side at all times.
    pub open spec fn send_wf(self) -> bool {
        &&& self.send_base < 16
        &&& self.send_next < 16
        &&& self.in_flight.len() == self.in_flight_count()
        &&& self.in_flight.len() <= WINDOW_SIZE
        &&& forall|i: int|
            0 <= i < self.in_flight.len() ==> {
                &&& (#[trigger] self.in_flight[i]).seq == (self.send_base + i) % 16
                &&& self.in_flight[i].last_sent_at <= CLOCK_LIMIT
                &&& frame_of(self.in_flight[i].wire) is Some
                &&& frame_of(self.in_flight[i].wire)->Some_0.seq == self.in_flight[i].seq
            }
        &&& forall|i: int|
            0 <= i < self.unacked.len() ==> (#[trigger] self.unacked[i]).remaining >= 1
        &&& total_remaining(self.unacked) <= self.in_flight.len() + self.frag_queue.len()
        &&& self.unacked.len() > 0 ==> total_remaining(self.unacked.drop_last())
            <= self.in_flight.len()
        &&& self.last_progress_at <= CLOCK_LIMIT
        &&& self.rtt.wf()
    }

    /// What holds of the receiving side at all times, if datagrams have at
    /// most `max` bytes.
    pub open spec fn recv_wf(self, max: nat) -> bool {
        &&& self.recv_next < 16
        &&& self.reassembly.wf(max)
        &&& forall|i: int|
            0 <= i < self.recv_buf.len() ==> {
                &&& (#[trigger] self.recv_buf[i]).seq < 16
                &&& 1 <= dist(self.recv_next as int, self.recv_buf[i].seq as int) < WINDOW_SIZE
            }
        &&& forall|i: int, j: int|
            0 <= i < j < self.recv_buf.len() ==> (#[trigger] self.recv_buf[i]).seq != (
            #[trigger] self.recv_buf[j]).seq
        &&& self.ack_pending is Some ==> self.ack_pending->Some_0 < 16
    }

    /// The same while the buffer is being emptied: it may hold the fragment
    /// that is needed next.
    pub open spec fn recv_wf_draining(self, max: nat) -> bool {
        &&& self.recv_next < 16
        &&& self.reassembly.wf(max)
        &&& forall|i: int|
            0 <= i < self.recv_buf.len() ==> {
                &&& (#[trigger] self.recv_buf[i]).seq < 16
                &&& dist(self.recv_next as int, self.recv_buf[i].seq as int) < WINDOW_SIZE
            }
        &&& forall|i: int, j: int|
            0 <= i < j < self.recv_buf.len() ==> (#[trigger] self.recv_buf[i]).seq != (
            #[trigger] self.recv_buf[j]).seq
        &&& self.ack_pending is Some ==> self.ack_pending->Some_0 < 16
    }

    pub open spec fn wf(self, max: nat) -> bool {
        self.send_wf() && self.recv_wf(max)
    }

    // ---- acknowledgements received ----

    /// How many fragments a cumulative acknowledgement of `ack_seq` covers.
    pub open spec fn acked_count(self, ack_seq: u8) -> int {
        dist(self.send_base as int, ack_seq + 1)
    }

    /// Whether an acknowledgement moves the window; a stale or bogus one does not.
    pub open spec fn ack_counts(self, ack_seq: u8) -> bool {
        0 < self.acked_count(ack_seq) <= self.in_flight_count()
    }

    /// After the acknowledgement of `ack_seq`.
    pub open spec fn on_ack(self, ack_seq: u8, now: u64) -> Channel {
        if self.ack_counts(ack_seq) {
            let n = self.acked_count(ack_seq);
            let acked = self.in_flight.take(n);
            Channel {
                in_flight: self.in_flight.skip(n),
                unacked: settle(self.unacked, n as nat),
                rtt: rtt_after(self.rtt, acked, now).rolled(now),
                rto: rto_after(self.rto, acked, now),
                send_base: ((ack_seq + 1) % 16) as u8,
                last_progress_at: now,
                ..self
            }
        } else {
            self
        }
    }

    /// The telemetry that falls due with the acknowledgement of `ack_seq`.
    pub open spec fn ack_report(self, ack_seq: u8, now: u64) -> Option<WindowReport> {
        if self.ack_counts(ack_seq) {
            rtt_after(self.rtt, self.in_flight.take(self.acked_count(ack_seq)), now).report(now)
        } else {
            None
        }
    }

    // ---- fragments received ----

    /// The sequence number before the one that is needed next: all up to it
    /// have been received.
    pub open spec fn received_up_to(self) -> u8 {
        ((self.recv_next + 15) % 16) as u8
    }

    /// With the acknowledgement of all that was received due, now or when an
    /// earlier one was due already.
    pub open spec fn ack_scheduled(self, now: u64) -> Channel {
        Channel {
            ack_pending: Some(self.received_up_to()),
            ack_deadline: if self.ack_deadline is None {
                Some((now + ACK_DELAY) as u64)
            } else {
                self.ack_deadline
            },
            ..self
        }
    }

    /// After the fragment that was needed next.
    pub open spec fn accept(self, frag: Frag, max: nat, now: u64) -> Channel {
        Channel {
            reassembly: self.reassembly.accept(frag, max),
            recv_next: ((self.recv_next + 1) % 16) as u8,
            ..self
        }.ack_scheduled(now)
    }

    /// Whether entry `i` of the buffer is the fragment that is needed next.
    pub open spec fn is_next(self, i: int) -> bool {
        0 <= i < self.recv_buf.len() && self.recv_buf[i].seq == self.recv_next
    }

    pub open spec fn next_index(self) -> int {
        choose|i: int| self.is_next(i)
    }

    /// With the next fragment taken out of the buffer and accepted.
    pub open spec fn accept_buffered(self, max: nat, now: u64) -> Channel {
        Channel { recv_buf: self.recv_buf.remove(self.next_index()), ..self }.accept(
            self.recv_buf[self.next_index()].frag,
            max,
            now,
        )
    }

    /// After the buffered fragments whose turn has come.
    pub open spec fn drained(self, max: nat, now: u64) -> Channel
        decreases self.recv_buf.len(),
    {
        if exists|i: int| self.is_next(i) {
            self.accept_buffered(max, now).drained(max, now)
        } else {
            self
        }
    }

    /// The fragments that `drained` accepts, in order.
    pub open spec fn drained_frags(self, max: nat, now: u64) -> Seq<Frag>
        decreases self.recv_buf.len(),
    {
        if exists|i: int| self.is_next(i) {
            seq![self.recv_buf[self.next_index()].frag] + self.accept_buffered(
                max,
                now,
            ).drained_frags(max, now)
        } else {
            Seq::empty()
        }
    }

    /// After a fragment arrived: it is accepted if it is needed next, kept if
    /// it is ahead of its turn but in the window, and otherwise only
    /// acknowledged again.
    pub open spec fn on_data(self, seq: u8, frag: Frag, max: nat, now: u64) -> Channel {
        if seq == self.recv_next {
            self.accept(frag, max, now).drained(max, now)
        } else if !self.in_recv_window(seq) {
            self.ack_scheduled(now)
        } else if self.is_buffered(seq) {
            self
        } else {
            Channel { recv_buf: self.recv_buf.push(Buffered { seq, frag }), ..self }.ack_scheduled(
                now,
            )
        }
    }

    /// The fragments that are accepted, in order, when a fragment arrives.
    pub open spec fn accepted_frags(self, seq: u8, frag: Frag, max: nat, now: u64) -> Seq<Frag> {
        if seq == self.recv_next {
            seq![frag] + self.accept(frag, max, now).drained_frags(max, now)
        } else {
            Seq::empty()
        }
    }

    /// Whether the arrival of a fragment gives the sending side something to do.
    pub open spec fn data_wakes(self, seq: u8) -> bool {
        seq == self.recv_next || !self.in_recv_window(seq) || !self.is_buffered(seq)
    }

    /// With the acknowledgement of a message taken in, if it carries one.
    pub open spec fn after_frame_ack(self, frame: FrameView, now: u64) -> Channel {
        match frame.ack {
            Some(a) => self.on_ack(a, now),
            None => self,
        }
    }

    /// After a message arrived.
    pub open spec fn on_message(self, value: Seq<u8>, max: nat, now: u64) -> Channel {
        match frame_of(value) {
            None => self,
            Some(frame) => {
                let s = self.after_frame_ack(frame, now);
                if frame.has_data() {
                    s.on_data(frame.seq, frame.frag, max, now)
                } else {
                    s
                }
            },
        }
    }

    /// The datagrams that a message completes, in order.
    pub open spec fn delivered_on(self, value: Seq<u8>, max: nat, now: u64) -> Seq<Seq<u8>> {
        match frame_of(value) {
            Some(frame) if frame.has_data() => {
                let s = self.after_frame_ack(frame, now);
                s.reassembly.delivered_by(
                    s.accepted_frags(frame.seq, frame.frag, max, now),
                    max,
                )
            },
            _ => Seq::empty(),
        }
    }

    // ---- sending ----

    /// With the next datagram split, if there is one and no fragment waits.
    pub open spec fn loaded(self, max_payload: nat) -> Channel {
        if self.splits_next() {
            let d = self.send_queue[0];
            Channel {
                send_queue: self.send_queue.skip(1),
                frag_queue: split(d, max_payload),
                unacked: self.unacked.push(
                    Unacked { remaining: fragment_count(d.len(), max_payload), datagram: d },
                ),
                ..self
            }
        } else {
            self
        }
    }

    pub open spec fn splits_next(self) -> bool {
        self.frag_queue.len() == 0 && self.send_queue.len() > 0
    }

    /// Whether there is a pending acknowledgement that should wait no longer.
    pub open spec fn ack_is_due(self, now: u64) -> bool {
        self.ack_pending is Some && (self.ack_deadline is None || now
            >= self.ack_deadline->Some_0)
    }

    pub open spec fn ack_taken(self) -> Channel {
        Channel { ack_pending: None, ack_deadline: None, ..self }
    }

    /// The message of the next fragment; a pending acknowledgement rides on it.
    pub open spec fn next_message(self) -> Seq<u8> {
        data_message(self.send_next, self.frag_queue[0], self.ack_pending)
    }

    /// After the next fragment was sent.
    pub open spec fn sent_next(self, now: u64) -> Channel {
        Channel {
            frag_queue: self.frag_queue.skip(1),
            in_flight: self.in_flight.push(
                InFlight {
                    seq: self.send_next,
                    wire: self.next_message(),
                    first_sent_at: now,
                    last_sent_at: now,
                    retransmits: 0,
                },
            ),
            send_next: ((self.send_next + 1) % 16) as u8,
            last_progress_at: if self.in_flight.len() == 0 {
                now
            } else {
                self.last_progress_at
            },
            ..self.ack_taken()
        }
    }

    /// What the sending side does next: new fragments go first, then an
    /// acknowledgement that found no fragment to ride on.
    pub open spec fn send_outcome(self, max_payload: nat, now: u64) -> Outcome {
        let s = self.loaded(max_payload);
        if self.link_dead {
            Outcome::Dead
        } else if s.can_send() && s.frag_queue.len() > 0 {
            Outcome::Send(s.next_message())
        } else if s.ack_is_due(now) {
            Outcome::Send(ack_message(s.ack_pending->Some_0))
        } else {
            Outcome::Wait
        }
    }

    /// After that.
    pub open spec fn after_send(self, max_payload: nat, now: u64) -> Channel {
        let s = self.loaded(max_payload);
        if self.link_dead {
            self
        } else if s.can_send() && s.frag_queue.len() > 0 {
            s.sent_next(now)
        } else if s.ack_is_due(now) {
            s.ack_taken()
        } else {
            s
        }
    }

    /// Whether a further datagram may be queued.
    pub open spec fn has_room(self) -> bool {
        self.send_queue.len() + self.frag_queue.len() < SEND_QUEUE_CAPACITY
    }

    /// Every datagram that is not fully acknowledged, whole and in sending order.
    pub open spec fn undelivered(self) -> Seq<Seq<u8>> {
        Seq::new(self.unacked.len(), |i: int| self.unacked[i].datagram) + self.send_queue
    }

    /// With the sending side emptied, but for the fragments in flight.
    pub open spec fn abandoned(self) -> Channel {
        Channel {
            send_queue: Seq::empty(),
            frag_queue: Seq::empty(),
            unacked: Seq::empty(),
            ..self
        }
    }

    /// The oldest fragment in flight after it was sent again.
    pub open spec fn head_resent(self, now: u64) -> InFlight {
        let head = self.in_flight[0];
        InFlight {
            last_sent_at: now,
            retransmits: bumped(head.retransmits),
            ..head
        }
    }

    /// After the oldest fragment in flight was sent again.
    pub open spec fn resent(self, now: u64) -> Channel {
        if self.in_flight.len() == 0 {
            self
        } else {
            Channel {
                in_flight: self.in_flight.update(0, self.head_resent(now)),
                rtt: self.rtt.with_retransmit(self.head_resent(now).retransmits),
                ..self.ack_taken()
            }
        }
    }

    /// The message that is then sent: that of the first time, with the pending
    /// acknowledgement, if there is one, in place of its own.
    pub open spec fn resend_message(self) -> Seq<u8> {
        let wire = self.in_flight[0].wire;
        match self.ack_pending {
            Some(a) => wire.update(1, ack_byte(Some(a)) as u8),
            None => wire,
        }
    }
}

} // verus!
