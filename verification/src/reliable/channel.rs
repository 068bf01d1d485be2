//! A reliable channel: what its owner and its send loop call.
//!
//! The channel does no I/O and reads no clock: the caller hands in received
//! values and the time, and carries out what the methods return.

use crate::reliable::model::{payload_room, Channel};
use crate::reliable::reassembly::splittable;
use crate::reliable::rto::{ACK_TIMEOUT, CLOCK_LIMIT, NANOS_PER_MILLI};
use crate::reliable::state::{views, ChannelState, SendAction};
use crate::reliable::stats::WindowReport;
use crate::reliable::upkeep::{
    lemma_after_send_wf, lemma_initial_wf, lemma_on_data_wf, lemma_on_message_wf, lemma_resent_wf,
};
use crate::reliable::wire::{frame_of, is_truncated, parse_message, Parsed, HEADER_SIZE};
use vstd::prelude::*;

verus! {

/// A finished telemetry window, together with the state of the channel at its end.
#[derive(Clone, Copy)]
pub struct RttReport {
    pub window: WindowReport,
    pub in_flight: usize,
    pub queued_frags: usize,
    pub queued_datagrams: usize,
    pub ack_timeout_ms: u64,
    pub rto_ms: u64,
}

/// What came of a received value.
pub struct Received {
    /// Datagrams that it completed, in order.
    pub delivered: Vec<Vec<u8>>,
    /// The send loop has something to do.
    pub wake: bool,
    /// The window moved, so a sender that waits for room should look again.
    pub queue_space: bool,
    /// Telemetry that fell due.
    pub report: Option<RttReport>,
}

/// What the send loop has to do next.
pub struct Sending {
    pub action: SendAction,
    /// A datagram left the queue, so a sender that waits for room should look again.
    pub queue_space: bool,
}

/// Whether the report `r` says of channel `s` what it should.
pub open spec fn reports(r: RttReport, window: WindowReport, s: Channel) -> bool {
    &&& r.window == window
    &&& r.in_flight == s.in_flight.len()
    &&& r.queued_frags == s.frag_queue.len()
    &&& r.queued_datagrams == s.send_queue.len()
    &&& r.ack_timeout_ms == ACK_TIMEOUT / NANOS_PER_MILLI
    &&& r.rto_ms == s.rto.timeout() / NANOS_PER_MILLI
}

impl Channel {
    /// Whether a message moves the window.
    pub open spec fn message_moves_window(self, value: Seq<u8>) -> bool {
        frame_of(value) matches Some(frame) && frame.ack matches Some(a) && self.ack_counts(a)
    }

    /// Whether a message gives the send loop something to do.
    pub open spec fn message_wakes(self, value: Seq<u8>, now: u64) -> bool {
        ||| self.message_moves_window(value)
        ||| {
            frame_of(value) matches Some(frame) && frame.has_data() && self.after_frame_ack(
                frame,
                now,
            ).data_wakes(frame.seq)
        }
    }

    /// The telemetry window that ends with a message.
    pub open spec fn message_report(self, value: Seq<u8>, now: u64) -> Option<WindowReport> {
        match frame_of(value) {
            Some(frame) => match frame.ack {
                Some(a) => self.ack_report(a, now),
                None => None,
            },
            None => None,
        }
    }
}

/// Bidirectional reliable channel.
pub struct ReliableChannel {
    pub state: ChannelState,
    /// Largest message that may be sent, in bytes.
    pub chunk_size: usize,
    /// Largest datagram that is received, in bytes.
    pub max_datagram_size: usize,
    /// How often a fragment was sent again.
    pub retransmit_counter: u64,
    /// How many received values had lost their end.
    pub truncation_counter: u64,
}

impl ReliableChannel {
    /// The invariant of a channel.
    pub open spec fn wf(self) -> bool {
        self.state@.wf(self.max_datagram_size as nat)
    }

    /// `other` has the same settings and counters.
    pub open spec fn same_but_state(self, other: ReliableChannel) -> bool {
        &&& self.chunk_size == other.chunk_size
        &&& self.max_datagram_size == other.max_datagram_size
        &&& self.retransmit_counter == other.retransmit_counter
        &&& self.truncation_counter == other.truncation_counter
    }

    /// If the next thing that the send loop does is to split a datagram, the
    /// chunk size leaves room for payload.
    pub open spec fn can_split_next(self) -> bool {
        !self.state@.link_dead && self.state@.splits_next() ==> splittable(
            self.state@.send_queue[0],
            payload_room(self.chunk_size),
        )
    }

    pub fn new(chunk_size: usize, max_datagram_size: usize, now: u64) -> (ch: Self)
        requires
            now <= CLOCK_LIMIT,
        ensures
            ch.wf(),
            ch.state@ == Channel::initial(now),
            ch.chunk_size == chunk_size,
            ch.max_datagram_size == max_datagram_size,
            ch.retransmit_counter == 0,
            ch.truncation_counter == 0,
    {
        proof {
            lemma_initial_wf(now, max_datagram_size as nat);
        }
        ReliableChannel {
            state: ChannelState::new(now),
            chunk_size,
            max_datagram_size,
            retransmit_counter: 0,
            truncation_counter: 0,
        }
    }

    /// Sets the chunk size for datagrams that are split from now on. What was
    /// split before keeps its size, so that retransmissions stay consistent.
    pub fn set_chunk_size(&mut self, chunk_size: usize)
        ensures
            *final(self) == (ReliableChannel { chunk_size, ..*old(self) }),
    {
        self.chunk_size = chunk_size;
    }

    /// Records that the link is gone: the send loop ends at its next step.
    pub fn mark_dead(&mut self)
        ensures
            final(self).state@ == (Channel { link_dead: true, ..old(self).state@ }),
            final(self).same_but_state(*old(self)),
            old(self).wf() ==> final(self).wf(),
    {
        self.state.link_dead = true;
    }

    /// Queues a datagram for delivery and tells whether there was room; if so,
    /// the send loop has something to do.
    pub fn enqueue_datagram(&mut self, data: Vec<u8>) -> (queued: bool)
        ensures
            queued == old(self).state@.has_room(),
            queued <==> old(self).state@.send_queue.len() + old(self).state@.frag_queue.len()
                < 32,
            queued ==> final(self).state@.send_queue.len() == old(self).state@.send_queue.len()
                + 1 && final(self).state@.send_queue.last() == data@,
            final(self).state@ == if old(self).state@.has_room() {
                Channel { send_queue: old(self).state@.send_queue.push(data@), ..old(self).state@ }
            } else {
                old(self).state@
            },
            final(self).same_but_state(*old(self)),
            old(self).wf() ==> final(self).wf(),
    {
        self.state.push_datagram(data)
    }

    /// Takes every datagram that is not fully acknowledged, whole and in
    /// sending order, and empties the sending side: for a handover to another
    /// pipe. A datagram whose acknowledgement is under way is sent twice.
    pub fn take_undelivered(&mut self) -> (datagrams: Vec<Vec<u8>>)
        ensures
            views(datagrams@) == old(self).state@.undelivered(),
            final(self).state@ == old(self).state@.abandoned(),
            final(self).same_but_state(*old(self)),
            old(self).wf() ==> final(self).wf(),
    {
        self.state.take_undelivered()
    }

    /// Takes in a received value.
    pub fn receive_fragment(&mut self, value: &[u8], now: u64) -> (received: Received)
        requires
            old(self).wf(),
            now <= CLOCK_LIMIT,
        ensures
            final(self).wf(),
            final(self).state@ == old(self).state@.on_message(
                value@,
                old(self).max_datagram_size as nat,
                now,
            ),
            views(received.delivered@) == old(self).state@.delivered_on(
                value@,
                old(self).max_datagram_size as nat,
                now,
            ),
            received.wake == old(self).state@.message_wakes(value@, now),
            received.queue_space == old(self).state@.message_moves_window(value@),
            match old(self).state@.message_report(value@, now) {
                Some(window) => received.report matches Some(r) && reports(
                    r,
                    window,
                    final(self).state@,
                ),
                None => received.report is None,
            },
            final(self).chunk_size == old(self).chunk_size,
            final(self).max_datagram_size == old(self).max_datagram_size,
            final(self).retransmit_counter == old(self).retransmit_counter,
            final(self).truncation_counter == if is_truncated(value@) {
                old(self).truncation_counter.wrapping_add(1)
            } else {
                old(self).truncation_counter
            },
    {
        let ghost s0 = self.state@;
        let ghost max = self.max_datagram_size as nat;
        let mut received = Received {
            delivered: Vec::new(),
            wake: false,
            queue_space: false,
            report: None,
        };
        proof {
            lemma_on_message_wf(s0, value@, max, now);
            assert(views(received.delivered@) =~= Seq::<Seq<u8>>::empty());
        }
        match parse_message(value) {
            Parsed::Short => {},
            Parsed::Truncated => {
                self.truncation_counter = self.truncation_counter.wrapping_add(1);
            },
            Parsed::Frame(frame) => {
                let ghost f = frame@;
                assert(frame_of(value@) == Some(f));
                if let Some(ack_seq) = frame.ack {
                    let (moved, window) = self.state.apply_ack(ack_seq, now);
                    if moved {
                        received.wake = true;
                        received.queue_space = true;
                    }
                    if let Some(window) = window {
                        received.report = Some(
                            RttReport {
                                window,
                                in_flight: self.state.in_flight.len(),
                                queued_frags: self.state.frag_queue.len(),
                                queued_datagrams: self.state.send_queue.len(),
                                ack_timeout_ms: ACK_TIMEOUT / NANOS_PER_MILLI,
                                rto_ms: self.state.rto.rto() / NANOS_PER_MILLI,
                            },
                        );
                    }
                }
                assert(self.state@ == s0.after_frame_ack(f, now));
                if frame.first || frame.last || frame.payload.len() > 0 {
                    proof {
                        lemma_on_data_wf(self.state@, f.seq, f.frag, max, now);
                    }
                    let mut delivered: Vec<Vec<u8>> = Vec::new();
                    assert(views(delivered@) =~= Seq::<Seq<u8>>::empty());
                    let data_wakes = self.state.apply_data(
                        frame.seq,
                        frame.first,
                        frame.last,
                        frame.payload,
                        self.max_datagram_size,
                        now,
                        &mut delivered,
                    );
                    assert(views(delivered@) =~= s0.delivered_on(value@, max, now));
                    if data_wakes {
                        received.wake = true;
                    }
                    received.delivered = delivered;
                }
            },
        }
        received
    }

    /// Whether the next step of the send loop can be taken with this chunk size.
    pub fn chunk_size_suffices(&self) -> (b: bool)
        ensures
            b == self.can_split_next(),
    {
        if self.state.link_dead || self.state.frag_queue.len() > 0 || self.state.send_queue.len()
            == 0 {
            return true;
        }
        let head: &Vec<u8> = &self.state.send_queue[0];
        assert(self.state@.send_queue[0] == head@);
        self.chunk_size > HEADER_SIZE + 1 || (self.chunk_size == HEADER_SIZE + 1 && head.len()
            == 0)
    }

    /// What the send loop has to do next.
    pub fn next_send_action(&mut self, now: u64) -> (next: Sending)
        requires
            old(self).wf(),
            old(self).can_split_next(),
            now <= CLOCK_LIMIT,
        ensures
            final(self).wf(),
            next.action@ == old(self).state@.send_outcome(
                payload_room(old(self).chunk_size) as nat,
                now,
            ),
            next.queue_space == (!old(self).state@.link_dead && old(self).state@.splits_next()),
            final(self).state@ == old(self).state@.after_send(
                payload_room(old(self).chunk_size) as nat,
                now,
            ),
            final(self).same_but_state(*old(self)),
    {
        proof {
            lemma_after_send_wf(
                self.state@,
                payload_room(self.chunk_size) as nat,
                self.max_datagram_size as nat,
                now,
            );
        }
        let (action, queue_space) = self.state.next_send_action(self.chunk_size, now);
        Sending { action, queue_space }
    }

    /// Sends the oldest fragment in flight again, if there is one.
    pub fn retransmit(&mut self, now: u64) -> (msg: Option<Vec<u8>>)
        requires
            old(self).wf(),
            now <= CLOCK_LIMIT,
        ensures
            final(self).wf(),
            msg is Some <==> old(self).state@.in_flight.len() > 0,
            msg is Some ==> msg->Some_0@ == old(self).state@.resend_message(),
            final(self).state@ == old(self).state@.resent(now),
            final(self).retransmit_counter == if msg is Some {
                old(self).retransmit_counter.wrapping_add(1)
            } else {
                old(self).retransmit_counter
            },
            final(self).chunk_size == old(self).chunk_size,
            final(self).max_datagram_size == old(self).max_datagram_size,
            final(self).truncation_counter == old(self).truncation_counter,
    {
        proof {
            lemma_resent_wf(self.state@, self.max_datagram_size as nat, now);
        }
        let msg = self.state.resend_head(now);
        if msg.is_some() {
            self.retransmit_counter = self.retransmit_counter.wrapping_add(1);
        }
        msg
    }
}

/// Queues a datagram if its channel can be had at once. `None` if it cannot;
/// otherwise whether there was room.
pub fn try_enqueue_datagram(channel: Option<&mut ReliableChannel>, data: Vec<u8>) -> (queued:
    Option<bool>)
    ensures
        match channel {
            Some(ch) => {
                &&& queued == Some(ch.state@.has_room())
                &&& queued == Some(ch.state@.send_queue.len() + ch.state@.frag_queue.len() < 32)
                &&& final(ch).same_but_state(*ch)
                &&& final(ch).state@ == if ch.state@.has_room() {
                    Channel { send_queue: ch.state@.send_queue.push(data@), ..ch.state@ }
                } else {
                    ch.state@
                }
            },
            None => queued is None,
        },
{
    match channel {
        Some(ch) => Some(ch.enqueue_datagram(data)),
        None => None,
    }
}

} // verus!
