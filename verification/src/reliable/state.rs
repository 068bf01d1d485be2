//! Protocol state of one end of a reliable channel.

use crate::reliable::model::{
    payload_room, rto_after, rtt_after, settle, settle_one, Buffered, Channel, InFlight, Outcome,
    Unacked, SEND_QUEUE_CAPACITY,
};
use crate::reliable::reassembly::{
    fragment_count, lemma_count_of_full, lemma_fragment_bounds, split, splittable, Reassembly,
};
use crate::reliable::rto::{saturating_duration_since, RtoEstimator, ACK_DELAY, CLOCK_LIMIT};
use crate::reliable::stats::{RttStats, WindowReport};
use crate::reliable::upkeep::{
    lemma_accept_buffered_wf, lemma_accept_first, lemma_accept_wf, lemma_dist_mod,
    lemma_next_is_unique, lemma_on_ack_wf, lemma_on_data_wf, lemma_rtt_after_wf,
};
use crate::reliable::wire::{
    ack_message, dist, make_header, seq_dist, set_ack, Frag, FRAGMENT_CANARY, HEADER_SIZE,
    SEQ_MODULUS, WINDOW_SIZE,
};
use std::collections::VecDeque;
use vstd::prelude::*;
use vstd::slice::slice_subrange;
use vstd::std_specs::vecdeque::*;

verus! {

/// A fragment that has been sent and not been acknowledged.
pub struct InFlightFragment {
    pub seq: u8,
    pub wire_msg: Vec<u8>,
    /// When it was first sent: what round trips are measured from.
    pub first_sent_at: u64,
    /// When it was last sent: what the retransmission timer runs from. Were it
    /// to run from the moment of asking instead, a busy link would postpone
    /// the retransmission for ever.
    pub last_sent_at: u64,
    pub retransmits: u32,
}

impl View for InFlightFragment {
    type V = InFlight;

    open spec fn view(&self) -> InFlight {
        InFlight {
            seq: self.seq,
            wire: self.wire_msg@,
            first_sent_at: self.first_sent_at,
            last_sent_at: self.last_sent_at,
            retransmits: self.retransmits,
        }
    }
}

/// A fragment that has not been sent.
pub struct FragmentEntry {
    pub payload: Vec<u8>,
    pub first: bool,
    pub last: bool,
}

impl View for FragmentEntry {
    type V = Frag;

    open spec fn view(&self) -> Frag {
        Frag { payload: self.payload@, first: self.first, last: self.last }
    }
}

/// A fragment that arrived ahead of its turn.
pub struct BufferedFragment {
    pub seq: u8,
    pub first: bool,
    pub last: bool,
    pub payload: Vec<u8>,
}

impl View for BufferedFragment {
    type V = Buffered;

    open spec fn view(&self) -> Buffered {
        Buffered {
            seq: self.seq,
            frag: Frag { payload: self.payload@, first: self.first, last: self.last },
        }
    }
}

/// A copy of a datagram that was split and is not fully acknowledged.
pub struct UnackedDatagram {
    pub remaining: usize,
    pub datagram: Vec<u8>,
}

impl View for UnackedDatagram {
    type V = Unacked;

    open spec fn view(&self) -> Unacked {
        Unacked { remaining: self.remaining as nat, datagram: self.datagram@ }
    }
}

/// The views of a sequence's items.
pub open spec fn views<T: View>(s: Seq<T>) -> Seq<T::V> {
    Seq::new(s.len(), |i: int| s[i]@)
}

/// What the sending side does next.
pub enum SendAction {
    /// Put this message on the wire.
    Send(Vec<u8>),
    Wait,
    /// The link is dead.
    Dead,
}

impl View for SendAction {
    type V = Outcome;

    open spec fn view(&self) -> Outcome {
        match self {
            SendAction::Send(msg) => Outcome::Send(msg@),
            SendAction::Wait => Outcome::Wait,
            SendAction::Dead => Outcome::Dead,
        }
    }
}

/// Protocol state of one end of a channel.
pub struct ChannelState {
    pub send_queue: VecDeque<Vec<u8>>,
    pub frag_queue: VecDeque<FragmentEntry>,
    /// Whole copies of everything that was split and is not fully
    /// acknowledged, so that a handover to another pipe can send it again.
    pub unacked_datagrams: VecDeque<UnackedDatagram>,
    pub send_next: u8,
    pub send_base: u8,
    pub in_flight: VecDeque<InFlightFragment>,
    pub recv_next: u8,
    pub reassembly: Vec<u8>,
    /// Fragments are dropped until the next first one.
    pub reassembly_overflow: bool,
    pub recv_buf: Vec<BufferedFragment>,
    pub ack_pending: Option<u8>,
    /// When the pending acknowledgement goes out on its own.
    pub ack_deadline: Option<u64>,
    pub rtt: RttStats,
    pub rto: RtoEstimator,
    pub last_progress_at: u64,
    pub link_dead: bool,
}

impl View for ChannelState {
    type V = Channel;

    open spec fn view(&self) -> Channel {
        Channel {
            send_queue: views(self.send_queue@),
            frag_queue: views(self.frag_queue@),
            unacked: views(self.unacked_datagrams@),
            send_next: self.send_next,
            send_base: self.send_base,
            in_flight: views(self.in_flight@),
            recv_next: self.recv_next,
            reassembly: Reassembly { buf: self.reassembly@, overflow: self.reassembly_overflow },
            recv_buf: views(self.recv_buf@),
            ack_pending: self.ack_pending,
            ack_deadline: self.ack_deadline,
            rtt: self.rtt@,
            rto: self.rto,
            last_progress_at: self.last_progress_at,
            link_dead: self.link_dead,
        }
    }
}

impl ChannelState {
    pub fn new(now: u64) -> (state: Self)
        ensures
            state@ == Channel::initial(now),
    {
        let state = ChannelState {
            send_queue: VecDeque::new(),
            frag_queue: VecDeque::new(),
            unacked_datagrams: VecDeque::new(),
            send_next: 0,
            send_base: 0,
            in_flight: VecDeque::new(),
            recv_next: 0,
            reassembly: Vec::new(),
            reassembly_overflow: false,
            recv_buf: Vec::new(),
            ack_pending: None,
            ack_deadline: None,
            rtt: RttStats::new(now),
            rto: RtoEstimator::new(),
            last_progress_at: now,
            link_dead: false,
        };
        assert(state@ =~= Channel::initial(now));
        state
    }

    /// How many fragments are in flight.
    pub fn in_flight_count(&self) -> (n: u8)
        ensures
            n == self@.in_flight_count(),
    {
        seq_dist(self.send_base, self.send_next)
    }

    /// Whether the window has room for another fragment.
    pub fn can_send(&self) -> (b: bool)
        ensures
            b == self@.can_send(),
    {
        self.in_flight_count() < WINDOW_SIZE
    }

    /// Whether the receiving side keeps a fragment with this number.
    pub fn in_recv_window(&self, seq: u8) -> (b: bool)
        ensures
            b == self@.in_recv_window(seq),
    {
        seq_dist(self.recv_next, seq) < WINDOW_SIZE
    }

    /// Whether a fragment with this number is in the buffer.
    pub fn is_buffered(&self, seq: u8) -> (b: bool)
        ensures
            b == self@.is_buffered(seq),
    {
        let mut i: usize = 0;
        while i < self.recv_buf.len()
            invariant
                0 <= i <= self.recv_buf.len(),
                forall|k: int| 0 <= k < i ==> (#[trigger] self@.recv_buf[k]).seq != seq,
            decreases self.recv_buf.len() - i,
        {
            if self.recv_buf[i].seq == seq {
                assert(self@.recv_buf[i as int].seq == seq);
                return true;
            }
            i += 1;
        }
        false
    }

    /// Makes the acknowledgement of `seq` due.
    pub fn schedule_ack(&mut self, seq: u8, now: u64)
        requires
            now <= CLOCK_LIMIT,
        ensures
            final(self)@ == (Channel {
                ack_pending: Some(seq),
                ack_deadline: if old(self)@.ack_deadline is None {
                    Some((now + ACK_DELAY) as u64)
                } else {
                    old(self)@.ack_deadline
                },
                ..old(self)@
            }),
    {
        self.ack_pending = Some(seq);
        if self.ack_deadline.is_none() {
            self.ack_deadline = Some(now + ACK_DELAY);
        }
    }

    /// Takes the pending acknowledgement, if there is one.
    pub fn take_ack(&mut self) -> (ack: Option<u8>)
        ensures
            ack == old(self)@.ack_pending,
            final(self)@ == old(self)@.ack_taken(),
    {
        self.ack_deadline = None;
        self.ack_pending.take()
    }

    /// Takes one acknowledged fragment off the oldest unacknowledged datagram.
    fn settle_one_fragment(&mut self)
        ensures
            final(self)@ == (Channel { unacked: settle_one(old(self)@.unacked), ..old(self)@ }),
    {
        if let Some(mut head) = self.unacked_datagrams.pop_front() {
            if head.remaining > 1 {
                head.remaining = head.remaining - 1;
                self.unacked_datagrams.push_front(head);
            }
        }
        assert(self@.unacked =~= settle_one(old(self)@.unacked));
    }

    /// Takes the `n` oldest fragments, acknowledged at `now`, out of flight.
    fn settle_fragments(&mut self, n: usize, now: u64)
        requires
            n <= old(self)@.in_flight.len(),
        ensures
            final(self)@ == (Channel {
                in_flight: old(self)@.in_flight.skip(n as int),
                unacked: settle(old(self)@.unacked, n as nat),
                rtt: rtt_after(old(self)@.rtt, old(self)@.in_flight.take(n as int), now),
                rto: rto_after(old(self)@.rto, old(self)@.in_flight.take(n as int), now),
                ..old(self)@
            }),
    {
        let ghost s0 = self@;
        let mut k: usize = 0;
        assert(s0.in_flight.take(0) =~= Seq::<InFlight>::empty());
        assert(s0.in_flight.skip(0) =~= s0.in_flight);
        while k < n
            invariant
                0 <= k <= n <= s0.in_flight.len(),
                self@ == (Channel {
                    in_flight: s0.in_flight.skip(k as int),
                    unacked: settle(s0.unacked, k as nat),
                    rtt: rtt_after(s0.rtt, s0.in_flight.take(k as int), now),
                    rto: rto_after(s0.rto, s0.in_flight.take(k as int), now),
                    ..s0
                }),
            decreases n - k,
        {
            let ghost s1 = self@;
            assert(s1.in_flight.len() > 0);
            if let Some(frag) = self.in_flight.pop_front() {
                assert(frag@ == s1.in_flight[0]);
                assert(self@.in_flight =~= s1.in_flight.skip(1));
                assert(s0.in_flight.skip(k as int).skip(1) =~= s0.in_flight.skip(k + 1));
                assert(s0.in_flight.take(k + 1).drop_last() =~= s0.in_flight.take(k as int));
                let rtt: u64 = saturating_duration_since(now, frag.first_sent_at);
                self.rtt.record_ack(rtt, frag.retransmits);
                if frag.retransmits == 0 {
                    self.rto.sample(rtt);
                }
                self.settle_one_fragment();
            }
            k += 1;
        }
    }

    /// Takes in a cumulative acknowledgement. Tells whether it moved the
    /// window, and what telemetry fell due with it.
    pub fn apply_ack(&mut self, ack_seq: u8, now: u64) -> (moved: (bool, Option<WindowReport>))
        requires
            old(self)@.send_wf(),
            ack_seq < SEQ_MODULUS,
            now <= CLOCK_LIMIT,
        ensures
            moved.0 == old(self)@.ack_counts(ack_seq),
            moved.1 == old(self)@.ack_report(ack_seq, now),
            final(self)@ == old(self)@.on_ack(ack_seq, now),
            final(self)@.send_wf(),
    {
        let ghost s0 = self@;
        let count: u8 = seq_dist(self.send_base, (ack_seq + 1) % SEQ_MODULUS);
        proof {
            lemma_dist_mod(self.send_base as int, ack_seq + 1);
            lemma_on_ack_wf(s0, ack_seq, now);
        }
        if count == 0 || count > WINDOW_SIZE || count > self.in_flight_count() {
            return (false, None);
        }
        (true, self.slide_window(count as usize, ack_seq, now))
    }

    /// Moves the window past `ack_seq`, which acknowledges `n` fragments.
    fn slide_window(&mut self, n: usize, ack_seq: u8, now: u64) -> (report: Option<WindowReport>)
        requires
            n <= old(self)@.in_flight.len(),
            n == old(self)@.acked_count(ack_seq),
            old(self)@.ack_counts(ack_seq),
            old(self)@.rtt.wf(),
            ack_seq < SEQ_MODULUS,
        ensures
            report == old(self)@.ack_report(ack_seq, now),
            final(self)@ == old(self)@.on_ack(ack_seq, now),
    {
        let ghost s0 = self@;
        self.settle_fragments(n, now);
        self.send_base = (ack_seq + 1) % SEQ_MODULUS;
        self.last_progress_at = now;
        proof {
            lemma_rtt_after_wf(s0.rtt, s0.in_flight.take(n as int), now);
        }
        self.rtt.roll(now)
    }

    /// Accepts the fragment that was needed next. The datagram that it
    /// completes, if any, goes to the end of `delivered`.
    fn accept_and_deliver(
        &mut self,
        first: bool,
        last: bool,
        payload: &[u8],
        max: usize,
        now: u64,
        delivered: &mut Vec<Vec<u8>>,
    )
        requires
            old(self)@.recv_next < 16,
            old(self)@.reassembly.wf(max as nat),
            now <= CLOCK_LIMIT,
        ensures
            final(self)@ == old(self)@.accept(
                Frag { payload: payload@, first, last },
                max as nat,
                now,
            ),
            views(final(delivered)@) == views(old(delivered)@)
                + old(self)@.reassembly.completed_by(
                Frag { payload: payload@, first, last },
                max as nat,
            ),
    {
        let ghost s0 = self@;
        let ghost d0 = delivered@;
        let ghost frag = Frag { payload: payload@, first, last };
        if first {
            self.reassembly.clear();
            self.reassembly_overflow = false;
        }
        if !self.reassembly_overflow {
            let ghost before = self.reassembly@;
            self.reassembly.extend_from_slice(payload);
            assert(self.reassembly@ =~= before + payload@);
            if self.reassembly.len() > max {
                self.reassembly.clear();
                self.reassembly_overflow = true;
            }
        }
        assert(self@.reassembly =~= s0.reassembly.absorb(frag, max as nat));
        if last {
            self.reassembly_overflow = false;
            let mut complete: Vec<u8> = Vec::new();
            core::mem::swap(&mut self.reassembly, &mut complete);
            if complete.len() > 0 {
                delivered.push(complete);
            }
        }
        assert(self@.reassembly =~= s0.reassembly.accept(frag, max as nat));
        assert(views(delivered@) =~= views(d0) + s0.reassembly.completed_by(frag, max as nat));
        self.recv_next = (self.recv_next + 1) % SEQ_MODULUS;
        let ack_seq: u8 = (self.recv_next + SEQ_MODULUS - 1) % SEQ_MODULUS;
        self.schedule_ack(ack_seq, now);
    }

    /// Where the fragment that is needed next stands in the buffer.
    fn find_next(&self) -> (pos: Option<usize>)
        ensures
            match pos {
                Some(i) => self@.is_next(i as int),
                None => forall|i: int| !self@.is_next(i),
            },
    {
        let mut i: usize = 0;
        while i < self.recv_buf.len()
            invariant
                0 <= i <= self.recv_buf.len(),
                forall|k: int| 0 <= k < i ==> !self@.is_next(k),
            decreases self.recv_buf.len() - i,
        {
            if self.recv_buf[i].seq == self.recv_next {
                return Some(i);
            }
            i += 1;
        }
        None
    }

    /// Accepts the buffered fragments whose turn has come.
    fn drain_recv_buf(&mut self, max: usize, now: u64, delivered: &mut Vec<Vec<u8>>)
        requires
            old(self)@.recv_wf_draining(max as nat),
            now <= CLOCK_LIMIT,
        ensures
            final(self)@ == old(self)@.drained(max as nat, now),
            views(final(delivered)@) == views(old(delivered)@)
                + old(self)@.reassembly.delivered_by(
                old(self)@.drained_frags(max as nat, now),
                max as nat,
            ),
    {
        let ghost s0 = self@;
        let ghost d0 = views(delivered@);
        let ghost owed = d0 + s0.reassembly.delivered_by(
            s0.drained_frags(max as nat, now),
            max as nat,
        );
        loop
            invariant
                now <= CLOCK_LIMIT,
                self@.recv_wf_draining(max as nat),
                self@.drained(max as nat, now) == s0.drained(max as nat, now),
                views(delivered@) + self@.reassembly.delivered_by(
                    self@.drained_frags(max as nat, now),
                    max as nat,
                ) == owed,
            ensures
                forall|i: int| !self@.is_next(i),
            decreases self@.recv_buf.len(),
        {
            let ghost s1 = self@;
            let ghost d1 = views(delivered@);
            match self.find_next() {
                None => {
                    break;
                },
                Some(idx) => {
                    proof {
                        lemma_next_is_unique(s1, max as nat, idx as int);
                        lemma_accept_buffered_wf(s1, max as nat, now);
                    }
                    let frag = self.recv_buf.remove(idx);
                    assert(frag@ == s1.recv_buf[idx as int]);
                    assert(self@.recv_buf =~= s1.recv_buf.remove(idx as int));
                    self.accept_and_deliver(
                        frag.first,
                        frag.last,
                        frag.payload.as_slice(),
                        max,
                        now,
                        delivered,
                    );
                    proof {
                        assert(self@ == s1.accept_buffered(max as nat, now));
                        let f = s1.recv_buf[idx as int].frag;
                        let rest = self@.drained_frags(max as nat, now);
                        lemma_accept_first(s1.reassembly, f, rest, max as nat);
                        let one = s1.reassembly.completed_by(f, max as nat);
                        let more = self@.reassembly.delivered_by(rest, max as nat);
                        assert(d1 + (one + more) =~= (d1 + one) + more);
                    }
                },
            }
        }
        assert(views(delivered@) + Seq::<Seq<u8>>::empty() =~= views(delivered@));
    }

    /// Takes in a fragment. Tells whether the sending side has something to
    /// do; completed datagrams go to the end of `delivered`.
    pub fn apply_data(
        &mut self,
        seq: u8,
        first: bool,
        last: bool,
        payload: &[u8],
        max: usize,
        now: u64,
        delivered: &mut Vec<Vec<u8>>,
    ) -> (wake: bool)
        requires
            old(self)@.recv_wf(max as nat),
            seq < SEQ_MODULUS,
            now <= CLOCK_LIMIT,
        ensures
            wake == old(self)@.data_wakes(seq),
            final(self)@ == old(self)@.on_data(
                seq,
                Frag { payload: payload@, first, last },
                max as nat,
                now,
            ),
            views(final(delivered)@) == views(old(delivered)@)
                + old(self)@.reassembly.delivered_by(
                old(self)@.accepted_frags(
                    seq,
                    Frag { payload: payload@, first, last },
                    max as nat,
                    now,
                ),
                max as nat,
            ),
            final(self)@.recv_wf(max as nat),
    {
        let ghost s0 = self@;
        let ghost d0 = views(delivered@);
        let ghost frag = Frag { payload: payload@, first, last };
        let ghost m = max as nat;
        proof {
            lemma_on_data_wf(s0, seq, frag, m, now);
        }
        if seq == self.recv_next {
            proof {
                assert forall|i: int| !s0.is_next(i) by {
                    if 0 <= i < s0.recv_buf.len() {
                        assert(1 <= dist(s0.recv_next as int, s0.recv_buf[i].seq as int));
                    }
                }
                lemma_accept_wf(s0, frag, m, now);
            }
            self.accept_and_deliver(first, last, payload, max, now, delivered);
            let ghost s1 = self@;
            self.drain_recv_buf(max, now, delivered);
            proof {
                let rest = s1.drained_frags(m, now);
                lemma_accept_first(s0.reassembly, frag, rest, m);
                let one = s0.reassembly.completed_by(frag, m);
                let more = s1.reassembly.delivered_by(rest, m);
                assert(d0 + (one + more) =~= (d0 + one) + more);
            }
            return true;
        }
        assert(d0 + Seq::<Seq<u8>>::empty() =~= d0);
        let ack_seq: u8 = (self.recv_next + SEQ_MODULUS - 1) % SEQ_MODULUS;
        if !self.in_recv_window(seq) {
            self.schedule_ack(ack_seq, now);
            return true;
        }
        if self.is_buffered(seq) {
            return false;
        }
        let mut copy: Vec<u8> = Vec::new();
        copy.extend_from_slice(payload);
        assert(copy@ =~= payload@);
        self.recv_buf.push(BufferedFragment { seq, first, last, payload: copy });
        assert(self@.recv_buf =~= s0.recv_buf.push(Buffered { seq, frag }));
        self.schedule_ack(ack_seq, now);
        true
    }

    /// Splits `datagram` and puts its fragments to the end of the queue.
    fn fragment_into(&mut self, datagram: Vec<u8>, max_payload: usize)
        requires
            splittable(datagram@, max_payload as int),
        ensures
            final(self)@ == (Channel {
                frag_queue: old(self)@.frag_queue + split(datagram@, max_payload as nat),
                unacked: old(self)@.unacked.push(
                    Unacked {
                        remaining: fragment_count(datagram@.len(), max_payload as nat),
                        datagram: datagram@,
                    },
                ),
                ..old(self)@
            }),
    {
        let ghost s0 = self@;
        let ghost frags = split(datagram@, max_payload as nat);
        let len: usize = datagram.len();
        let count: usize = if len <= max_payload {
            1
        } else {
            proof {
                lemma_count_of_full(len as int, max_payload as int);
            }
            (len - 1) / max_payload + 1
        };
        assert(count == frags.len());
        let mut i: usize = 0;
        let mut start: usize = 0;
        assert(0 * max_payload == 0);
        assert(s0.frag_queue + frags.take(0) =~= s0.frag_queue);
        while i < count
            invariant
                0 <= i <= count,
                count == frags.len(),
                frags == split(datagram@, max_payload as nat),
                len == datagram@.len(),
                splittable(datagram@, max_payload as int),
                i < count ==> start == i * max_payload,
                self@ == (Channel {
                    frag_queue: s0.frag_queue + frags.take(i as int),
                    ..s0
                }),
            decreases count - i,
        {
            let ghost s1 = self@;
            proof {
                lemma_fragment_bounds(len as nat, max_payload as nat, i as int);
            }
            let last = i == count - 1;
            let end: usize = if last {
                len
            } else {
                start + max_payload
            };
            let mut payload: Vec<u8> = Vec::new();
            payload.extend_from_slice(slice_subrange(datagram.as_slice(), start, end));
            assert(payload@ =~= datagram@.subrange(start as int, end as int));
            let entry = FragmentEntry { payload, first: i == 0, last };
            assert(entry@ == frags[i as int]);
            self.frag_queue.push_back(entry);
            assert(self@.frag_queue =~= s1.frag_queue.push(frags[i as int]));
            assert(s0.frag_queue + frags.take(i + 1) =~= (s0.frag_queue + frags.take(
                i as int,
            )).push(frags[i as int]));
            start = end;
            i += 1;
        }
        assert(frags.take(count as int) =~= frags);
        let ghost s2 = self@;
        let copy = UnackedDatagram { remaining: count, datagram };
        self.unacked_datagrams.push_back(copy);
        assert(self@.unacked =~= s2.unacked.push(copy@));
    }

    /// Splits the next datagram if no fragment waits. Tells whether it did.
    fn load(&mut self, chunk_size: usize) -> (loaded: bool)
        requires
            old(self)@.splits_next() ==> splittable(
                old(self)@.send_queue[0],
                payload_room(chunk_size),
            ),
        ensures
            loaded == old(self)@.splits_next(),
            final(self)@ == old(self)@.loaded(payload_room(chunk_size) as nat),
    {
        if self.frag_queue.len() > 0 {
            return false;
        }
        let ghost s0 = self@;
        match self.send_queue.pop_front() {
            None => {
                assert(self@.send_queue =~= s0.send_queue);
                false
            },
            Some(datagram) => {
                assert(datagram@ == s0.send_queue[0]);
                assert(self@.send_queue =~= s0.send_queue.skip(1));
                self.fragment_into(datagram, chunk_size - HEADER_SIZE - 1);
                assert(self@.frag_queue =~= split(
                    datagram@,
                    payload_room(chunk_size) as nat,
                ));
                true
            },
        }
    }

    /// Sends the next fragment, with the pending acknowledgement, if any, on it.
    fn send_fragment(&mut self, now: u64) -> (msg: Vec<u8>)
        requires
            old(self)@.frag_queue.len() > 0,
            old(self)@.send_next < 16,
        ensures
            msg@ == old(self)@.next_message(),
            final(self)@ == old(self)@.sent_next(now),
    {
        let ghost s0 = self@;
        let seq: u8 = self.send_next;
        let frag = self.frag_queue.pop_front().unwrap();
        assert(frag@ == s0.frag_queue[0]);
        assert(self@.frag_queue =~= s0.frag_queue.skip(1));
        let header: [u8; 2] = make_header(seq, frag.first, frag.last);
        let mut msg: Vec<u8> = Vec::new();
        msg.push(header[0]);
        msg.push(header[1]);
        if let Some(ack_seq) = self.take_ack() {
            set_ack(msg.as_mut_slice(), ack_seq);
        }
        msg.extend_from_slice(frag.payload.as_slice());
        msg.push(FRAGMENT_CANARY);
        assert(msg@ =~= s0.next_message());
        if self.in_flight.len() == 0 {
            self.last_progress_at = now;
        }
        let wire_msg = msg.clone();
        assert(wire_msg@ =~= msg@);
        let sent = InFlightFragment {
            seq,
            wire_msg,
            first_sent_at: now,
            last_sent_at: now,
            retransmits: 0,
        };
        self.in_flight.push_back(sent);
        assert(self@.in_flight =~= s0.in_flight.push(sent@));
        self.send_next = (self.send_next + 1) % SEQ_MODULUS;
        msg
    }

    /// What to do next on the sending side. Tells as well whether there is new
    /// room for datagrams.
    pub fn next_send_action(&mut self, chunk_size: usize, now: u64) -> (next: (SendAction, bool))
        requires
            old(self)@.send_wf(),
            !old(self)@.link_dead && old(self)@.splits_next() ==> splittable(
                old(self)@.send_queue[0],
                payload_room(chunk_size),
            ),
        ensures
            next.0@ == old(self)@.send_outcome(payload_room(chunk_size) as nat, now),
            next.1 == (!old(self)@.link_dead && old(self)@.splits_next()),
            final(self)@ == old(self)@.after_send(payload_room(chunk_size) as nat, now),
    {
        if self.link_dead {
            return (SendAction::Dead, false);
        }
        let loaded = self.load(chunk_size);
        if self.can_send() && self.frag_queue.len() > 0 {
            let msg = self.send_fragment(now);
            return (SendAction::Send(msg), loaded);
        }
        let due = match self.ack_deadline {
            Some(deadline) => now >= deadline,
            None => true,
        };
        if self.ack_pending.is_some() && due {
            if let Some(ack_seq) = self.take_ack() {
                let mut msg: Vec<u8> = Vec::new();
                msg.push(0);
                msg.push(0);
                set_ack(msg.as_mut_slice(), ack_seq);
                assert(msg@ =~= ack_message(ack_seq));
                return (SendAction::Send(msg), loaded);
            }
        }
        (SendAction::Wait, loaded)
    }

    /// Queues a datagram, unless there is no room.
    pub fn push_datagram(&mut self, data: Vec<u8>) -> (queued: bool)
        ensures
            queued == old(self)@.has_room(),
            queued <==> old(self)@.send_queue.len() + old(self)@.frag_queue.len()
                < SEND_QUEUE_CAPACITY,
            queued ==> final(self)@.send_queue.len() == old(self)@.send_queue.len() + 1
                && final(self)@.send_queue.last() == data@,
            final(self)@ == if old(self)@.has_room() {
                Channel { send_queue: old(self)@.send_queue.push(data@), ..old(self)@ }
            } else {
                old(self)@
            },
    {
        let ghost s0 = self@;
        let datagrams: usize = self.send_queue.len();
        if datagrams >= SEND_QUEUE_CAPACITY || self.frag_queue.len() >= SEND_QUEUE_CAPACITY
            - datagrams {
            return false;
        }
        self.send_queue.push_back(data);
        assert(self@.send_queue =~= s0.send_queue.push(data@));
        true
    }

    /// Takes every datagram that is not fully acknowledged, whole and in
    /// sending order, and empties the sending side.
    pub fn take_undelivered(&mut self) -> (datagrams: Vec<Vec<u8>>)
        ensures
            views(datagrams@) == old(self)@.undelivered(),
            final(self)@ == old(self)@.abandoned(),
    {
        let ghost s0 = self@;
        let mut datagrams: Vec<Vec<u8>> = Vec::new();
        loop
            invariant
                views(datagrams@) + self@.undelivered() == s0.undelivered(),
                self@ == (Channel { unacked: self@.unacked, ..s0 }),
            ensures
                self@.unacked.len() == 0,
            decreases self@.unacked.len(),
        {
            let ghost s1 = self@;
            let ghost d1 = views(datagrams@);
            match self.unacked_datagrams.pop_front() {
                None => {
                    break;
                },
                Some(copy) => {
                    assert(copy@ == s1.unacked[0]);
                    assert(self@.unacked =~= s1.unacked.skip(1));
                    datagrams.push(copy.datagram);
                    assert(views(datagrams@) =~= d1.push(s1.unacked[0].datagram));
                    assert(views(datagrams@) + self@.undelivered() =~= d1 + s1.undelivered());
                },
            }
        }
        assert(self@.undelivered() =~= s0.send_queue);
        loop
            invariant
                views(datagrams@) + self@.send_queue == s0.undelivered(),
                self@ == (Channel { unacked: Seq::empty(), send_queue: self@.send_queue, ..s0 }),
            ensures
                self@.send_queue.len() == 0,
            decreases self@.send_queue.len(),
        {
            let ghost s1 = self@;
            let ghost d1 = views(datagrams@);
            match self.send_queue.pop_front() {
                None => {
                    break;
                },
                Some(datagram) => {
                    assert(self@.send_queue =~= s1.send_queue.skip(1));
                    datagrams.push(datagram);
                    assert(views(datagrams@) =~= d1.push(s1.send_queue[0]));
                    assert(views(datagrams@) + self@.send_queue =~= d1 + s1.send_queue);
                },
            }
        }
        self.frag_queue.clear();
        assert(views(datagrams@) =~= s0.undelivered());
        assert(self@ =~= s0.abandoned());
        datagrams
    }

    /// Sends the oldest fragment in flight again, if there is one.
    pub fn resend_head(&mut self, now: u64) -> (msg: Option<Vec<u8>>)
        requires
            old(self)@.send_wf(),
        ensures
            msg is Some <==> old(self)@.in_flight.len() > 0,
            msg is Some ==> msg->Some_0@ == old(self)@.resend_message(),
            final(self)@ == old(self)@.resent(now),
    {
        let ghost s0 = self@;
        match self.in_flight.pop_front() {
            None => {
                assert(self@.in_flight =~= s0.in_flight);
                None
            },
            Some(mut head) => {
                assert(head@ == s0.in_flight[0]);
                assert(self@.in_flight =~= s0.in_flight.skip(1));
                head.retransmits = head.retransmits.saturating_add(1);
                head.last_sent_at = now;
                let mut msg = head.wire_msg.clone();
                assert(msg@ =~= head.wire_msg@);
                self.rtt.record_retransmit(head.retransmits);
                assert(head@ =~= s0.head_resent(now));
                self.in_flight.push_front(head);
                assert(self@.in_flight =~= s0.in_flight.update(0, s0.head_resent(now)));
                if let Some(ack_seq) = self.take_ack() {
                    set_ack(msg.as_mut_slice(), ack_seq);
                }
                Some(msg)
            },
        }
    }
}

/// What is said of a state is said of what it holds: every field is seen as it
/// is, and the items of every queue one by one, in their order.
pub proof fn law_states_are_seen_as_they_are(st: ChannelState, i: int)
    ensures
        st@.send_queue.len() == st.send_queue@.len(),
        0 <= i < st.send_queue@.len() ==> st@.send_queue[i] == st.send_queue@[i]@,
        st@.frag_queue.len() == st.frag_queue@.len(),
        0 <= i < st.frag_queue@.len() ==> {
            let e = st.frag_queue@[i];
            &&& st@.frag_queue[i].payload == e.payload@
            &&& st@.frag_queue[i].first == e.first
            &&& st@.frag_queue[i].last == e.last
        },
        st@.unacked.len() == st.unacked_datagrams@.len(),
        0 <= i < st.unacked_datagrams@.len() ==> {
            let u = st.unacked_datagrams@[i];
            &&& st@.unacked[i].remaining == u.remaining
            &&& st@.unacked[i].datagram == u.datagram@
        },
        st@.in_flight.len() == st.in_flight@.len(),
        0 <= i < st.in_flight@.len() ==> {
            let f = st.in_flight@[i];
            &&& st@.in_flight[i].seq == f.seq
            &&& st@.in_flight[i].wire == f.wire_msg@
            &&& st@.in_flight[i].first_sent_at == f.first_sent_at
            &&& st@.in_flight[i].last_sent_at == f.last_sent_at
            &&& st@.in_flight[i].retransmits == f.retransmits
        },
        st@.recv_buf.len() == st.recv_buf@.len(),
        0 <= i < st.recv_buf@.len() ==> {
            let b = st.recv_buf@[i];
            &&& st@.recv_buf[i].seq == b.seq
            &&& st@.recv_buf[i].frag.payload == b.payload@
            &&& st@.recv_buf[i].frag.first == b.first
            &&& st@.recv_buf[i].frag.last == b.last
        },
        st@.send_next == st.send_next,
        st@.send_base == st.send_base,
        st@.recv_next == st.recv_next,
        st@.reassembly.buf == st.reassembly@,
        st@.reassembly.overflow == st.reassembly_overflow,
        st@.ack_pending == st.ack_pending,
        st@.ack_deadline == st.ack_deadline,
        st@.rtt.samples == st.rtt.samples@,
        st@.rtt.acked == st.rtt.acked,
        st@.rtt.acked_after_retransmit == st.rtt.acked_after_retransmit,
        st@.rtt.retransmits == st.rtt.retransmits,
        st@.rtt.max_retransmits == st.rtt.max_retransmits,
        st@.rtt.window_started_at == st.rtt.window_started_at,
        st@.rto == st.rto,
        st@.last_progress_at == st.last_progress_at,
        st@.link_dead == st.link_dead,
{
}

/// What is to be done is seen as it is, too.
pub proof fn law_actions_are_seen_as_they_are(action: SendAction)
    ensures
        match action {
            SendAction::Send(msg) => action@ == Outcome::Send(msg@),
            SendAction::Wait => action@ is Wait,
            SendAction::Dead => action@ is Dead,
        },
{
}

} // verus!
