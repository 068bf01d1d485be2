//! What every event on a channel preserves.

use crate::reliable::model::{
    rtt_after, settle, settle_one, total_remaining, Channel, InFlight, Unacked,
};
use crate::reliable::reassembly::{
    fragment_count, lemma_accept_in_parts, lemma_fragment_count_positive, split, splittable,
    Reassembly,
};
use crate::reliable::rto::CLOCK_LIMIT;
use crate::reliable::stats::RttStatsView;
use crate::reliable::wire::{
    dist, frame_of, law_data_message_round_trip, Frag, WINDOW_SIZE,
};
use vstd::prelude::*;

verus! {

/// Every entry still has a fragment to be acknowledged.
pub open spec fn all_remaining(unacked: Seq<Unacked>) -> bool {
    forall|i: int| 0 <= i < unacked.len() ==> (#[trigger] unacked[i]).remaining >= 1
}

/// Fragments still to be acknowledged of all datagrams but the last.
pub open spec fn total_but_last(unacked: Seq<Unacked>) -> nat {
    if unacked.len() == 0 {
        0
    } else {
        total_remaining(unacked.drop_last())
    }
}

/// The total, counted from the front.
pub proof fn lemma_total_from_front(u: Seq<Unacked>)
    requires
        u.len() > 0,
    ensures
        total_remaining(u) == u[0].remaining + total_remaining(u.skip(1)),
    decreases u.len(),
{
    if u.len() == 1 {
        reveal_with_fuel(total_remaining, 2);
        assert(u.drop_last() =~= Seq::<Unacked>::empty());
        assert(u.skip(1) =~= Seq::<Unacked>::empty());
    } else {
        lemma_total_from_front(u.drop_last());
        assert(u.drop_last().skip(1) =~= u.skip(1).drop_last());
        assert(u.skip(1).last() == u.last());
    }
}

pub proof fn lemma_total_at_least_len(u: Seq<Unacked>)
    requires
        all_remaining(u),
    ensures
        total_remaining(u) >= u.len(),
    decreases u.len(),
{
    if u.len() > 0 {
        assert(u.last().remaining >= 1);
        assert forall|i: int| 0 <= i < u.drop_last().len() implies (
        #[trigger] u.drop_last()[i]).remaining >= 1 by {
            assert(u.drop_last()[i] == u[i]);
        }
        lemma_total_at_least_len(u.drop_last());
    }
}

/// Acknowledging one fragment takes one off the total.
pub proof fn lemma_settle_one(u: Seq<Unacked>)
    requires
        all_remaining(u),
    ensures
        all_remaining(settle_one(u)),
        u.len() > 0 ==> total_remaining(settle_one(u)) == total_remaining(u) - 1,
        u.len() == 0 ==> total_remaining(settle_one(u)) == 0,
        total_but_last(settle_one(u)) == 0 || total_but_last(settle_one(u)) == total_but_last(u)
            - 1,
{
    if u.len() > 0 {
        let v = settle_one(u);
        lemma_total_from_front(u);
        assert(u[0].remaining >= 1);
        if u[0].remaining > 1 {
            lemma_total_from_front(v);
            assert(v.skip(1) =~= u.skip(1));
        }
        assert forall|i: int| 0 <= i < v.len() implies (#[trigger] v[i]).remaining >= 1 by {
            if u[0].remaining <= 1 {
                assert(v[i] == u[i + 1]);
            } else {
                assert(i > 0 ==> v[i] == u[i]);
            }
        }
        if u.len() == 1 {
            assert(v.len() == 0 || v.drop_last() =~= Seq::<Unacked>::empty());
        } else {
            let w = u.drop_last();
            lemma_total_from_front(w);
            assert(w.skip(1) =~= u.skip(1).drop_last());
            if u[0].remaining > 1 {
                lemma_total_from_front(v.drop_last());
                assert(v.drop_last().skip(1) =~= w.skip(1));
            }
        }
    }
}

pub proof fn lemma_settle(u: Seq<Unacked>, n: nat)
    requires
        all_remaining(u),
    ensures
        all_remaining(settle(u, n)),
        total_remaining(settle(u, n)) == 0 || total_remaining(settle(u, n)) == total_remaining(u)
            - n,
        total_but_last(settle(u, n)) == 0 || total_but_last(settle(u, n)) == total_but_last(u)
            - n,
    decreases n,
{
    if n > 0 {
        lemma_settle(u, (n - 1) as nat);
        let v = settle(u, (n - 1) as nat);
        lemma_settle_one(v);
        if v.len() > 0 {
            lemma_total_at_least_len(v);
        }
    }
}

pub proof fn lemma_rtt_after_wf(rtt: RttStatsView, acked: Seq<InFlight>, now: u64)
    requires
        rtt.wf(),
    ensures
        rtt_after(rtt, acked, now).wf(),
    decreases acked.len(),
{
    if acked.len() > 0 {
        lemma_rtt_after_wf(rtt, acked.drop_last(), now);
    }
}

/// Moving the start of a window forward by `n` leaves its end in place.
pub proof fn lemma_window_moves(base: int, next: int, ack: int)
    requires
        0 <= base < 16,
        0 <= next < 16,
        0 <= ack < 16,
        0 < dist(base, ack + 1) <= dist(base, next),
    ensures
        dist((ack + 1) % 16, next) == dist(base, next) - dist(base, ack + 1),
        (base + dist(base, ack + 1)) % 16 == (ack + 1) % 16,
{
}

/// Steps to a number are steps to its remainder.
pub proof fn lemma_dist_mod(a: int, b: int)
    ensures
        dist(a, b % 16) == dist(a, b),
{
}

/// Adding to numbers that are equal modulo 16 leaves them so.
pub proof fn lemma_add_mod(a: int, b: int, i: int)
    requires
        a % 16 == b % 16,
    ensures
        (a + i) % 16 == (b + i) % 16,
{
}

/// Acknowledgements preserve the invariant of the sending side.
pub proof fn lemma_on_ack_wf(s: Channel, ack_seq: u8, now: u64)
    requires
        s.send_wf(),
        ack_seq < 16,
        now <= CLOCK_LIMIT,
    ensures
        s.on_ack(ack_seq, now).send_wf(),
{
    if s.ack_counts(ack_seq) {
        let t = s.on_ack(ack_seq, now);
        let n = s.acked_count(ack_seq);
        lemma_settle(s.unacked, n as nat);
        lemma_rtt_after_wf(s.rtt, s.in_flight.take(n), now);
        lemma_window_moves(s.send_base as int, s.send_next as int, ack_seq as int);
        assert forall|i: int| 0 <= i < t.in_flight.len() implies {
            &&& (#[trigger] t.in_flight[i]).seq == (t.send_base + i) % 16
            &&& t.in_flight[i].last_sent_at <= CLOCK_LIMIT
            &&& frame_of(t.in_flight[i].wire) is Some
            &&& frame_of(t.in_flight[i].wire)->Some_0.seq == t.in_flight[i].seq
        } by {
            assert(t.in_flight[i] == s.in_flight[i + n]);
            lemma_add_mod(s.send_base + n, t.send_base as int, i);
        }
    }
}

/// `t` differs from `s` in the receiving side alone.
pub open spec fn same_send_side(s: Channel, t: Channel) -> bool {
    t == (Channel {
        recv_next: t.recv_next,
        reassembly: t.reassembly,
        recv_buf: t.recv_buf,
        ack_pending: t.ack_pending,
        ack_deadline: t.ack_deadline,
        ..s
    })
}

proof fn lemma_dist_steps_back(next: int, seq: int)
    requires
        0 <= next < 16,
        0 <= seq < 16,
        next != seq,
    ensures
        1 <= dist(next, seq),
        dist((next + 1) % 16, seq) == dist(next, seq) - 1,
{
}

/// Accepting a fragment keeps the rest of the buffer in the window.
pub proof fn lemma_accept_wf(s: Channel, frag: Frag, max: nat, now: u64)
    requires
        s.recv_wf_draining(max),
        forall|i: int| !s.is_next(i),
    ensures
        s.accept(frag, max, now).recv_wf_draining(max),
        same_send_side(s, s.accept(frag, max, now)),
        s.accept(frag, max, now).reassembly == s.reassembly.accept(frag, max),
        s.accept(frag, max, now).recv_buf == s.recv_buf,
{
    let t = s.accept(frag, max, now);
    assert forall|i: int| 0 <= i < t.recv_buf.len() implies {
        &&& (#[trigger] t.recv_buf[i]).seq < 16
        &&& dist(t.recv_next as int, t.recv_buf[i].seq as int) < WINDOW_SIZE
    } by {
        assert(s.recv_buf[i].seq < 16);
        assert(!s.is_next(i));
        lemma_dist_steps_back(s.recv_next as int, s.recv_buf[i].seq as int);
    }
}

/// At most one entry of the buffer is needed next.
pub proof fn lemma_next_is_unique(s: Channel, max: nat, i: int)
    requires
        s.recv_wf_draining(max),
        s.is_next(i),
    ensures
        s.next_index() == i,
{
    let j = s.next_index();
    assert(s.is_next(j));
    if i < j {
        assert(s.recv_buf[i].seq != s.recv_buf[j].seq);
    } else if j < i {
        assert(s.recv_buf[j].seq != s.recv_buf[i].seq);
    }
}

pub proof fn lemma_accept_buffered_wf(s: Channel, max: nat, now: u64)
    requires
        s.recv_wf_draining(max),
        exists|i: int| s.is_next(i),
    ensures
        s.accept_buffered(max, now).recv_wf_draining(max),
        s.accept_buffered(max, now).recv_buf.len() == s.recv_buf.len() - 1,
        same_send_side(s, s.accept_buffered(max, now)),
        s.accept_buffered(max, now).reassembly == s.reassembly.accept(
            s.recv_buf[s.next_index()].frag,
            max,
        ),
{
    let k = s.next_index();
    assert(s.is_next(k));
    let r = Channel { recv_buf: s.recv_buf.remove(k), ..s };
    assert forall|i: int| 0 <= i < r.recv_buf.len() implies {
        &&& (#[trigger] r.recv_buf[i]).seq < 16
        &&& dist(r.recv_next as int, r.recv_buf[i].seq as int) < WINDOW_SIZE
        &&& r.recv_buf[i].seq != r.recv_next
    } by {
        if i < k {
            assert(r.recv_buf[i] == s.recv_buf[i]);
            assert(s.recv_buf[i].seq != s.recv_buf[k].seq);
        } else {
            assert(r.recv_buf[i] == s.recv_buf[i + 1]);
            assert(s.recv_buf[k].seq != s.recv_buf[i + 1].seq);
        }
    }
    assert forall|i: int, j: int| 0 <= i < j < r.recv_buf.len() implies (
    #[trigger] r.recv_buf[i]).seq != (#[trigger] r.recv_buf[j]).seq by {
        let i1 = if i < k { i } else { i + 1 };
        let j1 = if j < k { j } else { j + 1 };
        assert(r.recv_buf[i] == s.recv_buf[i1] && r.recv_buf[j] == s.recv_buf[j1]);
        assert(s.recv_buf[i1].seq != s.recv_buf[j1].seq);
    }
    assert forall|i: int| !r.is_next(i) by {
        if 0 <= i < r.recv_buf.len() {
            assert(r.recv_buf[i].seq != r.recv_next);
        }
    }
    lemma_accept_wf(r, s.recv_buf[k].frag, max, now);
}

/// Emptying the buffer as far as possible restores the invariant of the
/// receiving side; what it accepts goes through the reassembly in order.
pub proof fn lemma_drained_wf(s: Channel, max: nat, now: u64)
    requires
        s.recv_wf_draining(max),
    ensures
        s.drained(max, now).recv_wf(max),
        same_send_side(s, s.drained(max, now)),
        s.drained(max, now).reassembly == s.reassembly.accept_all(
            s.drained_frags(max, now),
            max,
        ),
    decreases s.recv_buf.len(),
{
    if exists|i: int| s.is_next(i) {
        let t = s.accept_buffered(max, now);
        let frag = s.recv_buf[s.next_index()].frag;
        lemma_accept_buffered_wf(s, max, now);
        lemma_drained_wf(t, max, now);
        lemma_accept_first(s.reassembly, frag, t.drained_frags(max, now), max);
    } else {
        assert forall|i: int| 0 <= i < s.recv_buf.len() implies {
            &&& (#[trigger] s.recv_buf[i]).seq < 16
            &&& 1 <= dist(s.recv_next as int, s.recv_buf[i].seq as int) < WINDOW_SIZE
        } by {
            assert(!s.is_next(i));
            lemma_dist_steps_back(s.recv_next as int, s.recv_buf[i].seq as int);
        }
    }
}

/// Accepting one fragment and then `rest`.
pub proof fn lemma_accept_first(start: Reassembly, frag: Frag, rest: Seq<Frag>, max: nat)
    ensures
        start.accept_all(seq![frag] + rest, max) == start.accept(frag, max).accept_all(rest, max),
        start.delivered_by(seq![frag] + rest, max) == start.completed_by(frag, max)
            + start.accept(frag, max).delivered_by(rest, max),
{
    lemma_accept_in_parts(start, seq![frag], rest, max);
    reveal_with_fuel(Reassembly::accept_all, 2);
    reveal_with_fuel(Reassembly::delivered_by, 2);
    let one = seq![frag];
    assert(one.drop_last() =~= Seq::<Frag>::empty());
    assert(Seq::<Seq<u8>>::empty() + start.completed_by(frag, max) =~= start.completed_by(
        frag,
        max,
    ));
}

/// An arriving fragment preserves the invariant of the receiving side, and
/// touches nothing else.
pub proof fn lemma_on_data_wf(s: Channel, seq: u8, frag: Frag, max: nat, now: u64)
    requires
        s.recv_wf(max),
        seq < 16,
    ensures
        s.on_data(seq, frag, max, now).recv_wf(max),
        same_send_side(s, s.on_data(seq, frag, max, now)),
        s.on_data(seq, frag, max, now).reassembly == s.reassembly.accept_all(
            s.accepted_frags(seq, frag, max, now),
            max,
        ),
{
    if seq == s.recv_next {
        assert forall|i: int| !s.is_next(i) by {
            if 0 <= i < s.recv_buf.len() {
                assert(1 <= dist(s.recv_next as int, s.recv_buf[i].seq as int));
            }
        }
        lemma_accept_wf(s, frag, max, now);
        let t = s.accept(frag, max, now);
        lemma_drained_wf(t, max, now);
        lemma_accept_first(s.reassembly, frag, t.drained_frags(max, now), max);
    } else if s.in_recv_window(seq) && !s.is_buffered(seq) {
        let t = s.on_data(seq, frag, max, now);
        lemma_dist_steps_back(s.recv_next as int, seq as int);
        assert forall|i: int, j: int| 0 <= i < j < t.recv_buf.len() implies (
        #[trigger] t.recv_buf[i]).seq != (#[trigger] t.recv_buf[j]).seq by {
            assert(t.recv_buf[i] == s.recv_buf[i]);
            if j < s.recv_buf.len() {
                assert(t.recv_buf[j] == s.recv_buf[j]);
            }
        }
    }
}

/// Messages preserve the invariant.
pub proof fn lemma_on_message_wf(s: Channel, value: Seq<u8>, max: nat, now: u64)
    requires
        s.wf(max),
        now <= CLOCK_LIMIT,
    ensures
        s.on_message(value, max, now).wf(max),
{
    if let Some(frame) = frame_of(value) {
        if let Some(a) = frame.ack {
            lemma_on_ack_wf(s, a, now);
        }
        let t = s.after_frame_ack(frame, now);
        if frame.has_data() {
            lemma_on_data_wf(t, frame.seq, frame.frag, max, now);
        }
    }
}

/// A channel on which nothing has happened meets the invariant.
pub proof fn lemma_initial_wf(now: u64, max: nat)
    requires
        now <= CLOCK_LIMIT,
    ensures
        Channel::initial(now).wf(max),
{
}

proof fn lemma_total_push(u: Seq<Unacked>, x: Unacked)
    ensures
        total_remaining(u.push(x)) == total_remaining(u) + x.remaining,
        total_but_last(u.push(x)) == total_remaining(u),
{
    assert(u.push(x).drop_last() =~= u);
}

/// Splitting the next datagram preserves the invariant.
pub proof fn lemma_loaded_wf(s: Channel, max_payload: nat)
    requires
        s.send_wf(),
        s.splits_next() ==> splittable(s.send_queue[0], max_payload as int),
    ensures
        s.loaded(max_payload).send_wf(),
        s.send_queue.len() > 0 || s.frag_queue.len() > 0 ==> s.loaded(max_payload).frag_queue.len()
            > 0,
{
    if s.splits_next() {
        let d = s.send_queue[0];
        let n = fragment_count(d.len(), max_payload);
        lemma_fragment_count_positive(d.len(), max_payload);
        lemma_total_push(s.unacked, Unacked { remaining: n, datagram: d });
        assert(split(d, max_payload).len() == n);
    }
}

proof fn lemma_window_grows(base: int, next: int)
    requires
        0 <= base < 16,
        0 <= next < 16,
        dist(base, next) < WINDOW_SIZE,
    ensures
        dist(base, (next + 1) % 16) == dist(base, next) + 1,
        (base + dist(base, next)) % 16 == next,
{
}

/// Sending the next fragment preserves the invariant.
pub proof fn lemma_sent_next_wf(s: Channel, now: u64)
    requires
        s.send_wf(),
        s.can_send(),
        s.frag_queue.len() > 0,
        s.ack_pending is Some ==> s.ack_pending->Some_0 < 16,
        now <= CLOCK_LIMIT,
    ensures
        s.sent_next(now).send_wf(),
{
    let t = s.sent_next(now);
    let n = s.in_flight.len() as int;
    lemma_window_grows(s.send_base as int, s.send_next as int);
    law_data_message_round_trip(s.send_next, s.frag_queue[0], s.ack_pending);
    assert forall|i: int| 0 <= i < t.in_flight.len() implies {
        &&& (#[trigger] t.in_flight[i]).seq == (t.send_base + i) % 16
        &&& t.in_flight[i].last_sent_at <= CLOCK_LIMIT
        &&& frame_of(t.in_flight[i].wire) is Some
        &&& frame_of(t.in_flight[i].wire)->Some_0.seq == t.in_flight[i].seq
    } by {
        if i < n {
            assert(t.in_flight[i] == s.in_flight[i]);
        }
    }
}

/// Sending preserves the invariant.
pub proof fn lemma_after_send_wf(s: Channel, max_payload: nat, max: nat, now: u64)
    requires
        s.wf(max),
        !s.link_dead && s.splits_next() ==> splittable(s.send_queue[0], max_payload as int),
        now <= CLOCK_LIMIT,
    ensures
        s.after_send(max_payload, now).wf(max),
{
    if !s.link_dead {
        lemma_loaded_wf(s, max_payload);
        let t = s.loaded(max_payload);
        if t.can_send() && t.frag_queue.len() > 0 {
            lemma_sent_next_wf(t, now);
        }
    }
}

/// Sending the oldest fragment again preserves the invariant.
pub proof fn lemma_resent_wf(s: Channel, max: nat, now: u64)
    requires
        s.wf(max),
        now <= CLOCK_LIMIT,
    ensures
        s.resent(now).wf(max),
{
    if s.in_flight.len() > 0 {
        let t = s.resent(now);
        assert forall|i: int| 0 <= i < t.in_flight.len() implies {
            &&& (#[trigger] t.in_flight[i]).seq == (t.send_base + i) % 16
            &&& t.in_flight[i].last_sent_at <= CLOCK_LIMIT
            &&& frame_of(t.in_flight[i].wire) is Some
            &&& frame_of(t.in_flight[i].wire)->Some_0.seq == t.in_flight[i].seq
        } by {
            assert(s.in_flight[i].seq == (s.send_base + i) % 16);
            if i > 0 {
                assert(t.in_flight[i] == s.in_flight[i]);
            }
        }
    }
}

} // verus!
