//! What a received fragment does, said of the numbers alone.
//!
//! A channel needs the fragment with number `recv_next`; the five that follow
//! it, modulo 16, it keeps until their turn comes.

use crate::reliable::delivery::{
    accepted_count, carries, law_receiver_stays_in_step, receiver_in_step,
};
use crate::reliable::model::{Buffered, Channel};
use crate::reliable::rto::CLOCK_LIMIT;
use crate::reliable::upkeep::{lemma_accept_buffered_wf, lemma_accept_wf, lemma_on_data_wf};
use crate::reliable::wire::{frame_of, Frag};
use vstd::prelude::*;

verus! {

/// Whether the fragment with number `seq` waits in `buf`.
pub open spec fn waits(buf: Seq<Buffered>, seq: int) -> bool {
    exists|i: int| 0 <= i < buf.len() && (#[trigger] buf[i]).seq == seq
}

/// Whether it waits there and is `frag`.
pub open spec fn waits_as(buf: Seq<Buffered>, seq: int, frag: Frag) -> bool {
    exists|i: int| 0 <= i < buf.len() && (#[trigger] buf[i]).seq == seq && buf[i].frag == frag
}

/// Nothing differs but the receiving side and the acknowledgement that is due.
pub open spec fn same_but_receiving(s: Channel, t: Channel) -> bool {
    &&& t.send_queue == s.send_queue
    &&& t.frag_queue == s.frag_queue
    &&& t.unacked == s.unacked
    &&& t.send_next == s.send_next
    &&& t.send_base == s.send_base
    &&& t.in_flight == s.in_flight
    &&& t.rtt == s.rtt
    &&& t.rto == s.rto
    &&& t.last_progress_at == s.last_progress_at
    &&& t.link_dead == s.link_dead
}

/// An acknowledgement of all that came before `recv_next` is due: 15 ms from
/// now, or when an earlier one was due.
pub open spec fn acknowledges(s: Channel, t: Channel, now: u64) -> bool {
    &&& t.ack_pending == Some(((t.recv_next + 15) % 16) as u8)
    &&& s.ack_deadline is Some ==> t.ack_deadline == s.ack_deadline
    &&& s.ack_deadline is None ==> t.ack_deadline == Some((now + 15_000_000) as u64)
}

/// A fragment that is not needed yet, but is one of the five that follow the
/// one that is, is kept until its turn comes; what was kept before stays. The
/// gap is acknowledged, and nothing is accepted. A fragment that is kept
/// already changes nothing.
pub proof fn law_early_fragments_wait(s: Channel, seq: u8, frag: Frag, max: nat, now: u64)
    requires
        s.recv_wf(max),
        seq < 16,
        1 <= (seq - s.recv_next) % 16 <= 5,
        now <= CLOCK_LIMIT,
    ensures
        ({
            let t = s.on_data(seq, frag, max, now);
            &&& waits(t.recv_buf, seq as int)
            &&& !waits(s.recv_buf, seq as int) ==> {
                &&& t.recv_buf == s.recv_buf.push(Buffered { seq, frag })
                &&& t.recv_next == s.recv_next
                &&& t.reassembly == s.reassembly
                &&& acknowledges(s, t, now)
                &&& same_but_receiving(s, t)
            }
            &&& waits(s.recv_buf, seq as int) ==> t == s
            &&& s.accepted_frags(seq, frag, max, now).len() == 0
        }),
{
    let t = s.on_data(seq, frag, max, now);
    if !s.is_buffered(seq) {
        assert(t.recv_buf[s.recv_buf.len() as int].seq == seq);
    }
}

/// A fragment with any other number was received before: it is acknowledged
/// again, and nothing else happens.
pub proof fn law_late_fragments_are_acknowledged_again(
    s: Channel,
    seq: u8,
    frag: Frag,
    max: nat,
    now: u64,
)
    requires
        s.recv_wf(max),
        seq < 16,
        (seq - s.recv_next) % 16 >= 6,
        now <= CLOCK_LIMIT,
    ensures
        ({
            let t = s.on_data(seq, frag, max, now);
            &&& t.recv_buf == s.recv_buf
            &&& t.recv_next == s.recv_next
            &&& t.reassembly == s.reassembly
            &&& acknowledges(s, t, now)
            &&& same_but_receiving(s, t)
            &&& s.accepted_frags(seq, frag, max, now).len() == 0
        }),
{
}

proof fn lemma_next_step(next: int, seq: int, c: int)
    requires
        0 <= next < 16,
        0 <= seq < 16,
        0 <= c,
    ensures
        ((next + 1) % 16 + c) % 16 == (next + 1 + c) % 16,
        seq != next ==> (seq - (next + 1) % 16) % 16 == (seq - next) % 16 - 1,
        seq == next <==> (seq - next) % 16 == 0,
{
}

/// How `t` comes out of `s` when the `c` fragments that follow, starting with
/// the needed one, are taken out of the buffer as `acc`.
pub open spec fn takes_followers(s: Channel, t: Channel, acc: Seq<Frag>) -> bool {
    let c = acc.len();
    &&& forall|i: int|
        0 <= i < c ==> waits_as(s.recv_buf, (s.recv_next + i) % 16, #[trigger] acc[i])
    &&& !waits(s.recv_buf, (s.recv_next + c) % 16)
    &&& t.recv_next == (s.recv_next + c) % 16
    &&& forall|i: int|
        0 <= i < s.recv_buf.len() && ((#[trigger] s.recv_buf[i]).seq - s.recv_next) % 16 >= c
            ==> waits_as(t.recv_buf, s.recv_buf[i].seq as int, s.recv_buf[i].frag)
    &&& forall|i: int|
        0 <= i < t.recv_buf.len() ==> waits_as(
            s.recv_buf,
            (#[trigger] t.recv_buf[i]).seq as int,
            t.recv_buf[i].frag,
        ) && (t.recv_buf[i].seq - s.recv_next) % 16 >= c
}

proof fn lemma_waits_after_removal(buf: Seq<Buffered>, k: int, seq: int, frag: Frag)
    requires
        0 <= k < buf.len(),
    ensures
        waits_as(buf.remove(k), seq, frag) ==> waits_as(buf, seq, frag),
        waits(buf.remove(k), seq) ==> waits(buf, seq),
        buf[k].seq != seq && waits_as(buf, seq, frag) ==> waits_as(buf.remove(k), seq, frag),
        buf[k].seq != seq && waits(buf, seq) ==> waits(buf.remove(k), seq),
{
    let rest = buf.remove(k);
    if waits_as(rest, seq, frag) {
        let i = choose|i: int| 0 <= i < rest.len() && rest[i].seq == seq && rest[i].frag == frag;
        let i1 = if i < k { i } else { i + 1 };
        assert(buf[i1] == rest[i]);
    }
    if waits(rest, seq) {
        let i = choose|i: int| 0 <= i < rest.len() && (#[trigger] rest[i]).seq == seq;
        let i1 = if i < k { i } else { i + 1 };
        assert(buf[i1] == rest[i]);
    }
    if buf[k].seq != seq && waits_as(buf, seq, frag) {
        let i = choose|i: int| 0 <= i < buf.len() && buf[i].seq == seq && buf[i].frag == frag;
        let i1 = if i < k { i } else { i - 1 };
        assert(rest[i1] == buf[i]);
    }
    if buf[k].seq != seq && waits(buf, seq) {
        let i = choose|i: int| 0 <= i < buf.len() && (#[trigger] buf[i]).seq == seq;
        let i1 = if i < k { i } else { i - 1 };
        assert(rest[i1] == buf[i]);
    }
}

proof fn lemma_drained_takes_followers(s: Channel, max: nat, now: u64)
    requires
        s.recv_wf_draining(max),
    ensures
        takes_followers(s, s.drained(max, now), s.drained_frags(max, now)),
        s.drained_frags(max, now).len() <= s.recv_buf.len(),
        s.drained(max, now).ack_pending == if s.drained_frags(max, now).len() == 0 {
            s.ack_pending
        } else {
            Some(((s.drained(max, now).recv_next + 15) % 16) as u8)
        },
        s.ack_deadline is Some ==> s.drained(max, now).ack_deadline == s.ack_deadline,
    decreases s.recv_buf.len(),
{
    let next = s.recv_next as int;
    if exists|i: int| s.is_next(i) {
        let k = s.next_index();
        assert(s.is_next(k));
        let u = s.accept_buffered(max, now);
        lemma_accept_buffered_wf(s, max, now);
        lemma_drained_takes_followers(u, max, now);
        let rest = u.drained_frags(max, now);
        let acc = s.drained_frags(max, now);
        let t = s.drained(max, now);
        let c = rest.len() as int;
        assert(u.recv_buf == s.recv_buf.remove(k));
        assert(acc =~= seq![s.recv_buf[k].frag] + rest);
        assert(u.recv_next == (next + 1) % 16);
        assert forall|i: int| 0 <= i < acc.len() implies waits_as(
            s.recv_buf,
            (s.recv_next + i) % 16,
            #[trigger] acc[i],
        ) by {
            if i == 0 {
                assert(s.recv_buf[k].seq == next);
                assert((next + 0) % 16 == next);
            } else {
                assert(acc[i] == rest[i - 1]);
                lemma_next_step(next, 0, i - 1);
                lemma_waits_after_removal(s.recv_buf, k, (next + i) % 16, acc[i]);
            }
        }
        lemma_next_step(next, 0, c);
        let end = (next + 1 + c) % 16;
        if waits(s.recv_buf, end) {
            let i = choose|i: int| 0 <= i < s.recv_buf.len() && (#[trigger] s.recv_buf[i]).seq
                == end;
            lemma_waits_after_removal(s.recv_buf, k, end, s.recv_buf[k].frag);
            if s.recv_buf[k].seq == end {
                lemma_full_circle(next, c);
                assert(c <= u.recv_buf.len());
                lemma_buffer_is_short(s, max);
            }
        }
        assert forall|i: int|
            0 <= i < s.recv_buf.len() && ((#[trigger] s.recv_buf[i]).seq - s.recv_next) % 16 >= c
                + 1 implies waits_as(t.recv_buf, s.recv_buf[i].seq as int, s.recv_buf[i].frag) by {
            let e = s.recv_buf[i];
            lemma_next_step(next, e.seq as int, 0);
            assert(e.seq != next);
            let i1 = if i < k { i } else { i - 1 };
            assert(u.recv_buf[i1] == e);
            assert((u.recv_buf[i1].seq - u.recv_next) % 16 >= c);
        }
        assert forall|i: int| 0 <= i < t.recv_buf.len() implies waits_as(
            s.recv_buf,
            (#[trigger] t.recv_buf[i]).seq as int,
            t.recv_buf[i].frag,
        ) && (t.recv_buf[i].seq - s.recv_next) % 16 >= c + 1 by {
            let e = t.recv_buf[i];
            assert(waits_as(u.recv_buf, e.seq as int, e.frag));
            lemma_waits_after_removal(s.recv_buf, k, e.seq as int, e.frag);
            let j = choose|j: int|
                0 <= j < u.recv_buf.len() && u.recv_buf[j].seq == e.seq as int
                    && u.recv_buf[j].frag == e.frag;
            let j1 = if j < k { j } else { j + 1 };
            assert(u.recv_buf[j] == s.recv_buf[j1]);
            assert(s.recv_buf[j1].seq != s.recv_buf[k].seq) by {
                if j1 < k {
                    assert(s.recv_buf[j1].seq != s.recv_buf[k].seq);
                } else {
                    assert(s.recv_buf[k].seq != s.recv_buf[j1].seq);
                }
            }
            lemma_next_step(next, e.seq as int, 0);
        }
    } else {
        assert forall|i: int| 0 <= i < s.recv_buf.len() implies (#[trigger] s.recv_buf[i]).seq
            != next by {
            assert(!s.is_next(i));
        }
        assert((next + 0) % 16 == next);
        assert forall|i: int| 0 <= i < s.recv_buf.len() implies waits_as(
            s.recv_buf,
            (#[trigger] s.recv_buf[i]).seq as int,
            s.recv_buf[i].frag,
        ) by {}
    }
}

proof fn lemma_full_circle(next: int, c: int)
    requires
        0 <= next < 16,
        0 <= c,
        (next + 1 + c) % 16 == next,
    ensures
        c >= 15,
{
}

/// No more than six fragments wait.
proof fn lemma_buffer_is_short(s: Channel, max: nat)
    requires
        s.recv_wf_draining(max),
    ensures
        s.recv_buf.len() <= 6,
{
    let places = Seq::new(
        s.recv_buf.len(),
        |i: int| (s.recv_buf[i].seq - s.recv_next) % 16,
    );
    assert(places.no_duplicates()) by {
        assert forall|i: int, j: int|
            0 <= i < places.len() && 0 <= j < places.len() && i != j implies places[i]
            != places[j] by {
            let a = s.recv_buf[i].seq;
            let b = s.recv_buf[j].seq;
            if i < j {
                assert(s.recv_buf[i].seq != s.recv_buf[j].seq);
            } else {
                assert(s.recv_buf[j].seq != s.recv_buf[i].seq);
            }
            assert(a < 16 && b < 16);
            lemma_places_differ(s.recv_next as int, a as int, b as int);
        }
    }
    places.unique_seq_to_set();
    let six = vstd::set_lib::set_int_range(0, 6);
    vstd::set_lib::lemma_int_range(0, 6);
    assert(places.to_set().subset_of(six)) by {
        assert forall|x: int| places.to_set().contains(x) implies six.contains(x) by {
            let i = choose|i: int| 0 <= i < places.len() && places[i] == x;
            assert(s.recv_buf[i].seq < 16);
        }
    }
    vstd::set_lib::lemma_len_subset(places.to_set(), six);
}

proof fn lemma_places_differ(next: int, a: int, b: int)
    requires
        0 <= next < 16,
        0 <= a < 16,
        0 <= b < 16,
        a != b,
    ensures
        (a - next) % 16 != (b - next) % 16,
{
}

/// The fragment that is needed is accepted, and with it those that waited right
/// behind it, as many as there are without a gap; the others go on waiting. All
/// that was accepted goes through the reassembly in order, and is acknowledged.
pub proof fn law_needed_fragment_brings_its_followers(s: Channel, frag: Frag, max: nat, now: u64)
    requires
        s.recv_wf(max),
        now <= CLOCK_LIMIT,
    ensures
        ({
            let t = s.on_data(s.recv_next, frag, max, now);
            let acc = s.accepted_frags(s.recv_next, frag, max, now);
            let c = acc.len();
            &&& c >= 1
            &&& acc[0] == frag
            &&& forall|i: int|
                1 <= i < c ==> waits_as(s.recv_buf, (s.recv_next + i) % 16, #[trigger] acc[i])
            &&& !waits(s.recv_buf, (s.recv_next + c) % 16)
            &&& t.recv_next == (s.recv_next + c) % 16
            &&& forall|i: int|
                0 <= i < s.recv_buf.len() && ((#[trigger] s.recv_buf[i]).seq - s.recv_next) % 16
                    >= c ==> waits_as(t.recv_buf, s.recv_buf[i].seq as int, s.recv_buf[i].frag)
            &&& forall|i: int|
                0 <= i < t.recv_buf.len() ==> waits_as(
                    s.recv_buf,
                    (#[trigger] t.recv_buf[i]).seq as int,
                    t.recv_buf[i].frag,
                ) && (t.recv_buf[i].seq - s.recv_next) % 16 >= c
            &&& t.reassembly == s.reassembly.accept_all(acc, max)
            &&& acknowledges(s, t, now)
            &&& same_but_receiving(s, t)
        }),
{
    let next = s.recv_next as int;
    assert forall|i: int| !s.is_next(i) by {
        if 0 <= i < s.recv_buf.len() {
            assert(s.recv_buf[i].seq < 16);
        }
    }
    lemma_accept_wf(s, frag, max, now);
    lemma_on_data_wf(s, s.recv_next, frag, max, now);
    let u = s.accept(frag, max, now);
    lemma_drained_takes_followers(u, max, now);
    let rest = u.drained_frags(max, now);
    let acc = s.accepted_frags(s.recv_next, frag, max, now);
    let t = s.on_data(s.recv_next, frag, max, now);
    let c = rest.len() as int;
    assert(acc =~= seq![frag] + rest);
    assert(u.recv_next == (next + 1) % 16);
    assert forall|i: int| 1 <= i < acc.len() implies waits_as(
        s.recv_buf,
        (s.recv_next + i) % 16,
        #[trigger] acc[i],
    ) by {
        assert(acc[i] == rest[i - 1]);
        lemma_next_step(next, 0, i - 1);
    }
    lemma_next_step(next, 0, c);
    assert forall|i: int|
        0 <= i < s.recv_buf.len() && ((#[trigger] s.recv_buf[i]).seq - s.recv_next) % 16 >= c
            + 1 implies waits_as(t.recv_buf, s.recv_buf[i].seq as int, s.recv_buf[i].frag) by {
        lemma_next_step(next, s.recv_buf[i].seq as int, 0);
        assert((u.recv_buf[i].seq - u.recv_next) % 16 >= c);
    }
    assert forall|i: int| 0 <= i < t.recv_buf.len() implies waits_as(
        s.recv_buf,
        (#[trigger] t.recv_buf[i]).seq as int,
        t.recv_buf[i].frag,
    ) && (t.recv_buf[i].seq - s.recv_next) % 16 >= c + 1 by {
        let e = t.recv_buf[i];
        assert(waits_as(u.recv_buf, e.seq as int, e.frag));
        let j = choose|j: int|
            0 <= j < u.recv_buf.len() && u.recv_buf[j].seq == e.seq as int && u.recv_buf[j].frag
                == e.frag;
        assert(s.recv_buf[j].seq < 16);
        assert(!s.is_next(j));
        lemma_next_step(next, e.seq as int, 0);
    }
}

/// A fragment of the stream that arrives ahead of its turn, inside the window,
/// is there when its turn comes: its number waits, and with it the fragment of
/// the stream.
pub proof fn law_stream_is_kept_ahead_of_its_turn(
    s: Channel,
    sent: Seq<Frag>,
    n: int,
    value: Seq<u8>,
    k: int,
    max: nat,
    now: u64,
)
    requires
        receiver_in_step(s, sent, n, max),
        carries(value, sent, k),
        n < k < n + 6,
        now <= CLOCK_LIMIT,
    ensures
        waits_as(s.on_message(value, max, now).recv_buf, k % 16, sent[k]),
        s.on_message(value, max, now).recv_next == n % 16,
        forall|i: int|
            0 <= i < s.recv_buf.len() ==> waits_as(
                s.on_message(value, max, now).recv_buf,
                (#[trigger] s.recv_buf[i]).seq as int,
                s.recv_buf[i].frag,
            ),
{
    let frame = frame_of(value)->Some_0;
    let t = s.after_frame_ack(frame, now);
    let u = s.on_message(value, max, now);
    assert((frame.seq - t.recv_next) % 16 == k - n) by {
        lemma_places(n, k);
    }
    law_early_fragments_wait(t, frame.seq, frame.frag, max, now);
    assert forall|i: int| 0 <= i < s.recv_buf.len() implies waits_as(
        u.recv_buf,
        (#[trigger] s.recv_buf[i]).seq as int,
        s.recv_buf[i].frag,
    ) by {
        assert(u.recv_buf[i] == s.recv_buf[i]);
    }
    if waits(s.recv_buf, frame.seq as int) {
        let i = choose|i: int| 0 <= i < s.recv_buf.len() && (#[trigger] s.recv_buf[i]).seq
            == frame.seq as int;
        assert(s.recv_buf[i].frag == sent[k]);
    } else {
        assert(u.recv_buf[s.recv_buf.len() as int].frag == sent[k]);
    }
}

proof fn lemma_places(n: int, k: int)
    requires
        n <= k < n + 16,
    ensures
        (k % 16 - n % 16) % 16 == k - n,
{
}

/// Once fragments up to `m` of the window have arrived, the arrival of the one
/// that is needed makes the receiver accept all of them at once.
pub proof fn law_filled_gap_is_accepted_at_once(
    s: Channel,
    sent: Seq<Frag>,
    n: int,
    value: Seq<u8>,
    m: int,
    max: nat,
    now: u64,
)
    requires
        receiver_in_step(s, sent, n, max),
        carries(value, sent, n),
        n <= m < n + 6,
        forall|p: int| n < p <= m ==> waits(s.recv_buf, #[trigger] (p % 16)),
        now <= CLOCK_LIMIT,
    ensures
        accepted_count(s, value, max, now) >= m - n + 1,
        receiver_in_step(
            s.on_message(value, max, now),
            sent,
            n + accepted_count(s, value, max, now),
            max,
        ),
{
    let frame = frame_of(value)->Some_0;
    let t = s.after_frame_ack(frame, now);
    law_receiver_stays_in_step(s, sent, n, value, n, max, now);
    law_needed_fragment_brings_its_followers(t, frame.frag, max, now);
    let c = accepted_count(s, value, max, now) as int;
    if c < m - n + 1 {
        let p = n + c;
        assert(waits(s.recv_buf, p % 16));
        assert((n % 16 + c) % 16 == p % 16) by {
            lemma_sum_of_numbers(n, c);
        }
    }
}

proof fn lemma_sum_of_numbers(n: int, c: int)
    ensures
        (n % 16 + c) % 16 == (n + c) % 16,
{
}

/// A message is read as its acknowledgement first and its fragment after that,
/// as far as it has them; one that is not sound does nothing.
pub proof fn law_messages_are_read_in_order(s: Channel, value: Seq<u8>, max: nat, now: u64)
    ensures
        frame_of(value) is None ==> s.on_message(value, max, now) == s && s.delivered_on(
            value,
            max,
            now,
        ).len() == 0,
        frame_of(value) matches Some(frame) ==> {
            let acked = s.on_ack(frame.ack->Some_0, now);
            &&& frame.ack is None && !frame.has_data() ==> s.on_message(value, max, now) == s
            &&& frame.ack is Some && !frame.has_data() ==> s.on_message(value, max, now) == acked
            &&& frame.ack is None && frame.has_data() ==> {
                &&& s.on_message(value, max, now) == s.on_data(frame.seq, frame.frag, max, now)
                &&& s.delivered_on(value, max, now) == s.reassembly.delivered_by(
                    s.accepted_frags(frame.seq, frame.frag, max, now),
                    max,
                )
            }
            &&& frame.ack is Some && frame.has_data() ==> {
                &&& s.on_message(value, max, now) == acked.on_data(
                    frame.seq,
                    frame.frag,
                    max,
                    now,
                )
                &&& s.delivered_on(value, max, now) == s.reassembly.delivered_by(
                    acked.accepted_frags(frame.seq, frame.frag, max, now),
                    max,
                )
            }
            &&& !frame.has_data() ==> s.delivered_on(value, max, now).len() == 0
        },
{
}

/// The send loop is woken by every sound message that moves the window or
/// carries a fragment, but for a fragment that waits already.
pub proof fn law_messages_wake_the_send_loop(s: Channel, value: Seq<u8>, now: u64)
    requires
        s.recv_next < 16,
    ensures
        frame_of(value) is None ==> !s.message_wakes(value, now),
        frame_of(value) matches Some(frame) ==> {
            &&& s.message_moves_window(value) ==> s.message_wakes(value, now)
            &&& !frame.has_data() ==> s.message_wakes(value, now) == s.message_moves_window(value)
            &&& frame.has_data() && !s.message_moves_window(value) ==> (s.message_wakes(value, now)
                <==> !(1 <= (frame.seq - s.recv_next) % 16 <= 5 && waits(
                s.recv_buf,
                frame.seq as int,
            )))
        },
{
    if let Some(frame) = frame_of(value) {
        let t = s.after_frame_ack(frame, now);
        assert(t.recv_buf == s.recv_buf && t.recv_next == s.recv_next);
        assert(s.is_buffered(frame.seq) <==> waits(s.recv_buf, frame.seq as int));
    }
}

} // verus!
