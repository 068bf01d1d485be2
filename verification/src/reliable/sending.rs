//! What sending, acknowledgements and the queue do, said of the fields alone.

use crate::reliable::channel::{reports, ReliableChannel, RttReport};
use crate::reliable::model::{
    payload_room, rto_after, rtt_after, settle, Channel, InFlight, Outcome,
    Unacked,
};
use crate::reliable::reassembly::{law_split_keeps_every_byte, split};
use crate::reliable::rto::{elapsed, RtoEstimator};
use crate::reliable::state::views;
use crate::reliable::stats::{RttStatsView, WindowReport};
use crate::reliable::wire::{
    data_message, frame_of, law_ack_message_round_trip, law_data_message_round_trip,
    law_set_ack_keeps_fragment, FrameView,
};
use vstd::prelude::*;

verus! {

/// Nothing differs but the sending side; the acknowledgement that is due may.
pub open spec fn same_but_sending(s: Channel, t: Channel) -> bool {
    &&& t.recv_next == s.recv_next
    &&& t.reassembly == s.reassembly
    &&& t.recv_buf == s.recv_buf
    &&& t.link_dead == s.link_dead
}

/// A new channel has sent and received nothing, and owes nothing.
pub proof fn law_new_channels_are_empty(now: u64)
    ensures
        ({
            let s = Channel::initial(now);
            &&& s.send_queue.len() == 0 && s.frag_queue.len() == 0 && s.unacked.len() == 0
            &&& s.in_flight.len() == 0 && s.recv_buf.len() == 0
            &&& s.send_next == 0 && s.send_base == 0 && s.recv_next == 0
            &&& s.reassembly.buf.len() == 0 && !s.reassembly.overflow
            &&& s.ack_pending is None && s.ack_deadline is None
            &&& s.last_progress_at == now
            &&& !s.link_dead
            &&& s.rto.srtt is None
            &&& s.rtt == RttStatsView::starting(now)
        }),
{
}

/// A datagram is refused only when the queue is full, that is when the
/// datagrams and the fragments that wait are 32 or more together.
pub proof fn law_room_until_32_wait(s: Channel)
    ensures
        s.has_room() <==> s.send_queue.len() + s.frag_queue.len() < 32,
{
}

proof fn lemma_number_in_flight(base: int, i: int, a: int)
    requires
        0 <= base < 16,
        0 <= a < 16,
        0 <= i < 6,
    ensures
        (a + 1 - base) % 16 == i + 1 <==> (base + i) % 16 == a,
{
}

/// An acknowledgement is for the fragment in flight with its number: that one
/// and all older ones leave, and the window starts behind it. If no fragment in
/// flight has the number, nothing happens. Neither does the other direction,
/// nor what waits to be sent, take notice.
pub proof fn law_acknowledgement_releases_what_it_names(s: Channel, a: u8, now: u64)
    requires
        s.send_wf(),
        a < 16,
    ensures
        (forall|i: int| 0 <= i < s.in_flight.len() ==> (#[trigger] s.in_flight[i]).seq != a)
            ==> s.on_ack(a, now) == s && s.ack_report(a, now) is None && !s.ack_counts(a),
        forall|i: int|
            0 <= i < s.in_flight.len() && (#[trigger] s.in_flight[i]).seq == a ==> {
                let t = s.on_ack(a, now);
                let acked = s.in_flight.take(i + 1);
                &&& s.ack_counts(a)
                &&& t.in_flight == s.in_flight.skip(i + 1)
                &&& t.send_base == (a + 1) % 16
                &&& t.send_next == s.send_next
                &&& t.last_progress_at == now
                &&& t.unacked == settle(s.unacked, (i + 1) as nat)
                &&& t.rto == rto_after(s.rto, acked, now)
                &&& t.rtt == rtt_after(s.rtt, acked, now).rolled(now)
                &&& s.ack_report(a, now) == rtt_after(s.rtt, acked, now).report(now)
                &&& t.send_queue == s.send_queue
                &&& t.frag_queue == s.frag_queue
                &&& t.ack_pending == s.ack_pending
                &&& t.ack_deadline == s.ack_deadline
                &&& same_but_sending(s, t)
            },
{
    if s.ack_counts(a) {
        let i = s.acked_count(a) - 1;
        lemma_number_in_flight(s.send_base as int, i, a as int);
        assert(s.in_flight[i].seq == a);
    }
    assert forall|i: int| 0 <= i < s.in_flight.len() && (#[trigger] s.in_flight[i]).seq
        == a implies s.acked_count(a) == i + 1 by {
        lemma_number_in_flight(s.send_base as int, i, a as int);
    }
}

/// A message moves the window exactly if it acknowledges a fragment in flight,
/// and telemetry falls due with it only as it does with that acknowledgement.
pub proof fn law_window_moves_with_fragments_in_flight(s: Channel, value: Seq<u8>, now: u64)
    requires
        s.send_wf(),
    ensures
        s.message_moves_window(value) <==> (frame_of(value) matches Some(frame)
            && frame.ack matches Some(a) && exists|i: int|
            0 <= i < s.in_flight.len() && (#[trigger] s.in_flight[i]).seq == a),
        !s.message_moves_window(value) ==> s.message_report(value, now) is None,
        s.message_moves_window(value) ==> s.message_report(value, now) == s.ack_report(
            frame_of(value)->Some_0.ack->Some_0,
            now,
        ),
{
    if let Some(frame) = frame_of(value) {
        if let Some(a) = frame.ack {
            law_acknowledgement_releases_what_it_names(s, a, now);
        }
    }
}

/// Every acknowledged fragment is recorded, in the order of sending, with the
/// time since it was first sent; it is a sample of the timeout's estimate if it
/// was sent once.
pub proof fn law_acknowledged_fragments_are_recorded(
    rtt: RttStatsView,
    rto: RtoEstimator,
    acked: Seq<InFlight>,
    f: InFlight,
    now: u64,
)
    ensures
        rtt_after(rtt, Seq::empty(), now) == rtt,
        rto_after(rto, Seq::empty(), now) == rto,
        rtt_after(rtt, acked.push(f), now) == rtt_after(rtt, acked, now).with_ack(
            elapsed(now, f.first_sent_at),
            f.retransmits,
        ),
        f.retransmits == 0 ==> rto_after(rto, acked.push(f), now) == rto_after(
            rto,
            acked,
            now,
        ).sampled(elapsed(now, f.first_sent_at)),
        f.retransmits > 0 ==> rto_after(rto, acked.push(f), now) == rto_after(rto, acked, now),
{
    assert(acked.push(f).drop_last() =~= acked);
}

/// While fragments wait, or nothing does, no datagram is split. Otherwise the
/// oldest datagram is: it leaves the queue, its fragments take its place, and a
/// copy of it is kept for as many acknowledgements as it has fragments.
pub proof fn law_oldest_datagram_is_split_next(s: Channel, max_payload: nat)
    requires
        s.frag_queue.len() == 0 && s.send_queue.len() > 0 ==> max_payload > 0
            || s.send_queue[0].len() == 0,
    ensures
        ({
            let t = s.loaded(max_payload);
            &&& s.frag_queue.len() > 0 || s.send_queue.len() == 0 ==> t == s
            &&& s.frag_queue.len() == 0 && s.send_queue.len() > 0 ==> {
                let d = s.send_queue[0];
                &&& t.send_queue == s.send_queue.skip(1)
                &&& t.frag_queue == split(d, max_payload)
                &&& t.frag_queue.len() > 0
                &&& t.unacked == s.unacked.push(
                    Unacked { remaining: t.frag_queue.len(), datagram: d },
                )
                &&& t.in_flight == s.in_flight
                &&& t.send_next == s.send_next
                &&& t.send_base == s.send_base
                &&& t.ack_pending == s.ack_pending
                &&& t.ack_deadline == s.ack_deadline
                &&& t.rtt == s.rtt
                &&& t.rto == s.rto
                &&& t.last_progress_at == s.last_progress_at
                &&& same_but_sending(s, t)
            }
            &&& s.splits_next() <==> s.frag_queue.len() == 0 && s.send_queue.len() > 0
        }),
{
    if s.frag_queue.len() == 0 && s.send_queue.len() > 0 {
        law_split_keeps_every_byte(s.send_queue[0], max_payload);
    }
}

/// A message that carries a fragment of a datagram split at `chunk_size` is no
/// longer than that.
pub proof fn law_messages_fit_the_chunk_size(
    datagram: Seq<u8>,
    chunk_size: usize,
    i: int,
    seq: u8,
    ack: Option<u8>,
)
    requires
        chunk_size > 3 || (chunk_size == 3 && datagram.len() == 0),
        0 <= i < split(datagram, payload_room(chunk_size) as nat).len(),
    ensures
        payload_room(chunk_size) == chunk_size - 3,
        data_message(
            seq,
            split(datagram, payload_room(chunk_size) as nat)[i],
            ack,
        ).len() <= chunk_size,
{
    law_split_keeps_every_byte(datagram, payload_room(chunk_size) as nat);
}

/// What is sent next. A dead channel sends nothing and stays as it is. With
/// fewer than six fragments in flight the oldest fragment that waits goes out,
/// under the next number and with the pending acknowledgement on it, and is in
/// flight from then on. Otherwise an acknowledgement goes out on its own once
/// its time has come. Otherwise nothing does.
pub proof fn law_what_is_sent_next(s: Channel, max_payload: nat, now: u64)
    requires
        s.send_wf(),
        s.ack_pending is Some ==> s.ack_pending->Some_0 < 16,
        s.frag_queue.len() == 0 && s.send_queue.len() > 0 ==> max_payload > 0
            || s.send_queue[0].len() == 0,
    ensures
        ({
            let t = s.loaded(max_payload);
            let u = s.after_send(max_payload, now);
            let outcome = s.send_outcome(max_payload, now);
            let fragment = s.in_flight.len() < 6 && (s.frag_queue.len() > 0 || s.send_queue.len()
                > 0);
            let due = s.ack_pending is Some && (s.ack_deadline matches Some(d) ==> now >= d);
            &&& s.link_dead ==> outcome is Dead && u == s
            &&& !s.link_dead ==> {
                &&& outcome !is Dead
                &&& u.send_queue == t.send_queue
                &&& u.unacked == t.unacked
                &&& u.send_base == s.send_base
                &&& u.rtt == s.rtt
                &&& u.rto == s.rto
                &&& same_but_sending(s, u)
                &&& fragment ==> {
                    &&& (outcome matches Outcome::Send(msg) && frame_of(msg) == Some(
                        FrameView {
                            seq: s.send_next,
                            frag: t.frag_queue[0],
                            ack: s.ack_pending,
                        },
                    ) && u.in_flight == s.in_flight.push(
                        InFlight {
                            seq: s.send_next,
                            wire: msg,
                            first_sent_at: now,
                            last_sent_at: now,
                            retransmits: 0,
                        },
                    ))
                    &&& u.frag_queue == t.frag_queue.skip(1)
                    &&& u.send_next == (s.send_next + 1) % 16
                    &&& u.ack_pending is None && u.ack_deadline is None
                    &&& s.in_flight.len() == 0 ==> u.last_progress_at == now
                    &&& s.in_flight.len() > 0 ==> u.last_progress_at == s.last_progress_at
                }
                &&& !fragment ==> {
                    &&& u.frag_queue == t.frag_queue
                    &&& u.in_flight == s.in_flight
                    &&& u.send_next == s.send_next
                    &&& u.last_progress_at == s.last_progress_at
                    &&& due ==> {
                        &&& (outcome matches Outcome::Send(msg) && msg.len() == 2 && (frame_of(msg)
                            matches Some(frame) && frame.ack == s.ack_pending
                            && !frame.has_data()))
                        &&& u.ack_pending is None && u.ack_deadline is None
                    }
                    &&& !due ==> {
                        &&& outcome is Wait
                        &&& u.ack_pending == s.ack_pending
                        &&& u.ack_deadline == s.ack_deadline
                    }
                }
            }
        }),
{
    law_oldest_datagram_is_split_next(s, max_payload);
    let t = s.loaded(max_payload);
    assert(t.in_flight.len() == s.in_flight.len());
    if !s.link_dead {
        if t.frag_queue.len() > 0 {
            law_data_message_round_trip(t.send_next, t.frag_queue[0], t.ack_pending);
        }
        if s.ack_pending is Some {
            law_ack_message_round_trip(s.ack_pending->Some_0);
        }
    }
}

/// No pending acknowledgement is lost: whatever is sent next, it is on it, or
/// is pending as before. The same is true of a retransmission.
pub proof fn law_acknowledgements_are_not_lost(s: Channel, max_payload: nat, a: u8, now: u64)
    requires
        s.send_wf(),
        s.ack_pending == Some(a),
        a < 16,
        s.frag_queue.len() == 0 && s.send_queue.len() > 0 ==> max_payload > 0
            || s.send_queue[0].len() == 0,
    ensures
        s.after_send(max_payload, now).ack_pending == Some(a) || (s.send_outcome(
            max_payload,
            now,
        ) matches Outcome::Send(msg) && frame_of(msg) matches Some(frame) && frame.ack == Some(a)),
        s.resent(now).ack_pending == Some(a) || (s.in_flight.len() > 0 && (frame_of(
            s.resend_message(),
        ) matches Some(frame) && frame.ack == Some(a))),
{
    law_what_is_sent_next(s, max_payload, now);
    if s.in_flight.len() > 0 {
        assert(frame_of(s.in_flight[0].wire) is Some);
        law_set_ack_keeps_fragment(s.in_flight[0].wire, a);
    }
}

/// Sending again takes the oldest fragment in flight, and nothing if there is
/// none. The message says what it said the first time, but for a pending
/// acknowledgement, which it takes along. Only when and how often it was sent
/// changes, and is counted.
pub proof fn law_what_is_sent_again(s: Channel, now: u64)
    requires
        s.send_wf(),
        s.ack_pending is Some ==> s.ack_pending->Some_0 < 16,
    ensures
        s.in_flight.len() == 0 ==> s.resent(now) == s,
        s.in_flight.len() > 0 ==> {
            let t = s.resent(now);
            let head = s.in_flight[0];
            let again = t.in_flight[0];
            let said = frame_of(head.wire)->Some_0;
            &&& t.in_flight.len() == s.in_flight.len()
            &&& t.in_flight.skip(1) == s.in_flight.skip(1)
            &&& again.seq == head.seq
            &&& again.wire == head.wire
            &&& again.first_sent_at == head.first_sent_at
            &&& again.last_sent_at == now
            &&& head.retransmits < u32::MAX ==> again.retransmits == head.retransmits + 1
            &&& head.retransmits == u32::MAX ==> again.retransmits == u32::MAX
            &&& t.rtt == s.rtt.with_retransmit(again.retransmits)
            &&& t.ack_pending is None && t.ack_deadline is None
            &&& (frame_of(s.resend_message()) matches Some(frame) && frame.seq == said.seq
                && frame.frag == said.frag && frame.ack == (if s.ack_pending is Some {
                s.ack_pending
            } else {
                said.ack
            }))
            &&& t.send_queue == s.send_queue
            &&& t.frag_queue == s.frag_queue
            &&& t.unacked == s.unacked
            &&& t.send_next == s.send_next
            &&& t.send_base == s.send_base
            &&& t.rto == s.rto
            &&& t.last_progress_at == s.last_progress_at
            &&& same_but_sending(s, t)
        },
{
    if s.in_flight.len() > 0 {
        assert(frame_of(s.in_flight[0].wire) is Some);
        if let Some(a) = s.ack_pending {
            law_set_ack_keeps_fragment(s.in_flight[0].wire, a);
        }
        assert(s.resent(now).in_flight.skip(1) =~= s.in_flight.skip(1));
    }
}

/// What is not delivered is the copies of the datagrams that were split, and
/// then the datagrams that wait; taking it leaves nothing of either to send,
/// and everything else as it was.
pub proof fn law_undelivered_is_copies_and_queue(s: Channel, i: int)
    ensures
        s.undelivered().len() == s.unacked.len() + s.send_queue.len(),
        0 <= i < s.unacked.len() ==> s.undelivered()[i] == s.unacked[i].datagram,
        0 <= i < s.send_queue.len() ==> s.undelivered()[s.unacked.len() + i] == s.send_queue[i],
        ({
            let t = s.abandoned();
            &&& t.send_queue.len() == 0 && t.frag_queue.len() == 0 && t.unacked.len() == 0
            &&& t.in_flight == s.in_flight
            &&& t.send_next == s.send_next
            &&& t.send_base == s.send_base
            &&& t.ack_pending == s.ack_pending
            &&& t.ack_deadline == s.ack_deadline
            &&& t.rtt == s.rtt
            &&& t.rto == s.rto
            &&& t.last_progress_at == s.last_progress_at
            &&& same_but_sending(s, t)
        }),
{
}

/// What a telemetry report says of the channel.
pub proof fn law_reports_say_how_the_channel_is(r: RttReport, window: WindowReport, s: Channel)
    requires
        reports(r, window, s),
    ensures
        r.window == window,
        r.in_flight == s.in_flight.len(),
        r.queued_frags == s.frag_queue.len(),
        r.queued_datagrams == s.send_queue.len(),
        r.ack_timeout_ms == 300,
        r.rto_ms * 1_000_000 <= s.rto.timeout() < (r.rto_ms + 1) * 1_000_000,
{
}

/// Channels that are the same but for their state have the same settings and
/// counters; a channel can split what it has to split next if its chunk size
/// leaves room for payload behind the framing of three bytes.
pub proof fn law_settings_are_kept(a: ReliableChannel, b: ReliableChannel)
    ensures
        a.same_but_state(b) ==> a.chunk_size == b.chunk_size && a.max_datagram_size
            == b.max_datagram_size && a.retransmit_counter == b.retransmit_counter
            && a.truncation_counter == b.truncation_counter,
        a.can_split_next() <==> a.state@.link_dead || a.state@.frag_queue.len() > 0
            || a.state@.send_queue.len() == 0 || a.chunk_size > 3 || (a.chunk_size == 3
            && a.state@.send_queue[0].len() == 0),
{
}

/// The views of several items are their views, one by one.
pub proof fn law_views_are_item_by_item<T: View>(s: Seq<T>, i: int)
    requires
        0 <= i < s.len(),
    ensures
        views(s).len() == s.len(),
        views(s)[i] == s[i]@,
{
}

} // verus!
