//! Delivery: what two ends of a channel know of each other, and what follows.
//!
//! One end splits datagrams into a stream of fragments and sends it; `sent` is
//! the part that was sent at least once, and its first `base` fragments are
//! acknowledged. The other end has accepted the first `n` of them.

use crate::reliable::model::{
    settle, settle_one, total_remaining, Buffered, Channel, InFlight, Outcome, Unacked,
};
use crate::reliable::reassembly::{
    all_deliverable, fragment_count, law_delivery_grows, law_stream_is_delivered,
    lemma_accept_in_parts, lemma_fragment_bounds, lemma_fragment_count_positive, split,
    splittable, stream, Reassembly, Sent,
};
use crate::reliable::rto::CLOCK_LIMIT;
use crate::reliable::upkeep::{
    all_remaining, lemma_accept_buffered_wf, lemma_accept_wf,
    lemma_loaded_wf, lemma_on_ack_wf, lemma_on_data_wf, lemma_resent_wf, lemma_sent_next_wf,
    lemma_settle, lemma_settle_one, same_send_side,
};
use crate::reliable::wire::{
    dist, frame_of, law_ack_message_round_trip, law_data_message_round_trip,
    law_set_ack_keeps_fragment, Frag, WINDOW_SIZE,
};
use vstd::arithmetic::div_mod::lemma_mod_multiples_vanish;
use vstd::prelude::*;

verus! {

/// The first `n` fragments of `sent` have been accepted, and those that wait in
/// the buffer are later ones.
pub open spec fn receiver_in_step(s: Channel, sent: Seq<Frag>, n: int, max: nat) -> bool {
    &&& s.recv_wf(max)
    &&& buffer_in_step(s, sent, n)
    &&& s.reassembly == Reassembly::fresh().accept_all(sent.take(n), max)
    &&& s.ack_pending matches Some(a) ==> a == (n + 15) % 16
}

pub open spec fn buffer_in_step(s: Channel, sent: Seq<Frag>, n: int) -> bool {
    &&& 0 <= n <= sent.len()
    &&& s.recv_next == n % 16
    &&& forall|i: int|
        0 <= i < s.recv_buf.len() ==> {
            let p = n + dist(s.recv_next as int, (#[trigger] s.recv_buf[i]).seq as int);
            p < sent.len() && s.recv_buf[i].frag == sent[p]
        }
}

/// Whether a fragment carries something, so that its message is not taken for
/// a pure acknowledgement.
pub open spec fn bears_data(frag: Frag) -> bool {
    frag.first || frag.last || frag.payload.len() > 0
}

/// A message that carries fragment `k` of `sent`.
pub open spec fn carries(value: Seq<u8>, sent: Seq<Frag>, k: int) -> bool {
    &&& 0 <= k < sent.len()
    &&& bears_data(sent[k])
    &&& frame_of(value) matches Some(frame)
    &&& frame.seq == k % 16
    &&& frame.frag == sent[k]
}

proof fn lemma_mods(n: int)
    requires
        0 <= n,
    ensures
        0 <= n % 16 < 16,
        (n % 16 + 1) % 16 == (n + 1) % 16,
        (n % 16 + 15) % 16 == (n + 15) % 16,
{
}

proof fn lemma_step_back(n: int, seq: int)
    requires
        0 <= n,
        0 <= seq < 16,
        seq != n % 16,
    ensures
        dist((n + 1) % 16, seq) == dist(n % 16, seq) - 1,
{
}

proof fn lemma_positions(n: int, k: int)
    requires
        n - 10 <= k < n + WINDOW_SIZE,
    ensures
        n <= k ==> dist(n % 16, k % 16) == k - n,
        k < n ==> dist(n % 16, k % 16) >= WINDOW_SIZE,
{
}

proof fn lemma_accept_in_step(s: Channel, frag: Frag, sent: Seq<Frag>, n: int, max: nat, now: u64)
    requires
        buffer_in_step(s, sent, n),
        forall|i: int| 0 <= i < s.recv_buf.len() ==> (#[trigger] s.recv_buf[i]).seq < 16,
        forall|i: int| !s.is_next(i),
        n < sent.len(),
    ensures
        buffer_in_step(s.accept(frag, max, now), sent, n + 1),
        s.accept(frag, max, now).ack_pending == Some(((n + 16) % 16) as u8),
{
    let v = s.accept(frag, max, now);
    lemma_mods(n);
    lemma_mods(n + 1);
    assert(v.recv_next == (n + 1) % 16);
    assert forall|i: int| 0 <= i < v.recv_buf.len() implies ({
        let p = n + 1 + dist(v.recv_next as int, (#[trigger] v.recv_buf[i]).seq as int);
        p < sent.len() && v.recv_buf[i].frag == sent[p]
    }) by {
        assert(v.recv_buf[i] == s.recv_buf[i]);
        assert(!s.is_next(i));
        lemma_step_back(n, s.recv_buf[i].seq as int);
    }
}

proof fn lemma_removed_in_step(s: Channel, sent: Seq<Frag>, n: int, max: nat)
    requires
        s.recv_wf_draining(max),
        buffer_in_step(s, sent, n),
        exists|i: int| s.is_next(i),
    ensures
        ({
            let r = Channel { recv_buf: s.recv_buf.remove(s.next_index()), ..s };
            &&& buffer_in_step(r, sent, n)
            &&& forall|i: int| 0 <= i < r.recv_buf.len() ==> (#[trigger] r.recv_buf[i]).seq < 16
            &&& forall|i: int| !r.is_next(i)
        }),
        n < sent.len(),
        s.recv_buf[s.next_index()].frag == sent[n],
{
    let k = s.next_index();
    assert(s.is_next(k));
    let r = Channel { recv_buf: s.recv_buf.remove(k), ..s };
    assert(dist(s.recv_next as int, s.recv_buf[k].seq as int) == 0);
    assert forall|i: int| 0 <= i < r.recv_buf.len() implies ({
        let p = n + dist(r.recv_next as int, (#[trigger] r.recv_buf[i]).seq as int);
        &&& p < sent.len() && r.recv_buf[i].frag == sent[p]
        &&& r.recv_buf[i].seq < 16
        &&& r.recv_buf[i].seq != r.recv_next
    }) by {
        if i < k {
            assert(r.recv_buf[i] == s.recv_buf[i]);
            assert(s.recv_buf[i].seq != s.recv_buf[k].seq);
        } else {
            assert(r.recv_buf[i] == s.recv_buf[i + 1]);
            assert(s.recv_buf[k].seq != s.recv_buf[i + 1].seq);
        }
    }
    assert forall|i: int| !r.is_next(i) by {
        if 0 <= i < r.recv_buf.len() {
            assert(r.recv_buf[i].seq != r.recv_next);
        }
    }
}

proof fn lemma_drained_in_step(s: Channel, sent: Seq<Frag>, n: int, max: nat, now: u64)
    requires
        s.recv_wf_draining(max),
        buffer_in_step(s, sent, n),
        s.ack_pending == Some(((n + 15) % 16) as u8),
    ensures
        ({
            let m = n + s.drained_frags(max, now).len();
            &&& buffer_in_step(s.drained(max, now), sent, m)
            &&& s.drained_frags(max, now) == sent.subrange(n, m)
            &&& s.drained(max, now).ack_pending == Some(((m + 15) % 16) as u8)
        }),
    decreases s.recv_buf.len(),
{
    if exists|i: int| s.is_next(i) {
        let k = s.next_index();
        let r = Channel { recv_buf: s.recv_buf.remove(k), ..s };
        let t = s.accept_buffered(max, now);
        lemma_accept_buffered_wf(s, max, now);
        lemma_removed_in_step(s, sent, n, max);
        lemma_accept_in_step(r, s.recv_buf[k].frag, sent, n, max, now);
        lemma_drained_in_step(t, sent, n + 1, max, now);
        let rest = t.drained_frags(max, now);
        assert(seq![sent[n]] + sent.subrange(n + 1, n + 1 + rest.len()) =~= sent.subrange(
            n,
            n + 1 + rest.len(),
        ));
    } else {
        assert(sent.subrange(n, n) =~= Seq::<Frag>::empty());
    }
}

/// How many fragments a message makes the receiver accept.
pub open spec fn accepted_count(s: Channel, value: Seq<u8>, max: nat, now: u64) -> nat {
    match frame_of(value) {
        Some(frame) if frame.has_data() => s.after_frame_ack(frame, now).accepted_frags(
            frame.seq,
            frame.frag,
            max,
            now,
        ).len(),
        _ => 0,
    }
}

proof fn lemma_next_in_step(s: Channel, sent: Seq<Frag>, n: int, max: nat, now: u64)
    requires
        s.recv_wf(max),
        buffer_in_step(s, sent, n),
        n < sent.len(),
    ensures
        ({
            let accepted = s.accepted_frags(s.recv_next, sent[n], max, now);
            let u = s.on_data(s.recv_next, sent[n], max, now);
            let m = n + accepted.len();
            &&& buffer_in_step(u, sent, m)
            &&& m > n
            &&& accepted == sent.subrange(n, m)
            &&& u.ack_pending == Some(((m + 15) % 16) as u8)
        }),
{
    assert forall|i: int| !s.is_next(i) by {
        if 0 <= i < s.recv_buf.len() {
            assert(1 <= dist(s.recv_next as int, s.recv_buf[i].seq as int));
        }
    }
    lemma_accept_wf(s, sent[n], max, now);
    lemma_accept_in_step(s, sent[n], sent, n, max, now);
    let v = s.accept(sent[n], max, now);
    lemma_drained_in_step(v, sent, n + 1, max, now);
    let rest = v.drained_frags(max, now);
    let m = n + 1 + rest.len();
    assert(seq![sent[n]] + sent.subrange(n + 1, m) =~= sent.subrange(n, m));
}

proof fn lemma_other_in_step(s: Channel, sent: Seq<Frag>, n: int, k: int, max: nat, now: u64)
    requires
        s.recv_wf(max),
        buffer_in_step(s, sent, n),
        s.ack_pending matches Some(a) ==> a == (n + 15) % 16,
        0 <= k < sent.len(),
        k != n,
        n - 10 <= k < n + WINDOW_SIZE,
    ensures
        ({
            let u = s.on_data((k % 16) as u8, sent[k], max, now);
            &&& buffer_in_step(u, sent, n)
            &&& s.accepted_frags((k % 16) as u8, sent[k], max, now).len() == 0
            &&& u.ack_pending matches Some(a) ==> a == (n + 15) % 16
        }),
{
    lemma_positions(n, k);
    lemma_mods(n);
    let seq = (k % 16) as u8;
    let u = s.on_data(seq, sent[k], max, now);
    assert(seq != s.recv_next);
    assert(s.received_up_to() == (n + 15) % 16);
    if s.in_recv_window(seq) && !s.is_buffered(seq) {
        assert(u.recv_buf =~= s.recv_buf.push(Buffered { seq, frag: sent[k] }));
        assert forall|i: int| 0 <= i < u.recv_buf.len() implies ({
            let p = n + dist(u.recv_next as int, (#[trigger] u.recv_buf[i]).seq as int);
            p < sent.len() && u.recv_buf[i].frag == sent[p]
        }) by {
            if i < s.recv_buf.len() {
                assert(u.recv_buf[i] == s.recv_buf[i]);
            }
        }
    } else {
        assert(u.recv_buf == s.recv_buf);
    }
}

/// A receiver stays in step, whatever fragment of the window arrives, in
/// whatever order and however often: it accepts the fragments of the stream
/// one after the other, each once, and passes on the datagrams that they
/// complete. The fragment that it needs next it accepts at once. A message may
/// be late, but not so late that ten later fragments have been accepted since.
pub proof fn law_receiver_stays_in_step(
    s: Channel,
    sent: Seq<Frag>,
    n: int,
    value: Seq<u8>,
    k: int,
    max: nat,
    now: u64,
)
    requires
        receiver_in_step(s, sent, n, max),
        carries(value, sent, k),
        n - 10 <= k < n + WINDOW_SIZE,
    ensures
        ({
            let m = n + accepted_count(s, value, max, now);
            &&& m <= sent.len()
            &&& receiver_in_step(s.on_message(value, max, now), sent, m, max)
            &&& s.delivered_on(value, max, now) == s.reassembly.delivered_by(
                sent.subrange(n, m),
                max,
            )
            &&& k == n <==> m > n
        }),
{
    let frame = frame_of(value)->Some_0;
    let t = s.after_frame_ack(frame, now);
    let m = n + accepted_count(s, value, max, now);
    lemma_positions(n, k);
    lemma_on_data_wf(t, frame.seq, frame.frag, max, now);
    assert(buffer_in_step(t, sent, n));
    if k == n {
        lemma_next_in_step(t, sent, n, max, now);
    } else {
        lemma_other_in_step(t, sent, n, k, max, now);
        assert(sent.subrange(n, n) =~= Seq::<Frag>::empty());
        assert(t.accepted_frags(frame.seq, frame.frag, max, now) =~= Seq::<Frag>::empty());
    }
    lemma_accept_in_parts(Reassembly::fresh(), sent.take(n), sent.subrange(n, m), max);
    assert(sent.take(n) + sent.subrange(n, m) =~= sent.take(m));
}

/// What `unacked` holds of a datagram while none of its fragments is acknowledged.
pub open spec fn entry_of(sent: Sent) -> Unacked {
    Unacked { remaining: fragment_count(sent.0.len(), sent.1), datagram: sent.0 }
}

pub open spec fn entries(loaded: Seq<Sent>) -> Seq<Unacked> {
    Seq::new(loaded.len(), |i: int| entry_of(loaded[i]))
}

pub open spec fn all_splittable(loaded: Seq<Sent>) -> bool {
    forall|i: int|
        0 <= i < loaded.len() ==> splittable((#[trigger] loaded[i]).0, loaded[i].1 as int)
}

/// The datagrams `loaded` were split, the fragments `sent` of their stream were
/// sent, the first `base` of these are acknowledged and the others in flight.
pub open spec fn sender_in_step(
    s: Channel,
    loaded: Seq<Sent>,
    sent: Seq<Frag>,
    base: int,
) -> bool {
    &&& s.send_wf()
    &&& all_splittable(loaded)
    &&& sent + s.frag_queue == stream(loaded)
    &&& s.unacked == settle(entries(loaded), base as nat)
    &&& 0 <= base
    &&& sent.len() == base + s.in_flight.len()
    &&& s.send_base == base % 16
    &&& flight_in_step(s.in_flight, sent, base)
}

pub open spec fn flight_in_step(in_flight: Seq<InFlight>, sent: Seq<Frag>, base: int) -> bool {
    forall|i: int|
        0 <= i < in_flight.len() ==> carries((#[trigger] in_flight[i]).wire, sent, base + i)
}

/// Every fragment of a stream carries something.
pub proof fn lemma_stream_bears_data(loaded: Seq<Sent>)
    requires
        all_splittable(loaded),
    ensures
        forall|i: int| 0 <= i < stream(loaded).len() ==> bears_data(#[trigger] stream(loaded)[i]),
        stream(loaded).len() == total_remaining(entries(loaded)),
    decreases loaded.len(),
{
    if loaded.len() > 0 {
        let before = loaded.drop_last();
        let last = loaded[loaded.len() - 1];
        assert forall|i: int| 0 <= i < before.len() implies splittable(
            (#[trigger] before[i]).0,
            before[i].1 as int,
        ) by {
            assert(before[i] == loaded[i]);
        }
        lemma_stream_bears_data(before);
        assert(splittable(last.0, last.1 as int));
        let frags = split(last.0, last.1);
        assert forall|i: int| 0 <= i < frags.len() implies bears_data(#[trigger] frags[i]) by {
            lemma_fragment_bounds(last.0.len(), last.1, i);
        }
        assert forall|i: int| 0 <= i < stream(loaded).len() implies bears_data(
            #[trigger] stream(loaded)[i],
        ) by {
            if i < stream(before).len() {
                assert(stream(loaded)[i] == stream(before)[i]);
            } else {
                assert(stream(loaded)[i] == frags[i - stream(before).len()]);
            }
        }
        assert(entries(loaded).drop_last() =~= entries(before));
    }
}

pub proof fn lemma_entries_remaining(loaded: Seq<Sent>)
    requires
        all_splittable(loaded),
    ensures
        all_remaining(entries(loaded)),
{
    assert forall|i: int| 0 <= i < entries(loaded).len() implies (
    #[trigger] entries(loaded)[i]).remaining >= 1 by {
        let d = loaded[i];
        lemma_fragment_count_positive(d.0.len(), d.1);
    }
}

/// A new datagram does not change how acknowledgements settle earlier ones.
proof fn lemma_settle_push(u: Seq<Unacked>, x: Unacked, n: nat)
    requires
        all_remaining(u),
        n <= total_remaining(u),
    ensures
        settle(u.push(x), n) == settle(u, n).push(x),
        total_remaining(settle(u, n)) == total_remaining(u) - n,
    decreases n,
{
    if n > 0 {
        lemma_settle_push(u, x, (n - 1) as nat);
        lemma_settle(u, (n - 1) as nat);
        let v = settle(u, (n - 1) as nat);
        assert(total_remaining(v) >= 1);
        assert(v.len() > 0);
        lemma_settle_one(v);
        assert(settle_one(v.push(x)) =~= settle_one(v).push(x));
    }
}

pub proof fn lemma_settle_in_parts(u: Seq<Unacked>, a: nat, b: nat)
    ensures
        settle(settle(u, a), b) == settle(u, a + b),
    decreases b,
{
    if b > 0 {
        lemma_settle_in_parts(u, a, (b - 1) as nat);
    }
}

proof fn lemma_loaded_in_step(
    s: Channel,
    loaded: Seq<Sent>,
    sent: Seq<Frag>,
    base: int,
    max_payload: nat,
)
    requires
        sender_in_step(s, loaded, sent, base),
        s.splits_next(),
        splittable(s.send_queue[0], max_payload as int),
    ensures
        sender_in_step(
            s.loaded(max_payload),
            loaded.push((s.send_queue[0], max_payload)),
            sent,
            base,
        ),
{
    let one: Sent = (s.send_queue[0], max_payload);
    let all = loaded.push(one);
    lemma_loaded_wf(s, max_payload);
    lemma_stream_bears_data(loaded);
    lemma_entries_remaining(loaded);
    assert(all.drop_last() =~= loaded);
    assert(sent + s.frag_queue =~= sent);
    assert(entries(all) =~= entries(loaded).push(entry_of(one)));
    lemma_settle_push(entries(loaded), entry_of(one), base as nat);
}

proof fn lemma_sent_in_step(s: Channel, loaded: Seq<Sent>, sent: Seq<Frag>, base: int, now: u64)
    requires
        sender_in_step(s, loaded, sent, base),
        s.can_send(),
        s.frag_queue.len() > 0,
        s.ack_pending is Some ==> s.ack_pending->Some_0 < 16,
        now <= CLOCK_LIMIT,
    ensures
        sender_in_step(s.sent_next(now), loaded, sent.push(s.frag_queue[0]), base),
        carries(s.next_message(), sent.push(s.frag_queue[0]), sent.len() as int),
{
    let t = s.sent_next(now);
    let frag = s.frag_queue[0];
    let more = sent.push(frag);
    lemma_sent_next_wf(s, now);
    lemma_stream_bears_data(loaded);
    assert(bears_data(stream(loaded)[sent.len() as int]));
    assert(more + t.frag_queue =~= sent + s.frag_queue);
    law_data_message_round_trip(s.send_next, frag, s.ack_pending);
    assert(s.send_next == sent.len() % 16) by {
        lemma_next_number(base, s.send_base as int, s.send_next as int, s.in_flight.len() as int);
    }
    assert forall|i: int| 0 <= i < t.in_flight.len() implies carries(
        (#[trigger] t.in_flight[i]).wire,
        more,
        base + i,
    ) by {
        if i < s.in_flight.len() {
            assert(t.in_flight[i] == s.in_flight[i]);
            assert(carries(s.in_flight[i].wire, sent, base + i));
        }
    }
}

proof fn lemma_next_number(base: int, send_base: int, send_next: int, count: int)
    requires
        0 <= base,
        send_base == base % 16,
        0 <= send_next < 16,
        count == dist(send_base, send_next),
    ensures
        send_next == (base + count) % 16,
{
}

/// The datagrams that were split once the next thing was sent.
pub open spec fn loaded_after(s: Channel, loaded: Seq<Sent>, max_payload: nat) -> Seq<Sent> {
    if !s.link_dead && s.splits_next() {
        loaded.push((s.send_queue[0], max_payload))
    } else {
        loaded
    }
}

/// Whether the next thing sent is a new fragment.
pub open spec fn sends_fragment(s: Channel, max_payload: nat) -> bool {
    let t = s.loaded(max_payload);
    !s.link_dead && t.can_send() && t.frag_queue.len() > 0
}

/// A sender stays in step when it sends: what it sends is the next fragment of
/// its stream or a pure acknowledgement.
pub proof fn law_sending_follows_the_stream(
    s: Channel,
    loaded: Seq<Sent>,
    sent: Seq<Frag>,
    base: int,
    max_payload: nat,
    max: nat,
    now: u64,
)
    requires
        sender_in_step(s, loaded, sent, base),
        s.recv_wf(max),
        s.splits_next() ==> splittable(s.send_queue[0], max_payload as int),
        now <= CLOCK_LIMIT,
    ensures
        ({
            let t = s.after_send(max_payload, now);
            let all = loaded_after(s, loaded, max_payload);
            if sends_fragment(s, max_payload) {
                let more = sent.push(s.loaded(max_payload).frag_queue[0]);
                &&& sender_in_step(t, all, more, base)
                &&& s.send_outcome(max_payload, now) matches Outcome::Send(msg)
                &&& carries(msg, more, sent.len() as int)
            } else {
                &&& sender_in_step(t, all, sent, base)
                &&& s.send_outcome(max_payload, now) matches Outcome::Send(msg) ==> (
                frame_of(msg) matches Some(frame) && !frame.has_data())
            }
        }),
{
    let t = s.loaded(max_payload);
    if !s.link_dead {
        if s.splits_next() {
            lemma_loaded_in_step(s, loaded, sent, base, max_payload);
        }
        let all = loaded_after(s, loaded, max_payload);
        if t.can_send() && t.frag_queue.len() > 0 {
            lemma_sent_in_step(t, all, sent, base, now);
        }
    }
}

proof fn lemma_ack_number(base: int, m: int)
    requires
        0 <= m,
        base - 9 <= m <= base + WINDOW_SIZE,
    ensures
        base < m ==> dist(base % 16, (m + 15) % 16 + 1) == m - base,
        m <= base ==> dist(base % 16, (m + 15) % 16 + 1) == 0 || dist(
            base % 16,
            (m + 15) % 16 + 1,
        ) > WINDOW_SIZE,
        ((m + 15) % 16 + 1) % 16 == m % 16,
{
    let a = (m + 15) % 16;
    let qa = (m + 15) / 16;
    let qb = base / 16;
    assert(m + 15 == 16 * qa + a);
    assert(base == 16 * qb + base % 16);
    lemma_mod_multiples_vanish(1 - qa + qb, m - base, 16);
    assert(a + 1 - base % 16 == 16 * (1 - qa + qb) + (m - base));
    lemma_mod_multiples_vanish(1 - qa, m, 16);
    assert(a + 1 == 16 * (1 - qa) + m);
}

/// A sender stays in step with the acknowledgements of its receiver: that of
/// the first `m` fragments moves the window there, and one that is older than
/// what it knows is ignored, unless it is ten fragments late.
pub proof fn law_sender_follows_acknowledgements(
    s: Channel,
    loaded: Seq<Sent>,
    sent: Seq<Frag>,
    base: int,
    m: int,
    now: u64,
)
    requires
        sender_in_step(s, loaded, sent, base),
        0 <= m,
        base - 9 <= m <= sent.len(),
        now <= CLOCK_LIMIT,
    ensures
        sender_in_step(
            s.on_ack(((m + 15) % 16) as u8, now),
            loaded,
            sent,
            if base < m {
                m
            } else {
                base
            },
        ),
{
    let a = ((m + 15) % 16) as u8;
    lemma_ack_number(base, m);
    lemma_on_ack_wf(s, a, now);
    if base < m {
        let t = s.on_ack(a, now);
        assert(s.acked_count(a) == m - base);
        assert(s.ack_counts(a));
        lemma_settle_in_parts(entries(loaded), base as nat, (m - base) as nat);
        assert forall|i: int| 0 <= i < t.in_flight.len() implies carries(
            (#[trigger] t.in_flight[i]).wire,
            sent,
            m + i,
        ) by {
            assert(t.in_flight[i] == s.in_flight[i + (m - base)]);
            assert(carries(s.in_flight[i + (m - base)].wire, sent, base + (i + (m - base))));
        }
    } else {
        assert(!s.ack_counts(a));
    }
}

/// What goes out when the timer has run out is the oldest fragment that is not
/// acknowledged, whatever acknowledgement rides on it.
pub proof fn law_retransmission_is_the_oldest_fragment(
    s: Channel,
    loaded: Seq<Sent>,
    sent: Seq<Frag>,
    base: int,
    max: nat,
    now: u64,
)
    requires
        sender_in_step(s, loaded, sent, base),
        s.recv_wf(max),
        s.in_flight.len() > 0,
        now <= CLOCK_LIMIT,
    ensures
        carries(s.resend_message(), sent, base),
        sender_in_step(s.resent(now), loaded, sent, base),
{
    let wire = s.in_flight[0].wire;
    assert(carries(wire, sent, base + 0));
    if let Some(a) = s.ack_pending {
        law_set_ack_keeps_fragment(wire, a);
    }
    lemma_resent_wf(s, max, now);
    let t = s.resent(now);
    assert forall|i: int| 0 <= i < t.in_flight.len() implies carries(
        (#[trigger] t.in_flight[i]).wire,
        sent,
        base + i,
    ) by {
        assert(carries(s.in_flight[i].wire, sent, base + i));
        if i > 0 {
            assert(t.in_flight[i] == s.in_flight[i]);
        }
    }
}

proof fn lemma_same_receiver(s: Channel, t: Channel, sent: Seq<Frag>, n: int, max: nat)
    requires
        receiver_in_step(s, sent, n, max),
        t.recv_next == s.recv_next,
        t.recv_buf == s.recv_buf,
        t.reassembly == s.reassembly,
        t.ack_pending == s.ack_pending || t.ack_pending is None,
    ensures
        receiver_in_step(t, sent, n, max),
{
}

/// Sending leaves a receiver in step, and every acknowledgement that it sends
/// is for exactly the fragments that it has accepted. Only a retransmission
/// without a pending acknowledgement repeats an earlier one.
pub proof fn law_acknowledgements_are_honest(
    s: Channel,
    sent: Seq<Frag>,
    n: int,
    max_payload: nat,
    max: nat,
    now: u64,
)
    requires
        s.send_wf(),
        receiver_in_step(s, sent, n, max),
    ensures
        s.send_outcome(max_payload, now) matches Outcome::Send(msg) ==> (frame_of(msg) matches Some(
            frame,
        ) && (frame.ack matches Some(a) ==> a == (n + 15) % 16)),
        s.in_flight.len() > 0 && s.ack_pending is Some ==> (frame_of(s.resend_message()) matches Some(
            frame,
        ) && frame.ack == s.ack_pending),
        receiver_in_step(s.after_send(max_payload, now), sent, n, max),
        receiver_in_step(s.resent(now), sent, n, max),
{
    let t = s.loaded(max_payload);
    lemma_same_receiver(s, s.after_send(max_payload, now), sent, n, max);
    lemma_same_receiver(s, s.resent(now), sent, n, max);
    assert(t.ack_pending == s.ack_pending && t.send_next == s.send_next);
    if let Outcome::Send(msg) = s.send_outcome(max_payload, now) {
        if t.can_send() && t.frag_queue.len() > 0 {
            law_data_message_round_trip(t.send_next, t.frag_queue[0], t.ack_pending);
        } else {
            law_ack_message_round_trip(t.ack_pending->Some_0);
        }
    }
    if s.in_flight.len() > 0 && s.ack_pending is Some {
        assert(frame_of(s.in_flight[0].wire) is Some);
        law_set_ack_keeps_fragment(s.in_flight[0].wire, s.ack_pending->Some_0);
    }
}

/// Two ends that are in step: the receiver has accepted the first `n` fragments
/// of the stream and passed on `delivered`; the sender knows of the first `base`.
pub open spec fn linked(
    tx: Channel,
    rx: Channel,
    loaded: Seq<Sent>,
    sent: Seq<Frag>,
    base: int,
    n: int,
    delivered: Seq<Seq<u8>>,
    max: nat,
) -> bool {
    &&& sender_in_step(tx, loaded, sent, base)
    &&& receiver_in_step(rx, sent, n, max)
    &&& base <= n
    &&& delivered == Reassembly::fresh().delivered_by(sent.take(n), max)
}

/// Two new channels are in step: nothing was sent and nothing received.
pub proof fn law_new_channels_are_in_step(now: u64, later: u64, max: nat)
    requires
        now <= CLOCK_LIMIT,
        later <= CLOCK_LIMIT,
    ensures
        linked(
            Channel::initial(now),
            Channel::initial(later),
            Seq::empty(),
            Seq::empty(),
            0,
            0,
            Seq::empty(),
            max,
        ),
{
    let none = Seq::<Frag>::empty();
    assert(none + none =~= none);
    assert(none.take(0) =~= none);
    assert(entries(Seq::empty()) =~= Seq::<Unacked>::empty());
}

/// A fragment that reaches the receiver keeps the two ends in step, if it is
/// not ten fragments late.
pub proof fn law_link_survives_data(
    tx: Channel,
    rx: Channel,
    loaded: Seq<Sent>,
    sent: Seq<Frag>,
    base: int,
    n: int,
    delivered: Seq<Seq<u8>>,
    value: Seq<u8>,
    k: int,
    max: nat,
    now: u64,
)
    requires
        linked(tx, rx, loaded, sent, base, n, delivered, max),
        carries(value, sent, k),
        n <= k + 10,
    ensures
        linked(
            tx,
            rx.on_message(value, max, now),
            loaded,
            sent,
            base,
            n + accepted_count(rx, value, max, now),
            delivered + rx.delivered_on(value, max, now),
            max,
        ),
        k == n ==> accepted_count(rx, value, max, now) > 0,
{
    law_receiver_stays_in_step(rx, sent, n, value, k, max, now);
    let m = n + accepted_count(rx, value, max, now);
    lemma_accept_in_parts(Reassembly::fresh(), sent.take(n), sent.subrange(n, m), max);
    assert(sent.take(n) + sent.subrange(n, m) =~= sent.take(m));
}

/// An acknowledgement that the receiver gave when it had accepted `m` fragments
/// keeps the two ends in step, if it is not ten fragments late.
pub proof fn law_link_survives_acknowledgement(
    tx: Channel,
    rx: Channel,
    loaded: Seq<Sent>,
    sent: Seq<Frag>,
    base: int,
    n: int,
    delivered: Seq<Seq<u8>>,
    m: int,
    max: nat,
    now: u64,
)
    requires
        linked(tx, rx, loaded, sent, base, n, delivered, max),
        0 <= m <= n,
        base <= m + 9,
        now <= CLOCK_LIMIT,
    ensures
        linked(
            tx.on_ack(((m + 15) % 16) as u8, now),
            rx,
            loaded,
            sent,
            if base < m {
                m
            } else {
                base
            },
            n,
            delivered,
            max,
        ),
{
    law_sender_follows_acknowledgements(tx, loaded, sent, base, m, now);
}

/// Sending keeps the two ends in step.
pub proof fn law_link_survives_sending(
    tx: Channel,
    rx: Channel,
    loaded: Seq<Sent>,
    sent: Seq<Frag>,
    base: int,
    n: int,
    delivered: Seq<Seq<u8>>,
    max_payload: nat,
    max: nat,
    now: u64,
)
    requires
        linked(tx, rx, loaded, sent, base, n, delivered, max),
        tx.recv_wf(max),
        tx.splits_next() ==> splittable(tx.send_queue[0], max_payload as int),
        now <= CLOCK_LIMIT,
    ensures
        linked(
            tx.after_send(max_payload, now),
            rx,
            loaded_after(tx, loaded, max_payload),
            if sends_fragment(tx, max_payload) {
                sent.push(tx.loaded(max_payload).frag_queue[0])
            } else {
                sent
            },
            base,
            n,
            delivered,
            max,
        ),
{
    law_sending_follows_the_stream(tx, loaded, sent, base, max_payload, max, now);
    if sends_fragment(tx, max_payload) {
        let more = sent.push(tx.loaded(max_payload).frag_queue[0]);
        assert(more.take(n) =~= sent.take(n));
        assert forall|i: int| 0 <= i < rx.recv_buf.len() implies ({
            let p = n + dist(rx.recv_next as int, (#[trigger] rx.recv_buf[i]).seq as int);
            p < more.len() && rx.recv_buf[i].frag == more[p]
        }) by {
            let p = n + dist(rx.recv_next as int, rx.recv_buf[i].seq as int);
            assert(p < sent.len() && rx.recv_buf[i].frag == sent[p]);
        }
    }
}

/// What two ends in step have delivered is what was sent, in order, whole and
/// each once: a prefix of it, and all of it once all fragments are accepted.
/// Datagrams that are empty or larger than the receiver takes are left out.
pub proof fn law_delivery_is_in_order_and_exactly_once(
    tx: Channel,
    rx: Channel,
    loaded: Seq<Sent>,
    sent: Seq<Frag>,
    base: int,
    n: int,
    delivered: Seq<Seq<u8>>,
    max: nat,
)
    requires
        linked(tx, rx, loaded, sent, base, n, delivered, max),
    ensures
        delivered.is_prefix_of(all_deliverable(loaded, max)),
        n == stream(loaded).len() ==> delivered == all_deliverable(loaded, max),
{
    let all = stream(loaded);
    law_stream_is_delivered(Reassembly::fresh(), loaded, max);
    law_delivery_grows(Reassembly::fresh(), all, n, max);
    assert(sent.take(n) =~= all.take(n)) by {
        assert(all == sent + tx.frag_queue);
    }
    if n == all.len() {
        assert(all.take(n) =~= all);
    }
}

proof fn lemma_same_sender(s: Channel, t: Channel, loaded: Seq<Sent>, sent: Seq<Frag>, base: int)
    requires
        sender_in_step(s, loaded, sent, base),
        same_send_side(s, t),
    ensures
        sender_in_step(t, loaded, sent, base),
{
    assert(t.send_wf() == s.send_wf());
}

/// How many fragments of a sender are acknowledged after a message, if an
/// acknowledgement on it is for the first `m`.
pub open spec fn base_after(value: Seq<u8>, base: int, m: int) -> int {
    if frame_of(value) matches Some(frame) && frame.ack is Some && base < m {
        m
    } else {
        base
    }
}

/// The two directions of a channel do not disturb each other: every sound
/// message keeps both in step, whether it carries a fragment of the one, an
/// acknowledgement of the other, or both.
pub proof fn law_directions_are_independent(
    s: Channel,
    loaded: Seq<Sent>,
    sent: Seq<Frag>,
    base: int,
    m: int,
    peer_sent: Seq<Frag>,
    n: int,
    value: Seq<u8>,
    k: int,
    max: nat,
    now: u64,
)
    requires
        sender_in_step(s, loaded, sent, base),
        receiver_in_step(s, peer_sent, n, max),
        frame_of(value) matches Some(frame) && {
            &&& frame.has_data() ==> carries(value, peer_sent, k) && n - 10 <= k < n + WINDOW_SIZE
            &&& frame.ack matches Some(a) ==> {
                &&& a == (m + 15) % 16
                &&& 0 <= m
                &&& base - 9 <= m <= sent.len()
            }
        },
        now <= CLOCK_LIMIT,
    ensures
        sender_in_step(s.on_message(value, max, now), loaded, sent, base_after(value, base, m)),
        receiver_in_step(
            s.on_message(value, max, now),
            peer_sent,
            n + accepted_count(s, value, max, now),
            max,
        ),
{
    let frame = frame_of(value)->Some_0;
    let t = s.after_frame_ack(frame, now);
    if frame.ack is Some {
        law_sender_follows_acknowledgements(s, loaded, sent, base, m, now);
    }
    assert(sender_in_step(t, loaded, sent, base_after(value, base, m)));
    if frame.has_data() {
        law_receiver_stays_in_step(s, peer_sent, n, value, k, max, now);
        lemma_on_data_wf(t, frame.seq, frame.frag, max, now);
        lemma_same_sender(
            t,
            s.on_message(value, max, now),
            loaded,
            sent,
            base_after(value, base, m),
        );
    } else {
        lemma_same_receiver(s, t, peer_sent, n, max);
    }
}

/// Queueing a datagram disturbs neither direction.
pub proof fn law_queueing_disturbs_nothing(
    s: Channel,
    loaded: Seq<Sent>,
    sent: Seq<Frag>,
    base: int,
    peer_sent: Seq<Frag>,
    n: int,
    data: Seq<u8>,
    max: nat,
)
    requires
        sender_in_step(s, loaded, sent, base),
        receiver_in_step(s, peer_sent, n, max),
    ensures
        ({
            let t = Channel { send_queue: s.send_queue.push(data), ..s };
            &&& sender_in_step(t, loaded, sent, base)
            &&& receiver_in_step(t, peer_sent, n, max)
        }),
{
    let t = Channel { send_queue: s.send_queue.push(data), ..s };
    lemma_same_receiver(s, t, peer_sent, n, max);
}

/// One round trip is enough for progress: if the fragment that is sent again
/// when the timer has run out reaches the receiver, the receiver has an
/// acknowledgement to send, and if that comes back the window moves.
pub proof fn law_one_round_trip_makes_progress(
    tx: Channel,
    rx: Channel,
    loaded: Seq<Sent>,
    sent: Seq<Frag>,
    base: int,
    n: int,
    delivered: Seq<Seq<u8>>,
    max: nat,
    now: u64,
)
    requires
        linked(tx, rx, loaded, sent, base, n, delivered, max),
        tx.recv_wf(max),
        tx.in_flight.len() > 0,
        now <= CLOCK_LIMIT,
    ensures
        ({
            let value = tx.resend_message();
            let m = n + accepted_count(rx, value, max, now);
            let ack = ((m + 15) % 16) as u8;
            &&& base < m <= sent.len()
            &&& rx.on_message(value, max, now).ack_pending == Some(ack)
            &&& tx.ack_counts(ack)
            &&& sender_in_step(tx.on_ack(ack, now), loaded, sent, m)
        }),
{
    let value = tx.resend_message();
    let frame = frame_of(value)->Some_0;
    let m = n + accepted_count(rx, value, max, now);
    law_retransmission_is_the_oldest_fragment(tx, loaded, sent, base, max, now);
    law_receiver_stays_in_step(rx, sent, n, value, base, max, now);
    let t = rx.after_frame_ack(frame, now);
    lemma_positions(n, base);
    if base == n {
        lemma_next_in_step(t, sent, n, max, now);
    } else {
        assert(!t.in_recv_window(frame.seq));
        assert(rx.on_message(value, max, now).ack_pending is Some);
    }
    law_sender_follows_acknowledgements(tx, loaded, sent, base, m, now);
    lemma_ack_number(base, m);
}

} // verus!
