//! What a handover to another pipe keeps: the datagrams that the sender holds
//! copies of are exactly those that are not fully acknowledged.

use crate::reliable::delivery::{
    all_splittable, entries, lemma_entries_remaining, lemma_settle_in_parts,
    lemma_stream_bears_data, sender_in_step,
};
use crate::reliable::model::{
    settle, total_remaining, Channel, Outcome, Unacked, SEND_QUEUE_CAPACITY,
};
use crate::reliable::reassembly::{
    all_deliverable, law_delivery_grows, law_stream_is_delivered, splittable, stream, Reassembly,
    Sent,
};
use crate::reliable::upkeep::{all_remaining, lemma_total_at_least_len, lemma_total_from_front};
use crate::reliable::wire::{frame_of, law_ack_message_round_trip, Frag, WINDOW_SIZE};
use vstd::prelude::*;

verus! {

/// How many of the datagrams `u`, from the oldest, `n` acknowledged fragments
/// cover in full.
pub open spec fn fully_acked(u: Seq<Unacked>, n: nat) -> nat
    decreases u.len(),
{
    if u.len() == 0 || u[0].remaining > n {
        0
    } else {
        1 + fully_acked(u.skip(1), (n - u[0].remaining) as nat)
    }
}

pub open spec fn datagrams(u: Seq<Unacked>) -> Seq<Seq<u8>> {
    Seq::new(u.len(), |i: int| u[i].datagram)
}

/// Acknowledgements that do not cover the oldest datagram only lower its count.
proof fn lemma_settle_within_first(u: Seq<Unacked>, n: nat)
    requires
        u.len() > 0,
        n < u[0].remaining,
    ensures
        settle(u, n) == u.update(
            0,
            Unacked { remaining: (u[0].remaining - n) as nat, ..u[0] },
        ),
    decreases n,
{
    if n > 0 {
        lemma_settle_within_first(u, (n - 1) as nat);
    }
    assert(settle(u, n) =~= u.update(
        0,
        Unacked { remaining: (u[0].remaining - n) as nat, ..u[0] },
    ));
}

proof fn lemma_settle_past_first(u: Seq<Unacked>, n: nat)
    requires
        u.len() > 0,
        1 <= u[0].remaining <= n,
    ensures
        settle(u, n) == settle(u.skip(1), (n - u[0].remaining) as nat),
{
    let r = u[0].remaining;
    lemma_settle_within_first(u, (r - 1) as nat);
    let v = settle(u, (r - 1) as nat);
    assert(v.skip(1) =~= u.skip(1));
    assert(settle(u, r) == u.skip(1));
    lemma_settle_in_parts(u, r, (n - r) as nat);
}

proof fn lemma_settled_datagrams(u: Seq<Unacked>, n: nat)
    requires
        all_remaining(u),
    ensures
        fully_acked(u, n) <= u.len(),
        datagrams(settle(u, n)) == datagrams(u.skip(fully_acked(u, n) as int)),
        total_remaining(u.take(fully_acked(u, n) as int)) <= n,
    decreases u.len(),
{
    let j = fully_acked(u, n);
    if u.len() == 0 {
        lemma_settle_nothing(u, n);
        assert(u.skip(0) =~= u);
        assert(u.take(0) =~= u);
    } else if u[0].remaining > n {
        lemma_settle_within_first(u, n);
        assert(datagrams(settle(u, n)) =~= datagrams(u.skip(0)));
        assert(u.take(0) =~= Seq::<Unacked>::empty());
    } else {
        let w = u.skip(1);
        let rest = (n - u[0].remaining) as nat;
        assert forall|i: int| 0 <= i < w.len() implies (#[trigger] w[i]).remaining >= 1 by {
            assert(w[i] == u[i + 1]);
        }
        lemma_settle_past_first(u, n);
        lemma_settled_datagrams(w, rest);
        assert(w.skip(j - 1) =~= u.skip(j as int));
        lemma_total_from_front(u.take(j as int));
        assert(u.take(j as int).skip(1) =~= w.take(j - 1));
    }
}

proof fn lemma_settle_nothing(u: Seq<Unacked>, n: nat)
    requires
        u.len() == 0,
    ensures
        settle(u, n) == u,
    decreases n,
{
    if n > 0 {
        lemma_settle_nothing(u, (n - 1) as nat);
    }
}

proof fn lemma_stream_prefix(loaded: Seq<Sent>, j: int)
    requires
        0 <= j <= loaded.len(),
    ensures
        stream(loaded.take(j)).len() <= stream(loaded).len(),
        stream(loaded).take(stream(loaded.take(j)).len() as int) == stream(loaded.take(j)),
    decreases loaded.len(),
{
    let whole = stream(loaded);
    if j == loaded.len() {
        assert(loaded.take(j) =~= loaded);
        assert(whole.take(whole.len() as int) =~= whole);
    } else {
        let before = loaded.drop_last();
        lemma_stream_prefix(before, j);
        assert(before.take(j) =~= loaded.take(j));
        let len = stream(before.take(j)).len() as int;
        assert(whole.take(len) =~= stream(before).take(len));
    }
}

/// The datagrams of `loaded`, whole.
pub open spec fn whole(loaded: Seq<Sent>) -> Seq<Seq<u8>> {
    Seq::new(loaded.len(), |i: int| loaded[i].0)
}

/// What a handover takes over is exactly what is not fully acknowledged: the
/// datagrams that were split, save the oldest ones of which every fragment is
/// acknowledged, each whole and in sending order, and then those that wait.
pub proof fn law_handover_takes_what_is_not_acknowledged(
    s: Channel,
    loaded: Seq<Sent>,
    sent: Seq<Frag>,
    base: int,
)
    requires
        sender_in_step(s, loaded, sent, base),
    ensures
        ({
            let j = fully_acked(entries(loaded), base as nat) as int;
            &&& j <= loaded.len()
            &&& s.undelivered() == whole(loaded.skip(j)) + s.send_queue
            &&& stream(loaded.take(j)).len() <= base
            &&& j < loaded.len() ==> stream(loaded.take(j + 1)).len() > base
        }),
{
    let u = entries(loaded);
    let j = fully_acked(u, base as nat) as int;
    lemma_entries_remaining(loaded);
    lemma_settled_datagrams(u, base as nat);
    assert(datagrams(s.unacked) =~= whole(loaded.skip(j))) by {
        assert(datagrams(u.skip(j)) =~= whole(loaded.skip(j)));
    }
    assert(s.undelivered() =~= datagrams(s.unacked) + s.send_queue);
    assert(entries(loaded.take(j)) =~= u.take(j));
    lemma_take_splittable(loaded, j);
    lemma_stream_bears_data(loaded.take(j));
    if j < loaded.len() {
        lemma_first_not_covered(u, base as nat);
        assert(entries(loaded.take(j + 1)) =~= u.take(j + 1));
        lemma_take_splittable(loaded, j + 1);
        lemma_stream_bears_data(loaded.take(j + 1));
    }
}

proof fn lemma_take_splittable(loaded: Seq<Sent>, j: int)
    requires
        all_splittable(loaded),
        0 <= j <= loaded.len(),
    ensures
        all_splittable(loaded.take(j)),
{
    assert forall|i: int| 0 <= i < loaded.take(j).len() implies
        splittable(
        (#[trigger] loaded.take(j)[i]).0,
        loaded.take(j)[i].1 as int,
    ) by {
        assert(loaded.take(j)[i] == loaded[i]);
    }
}

proof fn lemma_first_not_covered(u: Seq<Unacked>, n: nat)
    requires
        fully_acked(u, n) < u.len(),
    ensures
        total_remaining(u.take(fully_acked(u, n) as int + 1)) > n,
    decreases u.len(),
{
    let j = fully_acked(u, n) as int;
    lemma_total_from_front(u.take(j + 1));
    if u[0].remaining <= n {
        let w = u.skip(1);
        lemma_first_not_covered(w, (n - u[0].remaining) as nat);
        assert(u.take(j + 1).skip(1) =~= w.take(j));
    }
}

/// A handover loses nothing: the datagrams that it does not take over have
/// all been passed on by the receiver already, which has accepted at least
/// what it acknowledged.
pub proof fn law_handover_loses_nothing(
    s: Channel,
    loaded: Seq<Sent>,
    sent: Seq<Frag>,
    base: int,
    n: int,
    max: nat,
)
    requires
        sender_in_step(s, loaded, sent, base),
        base <= n <= sent.len(),
    ensures
        ({
            let j = fully_acked(entries(loaded), base as nat) as int;
            &&& s.undelivered() == whole(loaded.skip(j)) + s.send_queue
            &&& all_deliverable(loaded.take(j), max).is_prefix_of(
                Reassembly::fresh().delivered_by(sent.take(n), max),
            )
        }),
{
    law_handover_takes_what_is_not_acknowledged(s, loaded, sent, base);
    let j = fully_acked(entries(loaded), base as nat) as int;
    let done = loaded.take(j);
    let len = stream(done).len() as int;
    lemma_take_splittable(loaded, j);
    lemma_stream_prefix(loaded, j);
    law_stream_is_delivered(Reassembly::fresh(), done, max);
    assert(sent.take(n).take(len) =~= stream(loaded).take(len)) by {
        assert(stream(loaded) == sent + s.frag_queue);
    }
    law_delivery_grows(Reassembly::fresh(), sent.take(n), len, max);
}

/// After a handover nothing new goes out on the old pipe: only an
/// acknowledgement that is due, or a fragment that was in flight already.
pub proof fn law_handover_stops_the_sender(s: Channel, max_payload: nat, now: u64)
    requires
        s.ack_pending is Some ==> s.ack_pending->Some_0 < 16,
    ensures
        s.abandoned().send_outcome(max_payload, now) matches Outcome::Send(msg) ==> (frame_of(
            msg,
        ) matches Some(frame) && !frame.has_data()),
        s.abandoned().after_send(max_payload, now).in_flight == s.in_flight,
        s.abandoned().undelivered() == Seq::<Seq<u8>>::empty(),
{
    assert(s.abandoned().undelivered() =~= Seq::<Seq<u8>>::empty());
    if s.ack_pending is Some {
        law_ack_message_round_trip(s.ack_pending->Some_0);
    }
}

/// The sender never holds more copies of datagrams than the window has
/// fragments and one.
pub proof fn law_copies_are_bounded(s: Channel)
    requires
        s.send_wf(),
    ensures
        s.unacked.len() <= WINDOW_SIZE + 1,
        s.unacked.len() <= SEND_QUEUE_CAPACITY,
{
    if s.unacked.len() > 0 {
        let older = s.unacked.drop_last();
        assert forall|i: int| 0 <= i < older.len() implies (#[trigger] older[i]).remaining >= 1 by {
            assert(older[i] == s.unacked[i]);
        }
        lemma_total_at_least_len(older);
    }
}

/// What is outstanding adds up, datagram by datagram.
pub proof fn law_outstanding_adds_up(u: Seq<Unacked>, x: Unacked)
    ensures
        total_remaining(Seq::<Unacked>::empty()) == 0,
        total_remaining(u.push(x)) == total_remaining(u) + x.remaining,
{
    assert(u.push(x).drop_last() =~= u);
}

proof fn lemma_total_of_longer_prefix(u: Seq<Unacked>, j: int)
    requires
        1 <= j <= u.len(),
    ensures
        total_remaining(u.take(j)) == u[0].remaining + total_remaining(u.skip(1).take(j - 1)),
{
    lemma_total_from_front(u.take(j));
    assert(u.take(j).skip(1) =~= u.skip(1).take(j - 1));
}

/// Acknowledged fragments are taken off the oldest datagrams first: those that
/// they cover in full are done with, the next one has as many fewer
/// outstanding, and later ones are as they were. Once all are covered, none is
/// left.
pub proof fn law_oldest_datagrams_settle_first(u: Seq<Unacked>, n: nat, j: int)
    requires
        forall|i: int| 0 <= i < u.len() ==> (#[trigger] u[i]).remaining >= 1,
    ensures
        total_remaining(u) <= n ==> settle(u, n).len() == 0,
        0 <= j < u.len() && total_remaining(u.take(j)) <= n < total_remaining(u.take(j + 1))
            ==> settle(u, n) == u.skip(j).update(
            0,
            Unacked {
                remaining: (total_remaining(u.take(j + 1)) - n) as nat,
                datagram: u[j].datagram,
            },
        ),
    decreases u.len(),
{
    if u.len() == 0 {
        lemma_settle_nothing(u, n);
    } else if u[0].remaining > n {
        lemma_settle_within_first(u, n);
        lemma_total_from_front(u);
        if 0 < j < u.len() {
            lemma_total_of_longer_prefix(u, j);
        } else if j == 0 {
            lemma_total_of_longer_prefix(u, 1);
            assert(u.skip(1).take(0) =~= Seq::<Unacked>::empty());
            assert(u.skip(0) =~= u);
        }
    } else {
        let w = u.skip(1);
        let rest = (n - u[0].remaining) as nat;
        assert forall|i: int| 0 <= i < w.len() implies (#[trigger] w[i]).remaining >= 1 by {
            assert(w[i] == u[i + 1]);
        }
        lemma_settle_past_first(u, n);
        lemma_total_from_front(u);
        law_oldest_datagrams_settle_first(w, rest, j - 1);
        if 0 <= j < u.len() {
            lemma_total_of_longer_prefix(u, j + 1);
            if j == 0 {
                assert(w.take(0) =~= Seq::<Unacked>::empty());
            } else {
                lemma_total_of_longer_prefix(u, j);
                assert(w.skip(j - 1) =~= u.skip(j));
            }
        }
    }
}

} // verus!
