//! Splitting datagrams into fragments and putting them together again.

use crate::reliable::wire::Frag;
use vstd::arithmetic::div_mod::lemma_fundamental_div_mod;
use vstd::prelude::*;

verus! {

/// The datagram that a receiver is putting together.
#[verifier::ext_equal]
pub struct Reassembly {
    /// Payload since the last first fragment.
    pub buf: Seq<u8>,
    /// The datagram grew too large; its remaining fragments are dropped.
    pub overflow: bool,
}

impl Reassembly {
    /// Nothing received of the next datagram yet.
    pub open spec fn fresh() -> Reassembly {
        Reassembly { buf: Seq::empty(), overflow: false }
    }

    pub open spec fn wf(self, max: nat) -> bool {
        &&& self.buf.len() <= max
        &&& self.overflow ==> self.buf.len() == 0
    }

    /// With the payload of `frag` taken in; a first fragment discards what came before it.
    pub open spec fn absorb(self, frag: Frag, max: nat) -> Reassembly {
        let start = if frag.first {
            Self::fresh()
        } else {
            self
        };
        if start.overflow {
            start
        } else if start.buf.len() + frag.payload.len() > max {
            Reassembly { buf: Seq::empty(), overflow: true }
        } else {
            Reassembly { buf: start.buf + frag.payload, overflow: false }
        }
    }

    /// After `frag`; a last fragment ends the datagram.
    pub open spec fn accept(self, frag: Frag, max: nat) -> Reassembly {
        if frag.last {
            Self::fresh()
        } else {
            self.absorb(frag, max)
        }
    }

    /// The datagram that `frag` completes, if any. An empty one is not passed on.
    pub open spec fn completed_by(self, frag: Frag, max: nat) -> Seq<Seq<u8>> {
        let absorbed = self.absorb(frag, max);
        if frag.last && absorbed.buf.len() > 0 {
            seq![absorbed.buf]
        } else {
            Seq::empty()
        }
    }

    /// After all of `frags`, in order.
    pub open spec fn accept_all(self, frags: Seq<Frag>, max: nat) -> Reassembly
        decreases frags.len(),
    {
        if frags.len() == 0 {
            self
        } else {
            self.accept_all(frags.drop_last(), max).accept(frags.last(), max)
        }
    }

    /// The datagrams that `frags` complete, in order.
    pub open spec fn delivered_by(self, frags: Seq<Frag>, max: nat) -> Seq<Seq<u8>>
        decreases frags.len(),
    {
        if frags.len() == 0 {
            Seq::empty()
        } else {
            self.delivered_by(frags.drop_last(), max) + self.accept_all(
                frags.drop_last(),
                max,
            ).completed_by(frags.last(), max)
        }
    }
}

/// How many fragments a datagram of `len` bytes takes at `max_payload` bytes each.
pub open spec fn fragment_count(len: nat, max_payload: nat) -> nat {
    if len <= max_payload {
        1
    } else {
        ((len + max_payload - 1) / max_payload as int) as nat
    }
}

/// Fragment `i` of `datagram`: the `i`th run of `max_payload` bytes, with the
/// first and the last one marked.
pub open spec fn fragment_at(datagram: Seq<u8>, max_payload: nat, i: int) -> Frag {
    let n = fragment_count(datagram.len(), max_payload);
    Frag {
        payload: datagram.subrange(
            i * max_payload,
            if i == n - 1 {
                datagram.len() as int
            } else {
                (i + 1) * max_payload
            },
        ),
        first: i == 0,
        last: i == n - 1,
    }
}

/// The fragments of `datagram`, each with at most `max_payload` bytes.
pub open spec fn split(datagram: Seq<u8>, max_payload: nat) -> Seq<Frag> {
    Seq::new(
        fragment_count(datagram.len(), max_payload),
        |i: int| fragment_at(datagram, max_payload, i),
    )
}

/// Whether a datagram can be split at `max_payload` bytes per fragment.
pub open spec fn splittable(datagram: Seq<u8>, max_payload: int) -> bool {
    max_payload > 0 || (max_payload == 0 && datagram.len() == 0)
}

/// A datagram takes at least one fragment.
pub proof fn lemma_fragment_count_positive(len: nat, max_payload: nat)
    requires
        max_payload > 0 || len == 0,
    ensures
        fragment_count(len, max_payload) >= 1,
{
    if len > max_payload {
        let m = max_payload as int;
        lemma_fundamental_div_mod(len + m - 1, m);
        let n = (len + m - 1) / m;
        let r = (len + m - 1) % m;
        assert(n >= 1) by (nonlinear_arith)
            requires
                len + m - 1 == m * n + r,
                r < m,
                len > m,
                m > 0,
        ;
    }
}

/// Two ways to round a quotient up.
pub proof fn lemma_count_of_full(len: int, max_payload: int)
    requires
        0 < max_payload < len,
    ensures
        fragment_count(len as nat, max_payload as nat) == (len - 1) / max_payload + 1,
{
    vstd::arithmetic::div_mod::lemma_div_plus_one(len - 1, max_payload);
    assert(0 <= (len - 1) / max_payload) by (nonlinear_arith)
        requires
            0 < max_payload < len,
    ;
}

/// Where the runs of `split` begin and end.
pub proof fn lemma_fragment_bounds(len: nat, max_payload: nat, i: int)
    requires
        max_payload > 0 || len == 0,
        0 <= i < fragment_count(len, max_payload),
    ensures
        0 <= i * max_payload <= len,
        i + 1 < fragment_count(len, max_payload) ==> (i + 1) * max_payload < len,
        i + 1 == fragment_count(len, max_payload) ==> len <= (i + 1) * max_payload,
        (i + 1) * max_payload == i * max_payload + max_payload,
{
    assert((i + 1) * max_payload == i * max_payload + max_payload) by (nonlinear_arith);
    if len <= max_payload {
        assert(i == 0);
        assert(i * max_payload == 0) by (nonlinear_arith)
            requires
                i == 0,
        ;
    } else {
        let m = max_payload as int;
        let n = (len + m - 1) / m;
        lemma_fundamental_div_mod(len + m - 1, m);
        let r = (len + m - 1) % m;
        assert(len + m - 1 == m * n + r);
        assert(0 <= r < m);
        assert(0 <= i * m) by (nonlinear_arith)
            requires
                0 <= i,
                m > 0,
        ;
        assert((i + 1) * m <= m * n) by (nonlinear_arith)
            requires
                i + 1 <= n,
                m > 0,
        ;
        if i + 1 < n {
            assert((i + 1) * m <= m * n - m) by (nonlinear_arith)
                requires
                    i + 1 <= n - 1,
                    m > 0,
            ;
        } else {
            assert((i + 1) * m == m * n) by (nonlinear_arith)
                requires
                    i + 1 == n,
            ;
        }
    }
}

/// What a receiver holds after the first `i` fragments of `datagram`.
pub open spec fn held_after(datagram: Seq<u8>, max_payload: nat, max: nat, i: int) -> Reassembly {
    if i * max_payload > max {
        Reassembly { buf: Seq::empty(), overflow: true }
    } else {
        Reassembly { buf: datagram.subrange(0, i * max_payload), overflow: false }
    }
}

proof fn lemma_held_after(start: Reassembly, datagram: Seq<u8>, max_payload: nat, max: nat, i: int)
    requires
        splittable(datagram, max_payload as int),
        1 <= i < fragment_count(datagram.len(), max_payload),
    ensures
        start.accept_all(split(datagram, max_payload).take(i), max) == held_after(
            datagram,
            max_payload,
            max,
            i,
        ),
        start.delivered_by(split(datagram, max_payload).take(i), max) == Seq::<Seq<u8>>::empty(),
    decreases i,
{
    let frags = split(datagram, max_payload);
    let taken = frags.take(i);
    let frag = frags[i - 1];
    lemma_fragment_bounds(datagram.len(), max_payload, i - 1);
    assert(taken.drop_last() =~= frags.take(i - 1));
    assert(taken.last() == frag);
    assert(frag.payload.len() == max_payload);
    if i == 1 {
        reveal_with_fuel(Reassembly::delivered_by, 2);
        assert(frags.take(0) =~= Seq::<Frag>::empty());
        assert(0 * max_payload == 0);
        assert(Seq::<u8>::empty() + frag.payload =~= datagram.subrange(0, i * max_payload));
    } else {
        lemma_held_after(start, datagram, max_payload, max, i - 1);
        assert(datagram.subrange(0, (i - 1) * max_payload) + frag.payload =~= datagram.subrange(
            0,
            i * max_payload,
        ));
    }
    assert(start.accept_all(taken, max) =~= held_after(datagram, max_payload, max, i));
    assert(start.delivered_by(taken, max) =~= Seq::<Seq<u8>>::empty());
}

/// The fragments of a datagram, received in order, give the datagram back,
/// whole and once, whatever was received before them; one that is empty or
/// larger than `max` is dropped. The receiver is then ready for the next one.
pub proof fn law_split_reassembles(
    start: Reassembly,
    datagram: Seq<u8>,
    max_payload: nat,
    max: nat,
)
    requires
        splittable(datagram, max_payload as int),
    ensures
        start.accept_all(split(datagram, max_payload), max) == Reassembly::fresh(),
        start.delivered_by(split(datagram, max_payload), max) == deliverable(datagram, max),
{
    let frags = split(datagram, max_payload);
    let n = fragment_count(datagram.len(), max_payload) as int;
    lemma_fragment_count_positive(datagram.len(), max_payload);
    lemma_fragment_bounds(datagram.len(), max_payload, n - 1);
    let frag = frags.last();
    if n == 1 {
        reveal_with_fuel(Reassembly::delivered_by, 2);
        assert(frags.drop_last() =~= Seq::<Frag>::empty());
        assert(0 * max_payload == 0);
        assert(Seq::<u8>::empty() + frag.payload =~= datagram);
    } else {
        lemma_held_after(start, datagram, max_payload, max, n - 1);
        assert(frags.drop_last() =~= frags.take(n - 1));
        lemma_fragment_bounds(datagram.len(), max_payload, n - 2);
        assert(datagram.subrange(0, (n - 1) * max_payload) + frag.payload =~= datagram);
    }
    assert(start.delivered_by(frags, max) =~= deliverable(datagram, max));
}

/// What the receiver passes on of a datagram.
pub open spec fn deliverable(datagram: Seq<u8>, max: nat) -> Seq<Seq<u8>> {
    if 0 < datagram.len() <= max {
        seq![datagram]
    } else {
        Seq::empty()
    }
}

/// A datagram together with the payload size at which it was split.
pub type Sent = (Seq<u8>, nat);

/// The fragments of several datagrams, one after the other.
pub open spec fn stream(sent: Seq<Sent>) -> Seq<Frag>
    decreases sent.len(),
{
    if sent.len() == 0 {
        Seq::empty()
    } else {
        stream(sent.drop_last()) + split(sent.last().0, sent.last().1)
    }
}

/// What the receiver passes on of several datagrams.
pub open spec fn all_deliverable(sent: Seq<Sent>, max: nat) -> Seq<Seq<u8>>
    decreases sent.len(),
{
    if sent.len() == 0 {
        Seq::empty()
    } else {
        all_deliverable(sent.drop_last(), max) + deliverable(sent.last().0, max)
    }
}

/// Receiving `a` and then `b` is receiving them as one sequence.
pub proof fn lemma_accept_in_parts(start: Reassembly, a: Seq<Frag>, b: Seq<Frag>, max: nat)
    ensures
        start.accept_all(a + b, max) == start.accept_all(a, max).accept_all(b, max),
        start.delivered_by(a + b, max) == start.delivered_by(a, max) + start.accept_all(
            a,
            max,
        ).delivered_by(b, max),
    decreases b.len(),
{
    if b.len() == 0 {
        assert(a + b =~= a);
        assert(start.delivered_by(a, max) + Seq::<Seq<u8>>::empty() =~= start.delivered_by(a, max));
    } else {
        lemma_accept_in_parts(start, a, b.drop_last(), max);
        assert((a + b).drop_last() =~= a + b.drop_last());
        assert((a + b).last() == b.last());
        let mid = start.accept_all(a, max);
        let last = mid.accept_all(b.drop_last(), max).completed_by(b.last(), max);
        assert(start.delivered_by(a + b, max) == start.delivered_by(a + b.drop_last(), max) + last);
        assert(start.delivered_by(a, max) + mid.delivered_by(b.drop_last(), max) + last
            =~= start.delivered_by(a, max) + (mid.delivered_by(b.drop_last(), max) + last));
    }
}

/// A receiver that accepts all fragments of several datagrams in order passes
/// on exactly those datagrams, in order and once each, save the empty ones and
/// those larger than `max`.
pub proof fn law_stream_is_delivered(start: Reassembly, sent: Seq<Sent>, max: nat)
    requires
        forall|i: int|
            0 <= i < sent.len() ==> splittable((#[trigger] sent[i]).0, sent[i].1 as int),
    ensures
        start.delivered_by(stream(sent), max) == all_deliverable(sent, max),
    decreases sent.len(),
{
    if sent.len() > 0 {
        let before = sent.drop_last();
        assert forall|i: int| 0 <= i < before.len() implies splittable(
            (#[trigger] before[i]).0,
            before[i].1 as int,
        ) by {
            assert(before[i] == sent[i]);
        }
        law_stream_is_delivered(start, before, max);
        let last = sent[sent.len() - 1];
        lemma_accept_in_parts(start, stream(before), split(last.0, last.1), max);
        law_split_reassembles(start.accept_all(stream(before), max), last.0, last.1, max);
    }
}

/// A receiver that has accepted only the first `n` fragments of a stream has
/// passed on a prefix of what it passes on once it has them all.
pub proof fn law_delivery_grows(start: Reassembly, frags: Seq<Frag>, n: int, max: nat)
    requires
        0 <= n <= frags.len(),
    ensures
        start.delivered_by(frags.take(n), max).is_prefix_of(start.delivered_by(frags, max)),
{
    assert(frags.take(n) + frags.skip(n) =~= frags);
    lemma_accept_in_parts(start, frags.take(n), frags.skip(n), max);
    let got = start.delivered_by(frags.take(n), max);
    assert(start.delivered_by(frags, max).subrange(0, got.len() as int) =~= got);
}

/// The payloads of `frags`, one after the other.
pub open spec fn joined(frags: Seq<Frag>) -> Seq<u8>
    decreases frags.len(),
{
    if frags.len() == 0 {
        Seq::empty()
    } else {
        joined(frags.drop_last()) + frags.last().payload
    }
}

proof fn lemma_joined_prefix(datagram: Seq<u8>, max_payload: nat, i: int)
    requires
        max_payload > 0 || datagram.len() == 0,
        0 <= i <= fragment_count(datagram.len(), max_payload),
    ensures
        joined(split(datagram, max_payload).take(i)) == if i == fragment_count(
            datagram.len(),
            max_payload,
        ) {
            datagram
        } else {
            datagram.subrange(0, i * max_payload)
        },
    decreases i,
{
    let frags = split(datagram, max_payload);
    lemma_fragment_count_positive(datagram.len(), max_payload);
    if i == 0 {
        assert(0 * max_payload == 0);
        assert(frags.take(0) =~= Seq::<Frag>::empty());
        assert(datagram.subrange(0, 0) =~= Seq::<u8>::empty());
    } else {
        lemma_joined_prefix(datagram, max_payload, i - 1);
        lemma_fragment_bounds(datagram.len(), max_payload, i - 1);
        assert(frags.take(i).drop_last() =~= frags.take(i - 1));
        assert(frags.take(i).last() == frags[i - 1]);
        let n = fragment_count(datagram.len(), max_payload);
        if i == n {
            assert(datagram.subrange(0, (i - 1) * max_payload) + frags[i - 1].payload
                =~= datagram);
        } else {
            assert(datagram.subrange(0, (i - 1) * max_payload) + frags[i - 1].payload
                =~= datagram.subrange(0, i * max_payload));
        }
    }
}

/// The fragments of a datagram hold its bytes in order. All but the last have
/// as many as fit, and the last has some unless the datagram is empty, which
/// takes one fragment. The first is marked as the first, the last as the last.
pub proof fn law_split_keeps_every_byte(datagram: Seq<u8>, max_payload: nat)
    requires
        max_payload > 0 || datagram.len() == 0,
    ensures
        ({
            let frags = split(datagram, max_payload);
            &&& frags.len() >= 1
            &&& joined(frags) == datagram
            &&& forall|i: int|
                0 <= i < frags.len() ==> {
                    &&& (#[trigger] frags[i]).first <==> i == 0
                    &&& frags[i].last <==> i == frags.len() - 1
                    &&& frags[i].payload.len() <= max_payload
                    &&& i < frags.len() - 1 ==> frags[i].payload.len() == max_payload
                    &&& datagram.len() > 0 ==> frags[i].payload.len() > 0
                }
        }),
{
    let frags = split(datagram, max_payload);
    let n = fragment_count(datagram.len(), max_payload);
    lemma_fragment_count_positive(datagram.len(), max_payload);
    lemma_joined_prefix(datagram, max_payload, n as int);
    assert(frags.take(n as int) =~= frags);
    assert forall|i: int| 0 <= i < frags.len() implies {
        &&& (#[trigger] frags[i]).first <==> i == 0
        &&& frags[i].last <==> i == frags.len() - 1
        &&& frags[i].payload.len() <= max_payload
        &&& i < frags.len() - 1 ==> frags[i].payload.len() == max_payload
        &&& datagram.len() > 0 ==> frags[i].payload.len() > 0
    } by {
        lemma_fragment_bounds(datagram.len(), max_payload, i);
        if i > 0 {
            lemma_fragment_bounds(datagram.len(), max_payload, i - 1);
        } else {
            assert(0 * max_payload == 0);
        }
    }
}

/// Fragments are taken in one after the other, and what each completes is
/// passed on in that order.
pub proof fn law_fragments_are_taken_one_by_one(
    start: Reassembly,
    frags: Seq<Frag>,
    frag: Frag,
    max: nat,
)
    ensures
        start.accept_all(Seq::empty(), max) == start,
        start.delivered_by(Seq::empty(), max) == Seq::<Seq<u8>>::empty(),
        start.accept_all(frags.push(frag), max) == start.accept_all(frags, max).accept(frag, max),
        start.delivered_by(frags.push(frag), max) == start.delivered_by(frags, max)
            + start.accept_all(frags, max).completed_by(frag, max),
{
    assert(frags.push(frag).drop_last() =~= frags);
}

/// What continues a datagram is added to what is there, as long as that is no
/// more than `max` bytes; once it is more, all of it is gone, and so is what
/// follows. Nothing is passed on before the last fragment.
pub proof fn law_payloads_are_collected(start: Reassembly, frags: Seq<Frag>, max: nat)
    requires
        forall|i: int|
            0 <= i < frags.len() ==> !(#[trigger] frags[i]).first && !frags[i].last,
        start.buf.len() <= max,
    ensures
        ({
            let held = start.accept_all(frags, max);
            &&& start.overflow ==> held == start
            &&& !start.overflow && start.buf.len() + joined(frags).len() <= max ==> held.buf
                == start.buf + joined(frags) && !held.overflow
            &&& !start.overflow && start.buf.len() + joined(frags).len() > max ==> held.buf.len()
                == 0 && held.overflow
            &&& start.delivered_by(frags, max).len() == 0
        }),
    decreases frags.len(),
{
    if frags.len() == 0 {
        assert(start.buf + joined(frags) =~= start.buf);
    } else {
        let before = frags.drop_last();
        assert forall|i: int| 0 <= i < before.len() implies !(#[trigger] before[i]).first
            && !before[i].last by {
            assert(before[i] == frags[i]);
        }
        law_payloads_are_collected(start, before, max);
        let last = frags[frags.len() - 1];
        assert(!last.first && !last.last);
        assert(start.buf + (joined(before) + last.payload) =~= (start.buf + joined(before))
            + last.payload);
    }
}

/// A first fragment makes the receiver forget what it held, and counts as the
/// continuation of nothing. A last fragment is taken in like any other; what is
/// then held is passed on if it is not empty, and the receiver holds nothing.
/// No other fragment has anything passed on.
pub proof fn law_first_and_last_fragments(start: Reassembly, frag: Frag, max: nat)
    ensures
        Reassembly::fresh().buf.len() == 0,
        !Reassembly::fresh().overflow,
        frag.first ==> {
            let continued = Frag { first: false, ..frag };
            &&& start.accept(frag, max) == Reassembly::fresh().accept(continued, max)
            &&& start.completed_by(frag, max) == Reassembly::fresh().completed_by(continued, max)
        },
        frag.last ==> {
            let held = start.accept(Frag { last: false, ..frag }, max).buf;
            &&& start.accept(frag, max) == Reassembly::fresh()
            &&& held.len() > 0 ==> start.completed_by(frag, max) == seq![held]
            &&& held.len() == 0 ==> start.completed_by(frag, max).len() == 0
        },
        !frag.last ==> start.completed_by(frag, max).len() == 0,
{
}

/// The fragments of a datagram give it back once, if it is not empty and has
/// at most `max` bytes, and nothing otherwise.
pub proof fn law_datagrams_come_back(start: Reassembly, datagram: Seq<u8>, max_payload: nat, max: nat)
    requires
        max_payload > 0 || datagram.len() == 0,
    ensures
        0 < datagram.len() <= max ==> start.delivered_by(split(datagram, max_payload), max)
            == seq![datagram],
        datagram.len() == 0 || datagram.len() > max ==> start.delivered_by(
            split(datagram, max_payload),
            max,
        ).len() == 0,
{
    law_split_reassembles(start, datagram, max_payload, max);
}

} // verus!
