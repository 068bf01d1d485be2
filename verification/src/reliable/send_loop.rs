//! The decisions of the send loop.
//!
//! The loop itself belongs to the caller: it asks [`SendLoop::poll`] what to
//! do, does it, and reports a timer that ran out to
//! [`SendLoop::timer_expired`].
//!
//! A link is dead when [`LINK_DEAD_DEADLINE`] passes without an
//! acknowledgement that moves the window. How often the oldest fragment is
//! sent again meanwhile is a matter of its own: the interval doubles each
//! time, and starts over only when the window moves, not when something new
//! is sent.

use crate::reliable::channel::ReliableChannel;
use crate::reliable::model::{payload_room, Channel, Outcome};
use crate::reliable::rto::{
    law_timeout_is_bounded, ACK_TIMEOUT, ACK_TIMEOUT_MAX, CLOCK_LIMIT, LINK_DEAD_DEADLINE,
};
use crate::reliable::state::SendAction;
use crate::reliable::upkeep::{lemma_on_ack_wf, lemma_on_data_wf};
use crate::reliable::wire::frame_of;
use vstd::prelude::*;

verus! {

/// What the loop remembers from one step to the next.
#[derive(Clone, Copy)]
pub struct SendLoop {
    /// How long to wait for an acknowledgement of the oldest fragment.
    pub timeout: u64,
    /// The last progress at which `timeout` was refreshed; `None` while
    /// nothing is in flight.
    pub tracked_progress_at: Option<u64>,
}

/// What the loop does next.
pub enum Step {
    /// Send this message, then pause for
    /// [`INTER_FRAME_GAP`](crate::reliable::rto::INTER_FRAME_GAP).
    Transmit(Vec<u8>),
    /// End: the link is dead.
    LinkDead,
    /// Sleep until something happens on the channel or the time `until` comes,
    /// if there is one. If it comes, and there is a `retransmit_at`, report it
    /// to [`SendLoop::timer_expired`].
    Sleep { until: Option<u64>, retransmit_at: Option<u64> },
}

pub enum StepView {
    Transmit(Seq<u8>),
    LinkDead,
    Sleep { until: Option<u64>, retransmit_at: Option<u64> },
}

impl View for Step {
    type V = StepView;

    open spec fn view(&self) -> StepView {
        match self {
            Step::Transmit(msg) => StepView::Transmit(msg@),
            Step::LinkDead => StepView::LinkDead,
            Step::Sleep { until, retransmit_at } => StepView::Sleep {
                until: *until,
                retransmit_at: *retransmit_at,
            },
        }
    }
}

/// Outcome of [`SendLoop::poll`].
pub struct Polled {
    pub step: Step,
    /// A datagram left the queue, so a sender that waits for room should look again.
    pub queue_space: bool,
}

pub open spec fn min_of(a: int, b: int) -> int {
    if a <= b {
        a
    } else {
        b
    }
}

impl Channel {
    /// When the link is dead if the window does not move before.
    pub open spec fn dead_at(self) -> int {
        self.last_progress_at + LINK_DEAD_DEADLINE
    }

    /// Whether the link is dead for want of progress.
    pub open spec fn is_stuck(self, now: u64) -> bool {
        self.in_flight.len() > 0 && now >= self.dead_at()
    }
}

impl SendLoop {
    pub open spec fn wf(self) -> bool {
        ACK_TIMEOUT <= self.timeout <= ACK_TIMEOUT_MAX
    }

    pub open spec fn initial() -> SendLoop {
        SendLoop { timeout: ACK_TIMEOUT, tracked_progress_at: None }
    }

    /// After a look at a channel that has nothing to send: the timeout is
    /// refreshed when there was progress, or nothing was in flight before.
    pub open spec fn observed(self, s: Channel) -> SendLoop {
        if s.in_flight.len() == 0 {
            SendLoop { tracked_progress_at: None, ..self }
        } else {
            SendLoop {
                timeout: if self.tracked_progress_at == Some(s.last_progress_at) {
                    self.timeout
                } else {
                    s.rto.timeout()
                },
                tracked_progress_at: Some(s.last_progress_at),
            }
        }
    }

    /// When the oldest fragment is sent again. It counts from the last time
    /// that it was sent, however often the loop was woken since.
    pub open spec fn retransmit_at(self, s: Channel) -> int {
        s.in_flight[0].last_sent_at + self.timeout
    }

    /// When a sleep ends: with the first of what may have to be done.
    pub open spec fn sleep_until(self, s: Channel) -> Option<u64> {
        if s.in_flight.len() == 0 {
            s.ack_deadline
        } else {
            let timer = min_of(self.retransmit_at(s), s.dead_at());
            match s.ack_deadline {
                Some(deadline) => Some(min_of(deadline as int, timer) as u64),
                None => Some(timer as u64),
            }
        }
    }

    /// What is done on a channel that has nothing to send.
    pub open spec fn wait_step(self, s: Channel, now: u64) -> StepView {
        if s.is_stuck(now) {
            StepView::LinkDead
        } else {
            StepView::Sleep {
                until: self.sleep_until(s),
                retransmit_at: if s.in_flight.len() == 0 {
                    None
                } else {
                    Some(self.retransmit_at(s) as u64)
                },
            }
        }
    }

    /// What is done next.
    pub open spec fn step(self, s: Channel, max_payload: nat, now: u64) -> StepView {
        match s.send_outcome(max_payload, now) {
            Outcome::Send(msg) => StepView::Transmit(msg),
            Outcome::Dead => StepView::LinkDead,
            Outcome::Wait => {
                let t = s.after_send(max_payload, now);
                self.observed(t).wait_step(t, now)
            },
        }
    }

    /// The loop after that.
    pub open spec fn after_step(self, s: Channel, max_payload: nat, now: u64) -> SendLoop {
        if s.send_outcome(max_payload, now) is Wait {
            self.observed(s.after_send(max_payload, now))
        } else {
            self
        }
    }

    /// The channel after that.
    pub open spec fn channel_after(s: Channel, max_payload: nat, now: u64) -> Channel {
        let t = s.after_send(max_payload, now);
        if s.send_outcome(max_payload, now) is Wait && t.is_stuck(now) {
            Channel { link_dead: true, ..t }
        } else {
            t
        }
    }

    /// After a retransmission.
    pub open spec fn backed_off(self) -> SendLoop {
        SendLoop { timeout: min_of(self.timeout * 2, ACK_TIMEOUT_MAX as int) as u64, ..self }
    }

    pub fn new() -> (l: Self)
        ensures
            l == Self::initial(),
            l.wf(),
    {
        SendLoop { timeout: ACK_TIMEOUT, tracked_progress_at: None }
    }

    /// Decides what the loop does next.
    pub fn poll(&mut self, ch: &mut ReliableChannel, now: u64) -> (polled: Polled)
        requires
            old(self).wf(),
            old(ch).wf(),
            old(ch).can_split_next(),
            now <= CLOCK_LIMIT,
        ensures
            final(self).wf(),
            final(ch).wf(),
            polled.step@ == old(self).step(
                old(ch).state@,
                payload_room(old(ch).chunk_size) as nat,
                now,
            ),
            polled.queue_space == (!old(ch).state@.link_dead && old(ch).state@.splits_next()),
            *final(self) == old(self).after_step(
                old(ch).state@,
                payload_room(old(ch).chunk_size) as nat,
                now,
            ),
            final(ch).state@ == Self::channel_after(
                old(ch).state@,
                payload_room(old(ch).chunk_size) as nat,
                now,
            ),
            final(ch).same_but_state(*old(ch)),
    {
        let sending = ch.next_send_action(now);
        let queue_space = sending.queue_space;
        match sending.action {
            SendAction::Dead => {
                return Polled { step: Step::LinkDead, queue_space };
            },
            SendAction::Send(msg) => {
                return Polled { step: Step::Transmit(msg), queue_space };
            },
            SendAction::Wait => {},
        }
        let ghost t = ch.state@;
        if ch.state.in_flight.len() == 0 {
            self.tracked_progress_at = None;
            let step = Step::Sleep { until: ch.state.ack_deadline, retransmit_at: None };
            return Polled { step, queue_space };
        }
        let last_progress_at: u64 = ch.state.last_progress_at;
        let fresh = match self.tracked_progress_at {
            Some(seen) => seen != last_progress_at,
            None => true,
        };
        if fresh {
            self.timeout = ch.state.rto.rto();
        }
        self.tracked_progress_at = Some(last_progress_at);
        let dead_at: u64 = last_progress_at + LINK_DEAD_DEADLINE;
        if now >= dead_at {
            ch.mark_dead();
            return Polled { step: Step::LinkDead, queue_space };
        }
        let last_sent_at: u64 = ch.state.in_flight[0].last_sent_at;
        assert(t.in_flight[0].last_sent_at == last_sent_at);
        let retransmit_at: u64 = last_sent_at + self.timeout;
        let timer: u64 = if retransmit_at <= dead_at {
            retransmit_at
        } else {
            dead_at
        };
        let until: u64 = match ch.state.ack_deadline {
            Some(deadline) => if deadline <= timer {
                deadline
            } else {
                timer
            },
            None => timer,
        };
        let step = Step::Sleep { until: Some(until), retransmit_at: Some(retransmit_at) };
        Polled { step, queue_space }
    }

    /// A sleep that knew of `retransmit_at` came to its end. Unless that time
    /// is still to come, the oldest fragment goes out again, and the next
    /// timeout is twice as long.
    pub fn timer_expired(
        &mut self,
        ch: &mut ReliableChannel,
        retransmit_at: u64,
        now: u64,
    ) -> (msg: Option<Vec<u8>>)
        requires
            old(self).wf(),
            old(ch).wf(),
            now <= CLOCK_LIMIT,
        ensures
            final(self).wf(),
            final(ch).wf(),
            now < retransmit_at ==> {
                &&& msg is None
                &&& *final(self) == *old(self)
                &&& *final(ch) == *old(ch)
            },
            now >= retransmit_at ==> {
                &&& msg is Some <==> old(ch).state@.in_flight.len() > 0
                &&& msg is Some ==> msg->Some_0@ == old(ch).state@.resend_message()
                &&& *final(self) == old(self).backed_off()
                &&& final(ch).state@ == old(ch).state@.resent(now)
                &&& final(ch).chunk_size == old(ch).chunk_size
                &&& final(ch).max_datagram_size == old(ch).max_datagram_size
                &&& final(ch).truncation_counter == old(ch).truncation_counter
                &&& final(ch).retransmit_counter == if msg is Some {
                    old(ch).retransmit_counter.wrapping_add(1)
                } else {
                    old(ch).retransmit_counter
                }
            },
    {
        if now < retransmit_at {
            return None;
        }
        let msg = ch.retransmit(now);
        let doubled: u64 = self.timeout * 2;
        self.timeout = if doubled <= ACK_TIMEOUT_MAX {
            doubled
        } else {
            ACK_TIMEOUT_MAX
        };
        msg
    }
}

/// Sending something new while fragments are in flight neither restarts the
/// backoff nor moves the retransmission or the time at which the link is dead.
pub proof fn law_new_sends_keep_the_backoff(
    l: SendLoop,
    s: Channel,
    max_payload: nat,
    now: u64,
)
    requires
        s.send_wf(),
        s.in_flight.len() > 0,
        l.tracked_progress_at == Some(s.last_progress_at),
        l.step(s, max_payload, now) is Transmit,
    ensures
        ({
            let t = SendLoop::channel_after(s, max_payload, now);
            let m = l.after_step(s, max_payload, now);
            &&& t.in_flight.len() > 0
            &&& m.observed(t) == l
            &&& m.observed(t).retransmit_at(t) == l.retransmit_at(s)
            &&& t.dead_at() == s.dead_at()
        }),
{
}

/// Received messages that do not move the window, however many wake the loop,
/// do not postpone the retransmission.
pub proof fn law_wakeups_do_not_postpone_retransmission(
    l: SendLoop,
    s: Channel,
    value: Seq<u8>,
    max: nat,
    now: u64,
)
    requires
        s.wf(max),
        !s.message_moves_window(value),
        s.in_flight.len() > 0,
        now <= CLOCK_LIMIT,
    ensures
        ({
            let t = s.on_message(value, max, now);
            &&& l.observed(t) == l.observed(s)
            &&& l.observed(t).observed(t) == l.observed(t)
            &&& l.observed(t).retransmit_at(t) == l.observed(s).retransmit_at(s)
            &&& t.dead_at() == s.dead_at()
        }),
{
    if let Some(frame) = frame_of(value) {
        assert(s.after_frame_ack(frame, now) == s);
        if frame.has_data() {
            lemma_on_data_wf(s, frame.seq, frame.frag, max, now);
        }
    }
}

/// An acknowledgement that moves the window restarts the backoff, if anything
/// is left in flight, and gives the link a new span to live.
pub proof fn law_progress_restarts_the_clocks(l: SendLoop, s: Channel, ack_seq: u8, now: u64)
    requires
        s.send_wf(),
        s.ack_counts(ack_seq),
        l.tracked_progress_at != Some(now),
    ensures
        ({
            let t = s.on_ack(ack_seq, now);
            &&& t.dead_at() == now + LINK_DEAD_DEADLINE
            &&& t.in_flight.len() > 0 ==> l.observed(t).timeout == t.rto.timeout()
            &&& t.in_flight.len() == 0 ==> l.observed(t).tracked_progress_at is None
        }),
{
}

/// A channel that was idle gets the whole span to live with the first thing
/// that it sends, however long it was idle.
pub proof fn law_idle_time_does_not_count(s: Channel, max_payload: nat, now: u64)
    requires
        s.in_flight.len() == 0,
    ensures
        ({
            let t = SendLoop::channel_after(s, max_payload, now);
            t.in_flight.len() > 0 ==> t.dead_at() == now + LINK_DEAD_DEADLINE
        }),
{
}

/// A dead link stays dead, whatever happens, and the loop ends at its next step.
pub proof fn law_dead_links_stay_dead(
    l: SendLoop,
    s: Channel,
    value: Seq<u8>,
    max_payload: nat,
    max: nat,
    now: u64,
)
    requires
        s.wf(max),
        s.link_dead,
    ensures
        s.on_message(value, max, now).link_dead,
        SendLoop::channel_after(s, max_payload, now).link_dead,
        s.resent(now).link_dead,
        s.abandoned().link_dead,
        l.step(s, max_payload, now) is LinkDead,
{
    if let Some(frame) = frame_of(value) {
        let t = s.after_frame_ack(frame, now);
        if frame.has_data() {
            lemma_on_data_wf(t, frame.seq, frame.frag, max, now);
        }
    }
}

/// A sleep never outlasts the deadline of the link, the retransmission timer
/// or a delayed acknowledgement.
pub proof fn law_sleep_is_never_too_long(l: SendLoop, s: Channel, max: nat)
    requires
        l.wf(),
        s.wf(max),
    ensures
        s.in_flight.len() > 0 ==> {
            &&& l.sleep_until(s) matches Some(until)
            &&& until <= s.dead_at()
            &&& until <= l.retransmit_at(s)
        },
        s.ack_deadline matches Some(deadline) ==> {
            &&& l.sleep_until(s) matches Some(until)
            &&& until <= deadline
        },
{
}

/// The loop gives a link up exactly when it was marked dead, or when it has
/// nothing to send and the deadline has passed since the last progress with
/// fragments in flight. How often they were sent again plays no part.
pub proof fn law_link_dies_by_the_clock_alone(
    l: SendLoop,
    s: Channel,
    max_payload: nat,
    now: u64,
)
    ensures
        l.step(s, max_payload, now) is LinkDead <==> {
            ||| s.link_dead
            ||| {
                &&& s.send_outcome(max_payload, now) is Wait
                &&& s.in_flight.len() > 0
                &&& now >= s.last_progress_at + LINK_DEAD_DEADLINE
            }
        },
        l.step(s, max_payload, now) is LinkDead <==> SendLoop::channel_after(
            s,
            max_payload,
            now,
        ).link_dead,
{
}

/// Nothing on the channel happened later than `now`, and the oldest fragment,
/// if it was sent once only, was sent no later than the last progress.
pub open spec fn timely(s: Channel, now: u64) -> bool {
    &&& s.last_progress_at <= now
    &&& forall|i: int|
        0 <= i < s.in_flight.len() ==> (#[trigger] s.in_flight[i]).last_sent_at <= now
    &&& s.in_flight.len() > 0 && s.in_flight[0].retransmits == 0 ==> s.in_flight[0].last_sent_at
        <= s.last_progress_at
}

/// As long as the clock does not run backwards, every event keeps a channel
/// timely, and a new channel is.
pub proof fn law_channels_stay_timely(
    s: Channel,
    value: Seq<u8>,
    max_payload: nat,
    max: nat,
    before: u64,
    now: u64,
)
    requires
        s.wf(max),
        timely(s, before),
        before <= now <= CLOCK_LIMIT,
    ensures
        timely(Channel::initial(now), now),
        timely(s.on_message(value, max, now), now),
        timely(SendLoop::channel_after(s, max_payload, now), now),
        timely(s.resent(now), now),
        timely(s.abandoned(), now),
{
    if let Some(frame) = frame_of(value) {
        let t = s.after_frame_ack(frame, now);
        if let Some(a) = frame.ack {
            lemma_on_ack_wf(s, a, now);
            if s.ack_counts(a) {
                let n = s.acked_count(a);
                assert forall|i: int| 0 <= i < t.in_flight.len() implies (
                #[trigger] t.in_flight[i]).last_sent_at <= now by {
                    assert(t.in_flight[i] == s.in_flight[i + n]);
                }
            }
        }
        assert(timely(t, now));
        if frame.has_data() {
            lemma_on_data_wf(t, frame.seq, frame.frag, max, now);
        }
    }
    let u = s.after_send(max_payload, now);
    assert forall|i: int| 0 <= i < u.in_flight.len() implies (
    #[trigger] u.in_flight[i]).last_sent_at <= now by {
        if i < s.in_flight.len() {
            assert(u.in_flight[i] == s.in_flight[i]);
        }
    }
}

/// A retransmission precedes the end of a link: while the oldest fragment has
/// not been sent again, the retransmission timer runs out before the link is
/// dead, and sends it again if it is reported in time.
pub proof fn law_retransmission_precedes_death(l: SendLoop, s: Channel, before: u64, now: u64)
    requires
        l.wf(),
        timely(s, before),
        s.in_flight.len() > 0,
        s.in_flight[0].retransmits == 0,
    ensures
        l.observed(s).retransmit_at(s) < s.dead_at(),
        s.resent(now).in_flight[0].retransmits == 1,
{
    law_timeout_is_bounded(s.rto);
}

/// Each retransmission doubles the timeout up to its ceiling.
pub proof fn law_backoff_doubles(l: SendLoop)
    requires
        l.wf(),
    ensures
        l.backed_off().wf(),
        l.timeout <= l.backed_off().timeout,
        l.backed_off().timeout == 2 * l.timeout || l.backed_off().timeout == ACK_TIMEOUT_MAX,
{
}

/// What the loop does, said of the fields. What the channel has to send goes
/// out, and the loop stays as it is. With nothing to send and nothing in flight
/// it sleeps until an acknowledgement is due. With fragments in flight it gives
/// the link up once 6 s have passed since the last progress, and until then
/// sleeps until the first of three times: that, the retransmission, and when an
/// acknowledgement is due. The retransmission is a timeout after the oldest
/// fragment was last sent; the timeout is the one from before unless there was
/// progress since, in which case it is estimated anew.
pub proof fn law_what_the_loop_does(
    l: SendLoop,
    s: Channel,
    max_payload: nat,
    max: nat,
    now: u64,
)
    requires
        l.wf(),
        s.wf(max),
    ensures
        ({
            let u = s.after_send(max_payload, now);
            let outcome = s.send_outcome(max_payload, now);
            let step = l.step(s, max_payload, now);
            let m = l.after_step(s, max_payload, now);
            let t = SendLoop::channel_after(s, max_payload, now);
            &&& outcome matches Outcome::Send(msg) ==> step == StepView::Transmit(msg) && m == l
                && t == u
            &&& outcome is Dead ==> step is LinkDead && m == l && t == u
            &&& outcome is Wait && s.in_flight.len() == 0 ==> {
                &&& step == (StepView::Sleep { until: s.ack_deadline, retransmit_at: None })
                &&& m.timeout == l.timeout
                &&& m.tracked_progress_at is None
                &&& t == u
            }
            &&& outcome is Wait && s.in_flight.len() > 0 ==> {
                &&& m.tracked_progress_at == Some(s.last_progress_at)
                &&& l.tracked_progress_at == Some(s.last_progress_at) ==> m.timeout == l.timeout
                &&& l.tracked_progress_at != Some(s.last_progress_at) ==> m.timeout
                    == s.rto.timeout()
                &&& now >= s.last_progress_at + 6_000_000_000 ==> {
                    &&& step is LinkDead
                    &&& t == (Channel { link_dead: true, ..u })
                }
                &&& now < s.last_progress_at + 6_000_000_000 ==> {
                    &&& t == u
                    &&& step is Sleep
                    &&& step->until is Some && step->retransmit_at is Some
                    &&& step->retransmit_at->Some_0 == s.in_flight[0].last_sent_at + m.timeout
                    &&& step->until->Some_0 <= step->retransmit_at->Some_0
                    &&& step->until->Some_0 <= s.last_progress_at + 6_000_000_000
                    &&& s.ack_deadline is Some ==> step->until->Some_0 <= s.ack_deadline->Some_0
                    &&& {
                        ||| step->until == step->retransmit_at
                        ||| step->until->Some_0 == s.last_progress_at + 6_000_000_000
                        ||| step->until == s.ack_deadline
                    }
                }
            }
        }),
{
    law_timeout_is_bounded(s.rto);
}

/// A new loop waits 300 ms and has seen no progress. Each retransmission makes
/// it wait twice as long, and 5 s at most; what progress it has seen it keeps.
pub proof fn law_waits_start_short_and_double(l: SendLoop)
    requires
        l.wf(),
    ensures
        SendLoop::initial().timeout == 300_000_000,
        SendLoop::initial().tracked_progress_at is None,
        300_000_000 <= l.timeout <= 5_000_000_000,
        l.timeout <= 2_500_000_000 ==> l.backed_off().timeout == 2 * l.timeout,
        l.timeout >= 2_500_000_000 ==> l.backed_off().timeout == 5_000_000_000,
        l.backed_off().tracked_progress_at == l.tracked_progress_at,
{
}

} // verus!
