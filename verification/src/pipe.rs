//! The data pipe to one peer: its decisions.
//!
//! A supervisor hands what is to be sent, and what was received, to the worker
//! of the current path. A pipe starts on GATT or on an L2CAP channel; from
//! GATT it moves to L2CAP when it is given a channel, and takes along what
//! the peer has not acknowledged. The tasks, timers and queues belong to the
//! caller, who reports events and carries out what the functions here return.

use vstd::prelude::*;

verus! {

/// Which end of the connection this is.
#[derive(Clone, Copy, PartialEq, Eq, Structural)]
pub enum ConnectRole {
    Central,
    Peripheral,
}

/// What a pipe runs over.
#[derive(Clone, Copy, PartialEq, Eq, Structural)]
pub enum ConnectPath {
    Gatt,
    L2cap,
}

/// How a message is put on a GATT link.
#[derive(Clone, Copy, PartialEq, Eq, Structural)]
pub enum GattWrite {
    /// The central writes to the peripheral.
    WriteC2p,
    /// The peripheral notifies the central.
    NotifyP2c,
}

/// How the end with this role sends over GATT.
pub fn gatt_write(role: ConnectRole) -> (write: GattWrite)
    ensures
        write == GattWrite::WriteC2p <==> role == ConnectRole::Central,
        write == GattWrite::NotifyP2c <==> role == ConnectRole::Peripheral,
{
    match role {
        ConnectRole::Central => GattWrite::WriteC2p,
        ConnectRole::Peripheral => GattWrite::NotifyP2c,
    }
}

/// How handing a datagram to a worker went.
#[derive(Clone, Copy, PartialEq, Eq, Structural)]
pub enum Handed {
    Taken,
    /// The worker has ended.
    Closed,
    /// The L2CAP worker did not take it within the handover timeout.
    TimedOut,
}

/// What that means to the supervisor.
#[derive(Clone, Copy, PartialEq, Eq, Structural)]
pub enum ForwardResult {
    Delivered,
    WorkerGone,
    L2capTimeout,
}

/// What to do with an outbound datagram, or with the end of the outbound queue.
#[derive(Clone, Copy, PartialEq, Eq, Structural)]
pub enum OutboundAction {
    Stop,
    /// Hand it to the worker, and wait for it as long as that takes.
    Hand,
    /// Hand it to the worker, and wait no longer than the handover timeout.
    HandWithin,
}

/// What to do with a received value, or with the end of the inbound queue.
#[derive(Clone, Copy, PartialEq, Eq, Structural)]
pub enum InboundAction {
    Stop,
    /// Hand it to the GATT worker; stop if that has ended.
    Hand,
    /// The GATT worker is retired and L2CAP reads its own channel: nothing can
    /// be done with a late fragment.
    Drop,
}

/// What to do with an L2CAP channel, or with the end of the queue of channels.
#[derive(Clone, Copy, PartialEq, Eq, Structural)]
pub enum SwapAction {
    /// Wait for channels no longer.
    Disable,
    /// The pipe is on L2CAP already.
    Ignore,
    /// Start an L2CAP worker, move what is undelivered to it, and retire the
    /// GATT worker.
    Handover,
}

/// State of a supervisor.
#[derive(Clone, Copy, PartialEq, Eq, Structural)]
pub struct Supervisor {
    pub path: ConnectPath,
    /// Whether a channel may still come.
    pub swap_open: bool,
    pub timeout_reported: bool,
}

/// Outcome of [`Supervisor::forwarded`].
#[derive(Clone, Copy, PartialEq, Eq, Structural)]
pub struct Forwarded {
    pub result: ForwardResult,
    /// Tell the registry that the handover timed out.
    pub report_timeout: bool,
}

impl Supervisor {
    /// A pipe on `path`; a pipe on L2CAP needs a channel, and does not start
    /// without one.
    pub fn start(path: ConnectPath, has_channel: bool) -> (started: Option<Supervisor>)
        ensures
            started is None <==> path == ConnectPath::L2cap && !has_channel,
            started matches Some(s) ==> s == (Supervisor {
                path,
                swap_open: true,
                timeout_reported: false,
            }),
    {
        match path {
            ConnectPath::L2cap => if !has_channel {
                return None;
            },
            ConnectPath::Gatt => {},
        }
        Some(Supervisor { path, swap_open: true, timeout_reported: false })
    }

    /// An outbound datagram arrived, or their queue ended.
    pub fn on_outbound(&self, arrived: bool) -> (action: OutboundAction)
        ensures
            action == if !arrived {
                OutboundAction::Stop
            } else if self.path == ConnectPath::Gatt {
                OutboundAction::Hand
            } else {
                OutboundAction::HandWithin
            },
    {
        if !arrived {
            return OutboundAction::Stop;
        }
        match self.path {
            ConnectPath::Gatt => OutboundAction::Hand,
            ConnectPath::L2cap => OutboundAction::HandWithin,
        }
    }

    pub open spec fn result_of(handed: Handed) -> ForwardResult {
        match handed {
            Handed::Taken => ForwardResult::Delivered,
            Handed::Closed => ForwardResult::WorkerGone,
            Handed::TimedOut => ForwardResult::L2capTimeout,
        }
    }

    pub open spec fn after_forward(self, handed: Handed) -> Supervisor {
        Supervisor {
            timeout_reported: self.timeout_reported || handed == Handed::TimedOut,
            ..self
        }
    }

    /// A datagram was handed to the worker, like this. The first timeout is
    /// reported to the registry.
    pub fn forwarded(&mut self, handed: Handed) -> (forwarded: Forwarded)
        requires
            handed == Handed::TimedOut ==> old(self).path == ConnectPath::L2cap,
        ensures
            forwarded.result == Self::result_of(handed),
            forwarded.report_timeout == (handed == Handed::TimedOut && !old(
                self,
            ).timeout_reported),
            *final(self) == old(self).after_forward(handed),
    {
        match handed {
            Handed::Taken => Forwarded { result: ForwardResult::Delivered, report_timeout: false },
            Handed::Closed => Forwarded { result: ForwardResult::WorkerGone, report_timeout: false },
            Handed::TimedOut => {
                let report_timeout = !self.timeout_reported;
                self.timeout_reported = true;
                Forwarded { result: ForwardResult::L2capTimeout, report_timeout }
            },
        }
    }

    /// Whether the supervisor goes on after a datagram of its own queue.
    pub fn goes_on(result: ForwardResult) -> (b: bool)
        ensures
            b == (result == ForwardResult::Delivered),
    {
        match result {
            ForwardResult::Delivered => true,
            _ => false,
        }
    }

    /// A value was received, or their queue ended.
    pub fn on_inbound(&self, arrived: bool) -> (action: InboundAction)
        ensures
            action == if !arrived {
                InboundAction::Stop
            } else if self.path == ConnectPath::Gatt {
                InboundAction::Hand
            } else {
                InboundAction::Drop
            },
    {
        if !arrived {
            return InboundAction::Stop;
        }
        match self.path {
            ConnectPath::Gatt => InboundAction::Hand,
            ConnectPath::L2cap => InboundAction::Drop,
        }
    }

    pub open spec fn swap_of(self, arrived: bool) -> SwapAction {
        if !arrived {
            SwapAction::Disable
        } else if self.path == ConnectPath::L2cap {
            SwapAction::Ignore
        } else {
            SwapAction::Handover
        }
    }

    pub open spec fn after_swap(self, arrived: bool) -> Supervisor {
        if arrived {
            Supervisor { path: ConnectPath::L2cap, ..self }
        } else {
            Supervisor { swap_open: false, ..self }
        }
    }

    /// An L2CAP channel came, or their queue ended.
    pub fn on_swap(&mut self, arrived: bool) -> (action: SwapAction)
        requires
            old(self).swap_open,
        ensures
            action == old(self).swap_of(arrived),
            *final(self) == old(self).after_swap(arrived),
    {
        if !arrived {
            self.swap_open = false;
            return SwapAction::Disable;
        }
        match self.path {
            ConnectPath::L2cap => SwapAction::Ignore,
            ConnectPath::Gatt => {
                self.path = ConnectPath::L2cap;
                SwapAction::Handover
            },
        }
    }
}

/// Something that happens to a supervisor.
#[derive(Clone, Copy, PartialEq, Eq, Structural)]
pub enum PipeEvent {
    Forwarded(Handed),
    Swap(bool),
}

pub open spec fn supervisor_after(s: Supervisor, events: Seq<PipeEvent>) -> Supervisor
    decreases events.len(),
{
    if events.len() == 0 {
        s
    } else {
        let before = supervisor_after(s, events.drop_last());
        match events.last() {
            PipeEvent::Forwarded(handed) => before.after_forward(handed),
            PipeEvent::Swap(arrived) => before.after_swap(arrived),
        }
    }
}

/// How many of `events` make the supervisor report a timeout.
pub open spec fn report_count(s: Supervisor, events: Seq<PipeEvent>) -> nat
    decreases events.len(),
{
    if events.len() == 0 {
        0
    } else {
        let before = supervisor_after(s, events.drop_last());
        let earlier = report_count(s, events.drop_last());
        if events.last() == PipeEvent::Forwarded(Handed::TimedOut) && !before.timeout_reported {
            earlier + 1
        } else {
            earlier
        }
    }
}

/// How many of `events` make the supervisor hand over.
pub open spec fn handover_count(s: Supervisor, events: Seq<PipeEvent>) -> nat
    decreases events.len(),
{
    if events.len() == 0 {
        0
    } else {
        let before = supervisor_after(s, events.drop_last());
        let earlier = handover_count(s, events.drop_last());
        match events.last() {
            PipeEvent::Swap(arrived) => if before.swap_of(arrived) == SwapAction::Handover {
                earlier + 1
            } else {
                earlier
            },
            _ => earlier,
        }
    }
}

/// A pipe reports a handover timeout at most once, moves to L2CAP at most
/// once, and never back.
pub proof fn law_pipe_moves_and_reports_once(s: Supervisor, events: Seq<PipeEvent>)
    ensures
        report_count(s, events) <= 1,
        handover_count(s, events) <= 1,
        s.timeout_reported ==> {
            &&& report_count(s, events) == 0
            &&& supervisor_after(s, events).timeout_reported
        },
        report_count(s, events) == 1 ==> supervisor_after(s, events).timeout_reported,
        s.path == ConnectPath::L2cap ==> {
            &&& handover_count(s, events) == 0
            &&& supervisor_after(s, events).path == ConnectPath::L2cap
        },
        handover_count(s, events) == 1 ==> supervisor_after(s, events).path
            == ConnectPath::L2cap,
    decreases events.len(),
{
    if events.len() > 0 {
        law_pipe_moves_and_reports_once(s, events.drop_last());
    }
}

/// What is left to hand to the new worker after a handover.
pub struct Rescue {
    pub undelivered: std::collections::VecDeque<Vec<u8>>,
}

impl Rescue {
    /// Starts from what the retired worker had not delivered, in sending order.
    pub fn new(undelivered: Vec<Vec<u8>>) -> (rescue: Rescue)
        ensures
            rescue.undelivered@ == undelivered@,
    {
        let mut left = undelivered;
        let mut queue: std::collections::VecDeque<Vec<u8>> = std::collections::VecDeque::new();
        while left.len() > 0
            invariant
                left@ + queue@ == undelivered@,
            decreases left@.len(),
        {
            let ghost before = left@;
            let ghost later = queue@;
            let datagram = left.pop().unwrap();
            queue.push_front(datagram);
            assert(left@ + queue@ =~= before + later);
        }
        assert(queue@ =~= undelivered@);
        Rescue { undelivered: queue }
    }

    /// The next datagram to hand over.
    pub fn next(&mut self) -> (datagram: Option<Vec<u8>>)
        ensures
            datagram == if old(self).undelivered@.len() > 0 {
                Some(old(self).undelivered@[0])
            } else {
                None
            },
            final(self).undelivered@ == if old(self).undelivered@.len() > 0 {
                old(self).undelivered@.skip(1)
            } else {
                old(self).undelivered@
            },
    {
        let ghost before = self.undelivered@;
        let datagram = self.undelivered.pop_front();
        assert(before.len() > 0 ==> self.undelivered@ =~= before.skip(1));
        datagram
    }

    /// The last one was handed over with this result. After a failure the rest
    /// is given up; the supervisor itself goes on.
    pub fn handed(&mut self, result: ForwardResult)
        ensures
            final(self).undelivered@ == if result == ForwardResult::Delivered {
                old(self).undelivered@
            } else {
                Seq::empty()
            },
    {
        match result {
            ForwardResult::Delivered => {},
            _ => {
                self.undelivered.clear();
            },
        }
    }
}

/// The datagrams that a rescue hands over, if handing them over gives `results`
/// one after the other.
pub open spec fn rescued(left: Seq<Vec<u8>>, results: Seq<ForwardResult>) -> Seq<Vec<u8>>
    decreases left.len(),
{
    if left.len() == 0 || results.len() == 0 {
        Seq::empty()
    } else if results[0] == ForwardResult::Delivered {
        seq![left[0]] + rescued(left.skip(1), results.skip(1))
    } else {
        seq![left[0]]
    }
}

/// A rescue hands over what was undelivered in sending order, and all of it
/// unless the new worker fails.
pub proof fn law_rescue_keeps_the_order(left: Seq<Vec<u8>>, results: Seq<ForwardResult>)
    ensures
        rescued(left, results).is_prefix_of(left),
        results.len() >= left.len() && (forall|i: int|
            0 <= i < results.len() ==> #[trigger] results[i] == ForwardResult::Delivered)
            ==> rescued(left, results) == left,
    decreases left.len(),
{
    if left.len() > 0 && results.len() > 0 {
        let rest = left.skip(1);
        let later = results.skip(1);
        law_rescue_keeps_the_order(rest, later);
        let r = rescued(left, results);
        if results[0] == ForwardResult::Delivered {
            let tail = rescued(rest, later);
            assert(tail =~= rest.take(tail.len() as int));
            assert(r =~= left.take(r.len() as int));
            if results.len() >= left.len() && (forall|i: int|
                0 <= i < results.len() ==> #[trigger] results[i] == ForwardResult::Delivered) {
                assert forall|i: int| 0 <= i < later.len() implies #[trigger] later[i]
                    == ForwardResult::Delivered by {
                    assert(later[i] == results[i + 1]);
                }
                assert(seq![left[0]] + rest =~= left);
            }
        } else {
            assert(r =~= left.take(1));
        }
    }
}

/// How the send loop of a GATT worker ended.
#[derive(Clone, Copy, PartialEq, Eq, Structural)]
pub enum SendLoopEnd {
    LinkDead,
    /// It was cancelled or panicked.
    Other,
}

/// What a GATT worker waits for.
pub enum GattEvent {
    /// A datagram to send, or the end of their queue.
    Outbound(Option<Vec<u8>>),
    /// A received value, or the end of their queue.
    Inbound(Option<Vec<u8>>),
    /// A datagram that was put together, or the end of their queue.
    Datagram(Option<Vec<u8>>),
    /// The supervisor asks the worker to end.
    Shutdown,
    SendLoopEnded(SendLoopEnd),
}

/// How a GATT worker ends.
#[derive(Clone, Copy, PartialEq, Eq, Structural)]
pub struct GattExit {
    /// The worker is being torn down.
    pub teardown: bool,
    /// Mark the channel dead, and wait for the send loop.
    pub stop_send_loop: bool,
    /// Tell the registry that the link is stalled.
    pub report_stalled: bool,
}

/// What a GATT worker does.
pub enum GattAction {
    /// Queue this datagram on the channel, then wake its sender.
    Enqueue(Vec<u8>),
    /// Give this value to the channel.
    Receive(Vec<u8>),
    /// Note that the peer is alive, and pass this datagram on.
    Deliver(Vec<u8>),
    Exit(GattExit),
}

pub open spec fn gatt_exit(event: GattEvent) -> GattExit {
    match event {
        GattEvent::Shutdown => GattExit {
            teardown: true,
            stop_send_loop: true,
            report_stalled: false,
        },
        GattEvent::SendLoopEnded(end) => GattExit {
            teardown: false,
            stop_send_loop: false,
            report_stalled: end == SendLoopEnd::LinkDead,
        },
        _ => GattExit { teardown: false, stop_send_loop: true, report_stalled: false },
    }
}

/// What a GATT worker does about an event. Only a send loop that gave up the
/// link makes it report a stall; being asked to end never does.
pub fn on_gatt_event(event: GattEvent) -> (action: GattAction)
    ensures
        match event {
            GattEvent::Outbound(Some(d)) => action == GattAction::Enqueue(d),
            GattEvent::Inbound(Some(v)) => action == GattAction::Receive(v),
            GattEvent::Datagram(Some(d)) => action == GattAction::Deliver(d),
            _ => action == GattAction::Exit(gatt_exit(event)),
        },
{
    match event {
        GattEvent::Outbound(Some(datagram)) => GattAction::Enqueue(datagram),
        GattEvent::Inbound(Some(value)) => GattAction::Receive(value),
        GattEvent::Datagram(Some(datagram)) => GattAction::Deliver(datagram),
        GattEvent::Shutdown => GattAction::Exit(
            GattExit { teardown: true, stop_send_loop: true, report_stalled: false },
        ),
        GattEvent::SendLoopEnded(end) => {
            let report_stalled = match end {
                SendLoopEnd::LinkDead => true,
                SendLoopEnd::Other => false,
            };
            GattAction::Exit(GattExit { teardown: false, stop_send_loop: false, report_stalled })
        },
        _ => GattAction::Exit(
            GattExit { teardown: false, stop_send_loop: true, report_stalled: false },
        ),
    }
}

/// What an L2CAP worker waits for.
pub enum L2capEvent {
    /// A datagram to send, or the end of their queue.
    Outbound(Option<Vec<u8>>),
    /// The last datagram went to the channel's send task, or that has ended.
    Sent(bool),
    /// One of the channel's tasks has ended.
    IoEnded,
}

/// What an L2CAP worker does.
pub enum L2capAction {
    /// Give this datagram to the send task.
    Send(Vec<u8>),
    /// Count an empty datagram, wake its sender as if it had been sent, and
    /// send nothing: the peer could not take it.
    DropEmpty,
    /// Wake the sender of the datagram.
    Wake,
    /// End. The sender of the datagram is woken where one waits, and the
    /// registry told that the link is stalled where the channel failed.
    Exit { wake: bool, report_stalled: bool },
}

/// What an L2CAP worker does about an event.
pub fn on_l2cap_event(event: L2capEvent) -> (action: L2capAction)
    ensures
        match event {
            L2capEvent::Outbound(Some(d)) => action == if d@.len() == 0 {
                L2capAction::DropEmpty
            } else {
                L2capAction::Send(d)
            },
            L2capEvent::Outbound(None) => action == (L2capAction::Exit {
                wake: false,
                report_stalled: false,
            }),
            L2capEvent::Sent(true) => action == L2capAction::Wake,
            L2capEvent::Sent(false) => action == (L2capAction::Exit {
                wake: true,
                report_stalled: true,
            }),
            L2capEvent::IoEnded => action == (L2capAction::Exit {
                wake: false,
                report_stalled: true,
            }),
        },
{
    match event {
        L2capEvent::Outbound(Some(datagram)) => if datagram.len() == 0 {
            L2capAction::DropEmpty
        } else {
            L2capAction::Send(datagram)
        },
        L2capEvent::Outbound(None) => L2capAction::Exit { wake: false, report_stalled: false },
        L2capEvent::Sent(true) => L2capAction::Wake,
        L2capEvent::Sent(false) => L2capAction::Exit { wake: true, report_stalled: true },
        L2capEvent::IoEnded => L2capAction::Exit { wake: false, report_stalled: true },
    }
}

/// What a channel does to a pipe: the first one moves a pipe that is on GATT,
/// any other is ignored, and once there are no more none is waited for.
pub proof fn law_channels_move_pipes(s: Supervisor, arrived: bool)
    ensures
        s.swap_of(arrived) == SwapAction::Handover <==> arrived && s.path == ConnectPath::Gatt,
        s.swap_of(arrived) == SwapAction::Ignore <==> arrived && s.path == ConnectPath::L2cap,
        s.swap_of(arrived) == SwapAction::Disable <==> !arrived,
        s.after_swap(arrived).path == ConnectPath::L2cap <==> arrived || s.path
            == ConnectPath::L2cap,
        s.after_swap(arrived).swap_open <==> arrived && s.swap_open,
        s.after_swap(arrived).timeout_reported == s.timeout_reported,
{
}

/// What handing a datagram to a worker does to a pipe.
pub proof fn law_handing_decides_the_result(s: Supervisor, handed: Handed)
    ensures
        Supervisor::result_of(handed) == ForwardResult::Delivered <==> handed == Handed::Taken,
        Supervisor::result_of(handed) == ForwardResult::WorkerGone <==> handed == Handed::Closed,
        Supervisor::result_of(handed) == ForwardResult::L2capTimeout <==> handed
            == Handed::TimedOut,
        s.after_forward(handed).path == s.path,
        s.after_forward(handed).swap_open == s.swap_open,
        s.after_forward(handed).timeout_reported <==> s.timeout_reported || handed
            == Handed::TimedOut,
{
}

/// A timeout is reported if there is any, and a pipe on GATT moves if a channel
/// comes; both whatever else happens before and after.
pub proof fn law_timeouts_and_channels_are_not_missed(
    s: Supervisor,
    events: Seq<PipeEvent>,
    i: int,
)
    requires
        0 <= i < events.len(),
    ensures
        events[i] == PipeEvent::Forwarded(Handed::TimedOut) && !s.timeout_reported
            ==> report_count(s, events) == 1,
        events[i] == PipeEvent::Swap(true) && s.path == ConnectPath::Gatt ==> handover_count(
            s,
            events,
        ) == 1,
    decreases events.len(),
{
    let before = events.drop_last();
    law_pipe_moves_and_reports_once(s, events);
    lemma_marks_have_a_cause(s, before);
    if i < before.len() {
        assert(before[i] == events[i]);
        law_timeouts_and_channels_are_not_missed(s, before, i);
    }
}

proof fn lemma_marks_have_a_cause(s: Supervisor, events: Seq<PipeEvent>)
    ensures
        supervisor_after(s, events).timeout_reported && !s.timeout_reported ==> report_count(
            s,
            events,
        ) >= 1,
        supervisor_after(s, events).path == ConnectPath::L2cap && s.path == ConnectPath::Gatt
            ==> handover_count(s, events) >= 1,
    decreases events.len(),
{
    if events.len() > 0 {
        lemma_marks_have_a_cause(s, events.drop_last());
    }
}

/// How a GATT worker ends: only a send loop that gave the link up makes it
/// report a stall, only a request of the supervisor is a teardown, and only a
/// send loop that has ended need not be stopped.
pub proof fn law_gatt_exits(event: GattEvent)
    ensures
        gatt_exit(event).report_stalled <==> event == GattEvent::SendLoopEnded(
            SendLoopEnd::LinkDead,
        ),
        gatt_exit(event).teardown <==> event is Shutdown,
        gatt_exit(event).stop_send_loop <==> !(event is SendLoopEnded),
{
}

} // verus!
