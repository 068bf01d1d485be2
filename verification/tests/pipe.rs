use neutrino_ble::pipe::{
    gatt_write, on_gatt_event, on_l2cap_event, ConnectPath, ConnectRole, ForwardResult, GattAction,
    GattEvent, GattWrite, Handed, InboundAction, L2capAction, L2capEvent, OutboundAction, Rescue,
    SendLoopEnd, Supervisor, SwapAction,
};
use neutrino_ble::reliable::channel::ReliableChannel;
use neutrino_ble::reliable::state::SendAction;

#[test]
fn outbound_datagram_reaches_iface_write_c2p() {
    let s = Supervisor::start(ConnectPath::Gatt, false).expect("starts");
    assert!(matches!(s.on_outbound(true), OutboundAction::Hand));
    match on_gatt_event(GattEvent::Outbound(Some(b"hello-pipe".to_vec()))) {
        GattAction::Enqueue(datagram) => {
            let mut ch = ReliableChannel::new(512, 1472, 0);
            assert!(ch.enqueue_datagram(datagram));
            match ch.next_send_action(0).action {
                SendAction::Send(msg) => assert_eq!(&msg[2..msg.len() - 1], b"hello-pipe"),
                _ => panic!("expected a message"),
            }
        }
        _ => panic!("expected the datagram to be queued"),
    }
    assert!(matches!(gatt_write(ConnectRole::Central), GattWrite::WriteC2p));
}

#[test]
fn peripheral_role_uses_notify_p2c() {
    assert!(matches!(gatt_write(ConnectRole::Peripheral), GattWrite::NotifyP2c));
}

#[test]
fn gatt_worker_quiesce_exits_without_stalled() {
    match on_gatt_event(GattEvent::Shutdown) {
        GattAction::Exit(exit) => {
            assert!(!exit.report_stalled, "quiesce must not report anything");
            assert!(exit.stop_send_loop);
            assert!(exit.teardown);
        }
        _ => panic!("expected the worker to end"),
    }
}

#[test]
fn gatt_worker_reports_a_dead_link_only() {
    match on_gatt_event(GattEvent::SendLoopEnded(SendLoopEnd::LinkDead)) {
        GattAction::Exit(exit) => {
            assert!(exit.report_stalled);
            assert!(!exit.stop_send_loop);
        }
        _ => panic!("expected the worker to end"),
    }
    let quiet = [
        GattEvent::SendLoopEnded(SendLoopEnd::Other),
        GattEvent::Outbound(None),
        GattEvent::Inbound(None),
        GattEvent::Datagram(None),
    ];
    for event in quiet {
        match on_gatt_event(event) {
            GattAction::Exit(exit) => assert!(!exit.report_stalled),
            _ => panic!("expected the worker to end"),
        }
    }
}

#[test]
fn gatt_worker_passes_values_and_datagrams() {
    assert!(matches!(
        on_gatt_event(GattEvent::Inbound(Some(vec![1, 2]))),
        GattAction::Receive(v) if v == [1, 2]
    ));
    assert!(matches!(
        on_gatt_event(GattEvent::Datagram(Some(vec![3]))),
        GattAction::Deliver(d) if d == [3]
    ));
}

#[test]
fn l2cap_pipe_drops_zero_length_outbound_and_counts() {
    let mut empty_frames = 0;
    let mut wire: Vec<Vec<u8>> = Vec::new();
    for datagram in [vec![], b"post-empty".to_vec()] {
        match on_l2cap_event(L2capEvent::Outbound(Some(datagram))) {
            L2capAction::DropEmpty => empty_frames += 1,
            L2capAction::Send(d) => {
                wire.push(d);
                assert!(matches!(on_l2cap_event(L2capEvent::Sent(true)), L2capAction::Wake));
            }
            _ => panic!("unexpected action"),
        }
    }
    assert_eq!(wire, vec![b"post-empty".to_vec()]);
    assert_eq!(empty_frames, 1, "outbound empty must be counted exactly once");
}

#[test]
fn l2cap_worker_reports_a_failed_channel() {
    assert!(matches!(
        on_l2cap_event(L2capEvent::IoEnded),
        L2capAction::Exit { wake: false, report_stalled: true }
    ));
    assert!(matches!(
        on_l2cap_event(L2capEvent::Sent(false)),
        L2capAction::Exit { wake: true, report_stalled: true }
    ));
    assert!(matches!(
        on_l2cap_event(L2capEvent::Outbound(None)),
        L2capAction::Exit { wake: false, report_stalled: false }
    ));
}

#[test]
fn l2cap_pipe_needs_a_channel() {
    assert!(Supervisor::start(ConnectPath::L2cap, false).is_none());
    let s = Supervisor::start(ConnectPath::L2cap, true).expect("starts");
    assert!(matches!(s.on_outbound(true), OutboundAction::HandWithin));
    assert!(matches!(s.on_inbound(true), InboundAction::Drop));
}

#[test]
fn swap_to_l2cap_passes_data_both_ways() {
    let mut s = Supervisor::start(ConnectPath::Gatt, false).expect("starts");
    assert!(matches!(s.on_inbound(true), InboundAction::Hand));
    assert!(matches!(s.on_swap(true), SwapAction::Handover));
    assert!(matches!(s.on_outbound(true), OutboundAction::HandWithin));
    assert!(matches!(s.on_inbound(true), InboundAction::Drop));
    assert!(matches!(s.on_swap(true), SwapAction::Ignore));
    assert!(matches!(s.on_swap(false), SwapAction::Disable));
    assert!(!s.swap_open);
}

#[test]
fn swap_requeues_unacked_gatt_datagrams_onto_l2cap() {
    let mut ch = ReliableChannel::new(512, 1472, 0);
    ch.enqueue_datagram(b"finished".to_vec());
    assert!(matches!(ch.next_send_action(0).action, SendAction::Send(_)));
    ch.enqueue_datagram(b"queued".to_vec());
    let mut s = Supervisor::start(ConnectPath::Gatt, false).expect("starts");
    assert!(matches!(s.on_swap(true), SwapAction::Handover));
    let mut rescue = Rescue::new(ch.take_undelivered());
    let mut handed: Vec<Vec<u8>> = Vec::new();
    while let Some(datagram) = rescue.next() {
        handed.push(datagram);
        let forwarded = s.forwarded(Handed::Taken);
        rescue.handed(forwarded.result);
    }
    assert_eq!(handed, vec![b"finished".to_vec(), b"queued".to_vec()]);
}

#[test]
fn rescue_stops_at_the_first_failure() {
    let mut rescue = Rescue::new(vec![vec![1], vec![2], vec![3]]);
    assert_eq!(rescue.next(), Some(vec![1]));
    rescue.handed(ForwardResult::Delivered);
    assert_eq!(rescue.next(), Some(vec![2]));
    rescue.handed(ForwardResult::WorkerGone);
    assert_eq!(rescue.next(), None);
}

#[test]
fn handover_timeout_is_reported_once() {
    let mut s = Supervisor::start(ConnectPath::L2cap, true).expect("starts");
    let first = s.forwarded(Handed::TimedOut);
    assert!(first.report_timeout);
    assert!(matches!(first.result, ForwardResult::L2capTimeout));
    assert!(!Supervisor::goes_on(first.result));
    assert!(!s.forwarded(Handed::TimedOut).report_timeout);
}

#[test]
fn supervisor_stops_with_its_worker_or_its_queues() {
    let mut s = Supervisor::start(ConnectPath::Gatt, false).expect("starts");
    assert!(matches!(s.on_outbound(false), OutboundAction::Stop));
    assert!(matches!(s.on_inbound(false), InboundAction::Stop));
    let gone = s.forwarded(Handed::Closed);
    assert!(!gone.report_timeout);
    assert!(!Supervisor::goes_on(gone.result));
    let taken = s.forwarded(Handed::Taken);
    assert!(Supervisor::goes_on(taken.result));
}
