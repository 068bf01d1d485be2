use neutrino_ble::reliable::channel::{try_enqueue_datagram, ReliableChannel};
use neutrino_ble::reliable::model::SEND_QUEUE_CAPACITY;
use neutrino_ble::reliable::rto::{ACK_DELAY, RTT_STATS_WINDOW};
use neutrino_ble::reliable::state::SendAction;
use neutrino_ble::reliable::wire::{
    set_ack, ACK_SEQ_MASK, FLAG_ACK, FLAG_FIRST, FLAG_LAST, FRAGMENT_CANARY, HEADER_SIZE, SEQ_MASK,
    WINDOW_SIZE,
};

const MAX_DATAGRAM_SIZE: usize = 1472;

const T0: u64 = 1_000_000_000;

fn make_channel() -> ReliableChannel {
    with_chunk_size(512)
}

fn with_chunk_size(chunk_size: usize) -> ReliableChannel {
    ReliableChannel::new(chunk_size, MAX_DATAGRAM_SIZE, T0)
}

fn hdr(seq: u8, first: bool, last: bool) -> [u8; 2] {
    let b0 = (seq & SEQ_MASK)
        | (if first { FLAG_FIRST } else { 0 })
        | (if last { FLAG_LAST } else { 0 });
    [b0, 0]
}

fn fragment(seq: u8, first: bool, last: bool, payload: &[u8]) -> Vec<u8> {
    let mut v = hdr(seq, first, last).to_vec();
    v.extend_from_slice(payload);
    v.push(FRAGMENT_CANARY);
    v
}

fn fragment_with_ack(seq: u8, first: bool, last: bool, payload: &[u8], ack_seq: u8) -> Vec<u8> {
    let mut v = hdr(seq, first, last).to_vec();
    set_ack(&mut v, ack_seq);
    v.extend_from_slice(payload);
    v.push(FRAGMENT_CANARY);
    v
}

fn pure_ack(ack_seq: u8) -> Vec<u8> {
    let mut h = [0u8; HEADER_SIZE];
    set_ack(&mut h, ack_seq);
    h.to_vec()
}

/// Hands a value to the channel and gives the datagrams that it completed.
fn receive(ch: &mut ReliableChannel, value: &[u8]) -> Vec<Vec<u8>> {
    ch.receive_fragment(value, T0).delivered
}

fn next(ch: &mut ReliableChannel) -> SendAction {
    ch.next_send_action(T0).action
}

fn expect_send(ch: &mut ReliableChannel) -> Vec<u8> {
    match next(ch) {
        SendAction::Send(msg) => msg,
        _ => panic!("expected Send action"),
    }
}

fn one(payload: &[u8]) -> Vec<Vec<u8>> {
    vec![payload.to_vec()]
}

#[test]
fn test_single_fragment_delivered() {
    let mut ch = make_channel();
    assert_eq!(receive(&mut ch, &fragment(0, true, true, b"hello")), one(b"hello"));
}

#[test]
fn test_multi_fragment_delivered() {
    let mut ch = make_channel();
    assert!(receive(&mut ch, &fragment(0, true, false, b"hel")).is_empty(), "not complete yet");
    assert!(receive(&mut ch, &fragment(1, false, false, b"lo")).is_empty(), "still not complete");
    assert_eq!(receive(&mut ch, &fragment(2, false, true, b"!")), one(b"hello!"));
}

#[test]
fn test_out_of_order_delivery() {
    let mut ch = make_channel();
    assert!(receive(&mut ch, &fragment(1, false, false, b" world")).is_empty());
    assert!(
        receive(&mut ch, &fragment(0, true, false, b"hello")).is_empty(),
        "LAST not received yet"
    );
    assert_eq!(receive(&mut ch, &fragment(2, false, true, b"!")), one(b"hello world!"));
}

#[test]
fn test_duplicate_fragment_ignored() {
    let mut ch = make_channel();
    assert_eq!(receive(&mut ch, &fragment(0, true, true, b"ping")), one(b"ping"));
    assert!(
        receive(&mut ch, &fragment(0, true, true, b"ping")).is_empty(),
        "duplicate should not re-deliver"
    );
}

#[test]
fn test_reassembly_overflow_dropped() {
    let mut ch = make_channel();
    let big = vec![0u8; MAX_DATAGRAM_SIZE + 1];
    assert!(
        receive(&mut ch, &fragment(0, true, true, &big)).is_empty(),
        "oversized datagram must not be delivered"
    );
}

#[test]
fn test_reassembly_overflow_mid_stream() {
    let mut ch = make_channel();
    let big = vec![0u8; MAX_DATAGRAM_SIZE + 1];
    assert!(receive(&mut ch, &fragment(0, true, false, &big)).is_empty());
    assert!(
        receive(&mut ch, &fragment(1, false, true, b"end")).is_empty(),
        "datagram that overflowed must be dropped"
    );
}

#[test]
fn largest_datagram_is_delivered() {
    let mut ch = make_channel();
    let big = vec![7u8; MAX_DATAGRAM_SIZE];
    assert_eq!(receive(&mut ch, &fragment(0, true, true, &big)), vec![big]);
}

#[test]
fn take_undelivered_returns_unacked_and_queued_whole_datagrams() {
    let mut ch = make_channel();
    ch.enqueue_datagram(b"one".to_vec());
    ch.enqueue_datagram(b"two".to_vec());
    ch.enqueue_datagram(b"three".to_vec());
    // Put all three on the wire (single-fragment each at chunk 512), none ACKed.
    for _ in 0..3 {
        assert!(matches!(next(&mut ch), SendAction::Send(_)));
    }
    let undelivered = ch.take_undelivered();
    assert_eq!(
        undelivered,
        vec![b"one".to_vec(), b"two".to_vec(), b"three".to_vec()],
        "every unACKed datagram must come back whole, in send order"
    );
    assert!(ch.state.send_queue.is_empty(), "send queue must be drained");
    assert!(ch.state.frag_queue.is_empty(), "frag queue must be cleared");
    assert!(ch.state.unacked_datagrams.is_empty(), "copies must be drained");
}

#[test]
fn take_undelivered_excludes_fully_acked_datagrams() {
    let mut ch = make_channel();
    ch.enqueue_datagram(b"acked".to_vec());
    ch.enqueue_datagram(b"lost".to_vec());
    assert!(matches!(next(&mut ch), SendAction::Send(_))); // seq 0
    assert!(matches!(next(&mut ch), SendAction::Send(_))); // seq 1
    receive(&mut ch, &pure_ack(0)); // ACKs "acked" only
    assert_eq!(
        ch.take_undelivered(),
        vec![b"lost".to_vec()],
        "a fully ACKed datagram must not be re-sent"
    );
}

#[test]
fn take_undelivered_returns_partially_acked_datagram_whole() {
    let mut ch = make_channel();
    // max_payload = 4: an 8-byte datagram fragments into two.
    ch.set_chunk_size(HEADER_SIZE + 1 + 4);
    ch.enqueue_datagram(b"12345678".to_vec());
    assert!(matches!(next(&mut ch), SendAction::Send(_))); // frag seq 0
    assert!(matches!(next(&mut ch), SendAction::Send(_))); // frag seq 1
    receive(&mut ch, &pure_ack(0)); // first fragment ACKed, second not
    assert_eq!(
        ch.take_undelivered(),
        vec![b"12345678".to_vec()],
        "a partially ACKed datagram must be returned whole"
    );
}

#[test]
fn take_undelivered_includes_what_was_never_split() {
    let mut ch = with_chunk_size(10);
    ch.enqueue_datagram(vec![1; 20]);
    ch.enqueue_datagram(vec![2; 3]);
    assert!(matches!(next(&mut ch), SendAction::Send(_)));
    assert_eq!(ch.take_undelivered(), vec![vec![1; 20], vec![2; 3]]);
    assert!(matches!(next(&mut ch), SendAction::Wait));
}

#[test]
fn test_ack_slides_send_window() {
    let mut ch = make_channel();
    ch.enqueue_datagram(b"test".to_vec());
    assert!(!ch.state.send_queue.is_empty());
    assert!(matches!(next(&mut ch), SendAction::Send(_)));
    assert_eq!(ch.state.in_flight_count(), 1);
    assert_eq!(ch.state.send_base, 0);
    assert_eq!(ch.state.send_next, 1);
    receive(&mut ch, &pure_ack(0));
    assert_eq!(ch.state.in_flight_count(), 0, "ACK should clear in-flight");
    assert_eq!(ch.state.send_base, 1, "send_base should advance past ACK'd seq");
}

#[test]
fn test_ack_records_clean_rtt_sample() {
    let mut ch = make_channel();
    ch.enqueue_datagram(b"test".to_vec());
    assert!(matches!(next(&mut ch), SendAction::Send(_)));
    receive(&mut ch, &pure_ack(0));
    assert_eq!(ch.state.rtt.acked, 1);
    assert_eq!(ch.state.rtt.acked_after_retransmit, 0);
    assert_eq!(
        ch.state.rtt.samples.len(),
        1,
        "never-retransmitted fragment must be RTT-sampled"
    );
}

#[test]
fn test_retransmitted_fragment_ack_is_not_sampled() {
    let mut ch = make_channel();
    ch.enqueue_datagram(b"test".to_vec());
    assert!(matches!(next(&mut ch), SendAction::Send(_)));
    ch.state.in_flight.front_mut().unwrap().retransmits = 1;
    receive(&mut ch, &pure_ack(0));
    assert_eq!(ch.state.rtt.acked, 1);
    assert_eq!(ch.state.rtt.acked_after_retransmit, 1);
    assert!(
        ch.state.rtt.samples.is_empty(),
        "retransmitted fragment must not contribute an RTT sample"
    );
}

#[test]
fn test_ack_beyond_window_ignored() {
    let mut ch = make_channel();
    receive(&mut ch, &pure_ack(5));
    assert_eq!(ch.state.send_base, 0, "bogus ACK should not move send_base");
}

#[test]
fn test_multiple_fragments_acked_cumulatively() {
    let mut ch = make_channel();
    ch.enqueue_datagram(b"aaa".to_vec());
    ch.enqueue_datagram(b"bbb".to_vec());
    ch.enqueue_datagram(b"ccc".to_vec());
    for _ in 0..3 {
        assert!(matches!(next(&mut ch), SendAction::Send(_)));
    }
    assert_eq!(ch.state.in_flight_count(), 3);
    receive(&mut ch, &pure_ack(2));
    assert_eq!(ch.state.in_flight_count(), 0);
    assert_eq!(ch.state.send_base, 3);
}

#[test]
fn test_small_datagram_single_fragment() {
    let mut ch = make_channel();
    ch.enqueue_datagram(b"small".to_vec());
    let msg = expect_send(&mut ch);
    assert!(msg.len() > HEADER_SIZE);
    let b0 = msg[0];
    assert_ne!(b0 & FLAG_FIRST, 0, "single fragment must have FIRST");
    assert_ne!(b0 & FLAG_LAST, 0, "single fragment must have LAST");
    assert_eq!(msg.last().copied(), Some(FRAGMENT_CANARY));
    assert_eq!(&msg[HEADER_SIZE..msg.len() - 1], b"small");
}

#[test]
fn test_large_datagram_fragmented() {
    // chunk_size=10 -> max_payload=7 (10 - 2 header - 1 canary) -> 20 bytes = 3 fragments.
    let mut ch = with_chunk_size(10);
    ch.enqueue_datagram(vec![0xAA; 20]);

    let msg = expect_send(&mut ch);
    assert_ne!(msg[0] & FLAG_FIRST, 0);
    assert_eq!(msg[0] & FLAG_LAST, 0);
    assert_eq!(msg.len() - HEADER_SIZE, 8); // 7 payload + 1 canary

    let msg = expect_send(&mut ch);
    assert_eq!(msg[0] & FLAG_FIRST, 0);
    assert_eq!(msg[0] & FLAG_LAST, 0);
    assert_eq!(msg.len() - HEADER_SIZE, 8); // 7 payload + 1 canary

    let msg = expect_send(&mut ch);
    assert_eq!(msg[0] & FLAG_FIRST, 0);
    assert_ne!(msg[0] & FLAG_LAST, 0);
    assert_eq!(msg.len() - HEADER_SIZE, 7); // 6 payload + 1 canary
}

#[test]
fn test_window_blocks_when_full() {
    let mut ch = make_channel();
    for i in 0..WINDOW_SIZE + 2 {
        ch.enqueue_datagram(vec![i; 1]);
    }
    for _ in 0..WINDOW_SIZE {
        assert!(matches!(next(&mut ch), SendAction::Send(_)));
    }
    assert!(matches!(next(&mut ch), SendAction::Wait), "should block at full window");
}

#[test]
fn test_window_unblocks_after_ack() {
    let mut ch = make_channel();
    for i in 0..WINDOW_SIZE + 1 {
        ch.enqueue_datagram(vec![i; 1]);
    }
    for _ in 0..WINDOW_SIZE {
        next(&mut ch);
    }
    receive(&mut ch, &pure_ack(0));
    assert!(matches!(next(&mut ch), SendAction::Send(_)), "should unblock after ACK");
}

#[test]
fn test_enqueue_backpressure() {
    let mut ch = make_channel();
    for _ in 0..SEND_QUEUE_CAPACITY {
        assert!(ch.enqueue_datagram(vec![1]));
    }
    assert!(!ch.enqueue_datagram(vec![2]), "should reject when full");
}

#[test]
fn test_try_enqueue_datagram() {
    let mut ch = make_channel();
    assert_eq!(try_enqueue_datagram(Some(&mut ch), vec![1]), Some(true));
    for _ in 1..SEND_QUEUE_CAPACITY {
        try_enqueue_datagram(Some(&mut ch), vec![1]);
    }
    assert_eq!(try_enqueue_datagram(Some(&mut ch), vec![2]), Some(false), "should report full");
}

#[test]
fn contended_channel_takes_nothing() {
    assert_eq!(try_enqueue_datagram(None, vec![1]), None);
}

#[test]
fn fragments_count_against_the_queue() {
    let mut ch = with_chunk_size(4); // one byte per fragment
    assert!(ch.enqueue_datagram(vec![9; SEND_QUEUE_CAPACITY + 1]));
    assert!(matches!(next(&mut ch), SendAction::Send(_)));
    assert_eq!(ch.state.frag_queue.len(), SEND_QUEUE_CAPACITY);
    assert!(!ch.enqueue_datagram(vec![1]));
}

#[test]
fn test_channel_state_in_recv_window() {
    let ch = make_channel();
    assert!(ch.state.in_recv_window(0));
    assert!(ch.state.in_recv_window(WINDOW_SIZE - 1));
    assert!(!ch.state.in_recv_window(WINDOW_SIZE));
    assert!(!ch.state.in_recv_window(WINDOW_SIZE + 1));
}

#[test]
fn test_channel_state_in_recv_window_wrapped() {
    let mut ch = make_channel();
    ch.state.recv_next = 14; // window covers [14, 14+6) = [14, 15, 0, 1, 2, 3]
    assert!(ch.state.in_recv_window(14));
    assert!(ch.state.in_recv_window(15));
    assert!(ch.state.in_recv_window(0)); // wrapped
    assert!(ch.state.in_recv_window(3)); // WINDOW_SIZE - 1 from 14
    assert!(!ch.state.in_recv_window(4)); // outside window
    assert!(!ch.state.in_recv_window(13)); // behind window
}

#[test]
fn test_in_flight_count() {
    let mut ch = make_channel();
    assert_eq!(ch.state.in_flight_count(), 0);
    ch.state.send_next = 3;
    assert_eq!(ch.state.in_flight_count(), 3);
    ch.state.send_base = 3;
    assert_eq!(ch.state.in_flight_count(), 0);
}

#[test]
fn test_in_flight_count_wrapped() {
    let mut ch = make_channel();
    ch.state.send_base = 14;
    ch.state.send_next = 2; // 14->15->0->1->2 = 4 in flight
    assert_eq!(ch.state.in_flight_count(), 4);
}

#[test]
fn test_ack_piggybacked_on_data() {
    let mut ch = make_channel();
    receive(&mut ch, &fragment(0, true, true, b"hello"));
    ch.enqueue_datagram(b"reply".to_vec());
    let msg = expect_send(&mut ch);
    assert!(msg.len() >= HEADER_SIZE);
    assert_ne!(msg[1] & FLAG_ACK, 0, "ACK should be piggybacked");
    assert_eq!(msg[1] & ACK_SEQ_MASK, 0, "should ACK seq 0");
    assert!(ch.state.ack_pending.is_none(), "ack_pending should be cleared");
}

#[test]
fn test_short_message_ignored() {
    let mut ch = make_channel();
    assert!(receive(&mut ch, &[]).is_empty());
    assert!(receive(&mut ch, &[0x00]).is_empty(), "short messages should be ignored");
}

#[test]
fn test_sequential_datagrams() {
    let mut ch = make_channel();
    assert_eq!(receive(&mut ch, &fragment(0, true, true, b"first")), one(b"first"));
    assert_eq!(receive(&mut ch, &fragment(1, true, true, b"second")), one(b"second"));
    assert_eq!(receive(&mut ch, &fragment(2, true, true, b"third")), one(b"third"));
}

#[test]
fn test_receive_sequence_wraparound() {
    let mut ch = make_channel();
    for i in 0..14u8 {
        assert_eq!(receive(&mut ch, &fragment(i, true, true, &[i])), one(&[i]));
    }
    assert_eq!(receive(&mut ch, &fragment(14, true, true, &[14])), one(&[14]));
    assert_eq!(receive(&mut ch, &fragment(15, true, true, &[15])), one(&[15]));
    assert_eq!(receive(&mut ch, &fragment(0, true, true, &[0])), one(&[0]));
}

#[test]
fn test_overflow_recovery_next_datagram_ok() {
    let mut ch = make_channel();
    let big = vec![0u8; MAX_DATAGRAM_SIZE + 1];
    assert!(receive(&mut ch, &fragment(0, true, true, &big)).is_empty());
    assert_eq!(receive(&mut ch, &fragment(1, true, true, b"ok")), one(b"ok"));
}

#[test]
fn test_link_dead_returns_dead() {
    let mut ch = make_channel();
    ch.state.link_dead = true;
    assert!(matches!(next(&mut ch), SendAction::Dead));
}

#[test]
fn test_piggybacked_ack_in_data_fragment() {
    let mut ch = make_channel();
    ch.enqueue_datagram(b"out".to_vec());
    next(&mut ch);
    assert_eq!(ch.state.in_flight_count(), 1);
    let msg = fragment_with_ack(0, true, true, b"incoming", 0);
    assert_eq!(receive(&mut ch, &msg), one(b"incoming"));
    assert_eq!(ch.state.in_flight_count(), 0);
    assert_eq!(ch.state.send_base, 1);
}

#[test]
fn test_behind_window_duplicate_triggers_ack() {
    let mut ch = make_channel();
    for i in 0..3u8 {
        receive(&mut ch, &fragment(i, true, true, &[i]));
    }
    // seq 1 is behind window (recv_next=3), should re-ACK.
    receive(&mut ch, &fragment(1, true, true, b"dup"));
    assert_eq!(ch.state.ack_pending, Some(2));
}

fn pump_one(sender: &mut ReliableChannel, receiver: &mut ReliableChannel) -> (Option<Vec<u8>>, Vec<Vec<u8>>) {
    match next(sender) {
        SendAction::Send(msg) => {
            let delivered = receive(receiver, &msg);
            (Some(msg), delivered)
        }
        _ => (None, Vec::new()),
    }
}

fn pump_all(sender: &mut ReliableChannel, receiver: &mut ReliableChannel) -> (usize, Vec<Vec<u8>>) {
    let mut count = 0;
    let mut delivered = Vec::new();
    while let SendAction::Send(msg) = next(sender) {
        delivered.extend(receive(receiver, &msg));
        count += 1;
    }
    (count, delivered)
}

#[test]
fn test_bidirectional_single_datagram() {
    let mut a = make_channel();
    let mut b = make_channel();
    a.enqueue_datagram(b"from-a".to_vec());
    assert_eq!(pump_one(&mut a, &mut b).1, one(b"from-a"));
    b.enqueue_datagram(b"from-b".to_vec());
    assert_eq!(pump_one(&mut b, &mut a).1, one(b"from-b"));
}

#[test]
fn test_bidirectional_interleaved() {
    let mut a = make_channel();
    let mut b = make_channel();
    a.enqueue_datagram(b"a1".to_vec());
    b.enqueue_datagram(b"b1".to_vec());
    assert_eq!(pump_one(&mut a, &mut b).1, one(b"a1"));
    // B's reply should piggyback the ACK for A's seq 0.
    let (msg, delivered) = pump_one(&mut b, &mut a);
    assert_eq!(delivered, one(b"b1"));
    assert_ne!(msg.unwrap()[1] & FLAG_ACK, 0, "B should piggyback ACK on its data");
    assert_eq!(a.state.in_flight_count(), 0, "A's fragment should be ACK'd");
}

#[test]
fn test_bidirectional_multiple_datagrams() {
    let mut a = make_channel();
    let mut b = make_channel();
    for i in 0..3u8 {
        a.enqueue_datagram(vec![i; 10]);
    }
    for i in 10..13u8 {
        b.enqueue_datagram(vec![i; 10]);
    }
    let (sent_a, got) = pump_all(&mut a, &mut b);
    assert_eq!(sent_a, 3);
    assert_eq!(got, (0..3u8).map(|i| vec![i; 10]).collect::<Vec<_>>());
    let (sent_b, got) = pump_all(&mut b, &mut a);
    assert_eq!(sent_b, 3);
    assert_eq!(got, (10..13u8).map(|i| vec![i; 10]).collect::<Vec<_>>());
    assert_eq!(a.state.in_flight_count(), 0);
}

#[test]
fn test_dropped_fragment_requires_retransmit() {
    let mut a = make_channel();
    let mut b = make_channel();
    a.enqueue_datagram(b"will-drop".to_vec());
    // Send but don't deliver (simulating a drop).
    assert!(matches!(next(&mut a), SendAction::Send(_)));
    assert_eq!(a.state.in_flight_count(), 1);
    assert_eq!(b.state.recv_next, 0, "nothing arrived");
    // What is sent again delivers.
    let again = a.retransmit(T0).expect("the fragment is in flight");
    assert_eq!(receive(&mut b, &again), one(b"will-drop"));
}

#[test]
fn test_dropped_ack_sender_retransmits() {
    let mut a = make_channel();
    let mut b = make_channel();
    a.enqueue_datagram(b"data".to_vec());
    assert_eq!(pump_one(&mut a, &mut b).1, one(b"data"));
    // Don't pump B -> A (simulating ACK drop).
    assert_eq!(a.state.in_flight_count(), 1);
    assert!(
        !a.state.in_flight.is_empty(),
        "fragment should remain in-flight for retransmission"
    );
    assert_eq!(a.state.send_base, 0);
    assert_eq!(a.state.send_next, 1);
    // The receiver takes what is sent again for a duplicate, and acknowledges it again.
    let again = a.retransmit(T0).expect("the fragment is in flight");
    assert!(receive(&mut b, &again).is_empty());
    assert_eq!(b.state.ack_pending, Some(0));
}

#[test]
fn test_drop_first_of_two_fragments() {
    // chunk_size=10 -> 7 payload -> 20 bytes = 3 fragments.
    let mut a = with_chunk_size(10);
    let mut b = make_channel();
    a.enqueue_datagram(vec![0xAA; 20]);
    // Drop fragment 0, deliver 1 and 2.
    let frag0 = expect_send(&mut a);
    let frag1 = expect_send(&mut a);
    assert!(receive(&mut b, &frag1).is_empty());
    let frag2 = expect_send(&mut a);
    assert!(receive(&mut b, &frag2).is_empty(), "incomplete without frag 0");
    // Retransmit frag 0.
    assert_eq!(receive(&mut b, &frag0), vec![vec![0xAA; 20]]);
}

#[test]
fn test_reordered_fragments_reassembled_correctly() {
    // chunk_size=10 -> max_payload=7 -> 16 bytes = 3 fragments (7+7+2).
    let mut a = with_chunk_size(10);
    let mut b2 = make_channel();
    a.enqueue_datagram(vec![0xBB; 16]);
    let frag0 = expect_send(&mut a);
    let frag1 = expect_send(&mut a);
    let frag2 = expect_send(&mut a);
    // Deliver out of order: 2, 0, 1.
    assert!(receive(&mut b2, &frag2).is_empty(), "not complete yet");
    assert!(receive(&mut b2, &frag0).is_empty(), "not complete yet (frag1 missing)");
    assert_eq!(receive(&mut b2, &frag1), vec![vec![0xBB; 16]]);
}

#[test]
fn test_heavily_reordered_window() {
    let mut ch = make_channel();
    // Deliver 5 datagrams in reverse order; all should drain in order once
    // seq 0 arrives.
    let mut got = Vec::new();
    for seq in (0..5u8).rev() {
        got.extend(receive(&mut ch, &fragment(seq, true, true, &[seq])));
    }
    assert_eq!(got, (0..5u8).map(|i| vec![i]).collect::<Vec<_>>());
}

fn force_ack_deadline(ch: &mut ReliableChannel) {
    if ch.state.ack_pending.is_some() {
        ch.state.ack_deadline = Some(T0 - 1_000_000);
    }
}

fn pump_one_force(sender: &mut ReliableChannel, receiver: &mut ReliableChannel) {
    force_ack_deadline(sender);
    pump_one(sender, receiver);
}

#[test]
fn test_full_sequence_cycle_bidirectional() {
    let mut a = make_channel();
    let mut b = make_channel();
    // 32 rounds = 2x the sequence space to exercise wraparound.
    for round in 0..32u8 {
        a.enqueue_datagram(vec![round]);
        assert_eq!(pump_one(&mut a, &mut b).1, vec![vec![round]]);
        b.enqueue_datagram(vec![round.wrapping_add(100)]);
        assert_eq!(pump_one(&mut b, &mut a).1, vec![vec![round.wrapping_add(100)]]);
        pump_one_force(&mut a, &mut b);
        pump_one_force(&mut b, &mut a);
    }
    assert_eq!(a.state.in_flight_count(), 0);
    assert_eq!(b.state.in_flight_count(), 0);
}

#[test]
fn test_multi_fragment_datagram_across_sequence_wrap() {
    // chunk_size=10 -> 7 payload per fragment.
    let mut a = with_chunk_size(10);
    let mut b = make_channel();
    for i in 0..14u8 {
        a.enqueue_datagram(vec![i]);
        assert_eq!(pump_one(&mut a, &mut b).1, vec![vec![i]]);
        force_ack_deadline(&mut b);
        pump_one_force(&mut b, &mut a);
    }
    assert_eq!(a.state.send_next, 14);
    assert_eq!(a.state.in_flight_count(), 0);
    // 3 fragments spanning seq 14, 15, 0 (wraparound).
    a.enqueue_datagram(vec![0xCC; 20]);
    let (sent, got) = pump_all(&mut a, &mut b);
    assert_eq!(sent, 3);
    assert_eq!(got, vec![vec![0xCC; 20]]);
}

#[test]
fn test_pure_ack_sent_when_no_outgoing_data() {
    let mut a = make_channel();
    let mut b = make_channel();
    a.enqueue_datagram(b"data".to_vec());
    pump_one(&mut a, &mut b);
    assert!(b.state.ack_pending.is_some());
    b.state.ack_deadline = Some(T0 - 1_000_000);
    let msg = expect_send(&mut b);
    assert_eq!(msg.len(), HEADER_SIZE, "pure ACK should be header-only");
    assert_ne!(msg[1] & FLAG_ACK, 0, "must have ACK flag");
    assert_eq!(msg[1] & ACK_SEQ_MASK, 0, "should ACK seq 0");
}

#[test]
fn pure_ack_waits_for_its_delay() {
    let mut ch = make_channel();
    receive(&mut ch, &fragment(0, true, true, b"data"));
    assert!(matches!(ch.next_send_action(T0 + ACK_DELAY - 1).action, SendAction::Wait));
    match ch.next_send_action(T0 + ACK_DELAY).action {
        SendAction::Send(msg) => assert_eq!(msg, [0x00, 0x10]),
        _ => panic!("expected Send"),
    }
}

#[test]
fn test_cumulative_ack_covers_gap_fill() {
    let mut ch = make_channel();
    assert!(receive(&mut ch, &fragment(1, true, true, b"b")).is_empty());
    assert_eq!(
        receive(&mut ch, &fragment(0, true, true, b"a")),
        vec![b"a".to_vec(), b"b".to_vec()]
    );
    assert_eq!(ch.state.recv_next, 2);
    assert_eq!(ch.state.ack_pending, Some(1));
}

#[test]
fn test_stale_ack_after_window_advance_ignored() {
    let mut a = make_channel();
    for i in 0..3u8 {
        a.enqueue_datagram(vec![i]);
    }
    for _ in 0..3 {
        next(&mut a);
    }
    receive(&mut a, &pure_ack(2));
    assert_eq!(a.state.send_base, 3);
    assert_eq!(a.state.in_flight_count(), 0);
    receive(&mut a, &pure_ack(0));
    assert_eq!(a.state.send_base, 3, "stale ACK should not move send_base backwards");
}

#[test]
fn test_empty_datagram_not_delivered() {
    let mut ch = make_channel();
    assert!(
        receive(&mut ch, &fragment(0, true, true, b"")).is_empty(),
        "empty datagram should not be delivered"
    );
    assert_eq!(ch.state.recv_next, 1);
}

#[test]
fn receive_fragment_drops_and_counts_canary_mismatch() {
    let mut ch = with_chunk_size(32);
    let mut bad = vec![FLAG_FIRST | FLAG_LAST, 0x00];
    bad.extend_from_slice(b"hi");
    let received = ch.receive_fragment(&bad, T0);
    assert_eq!(
        ch.truncation_counter, 1,
        "truncation counter should bump exactly once on missing canary"
    );
    assert!(received.delivered.is_empty(), "corrupt fragment must not deliver a datagram");
    assert!(!received.wake);
}

#[test]
fn wakeups_follow_what_a_message_changes() {
    let mut ch = make_channel();
    let ahead = fragment(2, true, true, b"c");
    assert!(ch.receive_fragment(&ahead, T0).wake, "a gap is acknowledged");
    assert!(!ch.receive_fragment(&ahead, T0).wake, "it is buffered already");
    assert!(!ch.receive_fragment(&pure_ack(3), T0).wake, "nothing is in flight");
    ch.enqueue_datagram(b"x".to_vec());
    assert!(ch.next_send_action(T0).queue_space);
    let acked = ch.receive_fragment(&pure_ack(0), T0);
    assert!(acked.wake);
    assert!(acked.queue_space);
}

#[test]
fn telemetry_is_reported_with_an_acknowledgement() {
    let mut ch = make_channel();
    ch.enqueue_datagram(b"a".to_vec());
    ch.enqueue_datagram(b"b".to_vec());
    next(&mut ch);
    next(&mut ch);
    ch.enqueue_datagram(b"c".to_vec());
    assert!(ch.receive_fragment(&pure_ack(0), T0 + 90_000_000).report.is_none());
    let late = T0 + RTT_STATS_WINDOW;
    let report = ch.receive_fragment(&pure_ack(1), late).report.expect("a report is due");
    assert_eq!(report.window.acked, 2);
    assert_eq!(report.window.window_s, 30);
    assert_eq!(report.in_flight, 0);
    assert_eq!(report.queued_frags, 0);
    assert_eq!(report.queued_datagrams, 1);
    assert_eq!(report.ack_timeout_ms, 300);
    assert_eq!(report.rto_ms, 5000);
    assert_eq!(ch.state.rtt.acked, 0);
}

#[test]
fn retransmission_carries_the_pending_acknowledgement() {
    let mut ch = make_channel();
    ch.enqueue_datagram(b"q".to_vec());
    let first = expect_send(&mut ch);
    assert_eq!(first, [0x30, 0x00, b'q', FRAGMENT_CANARY]);
    receive(&mut ch, &fragment(0, true, true, b"r"));
    let again = ch.retransmit(T0 + 5).expect("in flight");
    assert_eq!(again, [0x30, 0x10, b'q', FRAGMENT_CANARY]);
    assert_eq!(ch.retransmit_counter, 1);
    assert_eq!(ch.state.rtt.retransmits, 1);
    assert!(ch.state.ack_pending.is_none());
    assert_eq!(ch.state.in_flight[0].first_sent_at, T0);
    assert_eq!(ch.state.in_flight[0].last_sent_at, T0 + 5);
}

#[test]
fn nothing_in_flight_is_not_retransmitted() {
    let mut ch = make_channel();
    assert!(ch.retransmit(T0).is_none());
    assert_eq!(ch.retransmit_counter, 0);
}

#[test]
fn chunk_size_is_tested_before_splitting() {
    let mut ch = with_chunk_size(3);
    assert!(ch.chunk_size_suffices());
    ch.enqueue_datagram(vec![]);
    assert!(ch.chunk_size_suffices(), "an empty datagram needs no payload");
    ch.state.send_queue.clear();
    ch.enqueue_datagram(vec![1]);
    assert!(!ch.chunk_size_suffices());
    ch.set_chunk_size(4);
    assert!(ch.chunk_size_suffices());
    ch.mark_dead();
    ch.set_chunk_size(0);
    assert!(ch.chunk_size_suffices(), "a dead channel splits nothing");
}

#[test]
fn chunk_size_applies_to_later_datagrams_only() {
    let mut ch = with_chunk_size(10);
    ch.enqueue_datagram(vec![1; 14]);
    assert_eq!(expect_send(&mut ch).len(), 10);
    ch.set_chunk_size(512);
    assert_eq!(expect_send(&mut ch).len(), 10);
    ch.enqueue_datagram(vec![2; 14]);
    assert_eq!(expect_send(&mut ch).len(), 17);
}

/// A lossy, reordering, duplicating link delivers everything in order and once.
#[test]
fn lossy_link_delivers_in_order_and_once() {
    let mut a = with_chunk_size(8);
    let mut b = make_channel();
    let mut now = T0;
    let mut rng: u32 = 12345;
    let mut wanted: Vec<Vec<u8>> = Vec::new();
    let mut got: Vec<Vec<u8>> = Vec::new();
    for round in 0..60u8 {
        let datagram: Vec<u8> = (0..(round as usize % 13 + 1)).map(|i| round ^ i as u8).collect();
        wanted.push(datagram.clone());
        assert!(a.enqueue_datagram(datagram));
        let mut idle = 0;
        while idle < 200 {
            now += 20_000_000;
            idle += 1;
            let mut wire: Vec<Vec<u8>> = Vec::new();
            while let SendAction::Send(msg) = a.next_send_action(now).action {
                wire.push(msg);
            }
            if wire.is_empty() {
                if let Some(msg) = a.retransmit(now) {
                    wire.push(msg);
                }
            }
            wire.reverse();
            for msg in wire {
                rng = rng.wrapping_mul(1664525).wrapping_add(1013904223);
                let copies = (rng >> 16) % 3; // lost, once or twice
                for _ in 0..copies {
                    got.extend(b.receive_fragment(&msg, now).delivered);
                }
            }
            while let SendAction::Send(msg) = b.next_send_action(now + ACK_DELAY).action {
                rng = rng.wrapping_mul(1664525).wrapping_add(1013904223);
                if (rng >> 16) % 3 != 0 {
                    a.receive_fragment(&msg, now);
                }
            }
            if a.state.in_flight_count() == 0 && a.state.frag_queue.is_empty() {
                break;
            }
        }
        assert!(a.state.unacked_datagrams.len() <= 7);
    }
    assert_eq!(got, wanted);
    assert!(a.take_undelivered().is_empty());
}

#[test]
fn one_telemetry_report_per_window() {
    let mut ch = make_channel();
    for _ in 0..3 {
        ch.enqueue_datagram(b"a".to_vec());
        next(&mut ch);
    }
    let first = T0 + RTT_STATS_WINDOW;
    assert!(ch.receive_fragment(&pure_ack(0), first).report.is_some());
    assert!(ch.receive_fragment(&pure_ack(1), first + RTT_STATS_WINDOW - 1).report.is_none());
    assert!(ch.receive_fragment(&pure_ack(2), first + RTT_STATS_WINDOW).report.is_some());
}

#[test]
fn round_trips_of_fragments_sent_once_are_measured() {
    let mut ch = make_channel();
    ch.enqueue_datagram(b"a".to_vec());
    ch.enqueue_datagram(b"b".to_vec());
    next(&mut ch);
    next(&mut ch);
    ch.retransmit(T0 + 300_000_000);
    // The first was sent twice and gives no sample, the second does.
    ch.receive_fragment(&pure_ack(1), T0 + 400_000_000);
    assert_eq!(ch.state.rtt.samples, vec![400_000_000]);
    assert_eq!(ch.state.rto.srtt, Some(400_000_000));
    assert_eq!(ch.state.rto.rto(), 1_200_000_000);
}

#[test]
fn handover_stops_new_fragments() {
    let mut ch = with_chunk_size(10);
    ch.enqueue_datagram(vec![1; 20]);
    next(&mut ch);
    receive(&mut ch, &fragment(0, true, true, b"in"));
    ch.take_undelivered();
    match ch.next_send_action(T0 + ACK_DELAY).action {
        SendAction::Send(msg) => assert_eq!(msg.len(), HEADER_SIZE, "only an acknowledgement"),
        _ => panic!("expected the acknowledgement"),
    }
    assert_eq!(ch.state.in_flight_count(), 1);
}
