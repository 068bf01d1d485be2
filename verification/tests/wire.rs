use neutrino_ble::reliable::wire::{
    make_header, parse_message, seq_dist, set_ack, Parsed, ACK_SEQ_MASK, FLAG_ACK, FLAG_FIRST,
    FLAG_LAST, FRAGMENT_CANARY, SEQ_MASK, SEQ_MODULUS, WINDOW_SIZE,
};

#[test]
fn test_seq_dist_basic() {
    assert_eq!(seq_dist(0, 0), 0);
    assert_eq!(seq_dist(0, 1), 1);
    assert_eq!(seq_dist(0, 15), 15);
}

#[test]
fn test_seq_dist_wrap() {
    // 14 -> 15 -> 0 -> 1 -> 2  =  4 steps
    assert_eq!(seq_dist(14, 2), 4);
    // 15 -> 0  =  1 step
    assert_eq!(seq_dist(15, 0), 1);
}

#[test]
fn test_make_header_seq_only() {
    let h = make_header(5, false, false);
    assert_eq!(h[0] & SEQ_MASK, 5);
    assert_eq!(h[0] & FLAG_FIRST, 0);
    assert_eq!(h[0] & FLAG_LAST, 0);
    assert_eq!(h[1], 0);
}

#[test]
fn test_make_header_first_last() {
    let h = make_header(3, true, true);
    assert_eq!(h[0] & SEQ_MASK, 3);
    assert_ne!(h[0] & FLAG_FIRST, 0);
    assert_ne!(h[0] & FLAG_LAST, 0);
}

#[test]
fn test_make_header_seq_wraps_at_modulus() {
    // Only low 4 bits should be used.
    let h = make_header(17, false, false);
    assert_eq!(h[0] & SEQ_MASK, 1); // 17 & 0x0F = 1
}

#[test]
fn test_set_ack() {
    let mut h = [0u8; 2];
    set_ack(&mut h, 7);
    assert_ne!(h[1] & FLAG_ACK, 0, "ACK flag must be set");
    assert_eq!(h[1] & ACK_SEQ_MASK, 7);
}

#[test]
fn test_seq_dist_full_circle() {
    // Distance from N to N is always 0.
    for i in 0..SEQ_MODULUS {
        assert_eq!(seq_dist(i, i), 0);
    }
}

#[test]
fn test_seq_dist_one_step() {
    for i in 0..SEQ_MODULUS {
        assert_eq!(seq_dist(i, (i + 1) % SEQ_MODULUS), 1);
    }
}

#[test]
fn test_window_size_invariant() {
    // WINDOW_SIZE must be < SEQ_MODULUS / 2 for correct modular arithmetic.
    assert!(WINDOW_SIZE < SEQ_MODULUS / 2);
}

#[test]
fn exact_header_bytes() {
    assert_eq!(make_header(9, true, false), [0x19, 0x00]);
    assert_eq!(make_header(9, false, true), [0x29, 0x00]);
    assert_eq!(make_header(15, true, true), [0x3F, 0x00]);
    let mut h = make_header(9, true, false);
    set_ack(&mut h, 20);
    assert_eq!(h, [0x19, 0x14]);
}

#[test]
fn parsing_undoes_framing() {
    let mut msg = make_header(11, true, false).to_vec();
    set_ack(&mut msg, 6);
    msg.extend_from_slice(b"abc");
    msg.push(FRAGMENT_CANARY);
    match parse_message(&msg) {
        Parsed::Frame(frame) => {
            assert_eq!(frame.seq, 11);
            assert!(frame.first);
            assert!(!frame.last);
            assert_eq!(frame.ack, Some(6));
            assert_eq!(frame.payload, b"abc");
        }
        _ => panic!("expected a frame"),
    }
}

#[test]
fn parsing_tells_short_and_truncated_values_apart() {
    assert!(matches!(parse_message(&[]), Parsed::Short));
    assert!(matches!(parse_message(&[0x30]), Parsed::Short));
    assert!(matches!(parse_message(&[0x30, 0x00, b'x']), Parsed::Truncated));
    assert!(matches!(parse_message(&[0x30, 0x00]), Parsed::Frame(_)));
    assert!(matches!(parse_message(&[0x30, 0x00, FRAGMENT_CANARY]), Parsed::Frame(_)));
}

#[test]
fn every_cut_of_a_message_without_inner_canary_is_noticed() {
    let mut msg = make_header(4, true, true).to_vec();
    msg.extend_from_slice(b"payload");
    msg.push(FRAGMENT_CANARY);
    for kept in 3..msg.len() {
        assert!(matches!(parse_message(&msg[..kept]), Parsed::Truncated));
    }
}

#[test]
fn reserved_bits_are_ignored() {
    match parse_message(&[0xC5, 0xE9]) {
        Parsed::Frame(frame) => {
            assert_eq!(frame.seq, 5);
            assert!(!frame.first);
            assert!(!frame.last);
            assert_eq!(frame.ack, None);
            assert!(frame.payload.is_empty());
        }
        _ => panic!("expected a frame"),
    }
}
