use neutrino_ble::discovery::{
    decode_discovery_payload, encode_discovery_payload, DiscoveredPeer, DiscoverySink,
    NEUTRINO_MANUFACTURER_ID,
};

#[test]
fn round_trips() {
    let node_id = [7u8; 32];
    let payload = encode_discovery_payload(&node_id, "Alice");
    assert_eq!(payload.len(), 32 + "Alice".len());
    let (got_id, got_name) = decode_discovery_payload(&payload).expect("decodes");
    assert_eq!(got_id, node_id);
    assert_eq!(got_name, "Alice");
}

#[test]
fn empty_name_is_valid() {
    let node_id = [1u8; 32];
    let (got_id, got_name) =
        decode_discovery_payload(&encode_discovery_payload(&node_id, "")).expect("decodes");
    assert_eq!(got_id, node_id);
    assert_eq!(got_name, "");
}

#[test]
fn too_short_is_rejected() {
    assert!(decode_discovery_payload(&[]).is_none());
    assert!(decode_discovery_payload(&[0u8; 31]).is_none());
    // Exactly 32 bytes: node id with an empty name, not a rejection.
    assert!(decode_discovery_payload(&[0u8; 32]).is_some());
}

#[test]
fn invalid_utf8_name_is_rejected() {
    let mut payload = vec![0u8; 32];
    payload.extend_from_slice(&[0xff, 0xfe]); // invalid UTF-8
    assert!(decode_discovery_payload(&payload).is_none());
}

#[test]
fn utf8_multibyte_name_survives() {
    let node_id = [3u8; 32];
    let name = "Zoë 日本語";
    let (_, got) =
        decode_discovery_payload(&encode_discovery_payload(&node_id, name)).expect("decodes");
    assert_eq!(got, name);
}

#[test]
fn overlong_and_surrogate_names_are_rejected() {
    for bad in [&[0xC0u8, 0x80][..], &[0xED, 0xA0, 0x80], &[0xF4, 0x90, 0x80, 0x80], &[0xE6, 0x97]] {
        let mut payload = vec![9u8; 32];
        payload.extend_from_slice(bad);
        assert!(decode_discovery_payload(&payload).is_none());
    }
}

#[test]
fn payload_layout() {
    let mut node_id = [0u8; 32];
    node_id[0] = 1;
    node_id[31] = 2;
    let payload = encode_discovery_payload(&node_id, "é");
    assert_eq!(payload[0], 1);
    assert_eq!(payload[31], 2);
    assert_eq!(&payload[32..], &[0xC3, 0xA9]);
    assert_eq!(NEUTRINO_MANUFACTURER_ID, 0x0E1E);
}

fn peer(id: u8, name: &str) -> DiscoveredPeer {
    DiscoveredPeer { node_id: [id; 32], display_name: name.to_string() }
}

fn sorted(mut peers: Vec<DiscoveredPeer>) -> Vec<DiscoveredPeer> {
    peers.sort_by_key(|p| p.node_id);
    peers
}

#[test]
fn sink_publishes_news_only() {
    let mut sink = DiscoverySink::new();
    let first = sink.observe([1; 32], "Alice".to_string()).expect("a new peer is news");
    assert_eq!(first, vec![peer(1, "Alice")]);
    assert!(sink.observe([1; 32], "Alice".to_string()).is_none(), "a re-scan is no news");
    let second = sink.observe([2; 32], "Bob".to_string()).expect("a new peer is news");
    assert_eq!(sorted(second), vec![peer(1, "Alice"), peer(2, "Bob")]);
    let renamed = sink.observe([1; 32], "Alicia".to_string()).expect("a new name is news");
    assert_eq!(sorted(renamed), vec![peer(1, "Alicia"), peer(2, "Bob")]);
    assert!(sink.observe([2; 32], "Bob".to_string()).is_none());
}

#[test]
fn ids_that_differ_in_one_byte_are_two_peers() {
    let mut sink = DiscoverySink::new();
    let mut other = [5u8; 32];
    other[31] = 6;
    sink.observe([5; 32], "x".to_string());
    let both = sink.observe(other, "x".to_string()).expect("another peer");
    assert_eq!(both.len(), 2);
}
