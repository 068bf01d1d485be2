use neutrino_ble::startup::{
    federation_link, start_ble, KeyResolver, StartAction, StartStage, DISCOVERY_LOCALPART,
};

#[test]
fn start_is_in_order_and_leaves_a_provider() {
    let mut stage = StartStage::Called;
    assert!(matches!(start_ble(&mut stage, "abc"), StartAction::InitTracing));
    match start_ble(&mut stage, "abc") {
        StartAction::Announce { commit } => assert_eq!(commit, "abc"),
        _ => panic!("expected the announcement"),
    }
    match start_ble(&mut stage, "abc") {
        StartAction::StartServer { provider } => assert!(provider.newly_installed()),
        _ => panic!("expected the server"),
    }
    assert!(matches!(stage, StartStage::Started));
    assert!(rustls::crypto::CryptoProvider::get_default().is_some());
    // A second start of the process finds the provider and leaves it alone.
    let mut again = StartStage::Announced;
    match start_ble(&mut again, "abc") {
        StartAction::StartServer { provider } => assert!(!provider.newly_installed()),
        _ => panic!("expected the server"),
    }
}

#[test]
fn bound_transport_becomes_a_link_with_the_node_id_as_key() {
    let link = federation_link::<u32, String>(Ok(5)).expect("bound");
    assert_eq!(link.link, 5);
    assert!(matches!(link.key_resolver, Some(KeyResolver::NodeId)));
}

#[test]
fn binding_error_is_passed_on() {
    match federation_link::<u32, String>(Err("port in use".to_string())) {
        Err(e) => assert_eq!(e, "port in use"),
        Ok(_) => panic!("expected the error"),
    }
}

#[test]
fn localpart_of_embedded_users() {
    assert_eq!(DISCOVERY_LOCALPART, "n");
}
