use shadow_peer::client::worker_hello;
use shadow_peer::client::ClientAction;
use shadow_peer::Client;
use shadow_peer::Establish;
use shadow_peer::Protocol;
use shadow_peer::ShadowPeerError;
use shadow_peer::SockAddr;
use shadow_peer::TcpEstablish;

fn local_dest() -> SockAddr {
    SockAddr::V4 { a: 127, b: 0, c: 0, d: 1, port: 9000 }
}

fn sample_client() -> Client {
    Client::new(
        SockAddr::V4 { a: 192, b: 0, c: 2, d: 1, port: 32767 },
        "alice".to_string(),
        vec![(8443, local_dest())],
    )
}

fn est_for_port(port: u16) -> TcpEstablish {
    TcpEstablish {
        src: SockAddr::V4 { a: 203, b: 0, c: 113, d: 9, port: 49000 },
        dest: SockAddr::V4 { a: 0, b: 0, c: 0, d: 0, port },
    }
}

#[test]
fn ping_is_echoed_back() {
    let client = sample_client();
    match client.dispatch(Protocol::Ping(77)) {
        Ok(ClientAction::Reply(Protocol::Ping(77))) => {}
        other => panic!("expected an echoed ping, got {:?}", other),
    }
}

#[test]
fn mapped_establish_spawns_a_worker_with_the_token_verbatim() {
    let client = sample_client();
    let est = est_for_port(8443);
    match client.dispatch(Protocol::Establish(Establish::Tcp(est))) {
        Ok(ClientAction::Spawn { dest, est: got }) => {
            assert_eq!(dest, local_dest());
            assert_eq!(got, est);
        }
        other => panic!("expected a worker spawn, got {:?}", other),
    }
}

#[test]
fn unmapped_establish_is_silently_ignored() {
    let client = sample_client();
    let est = est_for_port(9999);
    match client.dispatch(Protocol::Establish(Establish::Tcp(est))) {
        Ok(ClientAction::Ignore) => {}
        other => panic!("expected the request to be ignored, got {:?}", other),
    }
}

#[test]
fn hello_on_control_connection_fails_the_run() {
    let client = sample_client();
    match client.dispatch(Protocol::ClientId("bob".to_string())) {
        Err(ShadowPeerError::InvalidOperation(_)) => {}
        other => panic!("expected InvalidOperation, got {:?}", other),
    }
}

#[test]
fn later_map_entries_win() {
    let other = SockAddr::V4 { a: 127, b: 0, c: 0, d: 1, port: 9001 };
    let client = Client::new(
        SockAddr::V4 { a: 192, b: 0, c: 2, d: 1, port: 32767 },
        "alice".to_string(),
        vec![(8443, local_dest()), (8443, other)],
    );
    match client.dispatch(Protocol::Establish(Establish::Tcp(est_for_port(8443)))) {
        Ok(ClientAction::Spawn { dest, .. }) => assert_eq!(dest, other),
        other => panic!("expected a worker spawn, got {:?}", other),
    }
}

#[test]
fn worker_hello_carries_the_token_verbatim() {
    let est = est_for_port(8443);
    assert_eq!(worker_hello(est), Protocol::Establish(Establish::Tcp(est)));
}

#[test]
fn low16_truncates_to_the_low_bits() {
    assert_eq!(shadow_peer::low16(0), 0);
    assert_eq!(shadow_peer::low16(5), 5);
    assert_eq!(shadow_peer::low16(65535), 65535);
    assert_eq!(shadow_peer::low16(65536), 0);
    assert_eq!(shadow_peer::low16(0x1_2345_6789), 0x6789);
    assert_eq!(shadow_peer::low16(u64::MAX), 0xffff);
}

#[test]
fn current_time16_runs() {
    // The reading is whatever the clock says; its truncation is low16's.
    let _ = shadow_peer::current_time16();
}
