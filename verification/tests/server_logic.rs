use shadow_peer::control::controller_step;
use shadow_peer::control::handle_recv;
use shadow_peer::control::init;
use shadow_peer::control::Controller;
use shadow_peer::control::CtrlAction;
use shadow_peer::control::CtrlEvent;
use shadow_peer::control::ConnInit;
use shadow_peer::server::is_valid_client;
use shadow_peer::CliListen;
use shadow_peer::Establish;
use shadow_peer::Listen;
use shadow_peer::Protocol;
use shadow_peer::Registry;
use shadow_peer::Server;
use shadow_peer::SockAddr;
use shadow_peer::TcpEstablish;

fn pub_addr() -> SockAddr {
    SockAddr::V4 { a: 0, b: 0, c: 0, d: 0, port: 8443 }
}

fn sample_server() -> Server {
    Server::new(
        vec![(Listen::Tcp(pub_addr()), "alice".to_string())],
        vec![CliListen::Tcp(SockAddr::V4 { a: 0, b: 0, c: 0, d: 0, port: 32767 })],
    )
}

fn sample_token() -> Establish {
    Establish::Tcp(TcpEstablish {
        src: SockAddr::V4 { a: 203, b: 0, c: 113, d: 9, port: 49000 },
        dest: pub_addr(),
    })
}

#[test]
fn valid_client_set_is_derived_from_listen_bindings() {
    let server = sample_server();
    assert!(is_valid_client(&server.valid_client, &"alice".to_string()));
    assert!(!is_valid_client(&server.valid_client, &"mallory".to_string()));
}

#[test]
fn authorized_hello_registers_the_client() {
    let mut server = sample_server();
    let alice = "alice".to_string();
    let r = init(&mut server.client, &server.valid_client, Protocol::ClientId(alice.clone()));
    match r {
        Some(ConnInit::Control(id)) => assert_eq!(id, alice),
        _ => panic!("expected a control connection"),
    }
    assert!(server.client.contains(&alice));
}

#[test]
fn unauthorized_hello_never_reaches_the_registry() {
    let mut server = sample_server();
    let mallory = "mallory".to_string();
    let r = init(&mut server.client, &server.valid_client, Protocol::ClientId(mallory.clone()));
    assert!(r.is_none());
    assert!(!server.client.contains(&mallory));
}

#[test]
fn establish_first_message_is_a_worker_connection() {
    let mut server = sample_server();
    let t = sample_token();
    let r = init(&mut server.client, &server.valid_client, Protocol::Establish(t));
    match r {
        Some(ConnInit::Worker(got)) => assert_eq!(got, t),
        _ => panic!("expected a worker connection"),
    }
    // A worker connection is never registered.
    assert!(!server.client.contains(&"alice".to_string()));
}

#[test]
fn ping_as_first_message_is_rejected() {
    let mut server = sample_server();
    assert!(init(&mut server.client, &server.valid_client, Protocol::Ping(1)).is_none());
}

#[test]
fn last_registration_wins() {
    let mut reg = Registry::new();
    let alice = "alice".to_string();
    reg.register(alice.clone());
    assert!(reg.push_outbound(&alice, Protocol::Ping(1)));
    reg.register(alice.clone());
    // The fresh record has an empty queue again.
    assert_eq!(reg.pop_outbound(&alice), None);
}

#[test]
fn push_to_absent_client_fails() {
    let mut reg = Registry::new();
    assert!(!reg.push_outbound(&"nobody".to_string(), Protocol::Ping(1)));
}

#[test]
fn outbound_queue_keeps_order() {
    let mut reg = Registry::new();
    let alice = "alice".to_string();
    reg.register(alice.clone());
    assert!(reg.push_outbound(&alice, Protocol::Ping(1)));
    assert!(reg.push_outbound(&alice, Protocol::Ping(2)));
    assert_eq!(reg.pop_outbound(&alice), Some(Protocol::Ping(1)));
    assert_eq!(reg.pop_outbound(&alice), Some(Protocol::Ping(2)));
    assert_eq!(reg.pop_outbound(&alice), None);
}

#[test]
fn controller_forwards_queued_messages() {
    let mut c = Controller::new(100);
    let msg = Protocol::Establish(sample_token());
    match controller_step(&mut c, CtrlEvent::Outbound(Some(msg.clone())), 101) {
        CtrlAction::Send(sent) => assert_eq!(sent, msg),
        _ => panic!("expected a send"),
    }
    assert_eq!(c.last_recv, 100);
}

#[test]
fn controller_exits_when_queue_closes() {
    let mut c = Controller::new(100);
    assert!(matches!(controller_step(&mut c, CtrlEvent::Outbound(None), 101), CtrlAction::Exit));
}

#[test]
fn controller_exits_on_read_failure() {
    let mut c = Controller::new(100);
    assert!(matches!(controller_step(&mut c, CtrlEvent::Inbound(None), 101), CtrlAction::Exit));
}

#[test]
fn inbound_traffic_resets_liveness() {
    let mut c = Controller::new(100);
    match controller_step(&mut c, CtrlEvent::Inbound(Some(Protocol::Ping(7))), 123) {
        CtrlAction::Continue => {}
        _ => panic!("expected the loop to continue"),
    }
    assert_eq!(c.last_recv, 123);
}

#[test]
fn handle_recv_acknowledges_only_pings() {
    let mut c = Controller::new(0);
    assert!(handle_recv(&mut c, &Protocol::Ping(5), 10));
    assert_eq!(c.last_recv, 10);
    assert!(!handle_recv(&mut c, &Protocol::ClientId("x".to_string()), 11));
    assert_eq!(c.last_recv, 11);
}

#[test]
fn timer_prompts_a_heartbeat() {
    let mut c = Controller::new(100);
    match controller_step(&mut c, CtrlEvent::Tick, 42) {
        CtrlAction::Send(Protocol::Ping(42)) => {}
        _ => panic!("expected a heartbeat"),
    }
}

#[test]
fn duplicate_listen_bindings_keep_the_last() {
    let server = Server::new(
        vec![
            (Listen::Tcp(pub_addr()), "alice".to_string()),
            (Listen::Tcp(pub_addr()), "bob".to_string()),
        ],
        vec![],
    );
    assert_eq!(server.listen.len(), 1);
    assert_eq!(server.listen[0].1, "bob".to_string());
    // The valid-client set still derives from every given pair.
    assert!(is_valid_client(&server.valid_client, &"alice".to_string()));
    assert!(is_valid_client(&server.valid_client, &"bob".to_string()));
}
