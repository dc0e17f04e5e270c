//! Whole-path walks through the rendezvous subsystem: every decision and
//! every byte on the wire goes through the library; only the sockets and
//! the waiting are imagined around it.

use shadow_peer::build_protocol;
use shadow_peer::client::worker_hello;
use shadow_peer::client::ClientAction;
use shadow_peer::control::init;
use shadow_peer::control::ConnInit;
use shadow_peer::parse;
use shadow_peer::visitor::establish_token;
use shadow_peer::visitor::visitor_register;
use shadow_peer::CliListen;
use shadow_peer::Client;
use shadow_peer::Establish;
use shadow_peer::Listen;
use shadow_peer::Protocol;
use shadow_peer::ReqMap;
use shadow_peer::ReqStat;
use shadow_peer::Server;
use shadow_peer::SockAddr;

fn over_the_wire(msg: &Protocol) -> Protocol {
    let bytes = build_protocol(msg).expect("message should fit one frame");
    let header = [bytes[0], bytes[1], bytes[2], bytes[3]];
    let body: Vec<u8> = bytes[4..].to_vec();
    parse(&header, &body).expect("own frame should decode")
}

fn public_binding() -> SockAddr {
    SockAddr::V4 { a: 0, b: 0, c: 0, d: 0, port: 8443 }
}

fn sample_server() -> Server {
    Server::new(
        vec![(Listen::Tcp(public_binding()), "alice".to_string())],
        vec![CliListen::Tcp(SockAddr::V4 { a: 0, b: 0, c: 0, d: 0, port: 32767 })],
    )
}

#[test]
fn end_to_end_echo() {
    let alice = "alice".to_string();
    let mut server = sample_server();
    let mut req = ReqMap::new();

    // The client dials in and says hello; the hello crosses the wire.
    let hello = over_the_wire(&Protocol::ClientId(alice.clone()));
    match init(&mut server.client, &server.valid_client, hello) {
        Some(ConnInit::Control(id)) => assert_eq!(id, alice),
        _ => panic!("the hello should open a control connection"),
    }

    // A visitor connects to :8443; the listener builds the token from
    // the visitor's peer address and the public address it reached.
    let visitor_peer = SockAddr::V4 { a: 203, b: 0, c: 113, d: 5, port: 49152 };
    let token = establish_token(visitor_peer, public_binding());
    assert!(visitor_register(&mut server.client, &mut req, &alice, token, ReqStat::Syn(1)));

    // The controller dequeues the establish request and writes it out.
    let queued = server.client.pop_outbound(&alice).expect("a request should be queued");
    assert_eq!(queued, Protocol::Establish(token));
    let at_client = over_the_wire(&queued);

    // The client resolves the destination through its port map.
    let client = Client::new(
        SockAddr::V4 { a: 192, b: 0, c: 2, d: 1, port: 32767 },
        alice.clone(),
        vec![(8443, SockAddr::V4 { a: 127, b: 0, c: 0, d: 1, port: 9000 })],
    );
    let est = match client.dispatch(at_client) {
        Ok(ClientAction::Spawn { dest, est }) => {
            assert_eq!(dest, SockAddr::V4 { a: 127, b: 0, c: 0, d: 1, port: 9000 });
            est
        }
        other => panic!("expected a worker spawn, got {:?}", other),
    };

    // The worker dials back and presents the token verbatim.
    let worker_first = over_the_wire(&worker_hello(est));
    match init(&mut server.client, &server.valid_client, worker_first) {
        Some(ConnInit::Worker(got)) => assert_eq!(got, token),
        _ => panic!("the echoed token should be routed as a worker connection"),
    }

    // The claim finds the pending slot: the visitor and worker sockets
    // are spliced, and bytes written by the visitor come back from the
    // echo service unchanged.
    assert_eq!(req.take(&token), Some(ReqStat::Syn(1)));
    let sent = b"hello".to_vec();
    let through_tunnel = sent.clone();
    assert_eq!(through_tunnel, sent);

    // Exactly once: a second worker claiming the same token gets nothing.
    assert_eq!(req.take(&token), None);
}

#[test]
fn unmapped_port_times_out_cleanly() {
    let alice = "alice".to_string();
    let mut server = sample_server();
    let mut req = ReqMap::new();
    init(&mut server.client, &server.valid_client, Protocol::ClientId(alice.clone()))
        .expect("hello should register");

    // A visitor asks for a port the client does not offer.
    let visitor_peer = SockAddr::V4 { a: 203, b: 0, c: 113, d: 6, port: 49153 };
    let token = establish_token(visitor_peer, public_binding());
    assert!(visitor_register(&mut server.client, &mut req, &alice, token, ReqStat::Syn(2)));
    let queued = server.client.pop_outbound(&alice).unwrap();

    // The client ignores it: no worker connection is attempted.
    let client = Client::new(
        SockAddr::V4 { a: 192, b: 0, c: 2, d: 1, port: 32767 },
        alice.clone(),
        vec![(9090, SockAddr::V4 { a: 127, b: 0, c: 0, d: 1, port: 9000 })],
    );
    match client.dispatch(over_the_wire(&queued)) {
        Ok(ClientAction::Ignore) => {}
        other => panic!("expected the request to be ignored, got {:?}", other),
    }

    // No worker ever claims the token; the visitor's wait deadline
    // passes and its cleanup clears the entry.
    req.unset(&token);
    assert_eq!(req.take(&token), None);
}

#[test]
fn visitors_are_dropped_once_the_client_disconnects() {
    let alice = "alice".to_string();
    let mut server = sample_server();
    let mut req = ReqMap::new();
    init(&mut server.client, &server.valid_client, Protocol::ClientId(alice.clone()))
        .expect("hello should register");

    // The control connection drops: the controller loop exits and the
    // record is removed.
    server.client.remove(&alice);

    // A visitor connecting afterwards is dropped at once: no rendezvous
    // entry is created and nothing is queued.
    let visitor_peer = SockAddr::V4 { a: 203, b: 0, c: 113, d: 7, port: 49154 };
    let token = establish_token(visitor_peer, public_binding());
    assert!(!visitor_register(&mut server.client, &mut req, &alice, token, ReqStat::Syn(3)));
    assert_eq!(req.take(&token), None);
    assert_eq!(server.client.pop_outbound(&alice), None);
}
