use shadow_peer::build_protocol;
use shadow_peer::parse;
use shadow_peer::body_len;
use shadow_peer::Establish;
use shadow_peer::Protocol;
use shadow_peer::ShadowPeerError;
use shadow_peer::SockAddr;
use shadow_peer::TcpEstablish;

fn frame(msg: &Protocol) -> (Vec<u8>, [u8; 4], Vec<u8>) {
    let bytes = build_protocol(msg).expect("message should fit one frame");
    assert!(bytes.len() >= 4);
    let header = [bytes[0], bytes[1], bytes[2], bytes[3]];
    let body: Vec<u8> = bytes[4..].to_vec();
    assert_eq!(body.len(), body_len(&header));
    (bytes, header, body)
}

fn round_trip(msg: Protocol) {
    let (_, header, body) = frame(&msg);
    let back = parse(&header, &body).expect("own frame should decode");
    assert_eq!(back, msg);
}

#[test]
fn ping_round_trip() {
    round_trip(Protocol::Ping(0));
    round_trip(Protocol::Ping(5));
    round_trip(Protocol::Ping(0x1234));
    round_trip(Protocol::Ping(u16::MAX));
}

#[test]
fn ping_exact_bytes() {
    let (bytes, _, _) = frame(&Protocol::Ping(5));
    assert_eq!(bytes, vec![0, 0, 0, 5]);
    let (bytes, _, _) = frame(&Protocol::Ping(0x1234));
    assert_eq!(bytes, vec![0, 0, 0x12, 0x34]);
}

#[test]
fn client_id_round_trip() {
    round_trip(Protocol::ClientId(String::new()));
    round_trip(Protocol::ClientId("alice".to_string()));
    round_trip(Protocol::ClientId(
        "BITCOINCASH:QPZNZ089TQKAVWF6XM6SD8KPGM59FF5H6CKV0585EP".to_string(),
    ));
}

#[test]
fn client_id_with_escapes_round_trip() {
    round_trip(Protocol::ClientId("quote \" backslash \\ done".to_string()));
    round_trip(Protocol::ClientId("tab\tnewline\nnull\u{0}".to_string()));
}

#[test]
fn client_id_non_ascii_round_trip() {
    round_trip(Protocol::ClientId("gr\u{fc}ne t\u{fc}r \u{2764} \u{1f600}".to_string()));
}

#[test]
fn client_id_exact_bytes() {
    let (bytes, _, body) = frame(&Protocol::ClientId("ab".to_string()));
    assert_eq!(&bytes[..4], &[0, 1, 0, 17]);
    assert_eq!(body, b"{\"ClientId\":\"ab\"}".to_vec());
}

#[test]
fn establish_v4_round_trip() {
    let est = Establish::Tcp(TcpEstablish {
        src: SockAddr::V4 { a: 203, b: 0, c: 113, d: 5, port: 49152 },
        dest: SockAddr::V4 { a: 0, b: 0, c: 0, d: 0, port: 8443 },
    });
    round_trip(Protocol::Establish(est));
}

#[test]
fn establish_v6_round_trip() {
    let est = Establish::Tcp(TcpEstablish {
        src: SockAddr::V6 {
            s0: 0x2001, s1: 0xdb8, s2: 0, s3: 0, s4: 0, s5: 0, s6: 0, s7: 1,
            port: 50000,
        },
        dest: SockAddr::V6 { s0: 0, s1: 0, s2: 0, s3: 0, s4: 0, s5: 0, s6: 0, s7: 1, port: 443 },
    });
    round_trip(Protocol::Establish(est));
}

#[test]
fn establish_exact_body() {
    let est = Establish::Tcp(TcpEstablish {
        src: SockAddr::V4 { a: 1, b: 2, c: 3, d: 4, port: 56789 },
        dest: SockAddr::V6 { s0: 0, s1: 0, s2: 0, s3: 0, s4: 0, s5: 0, s6: 0, s7: 1, port: 443 },
    });
    let (_, _, body) = frame(&Protocol::Establish(est));
    assert_eq!(
        body,
        b"{\"Establish\":{\"Tcp\":{\"src\":\"1.2.3.4:56789\",\"dest\":\"[0:0:0:0:0:0:0:1]:443\"}}}"
            .to_vec()
    );
}

#[test]
fn body_of_exactly_65535_bytes_encodes() {
    // {"ClientId":" is 13 bytes, "} is 2: the identity takes 65520.
    let id = "a".repeat(65520);
    let msg = Protocol::ClientId(id);
    let (bytes, header, body) = frame(&msg);
    assert_eq!(body.len(), 65535);
    assert_eq!(&bytes[..4], &[0, 1, 0xff, 0xff]);
    assert_eq!(parse(&header, &body).unwrap(), msg);
}

#[test]
fn body_of_65536_bytes_fails_encoding() {
    let id = "a".repeat(65521);
    match build_protocol(&Protocol::ClientId(id)) {
        Err(ShadowPeerError::InvalidOperation(_)) => {}
        other => panic!("expected InvalidOperation, got {:?}", other),
    }
}

#[test]
fn unsupported_version_is_rejected() {
    let header = [1u8, 0, 0, 5];
    match parse(&header, &Vec::new()) {
        Err(ShadowPeerError::UnsupportedVersion(1)) => {}
        other => panic!("expected UnsupportedVersion(1), got {:?}", other),
    }
}

#[test]
fn invalid_opcode_is_rejected() {
    let header = [0u8, 2, 0, 0];
    match parse(&header, &Vec::new()) {
        Err(ShadowPeerError::InvalidOperation(_)) => {}
        other => panic!("expected InvalidOperation, got {:?}", other),
    }
}

#[test]
fn length_mismatch_is_rejected() {
    let header = [0u8, 1, 0, 4];
    match parse(&header, &b"{}".to_vec()) {
        Err(ShadowPeerError::InvalidOperation(_)) => {}
        other => panic!("expected InvalidOperation, got {:?}", other),
    }
}

#[test]
fn malformed_body_is_rejected() {
    let body = b"{\"Pong\":5}".to_vec();
    let header = [0u8, 1, 0, body.len() as u8];
    match parse(&header, &body) {
        Err(ShadowPeerError::MalformedJson) => {}
        other => panic!("expected MalformedJson, got {:?}", other),
    }
    let body = b"{\"Ping\":999999}".to_vec();
    let header = [0u8, 1, 0, body.len() as u8];
    match parse(&header, &body) {
        Err(ShadowPeerError::MalformedJson) => {}
        other => panic!("expected MalformedJson, got {:?}", other),
    }
}

#[test]
fn ping_frame_has_no_body() {
    let header = [0u8, 0, 0xab, 0xcd];
    assert_eq!(body_len(&header), 0);
    assert_eq!(parse(&header, &Vec::new()).unwrap(), Protocol::Ping(0xabcd));
}

fn body_frame(body: &[u8]) -> ([u8; 4], Vec<u8>) {
    let body = body.to_vec();
    let header = [0u8, 1, (body.len() / 256) as u8, (body.len() % 256) as u8];
    (header, body)
}

#[test]
fn whitespace_between_tokens_is_accepted() {
    let (h, b) = body_frame(b"{ \"Ping\" : 5 }");
    assert_eq!(parse(&h, &b).unwrap(), Protocol::Ping(5));
    let (h, b) = body_frame(b"{\"Ping\":\t500 }\r\n");
    assert_eq!(parse(&h, &b).unwrap(), Protocol::Ping(500));
    let (h, b) = body_frame(b" { \"ClientId\" : \"alice\" } ");
    assert_eq!(parse(&h, &b).unwrap(), Protocol::ClientId("alice".to_string()));
    let (h, b) = body_frame(
        b"{ \"Establish\" : { \"Tcp\" : { \"src\" : \"1.2.3.4:5\" , \"dest\" : \"6.7.8.9:10\" } } }",
    );
    let est = Establish::Tcp(TcpEstablish {
        src: SockAddr::V4 { a: 1, b: 2, c: 3, d: 4, port: 5 },
        dest: SockAddr::V4 { a: 6, b: 7, c: 8, d: 9, port: 10 },
    });
    assert_eq!(parse(&h, &b).unwrap(), Protocol::Establish(est));
}

#[test]
fn standard_escapes_are_accepted() {
    let (h, b) = body_frame(b"{\"ClientId\":\"a\\n\\t\\\"\\\\\\/b\"}");
    assert_eq!(parse(&h, &b).unwrap(), Protocol::ClientId("a\n\t\"\\/b".to_string()));
    let (h, b) = body_frame(b"{\"ClientId\":\"\\u0041\\u00e9\\u20AC\"}");
    assert_eq!(parse(&h, &b).unwrap(), Protocol::ClientId("A\u{e9}\u{20ac}".to_string()));
    // A surrogate pair stands for one scalar.
    let (h, b) = body_frame(b"{\"ClientId\":\"\\uD83D\\uDE00\"}");
    assert_eq!(parse(&h, &b).unwrap(), Protocol::ClientId("\u{1f600}".to_string()));
}

#[test]
fn lone_surrogate_is_rejected() {
    let (h, b) = body_frame(b"{\"ClientId\":\"\\uD83D\"}");
    match parse(&h, &b) {
        Err(ShadowPeerError::MalformedJson) => {}
        other => panic!("expected MalformedJson, got {:?}", other),
    }
}

#[test]
fn compressed_ipv6_is_accepted() {
    let (h, b) = body_frame(
        b"{\"Establish\":{\"Tcp\":{\"src\":\"[::1]:50000\",\"dest\":\"[2001:DB8::2]:443\"}}}",
    );
    let est = Establish::Tcp(TcpEstablish {
        src: SockAddr::V6 { s0: 0, s1: 0, s2: 0, s3: 0, s4: 0, s5: 0, s6: 0, s7: 1, port: 50000 },
        dest: SockAddr::V6 {
            s0: 0x2001, s1: 0xdb8, s2: 0, s3: 0, s4: 0, s5: 0, s6: 0, s7: 2,
            port: 443,
        },
    });
    assert_eq!(parse(&h, &b).unwrap(), Protocol::Establish(est));
}

#[test]
fn all_zero_and_trailing_gap_ipv6_are_accepted() {
    let (h, b) = body_frame(
        b"{\"Establish\":{\"Tcp\":{\"src\":\"[::]:1\",\"dest\":\"[1:2::]:2\"}}}",
    );
    let est = Establish::Tcp(TcpEstablish {
        src: SockAddr::V6 { s0: 0, s1: 0, s2: 0, s3: 0, s4: 0, s5: 0, s6: 0, s7: 0, port: 1 },
        dest: SockAddr::V6 { s0: 1, s1: 2, s2: 0, s3: 0, s4: 0, s5: 0, s6: 0, s7: 0, port: 2 },
    });
    assert_eq!(parse(&h, &b).unwrap(), Protocol::Establish(est));
}

#[test]
fn padded_and_mixed_case_ipv6_is_accepted() {
    let (h, b) = body_frame(
        b"{\"Establish\":{\"Tcp\":{\"src\":\"[0000:0000:0000:0000:0000:0000:0000:0001]:443\",\"dest\":\"[A:b:C:d:0:0:0:1]:1\"}}}",
    );
    let est = Establish::Tcp(TcpEstablish {
        src: SockAddr::V6 { s0: 0, s1: 0, s2: 0, s3: 0, s4: 0, s5: 0, s6: 0, s7: 1, port: 443 },
        dest: SockAddr::V6 {
            s0: 0xa, s1: 0xb, s2: 0xc, s3: 0xd, s4: 0, s5: 0, s6: 0, s7: 1,
            port: 1,
        },
    });
    assert_eq!(parse(&h, &b).unwrap(), Protocol::Establish(est));
}

#[test]
fn malformed_ipv6_is_rejected() {
    // Two gaps, a nine-group address, and a five-digit segment.
    for body in [
        &b"{\"Establish\":{\"Tcp\":{\"src\":\"[1::2::3]:1\",\"dest\":\"[::1]:2\"}}}"[..],
        &b"{\"Establish\":{\"Tcp\":{\"src\":\"[1:2:3:4:5:6:7:8:9]:1\",\"dest\":\"[::1]:2\"}}}"[..],
        &b"{\"Establish\":{\"Tcp\":{\"src\":\"[12345::]:1\",\"dest\":\"[::1]:2\"}}}"[..],
    ] {
        let (h, b) = body_frame(body);
        match parse(&h, &b) {
            Err(ShadowPeerError::MalformedJson) => {}
            other => panic!("expected MalformedJson, got {:?}", other),
        }
    }
}

#[test]
fn control_characters_use_short_escapes() {
    let (_, _, body) = frame(&Protocol::ClientId("a\nb\tc\u{1}".to_string()));
    assert_eq!(body, b"{\"ClientId\":\"a\\nb\\tc\\u0001\"}".to_vec());
}
