//! Version-0 framing. Every frame begins with four bytes, big-endian:
//! the protocol version, an opcode, and a 16-bit parameter. A heartbeat
//! frame carries its timestamp in the parameter and has no body; a JSON
//! frame's parameter is the length of the message body that follows. A
//! body longer than 65535 bytes cannot be framed: encoding fails rather
//! than truncate.

use vstd::prelude::*;

use crate::error::ShadowPeerError;
use crate::json::decode_body;
use crate::json::encode_body;
use crate::json::json_body;
use crate::json::lemma_parse_body_fmt;
use crate::json::parse_body;
use crate::protocol::Protocol;
use crate::protocol::ProtocolView;

verus! {

/// Opcode of a heartbeat frame: the parameter is the timestamp, no body.
pub const OPCODE_PING: u8 = 0;

/// Opcode of a JSON frame: the parameter is the body length in bytes.
pub const OPCODE_JSON: u8 = 1;

/// The 16-bit parameter of a header, big-endian.
pub open spec fn header_param(h: Seq<u8>) -> u16
    recommends
        h.len() == 4,
{
    ((h[2] as int) * 256 + (h[3] as int)) as u16
}

/// Whether a message fits a single frame: a heartbeat always does; any
/// other message's body must be at most 65535 bytes.
pub open spec fn encodable(pv: ProtocolView) -> bool {
    match pv {
        ProtocolView::Ping(_) => true,
        _ => json_body(pv).len() <= 0xffff,
    }
}

/// The frame of a message: version 0, opcode, parameter, and for JSON
/// frames the body.
pub open spec fn spec_frame(pv: ProtocolView) -> Seq<u8> {
    match pv {
        ProtocolView::Ping(ts) => seq![0u8, OPCODE_PING, (ts / 256) as u8, (ts % 256) as u8],
        _ => {
            let body = json_body(pv);
            seq![0u8, OPCODE_JSON, (body.len() / 256) as u8, (body.len() % 256) as u8] + body
        },
    }
}

/// What a header and the body read after it decode to, if anything: a
/// heartbeat from the parameter alone; a message from a JSON body of
/// exactly the announced length; nothing otherwise.
pub open spec fn spec_parse_frame(h: Seq<u8>, b: Seq<u8>) -> Option<ProtocolView> {
    if h.len() == 4 && h[0] == 0 && h[1] == OPCODE_PING {
        Some(ProtocolView::Ping(header_param(h)))
    } else if h.len() == 4 && h[0] == 0 && h[1] == OPCODE_JSON && b.len() == header_param(h) {
        parse_body(b)
    } else {
        None
    }
}

/// Frame a message. Fails — rather than truncating — exactly when the
/// message's JSON body exceeds 65535 bytes.
pub fn build_protocol(proto: &Protocol) -> (r: Result<Vec<u8>, ShadowPeerError>)
    ensures
        match r {
            Ok(v) => encodable(proto@) && v@ == spec_frame(proto@),
            Err(e) => !encodable(proto@) && (e matches ShadowPeerError::InvalidOperation(m) && m@
                == "message body too long for one frame"@),
        },
{
    match proto {
        Protocol::Ping(ts) => {
            let mut v: Vec<u8> = Vec::new();
            v.push(0);
            v.push(OPCODE_PING);
            v.push((*ts / 256) as u8);
            v.push((*ts % 256) as u8);
            proof {
                assert(v@ =~= spec_frame(proto@));
            }
            Ok(v)
        }
        _ => {
            let body = encode_body(proto);
            if body.len() > 0xffff {
                return Err(
                    ShadowPeerError::InvalidOperation(
                        "message body too long for one frame".to_owned(),
                    ),
                );
            }
            let mut v: Vec<u8> = Vec::new();
            v.push(0);
            v.push(OPCODE_JSON);
            v.push((body.len() / 256) as u8);
            v.push((body.len() % 256) as u8);
            crate::json::append_lit(&mut v, &body);
            proof {
                assert(v@ =~= spec_frame(proto@));
            }
            Ok(v)
        }
    }
}

/// How many body bytes follow a header: the parameter announces them
/// for a JSON frame; no other frame has a body.
pub fn body_len(header: &[u8; 4]) -> (n: usize)
    ensures
        n == if header@[1] == OPCODE_JSON {
            header_param(header@) as int
        } else {
            0
        },
{
    if header[1] == OPCODE_JSON {
        (header[2] as usize) * 256 + (header[3] as usize)
    } else {
        0
    }
}

/// Decode one frame from its header and the body read after it.
/// An unsupported version, an unknown opcode, a body that does not
/// match the announced length, and a body that is not JSON of a
/// message shape each fail with their own error.
pub fn parse(header: &[u8; 4], body: &Vec<u8>) -> (r: Result<Protocol, ShadowPeerError>)
    ensures
        match r {
            Ok(p) => spec_parse_frame(header@, body@) == Some(p@),
            Err(_) => spec_parse_frame(header@, body@) is None,
        },
        header@[0] != 0 ==> (r matches Err(ShadowPeerError::UnsupportedVersion(v)) && v
            == header@[0]),
        header@[0] == 0 && header@[1] != OPCODE_PING && header@[1] != OPCODE_JSON ==> (r matches Err(
            ShadowPeerError::InvalidOperation(m),
        ) && m@ == "invalid opcode"@),
        header@[0] == 0 && header@[1] == OPCODE_JSON && body@.len() != header_param(header@)
            ==> (r matches Err(ShadowPeerError::InvalidOperation(m)) && m@
            == "body length does not match the header"@),
        header@[0] == 0 && header@[1] == OPCODE_JSON && body@.len() == header_param(header@)
            && parse_body(body@) is None ==> r matches Err(ShadowPeerError::MalformedJson),
{
    let version = header[0];
    if version != 0 {
        return Err(ShadowPeerError::UnsupportedVersion(version));
    }
    let op = header[1];
    let param: u16 = (header[2] as u16) * 256 + (header[3] as u16);
    if op == OPCODE_PING {
        return Ok(Protocol::Ping(param));
    }
    if op != OPCODE_JSON {
        return Err(ShadowPeerError::InvalidOperation("invalid opcode".to_owned()));
    }
    if body.len() != param as usize {
        return Err(
            ShadowPeerError::InvalidOperation("body length does not match the header".to_owned()),
        );
    }
    match decode_body(body) {
        Some(p) => Ok(p),
        None => Err(ShadowPeerError::MalformedJson),
    }
}

/// Round trip: a message that fits one frame — every heartbeat, and any
/// other message whose body is at most 65535 bytes — is reproduced
/// exactly by decoding its own frame, split into header and body as a
/// reader splits them.
pub proof fn lemma_frame_round_trip(pv: ProtocolView)
    requires
        encodable(pv),
    ensures
        ({
            let f = spec_frame(pv);
            f.len() >= 4 && spec_parse_frame(f.subrange(0, 4), f.subrange(4, f.len() as int))
                == Some(pv)
        }),
{
    let f = spec_frame(pv);
    match pv {
        ProtocolView::Ping(ts) => {
            let h = f.subrange(0, 4);
            assert(h =~= f);
            assert(f.subrange(4, 4) =~= Seq::<u8>::empty());
            assert((ts / 256) * 256 + ts % 256 == ts) by (nonlinear_arith);
            assert(header_param(h) == ts);
        }
        _ => {
            let body = json_body(pv);
            let h = f.subrange(0, 4);
            assert(h =~= seq![
                0u8,
                OPCODE_JSON,
                (body.len() / 256) as u8,
                (body.len() % 256) as u8,
            ]);
            assert(f.subrange(4, f.len() as int) =~= body);
            assert((body.len() / 256) * 256 + body.len() % 256 == body.len()) by (nonlinear_arith);
            assert(header_param(h) == body.len());
            lemma_parse_body_fmt(pv);
        }
    }
}

} // verus!
