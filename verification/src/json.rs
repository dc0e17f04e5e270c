//! The JSON wire grammar of protocol messages. The emitter writes one
//! canonical byte form — no whitespace, shortest-form numbers, lowercase
//! hex, the usual short escapes — while the reader takes any JSON text
//! of the three message shapes: whitespace between tokens, the full
//! string escape syntax, and addresses as dotted decimal
//! `a.b.c.d:port` or bracketed `[..]:port` hex segments, compressed or
//! written out, in either case.

use vstd::prelude::*;

use crate::digits::dec_rep;
use crate::digits::hex_digit;
use crate::digits::hex_rep;
use crate::digits::hex_val;
use crate::digits::hex_val_any;
use crate::digits::hex_value_any;
use crate::digits::is_dec_digit;
use crate::digits::is_hex_digit;
use crate::digits::is_hex_digit_any;
use crate::digits::parse_dec;
use crate::digits::lemma_dec_rep_shape;
use crate::digits::lemma_hex_rep_shape;
use crate::digits::lemma_parse_group_rep;
use crate::digits::lemma_hex_value_any_bound;
use crate::digits::lemma_scan_hex_any_props;
use crate::digits::lemma_scan_hex_any_run;
use crate::digits::scan_hex_any;
use crate::digits::parse_group;
use crate::digits::lemma_hex_digit_val;
use crate::digits::lemma_parse_dec_rep;
use crate::digits::push_dec;
use crate::digits::push_hex;
use crate::digits::read_dec;
use crate::net_proto::Establish;
use crate::net_proto::SockAddr;
use crate::net_proto::TcpEstablish;
use crate::protocol::Protocol;
use crate::protocol::ProtocolView;
use vstd::string::StrSliceExecFns;
use vstd::string::StringSliceAdditionalSpecFns;
use vstd::utf8::decode_utf8;
use vstd::utf8::encode_utf8;
use vstd::utf8::encode_utf8_decode_utf8;
use vstd::utf8::encode_utf8_valid_utf8;
use vstd::utf8::valid_utf8;

verus! {

// ---------------------------------------------------------------------
// The fixed parts of the grammar.
// ---------------------------------------------------------------------
/// The bytes of `{"Ping":`.
pub open spec fn lit_ping() -> Seq<u8> {
    seq![0x7b, 0x22, 0x50, 0x69, 0x6e, 0x67, 0x22, 0x3a]
}

/// The bytes of `{"ClientId":"`.
pub open spec fn lit_client_id() -> Seq<u8> {
    seq![0x7b, 0x22, 0x43, 0x6c, 0x69, 0x65, 0x6e, 0x74, 0x49, 0x64, 0x22, 0x3a, 0x22]
}

/// The bytes of `{"Establish":{"Tcp":{"src":"`.
pub open spec fn lit_establish() -> Seq<u8> {
    seq![0x7b, 0x22, 0x45, 0x73, 0x74, 0x61, 0x62, 0x6c, 0x69, 0x73, 0x68, 0x22, 0x3a, 0x7b, 0x22, 0x54, 0x63, 0x70, 0x22, 0x3a, 0x7b, 0x22, 0x73, 0x72, 0x63, 0x22, 0x3a, 0x22]
}

/// The bytes of `","dest":"`.
pub open spec fn lit_dest() -> Seq<u8> {
    seq![0x22, 0x2c, 0x22, 0x64, 0x65, 0x73, 0x74, 0x22, 0x3a, 0x22]
}

/// The bytes of `"}}}`.
pub open spec fn lit_tail() -> Seq<u8> {
    seq![0x22, 0x7d, 0x7d, 0x7d]
}

// ---------------------------------------------------------------------
// String escaping, on UTF-8 bytes. Multi-byte characters pass through
// untouched — every byte of theirs is at least 0x80.
// ---------------------------------------------------------------------
/// How one byte of string content is written: the quote, the backslash
/// and the five control characters with short escapes take their
/// two-byte forms, any other control character its `\u00XX` form, and
/// everything else stands as it is.
pub open spec fn esc1(b: u8) -> Seq<u8> {
    if b == 0x22 {
        seq![0x5c, 0x22]
    } else if b == 0x5c {
        seq![0x5c, 0x5c]
    } else if b == 0x08 {
        seq![0x5c, 0x62]
    } else if b == 0x09 {
        seq![0x5c, 0x74]
    } else if b == 0x0a {
        seq![0x5c, 0x6e]
    } else if b == 0x0c {
        seq![0x5c, 0x66]
    } else if b == 0x0d {
        seq![0x5c, 0x72]
    } else if b < 0x20 {
        seq![0x5c, 0x75, 0x30, 0x30, hex_digit((b / 16) as nat), hex_digit((b % 16) as nat)]
    } else {
        seq![b]
    }
}

/// A whole string content, escaped.
pub open spec fn esc(bs: Seq<u8>) -> Seq<u8>
    decreases bs.len(),
{
    if bs.len() == 0 {
        Seq::empty()
    } else {
        esc1(bs[0]) + esc(bs.drop_first())
    }
}

proof fn lemma_esc_push(bs: Seq<u8>, b: u8)
    ensures
        esc(bs.push(b)) == esc(bs) + esc1(b),
    decreases bs.len(),
{
    if bs.len() == 0 {
        assert(bs.push(b).drop_first() =~= Seq::<u8>::empty());
        assert(esc(Seq::<u8>::empty()) == Seq::<u8>::empty());
        assert(esc(bs.push(b)) =~= esc(bs) + esc1(b));
    } else {
        assert(bs.push(b).drop_first() =~= bs.drop_first().push(b));
        lemma_esc_push(bs.drop_first(), b);
        assert(esc(bs.push(b)) =~= esc(bs) + esc1(b));
    }
}

// ---------------------------------------------------------------------
// Addresses as text.
// ---------------------------------------------------------------------
/// `a.b.c.d:port`, every number shortest-form decimal.
pub open spec fn fmt_v4(a: u8, b: u8, c: u8, d: u8, port: u16) -> Seq<u8> {
    dec_rep(a as nat) + seq![0x2e] + dec_rep(b as nat) + seq![0x2e] + dec_rep(c as nat)
        + seq![0x2e] + dec_rep(d as nat) + seq![0x3a] + dec_rep(port as nat)
}

/// `[s0:s1:s2:s3:s4:s5:s6:s7]:port`, segments in shortest-form lowercase
/// hexadecimal, the port decimal.
pub open spec fn fmt_v6(
    s0: u16, s1: u16, s2: u16, s3: u16, s4: u16, s5: u16, s6: u16, s7: u16, port: u16,
) -> Seq<u8> {
    seq![0x5b] + hex_rep(s0 as nat) + seq![0x3a] + hex_rep(s1 as nat) + seq![0x3a] + hex_rep(
        s2 as nat,
    ) + seq![0x3a] + hex_rep(s3 as nat) + seq![0x3a] + hex_rep(s4 as nat) + seq![0x3a] + hex_rep(
        s5 as nat,
    ) + seq![0x3a] + hex_rep(s6 as nat) + seq![0x3a] + hex_rep(s7 as nat) + seq![0x5d, 0x3a]
        + dec_rep(port as nat)
}

/// The textual form of an address.
pub open spec fn fmt_addr(sa: SockAddr) -> Seq<u8> {
    match sa {
        SockAddr::V4 { a, b, c, d, port } => fmt_v4(a, b, c, d, port),
        SockAddr::V6 { s0, s1, s2, s3, s4, s5, s6, s7, port } => fmt_v6(
            s0, s1, s2, s3, s4, s5, s6, s7, port,
        ),
    }
}

// ---------------------------------------------------------------------
// The message body.
// ---------------------------------------------------------------------
/// The canonical JSON body of a message.
pub open spec fn json_body(pv: ProtocolView) -> Seq<u8> {
    match pv {
        ProtocolView::Ping(n) => lit_ping() + dec_rep(n as nat) + seq![0x7d],
        ProtocolView::ClientId(cs) => lit_client_id() + esc(encode_utf8(cs)) + seq![0x22, 0x7d],
        ProtocolView::Establish(Establish::Tcp(t)) => lit_establish() + fmt_addr(t.src)
            + lit_dest() + fmt_addr(t.dest) + lit_tail(),
    }
}

// ---------------------------------------------------------------------
// The encoder.
// ---------------------------------------------------------------------
fn lit_ping_vec() -> (v: Vec<u8>)
    ensures
        v@ == lit_ping(),
{
    let mut v: Vec<u8> = Vec::new();
    v.push(0x7b);
    v.push(0x22);
    v.push(0x50);
    v.push(0x69);
    v.push(0x6e);
    v.push(0x67);
    v.push(0x22);
    v.push(0x3a);
    proof {
        assert(v@ =~= lit_ping());
    }
    v
}

fn lit_client_id_vec() -> (v: Vec<u8>)
    ensures
        v@ == lit_client_id(),
{
    let mut v: Vec<u8> = Vec::new();
    v.push(0x7b);
    v.push(0x22);
    v.push(0x43);
    v.push(0x6c);
    v.push(0x69);
    v.push(0x65);
    v.push(0x6e);
    v.push(0x74);
    v.push(0x49);
    v.push(0x64);
    v.push(0x22);
    v.push(0x3a);
    v.push(0x22);
    proof {
        assert(v@ =~= lit_client_id());
    }
    v
}

fn lit_establish_vec() -> (v: Vec<u8>)
    ensures
        v@ == lit_establish(),
{
    let mut v: Vec<u8> = Vec::new();
    v.push(0x7b);
    v.push(0x22);
    v.push(0x45);
    v.push(0x73);
    v.push(0x74);
    v.push(0x61);
    v.push(0x62);
    v.push(0x6c);
    v.push(0x69);
    v.push(0x73);
    v.push(0x68);
    v.push(0x22);
    v.push(0x3a);
    v.push(0x7b);
    v.push(0x22);
    v.push(0x54);
    v.push(0x63);
    v.push(0x70);
    v.push(0x22);
    v.push(0x3a);
    v.push(0x7b);
    v.push(0x22);
    v.push(0x73);
    v.push(0x72);
    v.push(0x63);
    v.push(0x22);
    v.push(0x3a);
    v.push(0x22);
    proof {
        assert(v@ =~= lit_establish());
    }
    v
}

fn lit_dest_vec() -> (v: Vec<u8>)
    ensures
        v@ == lit_dest(),
{
    let mut v: Vec<u8> = Vec::new();
    v.push(0x22);
    v.push(0x2c);
    v.push(0x22);
    v.push(0x64);
    v.push(0x65);
    v.push(0x73);
    v.push(0x74);
    v.push(0x22);
    v.push(0x3a);
    v.push(0x22);
    proof {
        assert(v@ =~= lit_dest());
    }
    v
}

fn lit_tail_vec() -> (v: Vec<u8>)
    ensures
        v@ == lit_tail(),
{
    let mut v: Vec<u8> = Vec::new();
    v.push(0x22);
    v.push(0x7d);
    v.push(0x7d);
    v.push(0x7d);
    proof {
        assert(v@ =~= lit_tail());
    }
    v
}

pub(crate) fn append_lit(out: &mut Vec<u8>, lit: &Vec<u8>)
    ensures
        final(out)@ == old(out)@ + lit@,
{
    let n = lit.len();
    for k in 0..n
        invariant
            n == lit@.len(),
            out@ == old(out)@ + lit@.take(k as int),
    {
        out.push(lit[k]);
        proof {
            assert(lit@.take(k + 1) =~= lit@.take(k as int).push(lit@[k as int]));
            assert(out@ =~= old(out)@ + lit@.take(k + 1));
        }
    }
    proof {
        assert(lit@.take(n as int) =~= lit@);
    }
}

fn push_escaped(out: &mut Vec<u8>, bs: &Vec<u8>)
    ensures
        final(out)@ == old(out)@ + esc(bs@),
{
    let n = bs.len();
    for k in 0..n
        invariant
            n == bs@.len(),
            out@ == old(out)@ + esc(bs@.take(k as int)),
    {
        let b = bs[k];
        if b == 0x22 {
            out.push(0x5c);
            out.push(0x22);
        } else if b == 0x5c {
            out.push(0x5c);
            out.push(0x5c);
        } else if b == 0x08 {
            out.push(0x5c);
            out.push(0x62);
        } else if b == 0x09 {
            out.push(0x5c);
            out.push(0x74);
        } else if b == 0x0a {
            out.push(0x5c);
            out.push(0x6e);
        } else if b == 0x0c {
            out.push(0x5c);
            out.push(0x66);
        } else if b == 0x0d {
            out.push(0x5c);
            out.push(0x72);
        } else if b < 0x20 {
            out.push(0x5c);
            out.push(0x75);
            out.push(0x30);
            out.push(0x30);
            let hi = b / 16;
            let lo = b % 16;
            out.push(if hi < 10 { 0x30 + hi } else { 0x61 + hi - 10 });
            out.push(if lo < 10 { 0x30 + lo } else { 0x61 + lo - 10 });
        } else {
            out.push(b);
        }
        proof {
            lemma_esc_push(bs@.take(k as int), b);
            assert(bs@.take(k + 1) =~= bs@.take(k as int).push(b));
            assert(out@ =~= old(out)@ + esc(bs@.take(k + 1)));
        }
    }
    proof {
        assert(bs@.take(n as int) =~= bs@);
    }
}

/// Append the textual form of an address.
#[verifier::rlimit(50)]
fn push_addr(out: &mut Vec<u8>, sa: &SockAddr)
    ensures
        final(out)@ == old(out)@ + fmt_addr(*sa),
{
    match sa {
        SockAddr::V4 { a, b, c, d, port } => {
            push_dec(out, *a as u16);
            out.push(0x2e);
            push_dec(out, *b as u16);
            out.push(0x2e);
            push_dec(out, *c as u16);
            out.push(0x2e);
            push_dec(out, *d as u16);
            out.push(0x3a);
            push_dec(out, *port);
            proof {
                assert(out@ =~= old(out)@ + fmt_addr(*sa));
            }
        }
        SockAddr::V6 { s0, s1, s2, s3, s4, s5, s6, s7, port } => {
            out.push(0x5b);
            push_hex(out, *s0);
            out.push(0x3a);
            push_hex(out, *s1);
            out.push(0x3a);
            push_hex(out, *s2);
            out.push(0x3a);
            push_hex(out, *s3);
            out.push(0x3a);
            push_hex(out, *s4);
            out.push(0x3a);
            push_hex(out, *s5);
            out.push(0x3a);
            push_hex(out, *s6);
            out.push(0x3a);
            push_hex(out, *s7);
            out.push(0x5d);
            out.push(0x3a);
            push_dec(out, *port);
            proof {
                assert(out@ =~= old(out)@ + fmt_addr(*sa));
            }
        }
    }
}

/// The canonical JSON body of a message, as bytes.
pub fn encode_body(p: &Protocol) -> (v: Vec<u8>)
    ensures
        v@ == json_body(p@),
{
    let mut v: Vec<u8> = Vec::new();
    match p {
        Protocol::Ping(ts) => {
            let lit = lit_ping_vec();
            append_lit(&mut v, &lit);
            push_dec(&mut v, *ts);
            v.push(0x7d);
            proof {
                assert(v@ =~= json_body(p@));
            }
        }
        Protocol::ClientId(cid) => {
            let lit = lit_client_id_vec();
            append_lit(&mut v, &lit);
            let bytes = cid.as_str().as_bytes_vec();
            push_escaped(&mut v, &bytes);
            v.push(0x22);
            v.push(0x7d);
            proof {
                assert(v@ =~= json_body(p@));
            }
        }
        Protocol::Establish(Establish::Tcp(t)) => {
            let lit = lit_establish_vec();
            append_lit(&mut v, &lit);
            push_addr(&mut v, &t.src);
            let mid = lit_dest_vec();
            append_lit(&mut v, &mid);
            push_addr(&mut v, &t.dest);
            let tail = lit_tail_vec();
            append_lit(&mut v, &tail);
            proof {
                assert(v@ =~= json_body(p@));
            }
        }
    }
    v
}

// ---------------------------------------------------------------------
// The parser of the canonical form, as specification.
// ---------------------------------------------------------------------
/// Whether the bytes at `i` are exactly `lit`.
pub open spec fn match_at(s: Seq<u8>, i: int, lit: Seq<u8>) -> bool {
    0 <= i && i + lit.len() <= s.len() && s.subrange(i, i + lit.len()) == lit
}

proof fn lemma_piece_at(s: Seq<u8>, i: int, t: Seq<u8>)
    requires
        match_at(s, i, t),
    ensures
        forall|k: int| 0 <= k < t.len() ==> s[i + k] == #[trigger] t[k],
{
    assert forall|k: int| 0 <= k < t.len() implies s[i + k] == #[trigger] t[k] by {
        assert(s.subrange(i, i + t.len())[k] == t[k]);
    }
}

proof fn lemma_concat_pieces(s: Seq<u8>, i: int, t1: Seq<u8>, t2: Seq<u8>)
    requires
        match_at(s, i, t1 + t2),
    ensures
        match_at(s, i, t1),
        match_at(s, i + t1.len(), t2),
{
    lemma_piece_at(s, i, t1 + t2);
    assert forall|k: int| 0 <= k < t1.len() implies s[i + k] == #[trigger] t1[k] by {
        assert((t1 + t2)[k] == t1[k]);
        assert(s[i + k] == (t1 + t2)[k]);
    }
    assert forall|k: int| 0 <= k < t2.len() implies s[i + t1.len() + k] == #[trigger] t2[k] by {
        assert((t1 + t2)[t1.len() + k] == t2[k]);
        assert(s[i + (t1.len() + k)] == (t1 + t2)[t1.len() + k]);
    }
    assert(s.subrange(i, i + t1.len()) =~= t1);
    assert(s.subrange(i + t1.len(), i + t1.len() + t2.len()) =~= t2);
}

/// The byte at offset `k` of a matched piece.
proof fn lemma_byte_at(s: Seq<u8>, i: int, t: Seq<u8>, k: int)
    requires
        match_at(s, i, t),
        0 <= k < t.len(),
    ensures
        s[i + k] == t[k],
{
    assert(s.subrange(i, i + t.len())[k] == t[k]);
}

/// The escape character of a two-byte short escape, other than the
/// quote, the backslash and the solidus.
pub open spec fn is_short_escape(b: u8) -> bool {
    b == 0x62 || b == 0x74 || b == 0x6e || b == 0x66 || b == 0x72
}

/// The content byte a short escape stands for.
pub open spec fn short_escape_byte(b: u8) -> u8 {
    if b == 0x62 {
        0x08
    } else if b == 0x74 {
        0x09
    } else if b == 0x6e {
        0x0a
    } else if b == 0x66 {
        0x0c
    } else {
        0x0d
    }
}

/// Whether four hex digits, of either case, stand at `i`.
pub open spec fn hex4_at(s: Seq<u8>, i: int) -> bool
    recommends
        0 <= i,
        i + 4 <= s.len(),
{
    is_hex_digit_any(s[i]) && is_hex_digit_any(s[i + 1]) && is_hex_digit_any(s[i + 2])
        && is_hex_digit_any(s[i + 3])
}

/// The value of the four hex digits at `i`.
pub open spec fn hex4_val(s: Seq<u8>, i: int) -> nat
    recommends
        0 <= i,
        i + 4 <= s.len(),
{
    hex_val_any(s[i]) * 4096 + hex_val_any(s[i + 1]) * 256 + hex_val_any(s[i + 2]) * 16
        + hex_val_any(s[i + 3])
}

/// The UTF-8 encoding of one Unicode scalar value.
pub open spec fn utf8_of_scalar(v: nat) -> Seq<u8> {
    if v < 0x80 {
        seq![v as u8]
    } else if v < 0x800 {
        seq![(0xc0 + v / 64) as u8, (0x80 + v % 64) as u8]
    } else if v < 0x10000 {
        seq![(0xe0 + v / 4096) as u8, (0x80 + (v / 64) % 64) as u8, (0x80 + v % 64) as u8]
    } else {
        seq![
            (0xf0 + v / 262144) as u8,
            (0x80 + (v / 4096) % 64) as u8,
            (0x80 + (v / 64) % 64) as u8,
            (0x80 + v % 64) as u8,
        ]
    }
}

/// Read string content at `i` up to and including its closing quote:
/// the content bytes and the position after the quote. All of JSON's
/// string syntax is taken: the two-byte escapes, `\uXXXX` with either
/// case of hex digit — a surrogate pair standing for one scalar — and
/// any unescaped byte but a control character, a quote or a backslash.
#[verifier::opaque]
pub open spec fn scan_string(s: Seq<u8>, i: int) -> Option<(Seq<u8>, int)>
    decreases s.len() - i,
{
    if i < 0 || i >= s.len() {
        None
    } else if s[i] == 0x22 {
        Some((Seq::empty(), i + 1))
    } else if s[i] == 0x5c {
        if i + 1 >= s.len() {
            None
        } else if s[i + 1] == 0x22 || s[i + 1] == 0x5c || s[i + 1] == 0x2f {
            match scan_string(s, i + 2) {
                Some((t, j)) => Some((seq![s[i + 1]] + t, j)),
                None => None,
            }
        } else if is_short_escape(s[i + 1]) {
            match scan_string(s, i + 2) {
                Some((t, j)) => Some((seq![short_escape_byte(s[i + 1])] + t, j)),
                None => None,
            }
        } else if s[i + 1] == 0x75 {
            if i + 6 > s.len() || !hex4_at(s, i + 2) {
                None
            } else {
                let v = hex4_val(s, i + 2);
                if 0xd800 <= v <= 0xdbff {
                    // A high surrogate must pair with a low one.
                    if i + 12 <= s.len() && s[i + 6] == 0x5c && s[i + 7] == 0x75 && hex4_at(
                        s,
                        i + 8,
                    ) && 0xdc00 <= hex4_val(s, i + 8) <= 0xdfff {
                        match scan_string(s, i + 12) {
                            Some((t, j)) => Some(
                                (
                                    utf8_of_scalar(
                                        (0x10000 + (v - 0xd800) * 0x400 + (hex4_val(s, i + 8)
                                            - 0xdc00)) as nat,
                                    ) + t,
                                    j,
                                ),
                            ),
                            None => None,
                        }
                    } else {
                        None
                    }
                } else if 0xdc00 <= v <= 0xdfff {
                    None
                } else {
                    match scan_string(s, i + 6) {
                        Some((t, j)) => Some((utf8_of_scalar(v) + t, j)),
                        None => None,
                    }
                }
            }
        } else {
            None
        }
    } else if s[i] < 0x20 {
        None
    } else {
        match scan_string(s, i + 1) {
            Some((t, j)) => Some((seq![s[i]] + t, j)),
            None => None,
        }
    }
}

/// Scanning escaped content placed before a closing quote recovers the
/// content exactly.
#[verifier::rlimit(50)]
proof fn lemma_scan_esc(s: Seq<u8>, i: int, bs: Seq<u8>)
    requires
        match_at(s, i, esc(bs)),
        i + esc(bs).len() < s.len(),
        s[i + esc(bs).len()] == 0x22,
    ensures
        scan_string(s, i) == Some((bs, i + esc(bs).len() + 1)),
    decreases bs.len(),
{
    reveal(scan_string);
    if bs.len() == 0 {
        assert(esc(bs).len() == 0);
    } else {
        let b = bs[0];
        let e1 = esc1(b);
        let rest = esc(bs.drop_first());
        assert(esc(bs) == e1 + rest);
        lemma_concat_pieces(s, i, e1, rest);
        lemma_scan_esc(s, i + e1.len(), bs.drop_first());
        if b == 0x22 || b == 0x5c {
            lemma_byte_at(s, i, e1, 0);
            lemma_byte_at(s, i, e1, 1);
            assert(s[i] == 0x5c && s[i + 1] == b);
            assert(seq![s[i + 1]] + bs.drop_first() =~= bs);
        } else if b == 0x08 || b == 0x09 || b == 0x0a || b == 0x0c || b == 0x0d {
            lemma_byte_at(s, i, e1, 0);
            lemma_byte_at(s, i, e1, 1);
            assert(s[i] == 0x5c && is_short_escape(s[i + 1]));
            assert(short_escape_byte(s[i + 1]) == b);
            assert(seq![b] + bs.drop_first() =~= bs);
        } else if b < 0x20 {
            lemma_byte_at(s, i, e1, 0);
            lemma_byte_at(s, i, e1, 1);
            lemma_byte_at(s, i, e1, 2);
            lemma_byte_at(s, i, e1, 3);
            lemma_byte_at(s, i, e1, 4);
            lemma_byte_at(s, i, e1, 5);
            assert(s[i] == 0x5c && s[i + 1] == 0x75 && s[i + 2] == 0x30 && s[i + 3] == 0x30);
            assert(s[i + 4] == hex_digit((b / 16) as nat));
            assert(s[i + 5] == hex_digit((b % 16) as nat));
            lemma_hex_digit_val((b / 16) as nat);
            lemma_hex_digit_val((b % 16) as nat);
            assert(hex_val_any(s[i + 4]) == (b / 16) as nat && hex_val_any(s[i + 5]) == (
            b % 16) as nat);
            assert(hex4_at(s, i + 2));
            assert(hex4_val(s, i + 2) == b) by {
                assert((b / 16) * 16 + b % 16 == b) by (nonlinear_arith);
            }
            assert(utf8_of_scalar(b as nat) =~= seq![b]);
            assert(seq![b] + bs.drop_first() =~= bs);
        } else {
            lemma_byte_at(s, i, e1, 0);
            assert(s[i] == b);
            assert(seq![s[i]] + bs.drop_first() =~= bs);
        }
    }
}

/// Read `a.b.c.d:port` at `i`.
pub open spec fn parse_v4(s: Seq<u8>, i: int) -> Option<(SockAddr, int)> {
    match parse_dec(s, i, 255) {
        None => None,
        Some((a, i1)) => if i1 < s.len() && s[i1] == 0x2e {
            match parse_dec(s, i1 + 1, 255) {
                None => None,
                Some((b, i2)) => if i2 < s.len() && s[i2] == 0x2e {
                    match parse_dec(s, i2 + 1, 255) {
                        None => None,
                        Some((c, i3)) => if i3 < s.len() && s[i3] == 0x2e {
                            match parse_dec(s, i3 + 1, 255) {
                                None => None,
                                Some((d, i4)) => if i4 < s.len() && s[i4] == 0x3a {
                                    match parse_dec(s, i4 + 1, 0xffff) {
                                        None => None,
                                        Some((port, i5)) => Some(
                                            (
                                                SockAddr::V4 {
                                                    a: a as u8,
                                                    b: b as u8,
                                                    c: c as u8,
                                                    d: d as u8,
                                                    port: port as u16,
                                                },
                                                i5,
                                            ),
                                        ),
                                    }
                                } else {
                                    None
                                },
                            }
                        } else {
                            None
                        },
                    }
                } else {
                    None
                },
            }
        } else {
            None
        },
    }
}

/// Up to `max` segments separated by single colons, read greedily: the
/// run ends before a `::`, a `]`, or anything else that is not a colon
/// followed by another segment.
pub open spec fn parse_head(s: Seq<u8>, i: int, max: nat) -> Option<(Seq<u16>, int)>
    decreases max,
{
    if max == 0 {
        None
    } else {
        match parse_group(s, i) {
            None => None,
            Some((g, j)) => if j + 1 < s.len() && s[j] == 0x3a && s[j + 1] != 0x3a {
                match parse_head(s, j + 1, (max - 1) as nat) {
                    Some((gs, k)) => Some((seq![g] + gs, k)),
                    None => None,
                }
            } else {
                Some((seq![g], j))
            },
        }
    }
}

/// The close of a bracketed address: `]`, `:` and the port, with the
/// eight segments already in hand.
pub open spec fn finish_v6(s: Seq<u8>, groups: Seq<u16>, jb: int) -> Option<(SockAddr, int)> {
    if groups.len() == 8 && 0 <= jb && jb + 1 < s.len() && s[jb] == 0x5d && s[jb + 1] == 0x3a {
        match parse_dec(s, jb + 2, 0xffff) {
            Some((port, j)) => Some(
                (
                    SockAddr::V6 {
                        s0: groups[0],
                        s1: groups[1],
                        s2: groups[2],
                        s3: groups[3],
                        s4: groups[4],
                        s5: groups[5],
                        s6: groups[6],
                        s7: groups[7],
                        port: port as u16,
                    },
                    j,
                ),
            ),
            None => None,
        }
    } else {
        None
    }
}

/// Read a bracketed address at `i`: eight segments written out, or
/// fewer with one `::` standing for the missing zero segments, then
/// `]:` and the port.
pub open spec fn parse_v6(s: Seq<u8>, i: int) -> Option<(SockAddr, int)> {
    if !(0 <= i && i + 1 < s.len() && s[i] == 0x5b) {
        None
    } else if s[i + 1] == 0x3a {
        // The address begins with `::`.
        if i + 2 < s.len() && s[i + 2] == 0x3a {
            if i + 3 < s.len() && s[i + 3] == 0x5d {
                finish_v6(s, Seq::new(8, |x: int| 0u16), i + 3)
            } else {
                match parse_head(s, i + 3, 7) {
                    Some((tail, j)) => finish_v6(
                        s,
                        Seq::new((8 - tail.len()) as nat, |x: int| 0u16) + tail,
                        j,
                    ),
                    None => None,
                }
            }
        } else {
            None
        }
    } else {
        match parse_head(s, i + 1, 8) {
            None => None,
            Some((head, j)) => if j < s.len() && s[j] == 0x5d {
                finish_v6(s, head, j)
            } else if head.len() < 8 && j + 1 < s.len() && s[j] == 0x3a && s[j + 1] == 0x3a {
                if j + 2 < s.len() && s[j + 2] == 0x5d {
                    finish_v6(s, head + Seq::new((8 - head.len()) as nat, |x: int| 0u16), j + 2)
                } else {
                    match parse_head(s, j + 2, (7 - head.len()) as nat) {
                        Some((tail, j2)) => if head.len() + tail.len() <= 7 {
                            finish_v6(
                                s,
                                head + Seq::new(
                                    (8 - head.len() - tail.len()) as nat,
                                    |x: int| 0u16,
                                ) + tail,
                                j2,
                            )
                        } else {
                            None
                        },
                        None => None,
                    }
                }
            } else {
                None
            },
        }
    }
}

/// Read an address at `i`: bracketed hex segments or dotted decimal.
#[verifier::opaque]
pub open spec fn parse_addr(s: Seq<u8>, i: int) -> Option<(SockAddr, int)> {
    if 0 <= i && i < s.len() && s[i] == 0x5b {
        parse_v6(s, i)
    } else {
        parse_v4(s, i)
    }
}

#[verifier::rlimit(80)]
proof fn lemma_parse_v4_fmt(s: Seq<u8>, i: int, a: u8, b: u8, c: u8, d: u8, port: u16)
    requires
        match_at(s, i, fmt_v4(a, b, c, d, port)),
        i + fmt_v4(a, b, c, d, port).len() < s.len(),
        !is_dec_digit(s[i + fmt_v4(a, b, c, d, port).len()]),
    ensures
        parse_v4(s, i) == Some(
            (SockAddr::V4 { a, b, c, d, port }, i + fmt_v4(a, b, c, d, port).len()),
        ),
{
    let ra = dec_rep(a as nat);
    let rb = dec_rep(b as nat);
    let rc = dec_rep(c as nat);
    let rd = dec_rep(d as nat);
    let rp = dec_rep(port as nat);
    let f = fmt_v4(a, b, c, d, port);
    let dot = seq![0x2eu8];
    let colon = seq![0x3au8];
    lemma_concat_pieces(s, i, ra + dot + rb + dot + rc + dot + rd + colon, rp);
    lemma_concat_pieces(s, i, ra + dot + rb + dot + rc + dot + rd, colon);
    lemma_concat_pieces(s, i, ra + dot + rb + dot + rc + dot, rd);
    lemma_concat_pieces(s, i, ra + dot + rb + dot + rc, dot);
    lemma_concat_pieces(s, i, ra + dot + rb + dot, rc);
    lemma_concat_pieces(s, i, ra + dot + rb, dot);
    lemma_concat_pieces(s, i, ra + dot, rb);
    lemma_concat_pieces(s, i, ra, dot);
    let pa = i;
    let pb = i + ra.len() + 1;
    let pc = pb + rb.len() + 1;
    let pd = pc + rc.len() + 1;
    let pp = pd + rd.len() + 1;
    lemma_byte_at(s, i + ra.len(), dot, 0);
    lemma_byte_at(s, pb + rb.len(), dot, 0);
    lemma_byte_at(s, pc + rc.len(), dot, 0);
    lemma_byte_at(s, pd + rd.len(), colon, 0);
    lemma_parse_dec_rep(s, pa, a as nat, 255);
    lemma_parse_dec_rep(s, pb, b as nat, 255);
    lemma_parse_dec_rep(s, pc, c as nat, 255);
    lemma_parse_dec_rep(s, pd, d as nat, 255);
    lemma_parse_dec_rep(s, pp, port as nat, 0xffff);
}

/// The canonical text of a run of segments: shortest lowercase hex,
/// single colons between.
pub open spec fn fmt_groups(gs: Seq<u16>) -> Seq<u8>
    decreases gs.len(),
{
    if gs.len() == 0 {
        Seq::empty()
    } else if gs.len() == 1 {
        hex_rep(gs[0] as nat)
    } else {
        hex_rep(gs[0] as nat) + seq![0x3a] + fmt_groups(gs.drop_first())
    }
}

/// Reading a canonical run of segments placed right before a `]`
/// recovers the segments.
#[verifier::rlimit(50)]
proof fn lemma_parse_head_fmt(s: Seq<u8>, i: int, gs: Seq<u16>, max: nat)
    requires
        1 <= gs.len() <= max,
        match_at(s, i, fmt_groups(gs)),
        i + fmt_groups(gs).len() < s.len(),
        s[i + fmt_groups(gs).len()] == 0x5d,
    ensures
        parse_head(s, i, max) == Some((gs, i + fmt_groups(gs).len())),
    decreases gs.len(),
{
    let g0 = gs[0] as nat;
    let r0 = hex_rep(g0);
    lemma_hex_rep_shape(g0);
    if gs.len() == 1 {
        lemma_parse_group_rep(s, i, g0);
        let j = i + r0.len();
        assert(s[j] == 0x5d);
        assert(seq![gs[0]] =~= gs);
    } else {
        let rest = fmt_groups(gs.drop_first());
        assert(fmt_groups(gs) == r0 + seq![0x3a] + rest);
        lemma_concat_pieces(s, i, r0 + seq![0x3a], rest);
        lemma_concat_pieces(s, i, r0, seq![0x3au8]);
        lemma_byte_at(s, i + r0.len(), seq![0x3au8], 0);
        let j = i + r0.len();
        lemma_parse_group_rep(s, i, g0);
        // The byte after the separator opens the next segment: a hex
        // digit, so the run continues.
        lemma_byte_at(s, j + 1, rest, 0);
        assert(rest[0] == hex_rep(gs.drop_first()[0] as nat)[0]) by {
            lemma_hex_rep_shape(gs.drop_first()[0] as nat);
        }
        lemma_hex_rep_shape(gs.drop_first()[0] as nat);
        assert(is_hex_digit(rest[0]));
        assert(s[j + 1] != 0x3a);
        lemma_parse_head_fmt(s, j + 1, gs.drop_first(), (max - 1) as nat);
        assert(seq![gs[0]] + gs.drop_first() =~= gs);
    }
}

/// `prefix` followed by a run of segments, flattened: the shape the
/// piece-by-piece emitter builds.
spec fn flat_groups(prefix: Seq<u8>, gs: Seq<u16>) -> Seq<u8>
    decreases gs.len(),
{
    if gs.len() == 0 {
        prefix
    } else if gs.len() == 1 {
        prefix + hex_rep(gs[0] as nat)
    } else {
        flat_groups(prefix + hex_rep(gs[0] as nat) + seq![0x3a], gs.drop_first())
    }
}

proof fn lemma_prefix_groups_flat(prefix: Seq<u8>, gs: Seq<u16>)
    requires
        gs.len() >= 1,
    ensures
        prefix + fmt_groups(gs) == flat_groups(prefix, gs),
    decreases gs.len(),
{
    if gs.len() > 1 {
        let r0 = hex_rep(gs[0] as nat);
        let c = seq![0x3au8];
        let rest = fmt_groups(gs.drop_first());
        assert(fmt_groups(gs) == r0 + c + rest);
        vstd::seq_lib::lemma_concat_associative(prefix, r0 + c, rest);
        vstd::seq_lib::lemma_concat_associative(prefix, r0, c);
        lemma_prefix_groups_flat(prefix + r0 + c, gs.drop_first());
    }
}

/// The canonical bracketed form is the opening bracket, the eight
/// segments' run, the close and the port.
#[verifier::rlimit(50)]
proof fn lemma_fmt_v6_groups(
    s0: u16, s1: u16, s2: u16, s3: u16, s4: u16, s5: u16, s6: u16, s7: u16,
    port: u16,
)
    ensures
        fmt_v6(s0, s1, s2, s3, s4, s5, s6, s7, port) == seq![0x5bu8] + fmt_groups(
            seq![s0, s1, s2, s3, s4, s5, s6, s7],
        ) + seq![0x5du8, 0x3au8] + dec_rep(port as nat),
{
    let gs = seq![s0, s1, s2, s3, s4, s5, s6, s7];
    let g7 = seq![s1, s2, s3, s4, s5, s6, s7];
    let g6 = seq![s2, s3, s4, s5, s6, s7];
    let g5 = seq![s3, s4, s5, s6, s7];
    let g4 = seq![s4, s5, s6, s7];
    let g3 = seq![s5, s6, s7];
    let g2 = seq![s6, s7];
    let g1 = seq![s7];
    assert(gs.drop_first() =~= g7);
    assert(g7.drop_first() =~= g6);
    assert(g6.drop_first() =~= g5);
    assert(g5.drop_first() =~= g4);
    assert(g4.drop_first() =~= g3);
    assert(g3.drop_first() =~= g2);
    assert(g2.drop_first() =~= g1);
    let open = seq![0x5bu8];
    let c = seq![0x3au8];
    let p0 = open + hex_rep(s0 as nat) + c;
    let p1 = p0 + hex_rep(s1 as nat) + c;
    let p2 = p1 + hex_rep(s2 as nat) + c;
    let p3 = p2 + hex_rep(s3 as nat) + c;
    let p4 = p3 + hex_rep(s4 as nat) + c;
    let p5 = p4 + hex_rep(s5 as nat) + c;
    let p6 = p5 + hex_rep(s6 as nat) + c;
    assert(flat_groups(open, gs) == flat_groups(p0, g7));
    assert(flat_groups(p0, g7) == flat_groups(p1, g6));
    assert(flat_groups(p1, g6) == flat_groups(p2, g5));
    assert(flat_groups(p2, g5) == flat_groups(p3, g4));
    assert(flat_groups(p3, g4) == flat_groups(p4, g3));
    assert(flat_groups(p4, g3) == flat_groups(p5, g2));
    assert(flat_groups(p5, g2) == flat_groups(p6, g1));
    assert(flat_groups(p6, g1) == p6 + hex_rep(s7 as nat));
    lemma_prefix_groups_flat(open, gs);
}

#[verifier::rlimit(80)]
proof fn lemma_parse_v6_fmt(
    s: Seq<u8>,
    i: int,
    s0: u16, s1: u16, s2: u16, s3: u16, s4: u16, s5: u16, s6: u16, s7: u16,
    port: u16,
)
    requires
        match_at(s, i, fmt_v6(s0, s1, s2, s3, s4, s5, s6, s7, port)),
        i + fmt_v6(s0, s1, s2, s3, s4, s5, s6, s7, port).len() < s.len(),
        !is_dec_digit(s[i + fmt_v6(s0, s1, s2, s3, s4, s5, s6, s7, port).len()]),
    ensures
        parse_v6(s, i) == Some(
            (
                SockAddr::V6 { s0, s1, s2, s3, s4, s5, s6, s7, port },
                i + fmt_v6(s0, s1, s2, s3, s4, s5, s6, s7, port).len(),
            ),
        ),
{
    let gs = seq![s0, s1, s2, s3, s4, s5, s6, s7];
    let f = fmt_v6(s0, s1, s2, s3, s4, s5, s6, s7, port);
    let open = seq![0x5bu8];
    let closeport = seq![0x5du8, 0x3au8];
    let rp = dec_rep(port as nat);
    lemma_fmt_v6_groups(s0, s1, s2, s3, s4, s5, s6, s7, port);
    assert(match_at(s, i, open + fmt_groups(gs) + closeport + rp));
    lemma_concat_pieces(s, i, open + fmt_groups(gs) + closeport, rp);
    lemma_concat_pieces(s, i, open + fmt_groups(gs), closeport);
    lemma_concat_pieces(s, i, open, fmt_groups(gs));
    lemma_byte_at(s, i, open, 0);
    let p = i + 1;
    let glen = fmt_groups(gs).len();
    lemma_byte_at(s, p + glen, closeport, 0);
    lemma_byte_at(s, p + glen, closeport, 1);
    lemma_parse_head_fmt(s, p, gs, 8);
    // The byte after `[` opens the first segment, so the address does
    // not begin with `::`.
    lemma_byte_at(s, p, fmt_groups(gs), 0);
    assert(fmt_groups(gs)[0] == hex_rep(s0 as nat)[0]) by {
        lemma_hex_rep_shape(s0 as nat);
    }
    lemma_hex_rep_shape(s0 as nat);
    assert(is_hex_digit(s[p]));
    assert(s[p] != 0x3a);
    lemma_parse_dec_rep(s, p + glen + 2, port as nat, 0xffff);
    assert(finish_v6(s, gs, p + glen) == Some(
        (SockAddr::V6 { s0, s1, s2, s3, s4, s5, s6, s7, port }, i + f.len()),
    ));
}

/// Reading the textual form of an address — with no decimal digit right
/// after it — recovers the address.
proof fn lemma_parse_addr_fmt(s: Seq<u8>, i: int, sa: SockAddr)
    requires
        match_at(s, i, fmt_addr(sa)),
        i + fmt_addr(sa).len() < s.len(),
        !is_dec_digit(s[i + fmt_addr(sa).len()]),
    ensures
        parse_addr(s, i) == Some((sa, i + fmt_addr(sa).len())),
{
    reveal(parse_addr);
    match sa {
        SockAddr::V4 { a, b, c, d, port } => {
            lemma_byte_at(s, i, fmt_v4(a, b, c, d, port), 0);
            lemma_dec_rep_shape(a as nat);
            assert(fmt_v4(a, b, c, d, port)[0] == dec_rep(a as nat)[0]);
            assert(s[i] != 0x5b);
            lemma_parse_v4_fmt(s, i, a, b, c, d, port);
        }
        SockAddr::V6 { s0, s1, s2, s3, s4, s5, s6, s7, port } => {
            lemma_byte_at(s, i, fmt_v6(s0, s1, s2, s3, s4, s5, s6, s7, port), 0);
            assert(fmt_v6(s0, s1, s2, s3, s4, s5, s6, s7, port)[0] == 0x5b);
            assert(s[i] == 0x5b);
            lemma_parse_v6_fmt(s, i, s0, s1, s2, s3, s4, s5, s6, s7, port);
        }
    }
}

// ---------------------------------------------------------------------
// Whole message bodies. The reader takes any JSON text of the three
// shapes: insignificant whitespace between tokens, the full string
// syntax inside values, and both bracketed address forms. The fixed
// keys are written plainly, as every known producer writes them.
// ---------------------------------------------------------------------
/// JSON's insignificant whitespace.
pub open spec fn is_ws(b: u8) -> bool {
    b == 0x20 || b == 0x09 || b == 0x0a || b == 0x0d
}

/// The first position at or after `i` that holds no whitespace.
pub open spec fn skip_ws(s: Seq<u8>, i: int) -> int
    decreases s.len() - i,
{
    if i < 0 || i >= s.len() {
        i
    } else if is_ws(s[i]) {
        skip_ws(s, i + 1)
    } else {
        i
    }
}

/// The bytes of `"Ping"`.
pub open spec fn key_ping() -> Seq<u8> {
    seq![0x22, 0x50, 0x69, 0x6e, 0x67, 0x22]
}

/// The bytes of `"ClientId"`.
pub open spec fn key_client_id() -> Seq<u8> {
    seq![0x22, 0x43, 0x6c, 0x69, 0x65, 0x6e, 0x74, 0x49, 0x64, 0x22]
}

/// The bytes of `"Establish"`.
pub open spec fn key_establish() -> Seq<u8> {
    seq![0x22, 0x45, 0x73, 0x74, 0x61, 0x62, 0x6c, 0x69, 0x73, 0x68, 0x22]
}

/// The bytes of `"Tcp"`.
pub open spec fn key_tcp() -> Seq<u8> {
    seq![0x22, 0x54, 0x63, 0x70, 0x22]
}

/// The bytes of `"src"`.
pub open spec fn key_src() -> Seq<u8> {
    seq![0x22, 0x73, 0x72, 0x63, 0x22]
}

/// The bytes of `"dest"`.
pub open spec fn key_dest() -> Seq<u8> {
    seq![0x22, 0x64, 0x65, 0x73, 0x74, 0x22]
}

/// After a key: whitespace, a colon, whitespace; the position of the
/// value.
pub open spec fn after_colon(s: Seq<u8>, i: int) -> Option<int> {
    let j = skip_ws(s, i);
    if j < s.len() && s[j] == 0x3a {
        Some(skip_ws(s, j + 1))
    } else {
        None
    }
}

/// `n` closing braces, whitespace around them, and then the end of the
/// text.
pub open spec fn close_braces(s: Seq<u8>, i: int, n: nat) -> bool
    decreases n,
{
    if n == 0 {
        skip_ws(s, i) == s.len()
    } else {
        let j = skip_ws(s, i);
        j < s.len() && s[j] == 0x7d && close_braces(s, j + 1, (n - 1) as nat)
    }
}

/// Read a whole message body: any JSON text of the three shapes.
pub open spec fn parse_body(s: Seq<u8>) -> Option<ProtocolView> {
    let i0 = skip_ws(s, 0);
    if !(i0 < s.len() && s[i0] == 0x7b) {
        None
    } else {
        let ik = skip_ws(s, i0 + 1);
        if match_at(s, ik, key_ping()) {
            match after_colon(s, ik + key_ping().len()) {
                Some(iv) => match parse_dec(s, iv, 0xffff) {
                    Some((n, j)) => if close_braces(s, j, 1) {
                        Some(ProtocolView::Ping(n as u16))
                    } else {
                        None
                    },
                    None => None,
                },
                None => None,
            }
        } else if match_at(s, ik, key_client_id()) {
            match after_colon(s, ik + key_client_id().len()) {
                Some(iv) => if iv < s.len() && s[iv] == 0x22 {
                    match scan_string(s, iv + 1) {
                        Some((content, j)) => if close_braces(s, j, 1) && valid_utf8(content) {
                            Some(ProtocolView::ClientId(decode_utf8(content)))
                        } else {
                            None
                        },
                        None => None,
                    }
                } else {
                    None
                },
                None => None,
            }
        } else if match_at(s, ik, key_establish()) {
            parse_establish(s, ik + key_establish().len())
        } else {
            None
        }
    }
}

/// The value of an `Establish` message, read from the position after
/// its key: `{"Tcp":{"src":"...","dest":"..."}}` and the closing brace
/// of the message, whitespace anywhere between tokens.
pub open spec fn parse_establish(s: Seq<u8>, i: int) -> Option<ProtocolView> {
    match after_colon(s, i) {
        Some(i1) => if i1 < s.len() && s[i1] == 0x7b {
            let ik2 = skip_ws(s, i1 + 1);
            if match_at(s, ik2, key_tcp()) {
                match after_colon(s, ik2 + key_tcp().len()) {
                    Some(i2) => if i2 < s.len() && s[i2] == 0x7b {
                        let ik3 = skip_ws(s, i2 + 1);
                        if match_at(s, ik3, key_src()) {
                            match after_colon(s, ik3 + key_src().len()) {
                                Some(i3) => if i3 < s.len() && s[i3] == 0x22 {
                                    match parse_addr(s, i3 + 1) {
                                        Some((src, j1)) => parse_establish_dest(s, src, j1),
                                        None => None,
                                    }
                                } else {
                                    None
                                },
                                None => None,
                            }
                        } else {
                            None
                        }
                    } else {
                        None
                    },
                    None => None,
                }
            } else {
                None
            }
        } else {
            None
        },
        None => None,
    }
}

/// The second half of an `Establish` value: the closing quote of the
/// first address, the comma, the `dest` pair, and three closing braces.
pub open spec fn parse_establish_dest(s: Seq<u8>, src: SockAddr, j1: int) -> Option<ProtocolView> {
    if j1 < s.len() && s[j1] == 0x22 {
        let jc = skip_ws(s, j1 + 1);
        if jc < s.len() && s[jc] == 0x2c {
            let ik4 = skip_ws(s, jc + 1);
            if match_at(s, ik4, key_dest()) {
                match after_colon(s, ik4 + key_dest().len()) {
                    Some(i4) => if i4 < s.len() && s[i4] == 0x22 {
                        match parse_addr(s, i4 + 1) {
                            Some((dest, j2)) => if j2 < s.len() && s[j2] == 0x22 && close_braces(
                                s,
                                j2 + 1,
                                3,
                            ) {
                                Some(
                                    ProtocolView::Establish(
                                        Establish::Tcp(TcpEstablish { src, dest }),
                                    ),
                                )
                            } else {
                                None
                            },
                            None => None,
                        }
                    } else {
                        None
                    },
                    None => None,
                }
            } else {
                None
            }
        } else {
            None
        }
    } else {
        None
    }
}

/// Whitespace skipping stands still on anything that is not whitespace,
/// and at the end of the text.
proof fn lemma_skip_ws_still(s: Seq<u8>, i: int)
    requires
        0 <= i,
        i >= s.len() || !is_ws(s[i]),
    ensures
        skip_ws(s, i) == i,
{
}

/// Round trip at the body level: the canonical form of a message reads
/// back as that message.
pub proof fn lemma_parse_body_fmt(pv: ProtocolView)
    ensures
        parse_body(json_body(pv)) == Some(pv),
{
    match pv {
        ProtocolView::Ping(n) => lemma_parse_body_ping(n),
        ProtocolView::ClientId(cs) => lemma_parse_body_client_id(cs),
        ProtocolView::Establish(Establish::Tcp(t)) => lemma_parse_body_establish(t),
    }
}

/// The canonical head `{"<key>"` is one brace and the key; the walk
/// over it finds the key at position 1.
proof fn lemma_walk_head(s: Seq<u8>, key: Seq<u8>)
    requires
        s.len() > key.len() + 1,
        s[0] == 0x7b,
        match_at(s, 1, key),
        key.len() >= 2,
        key[0] == 0x22,
    ensures
        skip_ws(s, 0) == 0,
        skip_ws(s, 1) == 1,
{
    lemma_byte_at(s, 1, key, 0);
    lemma_skip_ws_still(s, 0);
    lemma_skip_ws_still(s, 1);
}

#[verifier::rlimit(50)]
proof fn lemma_parse_body_ping(n: u16)
    ensures
        parse_body(json_body(ProtocolView::Ping(n))) == Some(ProtocolView::Ping(n)),
{
    let s = json_body(ProtocolView::Ping(n));
    assert(s.subrange(0, s.len() as int) =~= s);
    assert(match_at(s, 0, s));
    assert(lit_ping() =~= seq![0x7bu8] + key_ping() + seq![0x3au8]);
    lemma_concat_pieces(s, 0, lit_ping() + dec_rep(n as nat), seq![0x7du8]);
    lemma_concat_pieces(s, 0, lit_ping(), dec_rep(n as nat));
    lemma_concat_pieces(s, 0, seq![0x7bu8] + key_ping(), seq![0x3au8]);
    lemma_concat_pieces(s, 0, seq![0x7bu8], key_ping());
    lemma_byte_at(s, 0, seq![0x7bu8], 0);
    lemma_byte_at(s, 7, seq![0x3au8], 0);
    let dlen = dec_rep(n as nat).len() as int;
    lemma_byte_at(s, 8 + dlen, seq![0x7du8], 0);
    lemma_walk_head(s, key_ping());
    lemma_skip_ws_still(s, 7);
    lemma_dec_rep_shape(n as nat);
    assert(s[8] == dec_rep(n as nat)[0]) by {
        lemma_byte_at(s, 8, dec_rep(n as nat), 0);
    }
    lemma_skip_ws_still(s, 8);
    assert(after_colon(s, 7) == Some(8int));
    lemma_parse_dec_rep(s, 8, n as nat, 0xffff);
    lemma_skip_ws_still(s, 8 + dlen);
    lemma_skip_ws_still(s, 9 + dlen);
    assert(close_braces(s, 9 + dlen, 0));
    assert(close_braces(s, 8 + dlen, 1));
}

#[verifier::rlimit(100)]
proof fn lemma_parse_body_client_id(cs: Seq<char>)
    ensures
        parse_body(json_body(ProtocolView::ClientId(cs))) == Some(ProtocolView::ClientId(cs)),
{
    let s = json_body(ProtocolView::ClientId(cs));
    let bytes = encode_utf8(cs);
    assert(s.subrange(0, s.len() as int) =~= s);
    assert(match_at(s, 0, s));
    assert(lit_client_id() =~= seq![0x7bu8] + key_client_id() + seq![0x3au8] + seq![0x22u8]);
    lemma_concat_pieces(s, 0, lit_client_id() + esc(bytes), seq![0x22u8, 0x7du8]);
    lemma_concat_pieces(s, 0, lit_client_id(), esc(bytes));
    lemma_concat_pieces(s, 0, seq![0x7bu8] + key_client_id() + seq![0x3au8], seq![0x22u8]);
    lemma_concat_pieces(s, 0, seq![0x7bu8] + key_client_id(), seq![0x3au8]);
    lemma_concat_pieces(s, 0, seq![0x7bu8], key_client_id());
    lemma_byte_at(s, 0, seq![0x7bu8], 0);
    lemma_byte_at(s, 11, seq![0x3au8], 0);
    lemma_byte_at(s, 12, seq![0x22u8], 0);
    lemma_walk_head(s, key_client_id());
    if match_at(s, 1, key_ping()) {
        lemma_byte_at(s, 1, key_ping(), 1);
        lemma_byte_at(s, 1, key_client_id(), 1);
        assert(false);
    }
    lemma_skip_ws_still(s, 11);
    lemma_skip_ws_still(s, 12);
    assert(after_colon(s, 11) == Some(12int));
    let qpos = (lit_client_id() + esc(bytes)).len() as int;
    lemma_byte_at(s, qpos, seq![0x22u8, 0x7du8], 0);
    lemma_byte_at(s, qpos, seq![0x22u8, 0x7du8], 1);
    lemma_scan_esc(s, 13, bytes);
    lemma_skip_ws_still(s, qpos + 1);
    lemma_skip_ws_still(s, qpos + 2);
    assert(close_braces(s, qpos + 2, 0));
    assert(close_braces(s, qpos + 1, 1));
    encode_utf8_valid_utf8(cs);
    encode_utf8_decode_utf8(cs);
}

/// The canonical establish literal, taken apart at its tokens.
proof fn lemma_lit_establish_shape()
    ensures
        lit_establish() == seq![0x7bu8] + key_establish() + seq![0x3au8] + seq![0x7bu8]
            + key_tcp() + seq![0x3au8] + seq![0x7bu8] + key_src() + seq![0x3au8] + seq![0x22u8],
{
    assert(lit_establish() =~= seq![0x7bu8] + key_establish() + seq![0x3au8] + seq![0x7bu8]
        + key_tcp() + seq![0x3au8] + seq![0x7bu8] + key_src() + seq![0x3au8] + seq![0x22u8]);
}

/// The tokens of a canonical establish body, each at its place.
#[verifier::rlimit(100)]
proof fn lemma_establish_tokens(s: Seq<u8>, t: TcpEstablish)
    requires
        s == json_body(ProtocolView::Establish(Establish::Tcp(t))),
    ensures
        s[0] == 0x7b,
        match_at(s, 1, key_establish()),
        s[12] == 0x3a,
        s[13] == 0x7b,
        match_at(s, 14, key_tcp()),
        s[19] == 0x3a,
        s[20] == 0x7b,
        match_at(s, 21, key_src()),
        s[26] == 0x3a,
        s[27] == 0x22,
        match_at(s, 28, fmt_addr(t.src)),
        28 + fmt_addr(t.src).len() < s.len(),
        s[28 + fmt_addr(t.src).len() as int] == 0x22,
{
    assert(s.subrange(0, s.len() as int) =~= s);
    assert(match_at(s, 0, s));
    lemma_lit_establish_shape();
    lemma_concat_pieces(
        s, 0,
        lit_establish() + fmt_addr(t.src) + lit_dest() + fmt_addr(t.dest),
        lit_tail(),
    );
    lemma_concat_pieces(s, 0, lit_establish() + fmt_addr(t.src) + lit_dest(), fmt_addr(t.dest));
    lemma_concat_pieces(s, 0, lit_establish() + fmt_addr(t.src), lit_dest());
    lemma_concat_pieces(s, 0, lit_establish(), fmt_addr(t.src));
    let pre = seq![0x7bu8] + key_establish() + seq![0x3au8] + seq![0x7bu8] + key_tcp()
        + seq![0x3au8] + seq![0x7bu8] + key_src() + seq![0x3au8];
    lemma_concat_pieces(s, 0, pre, seq![0x22u8]);
    lemma_concat_pieces(
        s, 0,
        seq![0x7bu8] + key_establish() + seq![0x3au8] + seq![0x7bu8] + key_tcp() + seq![0x3au8]
            + seq![0x7bu8] + key_src(),
        seq![0x3au8],
    );
    lemma_concat_pieces(
        s, 0,
        seq![0x7bu8] + key_establish() + seq![0x3au8] + seq![0x7bu8] + key_tcp() + seq![0x3au8]
            + seq![0x7bu8],
        key_src(),
    );
    lemma_concat_pieces(
        s, 0,
        seq![0x7bu8] + key_establish() + seq![0x3au8] + seq![0x7bu8] + key_tcp() + seq![0x3au8],
        seq![0x7bu8],
    );
    lemma_concat_pieces(
        s, 0,
        seq![0x7bu8] + key_establish() + seq![0x3au8] + seq![0x7bu8] + key_tcp(),
        seq![0x3au8],
    );
    lemma_concat_pieces(
        s, 0,
        seq![0x7bu8] + key_establish() + seq![0x3au8] + seq![0x7bu8],
        key_tcp(),
    );
    lemma_concat_pieces(s, 0, seq![0x7bu8] + key_establish() + seq![0x3au8], seq![0x7bu8]);
    lemma_concat_pieces(s, 0, seq![0x7bu8] + key_establish(), seq![0x3au8]);
    lemma_concat_pieces(s, 0, seq![0x7bu8], key_establish());
    lemma_byte_at(s, 0, seq![0x7bu8], 0);
    lemma_byte_at(s, 12, seq![0x3au8], 0);
    lemma_byte_at(s, 13, seq![0x7bu8], 0);
    lemma_byte_at(s, 19, seq![0x3au8], 0);
    lemma_byte_at(s, 20, seq![0x7bu8], 0);
    lemma_byte_at(s, 26, seq![0x3au8], 0);
    lemma_byte_at(s, 27, seq![0x22u8], 0);
    lemma_byte_at(s, 28 + fmt_addr(t.src).len() as int, lit_dest(), 0);
    assert(lit_dest()[0] == 0x22);
}

#[verifier::rlimit(100)]
proof fn lemma_parse_body_establish(t: TcpEstablish)
    ensures
        parse_body(json_body(ProtocolView::Establish(Establish::Tcp(t)))) == Some(
            ProtocolView::Establish(Establish::Tcp(t)),
        ),
{
    let s = json_body(ProtocolView::Establish(Establish::Tcp(t)));
    lemma_establish_tokens(s, t);
    lemma_byte_at(s, 14, key_tcp(), 0);
    lemma_byte_at(s, 21, key_src(), 0);
    lemma_walk_head(s, key_establish());
    if match_at(s, 1, key_ping()) {
        lemma_byte_at(s, 1, key_ping(), 1);
        lemma_byte_at(s, 1, key_establish(), 1);
        assert(false);
    }
    if match_at(s, 1, key_client_id()) {
        lemma_byte_at(s, 1, key_client_id(), 1);
        lemma_byte_at(s, 1, key_establish(), 1);
        assert(false);
    }
    lemma_skip_ws_still(s, 12);
    lemma_skip_ws_still(s, 13);
    lemma_skip_ws_still(s, 14);
    lemma_skip_ws_still(s, 19);
    lemma_skip_ws_still(s, 20);
    lemma_skip_ws_still(s, 21);
    lemma_skip_ws_still(s, 26);
    lemma_skip_ws_still(s, 27);
    assert(after_colon(s, 12) == Some(13int));
    assert(after_colon(s, 19) == Some(20int));
    assert(after_colon(s, 26) == Some(27int));
    let j1 = (lit_establish() + fmt_addr(t.src)).len() as int;
    let j2 = (lit_establish() + fmt_addr(t.src) + lit_dest() + fmt_addr(t.dest)).len() as int;
    lemma_parse_addr_fmt(s, 28, t.src);
    lemma_parse_establish_dest(s, t, j1, j2);
}

/// The walk over the canonical second half of an establish body.
#[verifier::rlimit(100)]
proof fn lemma_parse_establish_dest(s: Seq<u8>, t: TcpEstablish, j1: int, j2: int)
    requires
        s == json_body(ProtocolView::Establish(Establish::Tcp(t))),
        j1 == (lit_establish() + fmt_addr(t.src)).len() as int,
        j2 == (lit_establish() + fmt_addr(t.src) + lit_dest() + fmt_addr(t.dest)).len() as int,
    ensures
        parse_establish_dest(s, t.src, j1) == Some(
            ProtocolView::Establish(Establish::Tcp(t)),
        ),
{
    assert(s.subrange(0, s.len() as int) =~= s);
    assert(match_at(s, 0, s));
    lemma_concat_pieces(
        s, 0,
        lit_establish() + fmt_addr(t.src) + lit_dest() + fmt_addr(t.dest),
        lit_tail(),
    );
    lemma_concat_pieces(s, 0, lit_establish() + fmt_addr(t.src) + lit_dest(), fmt_addr(t.dest));
    lemma_concat_pieces(s, 0, lit_establish() + fmt_addr(t.src), lit_dest());
    // The dest literal `","dest":"` taken apart at its tokens.
    assert(lit_dest() =~= seq![0x22u8] + seq![0x2cu8] + key_dest() + seq![0x3au8] + seq![0x22u8]);
    lemma_concat_pieces(s, j1, seq![0x22u8] + seq![0x2cu8] + key_dest() + seq![0x3au8], seq![0x22u8]);
    lemma_concat_pieces(s, j1, seq![0x22u8] + seq![0x2cu8] + key_dest(), seq![0x3au8]);
    lemma_concat_pieces(s, j1, seq![0x22u8] + seq![0x2cu8], key_dest());
    lemma_concat_pieces(s, j1, seq![0x22u8], seq![0x2cu8]);
    lemma_byte_at(s, j1, seq![0x22u8], 0);
    lemma_byte_at(s, j1 + 1, seq![0x2cu8], 0);
    lemma_byte_at(s, j1 + 8, seq![0x3au8], 0);
    lemma_byte_at(s, j1 + 9, seq![0x22u8], 0);
    lemma_byte_at(s, j1 + 2, key_dest(), 0);
    lemma_byte_at(s, j2, lit_tail(), 0);
    lemma_skip_ws_still(s, j1 + 1);
    lemma_skip_ws_still(s, j1 + 2);
    lemma_skip_ws_still(s, j1 + 8);
    lemma_skip_ws_still(s, j1 + 9);
    assert(after_colon(s, j1 + 8) == Some(j1 + 9));
    lemma_parse_addr_fmt(s, j1 + 10, t.dest);
    // The tail `"}}}` and the end of the text.
    assert(lit_tail() =~= seq![0x22u8, 0x7du8, 0x7du8, 0x7du8]);
    lemma_byte_at(s, j2, lit_tail(), 1);
    lemma_byte_at(s, j2, lit_tail(), 2);
    lemma_byte_at(s, j2, lit_tail(), 3);
    lemma_skip_ws_still(s, j2 + 1);
    lemma_skip_ws_still(s, j2 + 2);
    lemma_skip_ws_still(s, j2 + 3);
    lemma_skip_ws_still(s, j2 + 4);
    assert(close_braces(s, j2 + 4, 0));
    assert(close_braces(s, j2 + 3, 1));
    assert(close_braces(s, j2 + 2, 2));
    assert(close_braces(s, j2 + 1, 3));
}

// ---------------------------------------------------------------------
// The decoder.
// ---------------------------------------------------------------------
/// Relies on String::from_utf8: succeeds exactly on valid UTF-8, and the
/// returned string's UTF-8 bytes are the input.
#[verifier::external_body]
fn string_from_utf8(v: Vec<u8>) -> (r: Option<String>)
    ensures
        match r {
            Some(s) => valid_utf8(v@) && encode_utf8(s@) == v@,
            None => !valid_utf8(v@),
        },
{
    String::from_utf8(v).ok()
}

/// Whether the bytes at `i` are exactly `lit`.
fn starts_with(s: &Vec<u8>, i: usize, lit: &Vec<u8>) -> (r: bool)
    ensures
        r == match_at(s@, i as int, lit@),
{
    if i > s.len() || s.len() - i < lit.len() {
        return false;
    }
    let n = lit.len();
    for k in 0..n
        invariant
            n == lit@.len(),
            i + n <= s@.len(),
            i + n <= usize::MAX,
            forall|m: int| 0 <= m < k ==> s@[i + m] == #[trigger] lit@[m],
    {
        if s[i + k] != lit[k] {
            proof {
                if match_at(s@, i as int, lit@) {
                    lemma_byte_at(s@, i as int, lit@, k as int);
                }
            }
            return false;
        }
    }
    proof {
        assert(s@.subrange(i as int, i + n) =~= lit@);
    }
    true
}

/// The value of a hex digit byte of either case.
fn hex_val_byte(b: u8) -> (v: u8)
    requires
        is_hex_digit_any(b),
    ensures
        v as nat == hex_val_any(b),
{
    if b <= 0x39 {
        b - 0x30
    } else if b >= 0x61 {
        b - 0x61 + 10
    } else {
        b - 0x41 + 10
    }
}

fn is_hex_byte(b: u8) -> (r: bool)
    ensures
        r == is_hex_digit_any(b),
{
    (0x30 <= b && b <= 0x39) || (0x61 <= b && b <= 0x66) || (0x41 <= b && b <= 0x46)
}

/// Read four hex digits of either case at `i`.
fn read_hex4(s: &Vec<u8>, i: usize) -> (r: Option<u16>)
    requires
        i + 4 <= s@.len(),
    ensures
        match r {
            Some(v) => hex4_at(s@, i as int) && v as nat == hex4_val(s@, i as int),
            None => !hex4_at(s@, i as int),
        },
{
    let n = s.len();
    proof {
        assert(i + 4 <= n);
    }
    let b0 = s[i];
    let b1 = s[i + 1];
    let b2 = s[i + 2];
    let b3 = s[i + 3];
    if !(is_hex_byte(b0) && is_hex_byte(b1) && is_hex_byte(b2) && is_hex_byte(b3)) {
        return None;
    }
    let v: u16 = (hex_val_byte(b0) as u16) * 4096 + (hex_val_byte(b1) as u16) * 256 + (hex_val_byte(
        b2,
    ) as u16) * 16 + (hex_val_byte(b3) as u16);
    Some(v)
}

/// Append the UTF-8 encoding of one scalar value.
fn push_scalar_utf8(out: &mut Vec<u8>, v: u32)
    requires
        v <= 0x10ffff,
    ensures
        final(out)@ == old(out)@ + utf8_of_scalar(v as nat),
{
    if v < 0x80 {
        out.push(v as u8);
        proof {
            assert(out@ =~= old(out)@ + utf8_of_scalar(v as nat));
        }
    } else if v < 0x800 {
        out.push((0xc0 + v / 64) as u8);
        out.push((0x80 + v % 64) as u8);
        proof {
            assert(out@ =~= old(out)@ + utf8_of_scalar(v as nat));
        }
    } else if v < 0x10000 {
        out.push((0xe0 + v / 4096) as u8);
        out.push((0x80 + (v / 64) % 64) as u8);
        out.push((0x80 + v % 64) as u8);
        proof {
            assert(out@ =~= old(out)@ + utf8_of_scalar(v as nat));
        }
    } else {
        out.push((0xf0 + v / 262144) as u8);
        out.push((0x80 + (v / 4096) % 64) as u8);
        out.push((0x80 + (v / 64) % 64) as u8);
        out.push((0x80 + v % 64) as u8);
        proof {
            assert(out@ =~= old(out)@ + utf8_of_scalar(v as nat));
        }
    }
}

/// Read string content at `i`, as `scan_string` defines it.
#[verifier::rlimit(50)]
fn read_string(s: &Vec<u8>, i: usize) -> (r: Option<(Vec<u8>, usize)>)
    requires
        i <= s@.len(),
    ensures
        match r {
            Some((content, j)) => scan_string(s@, i as int) == Some((content@, j as int)) && i < j
                <= s@.len(),
            None => scan_string(s@, i as int) is None,
        },
{
    proof {
        reveal(scan_string);
    }
    let mut content: Vec<u8> = Vec::new();
    let mut k: usize = i;
    loop
        invariant
            i <= k <= s@.len(),
            scan_string(s@, i as int) == (match scan_string(s@, k as int) {
                Some((t, j)) => Some((content@ + t, j)),
                None => None::<(Seq<u8>, int)>,
            }),
        decreases s@.len() - k,
    {
        proof {
            reveal(scan_string);
        }
        if k == s.len() {
            return None;
        }
        let b = s[k];
        if b == 0x22 {
            proof {
                assert(content@ + Seq::<u8>::empty() =~= content@);
            }
            return Some((content, k + 1));
        } else if b == 0x5c {
            if k + 1 == s.len() {
                return None;
            }
            let e = s[k + 1];
            if e == 0x22 || e == 0x5c || e == 0x2f {
                let ghost c0 = content@;
                content.push(e);
                proof {
                    match scan_string(s@, k + 2) {
                        Some((t, j)) => {
                            assert(c0 + (seq![e] + t) =~= content@ + t);
                        }
                        None => {}
                    }
                }
                k = k + 2;
            } else if e == 0x62 || e == 0x74 || e == 0x6e || e == 0x66 || e == 0x72 {
                let m: u8 = if e == 0x62 {
                    0x08
                } else if e == 0x74 {
                    0x09
                } else if e == 0x6e {
                    0x0a
                } else if e == 0x66 {
                    0x0c
                } else {
                    0x0d
                };
                let ghost c0 = content@;
                content.push(m);
                proof {
                    assert(m == short_escape_byte(e));
                    match scan_string(s@, k + 2) {
                        Some((t, j)) => {
                            assert(c0 + (seq![m] + t) =~= content@ + t);
                        }
                        None => {}
                    }
                }
                k = k + 2;
            } else if e == 0x75 {
                if s.len() - k < 6 {
                    return None;
                }
                let v = match read_hex4(s, k + 2) {
                    Some(v) => v,
                    None => {
                        return None;
                    }
                };
                if 0xd800 <= v && v <= 0xdbff {
                    // A high surrogate must pair with a low one.
                    if s.len() - k < 12 {
                        return None;
                    }
                    if !(s[k + 6] == 0x5c && s[k + 7] == 0x75) {
                        return None;
                    }
                    let w = match read_hex4(s, k + 8) {
                        Some(w) => w,
                        None => {
                            return None;
                        }
                    };
                    if !(0xdc00 <= w && w <= 0xdfff) {
                        return None;
                    }
                    let scalar: u32 = 0x10000 + (v as u32 - 0xd800) * 0x400 + (w as u32 - 0xdc00);
                    let ghost c0 = content@;
                    push_scalar_utf8(&mut content, scalar);
                    proof {
                        match scan_string(s@, k + 12) {
                            Some((t, j)) => {
                                assert(c0 + (utf8_of_scalar(scalar as nat) + t) =~= content@ + t);
                            }
                            None => {}
                        }
                    }
                    k = k + 12;
                } else if 0xdc00 <= v && v <= 0xdfff {
                    return None;
                } else {
                    let ghost c0 = content@;
                    push_scalar_utf8(&mut content, v as u32);
                    proof {
                        match scan_string(s@, k + 6) {
                            Some((t, j)) => {
                                assert(c0 + (utf8_of_scalar(v as nat) + t) =~= content@ + t);
                            }
                            None => {}
                        }
                    }
                    k = k + 6;
                }
            } else {
                return None;
            }
        } else if b < 0x20 {
            return None;
        } else {
            let ghost c0 = content@;
            content.push(b);
            proof {
                match scan_string(s@, k + 1) {
                    Some((t, j)) => {
                        assert(c0 + (seq![b] + t) =~= content@ + t);
                    }
                    None => {}
                }
            }
            k = k + 1;
        }
    }
}

/// If a run of segments is read, there are between one and `max` of
/// them and the cursor advanced.
proof fn lemma_parse_head_len(s: Seq<u8>, i: int, max: nat)
    ensures
        match parse_head(s, i, max) {
            Some((gs, j)) => 1 <= gs.len() <= max && i < j <= s.len(),
            None => true,
        },
    decreases max,
{
    if max > 0 {
        match parse_group(s, i) {
            Some((g, j)) => {
                assert(i < s.len());
                lemma_scan_hex_any_props(s, i);
                if j + 1 < s.len() && s[j] == 0x3a && s[j + 1] != 0x3a {
                    lemma_parse_head_len(s, j + 1, (max - 1) as nat);
                }
            }
            None => {}
        }
    }
}

/// Read one segment at `i`, as `parse_group` defines it.
fn read_group(s: &Vec<u8>, i: usize) -> (r: Option<(u16, usize)>)
    requires
        i <= s@.len(),
    ensures
        match r {
            Some((v, j)) => parse_group(s@, i as int) == Some((v, j as int)) && i < j <= s@.len(),
            None => parse_group(s@, i as int) is None,
        },
{
    let ghost gs = s@;
    let mut j: usize = i;
    let mut acc: u32 = 0;
    while j < s.len() && j - i < 4 && is_hex_byte(s[j])
        invariant
            i <= j <= s@.len(),
            j - i <= 4,
            s@ == gs,
            forall|k: int| i <= k < j ==> is_hex_digit_any(#[trigger] gs[k]),
            acc == hex_value_any(gs.subrange(i as int, j as int)),
        decreases s@.len() - j,
    {
        proof {
            assert(forall|k: int|
                i <= k < j ==> gs.subrange(i as int, j as int)[k - i] == #[trigger] gs[k]);
            lemma_hex_value_any_bound(gs.subrange(i as int, j as int));
            assert(gs.subrange(i as int, j + 1).drop_last() =~= gs.subrange(i as int, j as int));
        }
        let d: u32 = hex_val_byte(s[j]) as u32;
        acc = acc * 16 + d;
        j = j + 1;
    }
    if j == i {
        return None;
    }
    if j < s.len() && is_hex_byte(s[j]) {
        // A fifth hex digit follows: the run is too long for a segment.
        proof {
            lemma_scan_hex_any_props(gs, i as int);
            let endj = scan_hex_any(gs, i as int);
            if endj <= j {
                assert(is_hex_digit_any(gs[endj]));
            }
        }
        return None;
    }
    proof {
        lemma_scan_hex_any_run(gs, i as int, j as int);
        assert(forall|k: int|
            i <= k < j ==> gs.subrange(i as int, j as int)[k - i] == #[trigger] gs[k]);
        lemma_hex_value_any_bound(gs.subrange(i as int, j as int));
    }
    Some((acc as u16, j))
}

/// Read a run of segments at `i`, as `parse_head` defines it.
fn read_head(s: &Vec<u8>, i: usize, max: u8) -> (r: Option<(Vec<u16>, usize)>)
    requires
        i <= s@.len(),
    ensures
        match r {
            Some((gs, j)) => parse_head(s@, i as int, max as nat) == Some((gs@, j as int)) && i < j
                <= s@.len(),
            None => parse_head(s@, i as int, max as nat) is None,
        },
{
    let mut acc: Vec<u16> = Vec::new();
    let mut k: usize = i;
    let mut m: u8 = max;
    loop
        invariant
            i <= k <= s@.len(),
            parse_head(s@, i as int, max as nat) == (match parse_head(s@, k as int, m as nat) {
                Some((gs, j)) => Some((acc@ + gs, j)),
                None => None::<(Seq<u16>, int)>,
            }),
        decreases m,
    {
        if m == 0 {
            return None;
        }
        let (g, j) = match read_group(s, k) {
            Some(x) => x,
            None => {
                return None;
            }
        };
        if j < s.len() && j + 1 < s.len() && s[j] == 0x3a && s[j + 1] != 0x3a {
            let ghost a0 = acc@;
            acc.push(g);
            proof {
                match parse_head(s@, j + 1, (m - 1) as nat) {
                    Some((gs, jj)) => {
                        assert(a0 + (seq![g] + gs) =~= acc@ + gs);
                    }
                    None => {}
                }
            }
            k = j + 1;
            m = m - 1;
        } else {
            let ghost a0 = acc@;
            acc.push(g);
            proof {
                assert(a0 + seq![g] =~= acc@);
            }
            return Some((acc, j));
        }
    }
}

/// The close of a bracketed address, as `finish_v6` defines it.
fn finish_read_v6(s: &Vec<u8>, groups: &Vec<u16>, jb: usize) -> (r: Option<(SockAddr, usize)>)
    requires
        jb <= s@.len(),
    ensures
        match r {
            Some((sa, j)) => finish_v6(s@, groups@, jb as int) == Some((sa, j as int)) && jb < j
                <= s@.len(),
            None => finish_v6(s@, groups@, jb as int) is None,
        },
{
    if !(groups.len() == 8 && jb < s.len() && jb + 1 < s.len() && s[jb] == 0x5d && s[jb + 1]
        == 0x3a) {
        return None;
    }
    let (port, j) = match read_dec(s, jb + 2, 0xffff) {
        Some(x) => x,
        None => {
            return None;
        }
    };
    Some(
        (
            SockAddr::V6 {
                s0: groups[0],
                s1: groups[1],
                s2: groups[2],
                s3: groups[3],
                s4: groups[4],
                s5: groups[5],
                s6: groups[6],
                s7: groups[7],
                port,
            },
            j,
        ),
    )
}

/// Append `z` zero segments.
fn push_zero_groups(full: &mut Vec<u16>, z: usize)
    ensures
        final(full)@ == old(full)@ + Seq::new(z as nat, |x: int| 0u16),
{
    let ghost h0 = full@;
    for t in 0..z
        invariant
            full@ == h0 + Seq::new(t as nat, |x: int| 0u16),
    {
        full.push(0);
        proof {
            assert(h0 + Seq::new((t + 1) as nat, |x: int| 0u16) =~= full@);
        }
    }
}

/// Read a bracketed address at `i`, as `parse_v6` defines it.
#[verifier::rlimit(80)]
fn read_v6(s: &Vec<u8>, i: usize) -> (r: Option<(SockAddr, usize)>)
    requires
        i <= s@.len(),
    ensures
        match r {
            Some((sa, j)) => parse_v6(s@, i as int) == Some((sa, j as int)) && i < j <= s@.len(),
            None => parse_v6(s@, i as int) is None,
        },
{
    if !(i < s.len() && i + 1 < s.len() && s[i] == 0x5b) {
        return None;
    }
    if s[i + 1] == 0x3a {
        // The address begins with `::`.
        if !(i + 2 < s.len() && s[i + 2] == 0x3a) {
            return None;
        }
        if i + 3 < s.len() && s[i + 3] == 0x5d {
            let mut full: Vec<u16> = Vec::new();
            push_zero_groups(&mut full, 8);
            proof {
                assert(Seq::<u16>::empty() + Seq::new(8, |x: int| 0u16) =~= Seq::new(
                    8,
                    |x: int| 0u16,
                ));
            }
            return finish_read_v6(s, &full, i + 3);
        }
        let (tail, j) = match read_head(s, i + 3, 7) {
            Some(x) => x,
            None => {
                return None;
            }
        };
        proof {
            lemma_parse_head_len(s@, i + 3, 7);
        }
        let mut full: Vec<u16> = Vec::new();
        push_zero_groups(&mut full, 8 - tail.len());
        let ghost zpart = full@;
        let n = tail.len();
        for t in 0..n
            invariant
                n == tail@.len(),
                full@ == zpart + tail@.take(t as int),
        {
            full.push(tail[t]);
            proof {
                assert(tail@.take(t + 1) =~= tail@.take(t as int).push(tail@[t as int]));
                assert(full@ =~= zpart + tail@.take(t + 1));
            }
        }
        proof {
            assert(Seq::<u16>::empty() + Seq::new((8 - tail@.len()) as nat, |x: int| 0u16)
                =~= Seq::new((8 - tail@.len()) as nat, |x: int| 0u16));
            assert(tail@.take(n as int) =~= tail@);
        }
        return finish_read_v6(s, &full, j);
    }
    let (head, j) = match read_head(s, i + 1, 8) {
        Some(x) => x,
        None => {
            return None;
        }
    };
    proof {
        lemma_parse_head_len(s@, i + 1, 8);
    }
    if j < s.len() && s[j] == 0x5d {
        return finish_read_v6(s, &head, j);
    }
    if !(head.len() < 8 && j < s.len() && j + 1 < s.len() && s[j] == 0x3a && s[j + 1] == 0x3a) {
        return None;
    }
    if j + 2 < s.len() && s[j + 2] == 0x5d {
        let ghost h0 = head@;
        let z = 8 - head.len();
        let mut full = head;
        push_zero_groups(&mut full, z);
        return finish_read_v6(s, &full, j + 2);
    }
    let (tail, j2) = match read_head(s, j + 2, (7 - head.len()) as u8) {
        Some(x) => x,
        None => {
            return None;
        }
    };
    proof {
        lemma_parse_head_len(s@, j + 2, (7 - head@.len()) as nat);
    }
    if head.len() + tail.len() > 7 {
        return None;
    }
    let ghost h0 = head@;
    let z = 8 - head.len() - tail.len();
    let mut full = head;
    push_zero_groups(&mut full, z);
    let ghost zpart = full@;
    let n = tail.len();
    for t in 0..n
        invariant
            n == tail@.len(),
            full@ == zpart + tail@.take(t as int),
    {
        full.push(tail[t]);
        proof {
            assert(tail@.take(t + 1) =~= tail@.take(t as int).push(tail@[t as int]));
            assert(full@ =~= zpart + tail@.take(t + 1));
        }
    }
    proof {
        assert(tail@.take(n as int) =~= tail@);
        assert(full@ =~= h0 + Seq::new((8 - h0.len() - tail@.len()) as nat, |x: int| 0u16)
            + tail@);
    }
    finish_read_v6(s, &full, j2)
}

/// Read an address at `i`, as `parse_addr` defines it.
fn read_addr(s: &Vec<u8>, i: usize) -> (r: Option<(SockAddr, usize)>)
    requires
        i <= s@.len(),
    ensures
        match r {
            Some((sa, j)) => parse_addr(s@, i as int) == Some((sa, j as int)) && i < j <= s@.len(),
            None => parse_addr(s@, i as int) is None,
        },
{
    proof {
        reveal(parse_addr);
    }
    if i < s.len() && s[i] == 0x5b {
        read_v6(s, i)
    } else {
        // Dotted decimal.
        let ra = match read_dec(s, i, 255) {
            Some(x) => x,
            None => {
                return None;
            }
        };
        let (a, i1) = ra;
        if !(i1 < s.len() && s[i1] == 0x2e) {
            return None;
        }
        let rb = match read_dec(s, i1 + 1, 255) {
            Some(x) => x,
            None => {
                return None;
            }
        };
        let (b, i2) = rb;
        if !(i2 < s.len() && s[i2] == 0x2e) {
            return None;
        }
        let rc = match read_dec(s, i2 + 1, 255) {
            Some(x) => x,
            None => {
                return None;
            }
        };
        let (c, i3) = rc;
        if !(i3 < s.len() && s[i3] == 0x2e) {
            return None;
        }
        let rd = match read_dec(s, i3 + 1, 255) {
            Some(x) => x,
            None => {
                return None;
            }
        };
        let (d, i4) = rd;
        if !(i4 < s.len() && s[i4] == 0x3a) {
            return None;
        }
        let rp = match read_dec(s, i4 + 1, 0xffff) {
            Some(x) => x,
            None => {
                return None;
            }
        };
        let (port, i5) = rp;
        Some((SockAddr::V4 { a: a as u8, b: b as u8, c: c as u8, d: d as u8, port }, i5))
    }
}


/// The first position at or after `i` with no whitespace, as
/// `skip_ws` defines it.
fn skip_spaces(s: &Vec<u8>, i: usize) -> (j: usize)
    requires
        i <= s@.len(),
    ensures
        j as int == skip_ws(s@, i as int),
        i <= j <= s@.len(),
{
    let mut j = i;
    while j < s.len() && (s[j] == 0x20 || s[j] == 0x09 || s[j] == 0x0a || s[j] == 0x0d)
        invariant
            i <= j <= s@.len(),
            skip_ws(s@, i as int) == skip_ws(s@, j as int),
        decreases s@.len() - j,
    {
        j = j + 1;
    }
    j
}

/// Whitespace, a colon, whitespace, as `after_colon` defines it.
fn read_after_colon(s: &Vec<u8>, i: usize) -> (r: Option<usize>)
    requires
        i <= s@.len(),
    ensures
        match r {
            Some(j) => after_colon(s@, i as int) == Some(j as int) && j <= s@.len(),
            None => after_colon(s@, i as int) is None,
        },
{
    let j = skip_spaces(s, i);
    if j < s.len() && s[j] == 0x3a {
        Some(skip_spaces(s, j + 1))
    } else {
        None
    }
}

/// `n` closing braces and the end of the text, as `close_braces`
/// defines it.
fn check_close(s: &Vec<u8>, i: usize, n: u8) -> (r: bool)
    requires
        i <= s@.len(),
    ensures
        r == close_braces(s@, i as int, n as nat),
    decreases n,
{
    let j = skip_spaces(s, i);
    if n == 0 {
        j == s.len()
    } else if j < s.len() && s[j] == 0x7d {
        check_close(s, j + 1, n - 1)
    } else {
        false
    }
}

fn key_ping_vec() -> (v: Vec<u8>)
    ensures
        v@ == key_ping(),
{
    let mut v: Vec<u8> = Vec::new();
    v.push(0x22);
    v.push(0x50);
    v.push(0x69);
    v.push(0x6e);
    v.push(0x67);
    v.push(0x22);
    proof {
        assert(v@ =~= key_ping());
    }
    v
}

fn key_client_id_vec() -> (v: Vec<u8>)
    ensures
        v@ == key_client_id(),
{
    let mut v: Vec<u8> = Vec::new();
    v.push(0x22);
    v.push(0x43);
    v.push(0x6c);
    v.push(0x69);
    v.push(0x65);
    v.push(0x6e);
    v.push(0x74);
    v.push(0x49);
    v.push(0x64);
    v.push(0x22);
    proof {
        assert(v@ =~= key_client_id());
    }
    v
}

fn key_establish_vec() -> (v: Vec<u8>)
    ensures
        v@ == key_establish(),
{
    let mut v: Vec<u8> = Vec::new();
    v.push(0x22);
    v.push(0x45);
    v.push(0x73);
    v.push(0x74);
    v.push(0x61);
    v.push(0x62);
    v.push(0x6c);
    v.push(0x69);
    v.push(0x73);
    v.push(0x68);
    v.push(0x22);
    proof {
        assert(v@ =~= key_establish());
    }
    v
}

fn key_tcp_vec() -> (v: Vec<u8>)
    ensures
        v@ == key_tcp(),
{
    let mut v: Vec<u8> = Vec::new();
    v.push(0x22);
    v.push(0x54);
    v.push(0x63);
    v.push(0x70);
    v.push(0x22);
    proof {
        assert(v@ =~= key_tcp());
    }
    v
}

fn key_src_vec() -> (v: Vec<u8>)
    ensures
        v@ == key_src(),
{
    let mut v: Vec<u8> = Vec::new();
    v.push(0x22);
    v.push(0x73);
    v.push(0x72);
    v.push(0x63);
    v.push(0x22);
    proof {
        assert(v@ =~= key_src());
    }
    v
}

fn key_dest_vec() -> (v: Vec<u8>)
    ensures
        v@ == key_dest(),
{
    let mut v: Vec<u8> = Vec::new();
    v.push(0x22);
    v.push(0x64);
    v.push(0x65);
    v.push(0x73);
    v.push(0x74);
    v.push(0x22);
    proof {
        assert(v@ =~= key_dest());
    }
    v
}

/// Decode a whole message body, as `parse_body` defines it.
#[verifier::rlimit(100)]
pub fn decode_body(s: &Vec<u8>) -> (r: Option<Protocol>)
    ensures
        match r {
            Some(p) => parse_body(s@) == Some(p@),
            None => parse_body(s@) is None,
        },
{
    let i0 = skip_spaces(s, 0);
    if !(i0 < s.len() && s[i0] == 0x7b) {
        return None;
    }
    let ik = skip_spaces(s, i0 + 1);
    let slen = s.len();
    let kping = key_ping_vec();
    let kcid = key_client_id_vec();
    let kest = key_establish_vec();
    if starts_with(s, ik, &kping) {
        proof {
            assert(key_ping().len() == 6);
            assert(ik + 6 <= slen);
        }
        let iv = match read_after_colon(s, ik + 6) {
            Some(x) => x,
            None => {
                return None;
            }
        };
        let (n, j) = match read_dec(s, iv, 0xffff) {
            Some(x) => x,
            None => {
                return None;
            }
        };
        if check_close(s, j, 1) {
            Some(Protocol::Ping(n))
        } else {
            None
        }
    } else if starts_with(s, ik, &kcid) {
        proof {
            assert(key_client_id().len() == 10);
            assert(ik + 10 <= slen);
        }
        let iv = match read_after_colon(s, ik + 10) {
            Some(x) => x,
            None => {
                return None;
            }
        };
        if !(iv < s.len() && s[iv] == 0x22) {
            return None;
        }
        let (content, j) = match read_string(s, iv + 1) {
            Some(x) => x,
            None => {
                return None;
            }
        };
        if !check_close(s, j, 1) {
            return None;
        }
        match string_from_utf8(content) {
            Some(text) => {
                proof {
                    encode_utf8_decode_utf8(text@);
                }
                Some(Protocol::ClientId(text))
            }
            None => None,
        }
    } else if starts_with(s, ik, &kest) {
        proof {
            assert(key_establish().len() == 11);
            assert(ik + 11 <= slen);
        }
        decode_establish(s, ik + 11)
    } else {
        None
    }
}

/// Decode an establish value, as `parse_establish` defines it.
#[verifier::rlimit(100)]
fn decode_establish(s: &Vec<u8>, i: usize) -> (r: Option<Protocol>)
    requires
        i <= s@.len(),
    ensures
        match r {
            Some(p) => parse_establish(s@, i as int) == Some(p@),
            None => parse_establish(s@, i as int) is None,
        },
{
    let slen = s.len();
    let i1 = match read_after_colon(s, i) {
        Some(x) => x,
        None => {
            return None;
        }
    };
    if !(i1 < s.len() && s[i1] == 0x7b) {
        return None;
    }
    let ik2 = skip_spaces(s, i1 + 1);
    let ktcp = key_tcp_vec();
    if !starts_with(s, ik2, &ktcp) {
        return None;
    }
    proof {
        assert(key_tcp().len() == 5);
        assert(ik2 + 5 <= slen);
    }
    let i2 = match read_after_colon(s, ik2 + 5) {
        Some(x) => x,
        None => {
            return None;
        }
    };
    if !(i2 < s.len() && s[i2] == 0x7b) {
        return None;
    }
    let ik3 = skip_spaces(s, i2 + 1);
    let ksrc = key_src_vec();
    if !starts_with(s, ik3, &ksrc) {
        return None;
    }
    proof {
        assert(key_src().len() == 5);
        assert(ik3 + 5 <= slen);
    }
    let i3 = match read_after_colon(s, ik3 + 5) {
        Some(x) => x,
        None => {
            return None;
        }
    };
    if !(i3 < s.len() && s[i3] == 0x22) {
        return None;
    }
    let (src, j1) = match read_addr(s, i3 + 1) {
        Some(x) => x,
        None => {
            return None;
        }
    };
    if !(j1 < s.len() && s[j1] == 0x22) {
        return None;
    }
    let jc = skip_spaces(s, j1 + 1);
    if !(jc < s.len() && s[jc] == 0x2c) {
        return None;
    }
    let ik4 = skip_spaces(s, jc + 1);
    let kdest = key_dest_vec();
    if !starts_with(s, ik4, &kdest) {
        return None;
    }
    proof {
        assert(key_dest().len() == 6);
        assert(ik4 + 6 <= slen);
    }
    let i4 = match read_after_colon(s, ik4 + 6) {
        Some(x) => x,
        None => {
            return None;
        }
    };
    if !(i4 < s.len() && s[i4] == 0x22) {
        return None;
    }
    let (dest, j2) = match read_addr(s, i4 + 1) {
        Some(x) => x,
        None => {
            return None;
        }
    };
    if j2 < s.len() && s[j2] == 0x22 && check_close(s, j2 + 1, 3) {
        Some(Protocol::Establish(Establish::Tcp(TcpEstablish { src, dest })))
    } else {
        None
    }
}

} // verus!
