//! Decimal and hexadecimal digit runs as the wire grammar uses them.
//! The canonical form this crate emits is shortest (no leading zero) and
//! lowercase; readers also take uppercase hex, and address segments may
//! carry leading zeros. For each base there is the canonical byte form
//! of a number, the value of a digit run, and the proof that scanning
//! the canonical form gives the number back.

use vstd::prelude::*;

verus! {

pub open spec fn is_dec_digit(b: u8) -> bool {
    0x30 <= b <= 0x39
}

/// Lowercase hexadecimal only: the canonical form this grammar emits.
pub open spec fn is_hex_digit(b: u8) -> bool {
    is_dec_digit(b) || 0x61 <= b <= 0x66
}

pub open spec fn dec_val(b: u8) -> nat {
    (b - 0x30) as nat
}

pub open spec fn hex_val(b: u8) -> nat {
    if is_dec_digit(b) {
        (b - 0x30) as nat
    } else {
        (b - 0x61 + 10) as nat
    }
}

/// Hexadecimal of either case, as readers accept it.
pub open spec fn is_hex_digit_any(b: u8) -> bool {
    is_hex_digit(b) || 0x41 <= b <= 0x46
}

pub open spec fn hex_val_any(b: u8) -> nat {
    if 0x41 <= b <= 0x46 {
        (b - 0x41 + 10) as nat
    } else {
        hex_val(b)
    }
}

pub open spec fn dec_digit(d: nat) -> u8 {
    (0x30 + d) as u8
}

pub open spec fn hex_digit(d: nat) -> u8 {
    if d < 10 {
        (0x30 + d) as u8
    } else {
        (0x61 + d - 10) as u8
    }
}

pub proof fn lemma_hex_digit_val(d: nat)
    requires
        d < 16,
    ensures
        is_hex_digit(hex_digit(d)),
        hex_val(hex_digit(d)) == d,
{
}

/// The canonical decimal form of `n`: shortest, most significant first.
pub open spec fn dec_rep(n: nat) -> Seq<u8>
    decreases n,
{
    if n < 10 {
        seq![dec_digit(n)]
    } else {
        dec_rep(n / 10).push(dec_digit(n % 10))
    }
}

/// The canonical lowercase hexadecimal form of `n`.
pub open spec fn hex_rep(n: nat) -> Seq<u8>
    decreases n,
{
    if n < 16 {
        seq![hex_digit(n)]
    } else {
        hex_rep(n / 16).push(hex_digit(n % 16))
    }
}

/// The number a run of decimal digit bytes denotes.
pub open spec fn dec_value(s: Seq<u8>) -> nat
    decreases s.len(),
{
    if s.len() == 0 {
        0
    } else {
        dec_value(s.drop_last()) * 10 + dec_val(s.last())
    }
}

/// The number a run of hexadecimal digit bytes denotes.
pub open spec fn hex_value(s: Seq<u8>) -> nat
    decreases s.len(),
{
    if s.len() == 0 {
        0
    } else {
        hex_value(s.drop_last()) * 16 + hex_val(s.last())
    }
}

/// The number a run of either-case hexadecimal digit bytes denotes.
pub open spec fn hex_value_any(s: Seq<u8>) -> nat
    decreases s.len(),
{
    if s.len() == 0 {
        0
    } else {
        hex_value_any(s.drop_last()) * 16 + hex_val_any(s.last())
    }
}

/// The first position at or after `i` that does not hold a decimal digit.
pub open spec fn scan_dec(s: Seq<u8>, i: int) -> int
    decreases s.len() - i,
{
    if i < 0 || i >= s.len() {
        i
    } else if is_dec_digit(s[i]) {
        scan_dec(s, i + 1)
    } else {
        i
    }
}


/// The first position at or after `i` that does not hold a hex digit of
/// either case.
pub open spec fn scan_hex_any(s: Seq<u8>, i: int) -> int
    decreases s.len() - i,
{
    if i < 0 || i >= s.len() {
        i
    } else if is_hex_digit_any(s[i]) {
        scan_hex_any(s, i + 1)
    } else {
        i
    }
}

/// Read a decimal number at `i`: its digit run must be nonempty, have no
/// leading zero unless it is exactly `0`, and denote at most `max`.
/// Returns the value and the position after the run.
pub open spec fn parse_dec(s: Seq<u8>, i: int, max: nat) -> Option<(nat, int)> {
    let j = scan_dec(s, i);
    let ds = s.subrange(i, j);
    if 0 <= i && i < j && (s[i] != 0x30 || j == i + 1) && dec_value(ds) <= max {
        Some((dec_value(ds), j))
    } else {
        None
    }
}


/// Read one address segment at `i`: one to four hex digits of either
/// case, leading zeros allowed. Returns the value and the position after
/// the run.
pub open spec fn parse_group(s: Seq<u8>, i: int) -> Option<(u16, int)> {
    let j = scan_hex_any(s, i);
    let ds = s.subrange(i, j);
    if 0 <= i && i < j && j - i <= 4 {
        Some((hex_value_any(ds) as u16, j))
    } else {
        None
    }
}

pub proof fn lemma_dec_rep_shape(n: nat)
    ensures
        dec_rep(n).len() >= 1,
        forall|k: int| 0 <= k < dec_rep(n).len() ==> is_dec_digit(#[trigger] dec_rep(n)[k]),
        n > 0 ==> dec_rep(n)[0] != 0x30,
        n == 0 ==> dec_rep(n).len() == 1,
    decreases n,
{
    if n >= 10 {
        lemma_dec_rep_shape(n / 10);
        assert(forall|k: int|
            0 <= k < dec_rep(n).len() - 1 ==> #[trigger] dec_rep(n)[k] == dec_rep(n / 10)[k]);
        assert(n / 10 > 0);
    }
}

pub proof fn lemma_hex_rep_shape(n: nat)
    ensures
        hex_rep(n).len() >= 1,
        forall|k: int| 0 <= k < hex_rep(n).len() ==> is_hex_digit(#[trigger] hex_rep(n)[k]),
        n > 0 ==> hex_rep(n)[0] != 0x30,
        n == 0 ==> hex_rep(n).len() == 1,
    decreases n,
{
    if n >= 16 {
        lemma_hex_rep_shape(n / 16);
        assert(forall|k: int|
            0 <= k < hex_rep(n).len() - 1 ==> #[trigger] hex_rep(n)[k] == hex_rep(n / 16)[k]);
        assert(n / 16 > 0);
    }
}

proof fn lemma_dec_value_of_rep(n: nat)
    ensures
        dec_value(dec_rep(n)) == n,
    decreases n,
{
    if n >= 10 {
        lemma_dec_value_of_rep(n / 10);
        assert(dec_rep(n).drop_last() =~= dec_rep(n / 10));
        assert((n / 10) * 10 + n % 10 == n) by (nonlinear_arith);
    } else {
        assert(seq![dec_digit(n)].drop_last() =~= Seq::<u8>::empty());
        assert(dec_value(Seq::<u8>::empty()) == 0);
    }
}

proof fn lemma_hex_value_of_rep(n: nat)
    ensures
        hex_value(hex_rep(n)) == n,
    decreases n,
{
    if n >= 16 {
        lemma_hex_value_of_rep(n / 16);
        assert(hex_rep(n).drop_last() =~= hex_rep(n / 16));
        assert((n / 16) * 16 + n % 16 == n) by (nonlinear_arith);
    } else {
        assert(seq![hex_digit(n)].drop_last() =~= Seq::<u8>::empty());
        assert(hex_value(Seq::<u8>::empty()) == 0);
    }
}

proof fn lemma_scan_dec_run(s: Seq<u8>, i: int, j: int)
    requires
        0 <= i <= j <= s.len(),
        forall|k: int| i <= k < j ==> is_dec_digit(#[trigger] s[k]),
        j == s.len() || !is_dec_digit(s[j]),
    ensures
        scan_dec(s, i) == j,
    decreases j - i,
{
    if i < j {
        lemma_scan_dec_run(s, i + 1, j);
    }
}


proof fn lemma_scan_dec_props(s: Seq<u8>, i: int)
    requires
        0 <= i <= s.len(),
    ensures
        i <= scan_dec(s, i) <= s.len(),
        forall|k: int| i <= k < scan_dec(s, i) ==> is_dec_digit(#[trigger] s[k]),
        scan_dec(s, i) == s.len() || !is_dec_digit(s[scan_dec(s, i)]),
    decreases s.len() - i,
{
    if i < s.len() && is_dec_digit(s[i]) {
        lemma_scan_dec_props(s, i + 1);
    }
}


pub proof fn lemma_scan_hex_any_run(s: Seq<u8>, i: int, j: int)
    requires
        0 <= i <= j <= s.len(),
        forall|k: int| i <= k < j ==> is_hex_digit_any(#[trigger] s[k]),
        j == s.len() || !is_hex_digit_any(s[j]),
    ensures
        scan_hex_any(s, i) == j,
    decreases j - i,
{
    if i < j {
        lemma_scan_hex_any_run(s, i + 1, j);
    }
}

pub proof fn lemma_scan_hex_any_props(s: Seq<u8>, i: int)
    requires
        0 <= i <= s.len(),
    ensures
        i <= scan_hex_any(s, i) <= s.len(),
        forall|k: int| i <= k < scan_hex_any(s, i) ==> is_hex_digit_any(#[trigger] s[k]),
        scan_hex_any(s, i) == s.len() || !is_hex_digit_any(s[scan_hex_any(s, i)]),
    decreases s.len() - i,
{
    if i < s.len() && is_hex_digit_any(s[i]) {
        lemma_scan_hex_any_props(s, i + 1);
    }
}

/// On lowercase digits the either-case value is the lowercase value.
proof fn lemma_hex_value_any_lower(ds: Seq<u8>)
    requires
        forall|k: int| 0 <= k < ds.len() ==> is_hex_digit(#[trigger] ds[k]),
    ensures
        hex_value_any(ds) == hex_value(ds),
    decreases ds.len(),
{
    if ds.len() > 0 {
        assert(forall|k: int|
            0 <= k < ds.len() - 1 ==> #[trigger] ds.drop_last()[k] == ds[k]);
        lemma_hex_value_any_lower(ds.drop_last());
    }
}

/// A short digit run denotes a small number: each added digit scales
/// the value by at most sixteen.
pub proof fn lemma_hex_value_any_bound(ds: Seq<u8>)
    requires
        forall|k: int| 0 <= k < ds.len() ==> is_hex_digit_any(#[trigger] ds[k]),
    ensures
        ds.len() == 0 ==> hex_value_any(ds) == 0,
        ds.len() <= 1 ==> hex_value_any(ds) < 16,
        ds.len() <= 2 ==> hex_value_any(ds) < 256,
        ds.len() <= 3 ==> hex_value_any(ds) < 4096,
        ds.len() <= 4 ==> hex_value_any(ds) < 65536,
    decreases ds.len(),
{
    if ds.len() > 0 {
        assert(forall|k: int|
            0 <= k < ds.len() - 1 ==> #[trigger] ds.drop_last()[k] == ds[k]);
        lemma_hex_value_any_bound(ds.drop_last());
        assert(hex_val_any(ds.last()) < 16);
    }
}

/// A 16-bit number never takes more than four hex digits.
pub proof fn lemma_hex_rep_len4(n: nat)
    requires
        n <= 0xffff,
    ensures
        1 <= hex_rep(n).len() <= 4,
        n < 16 ==> hex_rep(n).len() == 1,
        n < 256 ==> hex_rep(n).len() <= 2,
        n < 4096 ==> hex_rep(n).len() <= 3,
    decreases n,
{
    if n >= 16 {
        lemma_hex_rep_len4(n / 16);
    }
}

/// Reading a segment written in the canonical form of `n` — with no hex
/// digit of either case right after it — yields exactly `n`.
pub proof fn lemma_parse_group_rep(s: Seq<u8>, i: int, n: nat)
    requires
        0 <= i,
        n <= 0xffff,
        i + hex_rep(n).len() <= s.len(),
        s.subrange(i, i + hex_rep(n).len()) == hex_rep(n),
        i + hex_rep(n).len() == s.len() || !is_hex_digit_any(s[i + hex_rep(n).len()]),
    ensures
        parse_group(s, i) == Some((n as u16, i + hex_rep(n).len())),
{
    let len = hex_rep(n).len();
    lemma_hex_rep_shape(n);
    lemma_hex_rep_len4(n);
    assert(forall|k: int| i <= k < i + len ==> is_hex_digit_any(#[trigger] s[k])) by {
        assert(forall|k: int|
            i <= k < i + len ==> #[trigger] s[k] == s.subrange(i, i + len)[k - i]);
    }
    lemma_scan_hex_any_run(s, i, i + len);
    assert(s.subrange(i, i + len) == hex_rep(n));
    assert(forall|k: int| 0 <= k < len ==> is_hex_digit(#[trigger] hex_rep(n)[k]));
    lemma_hex_value_any_lower(hex_rep(n));
    lemma_hex_value_of_rep(n);
}

/// Scanning the canonical decimal form of `n` placed at `i` — with no
/// digit right after it — yields exactly `n`.
pub proof fn lemma_parse_dec_rep(s: Seq<u8>, i: int, n: nat, max: nat)
    requires
        0 <= i,
        i + dec_rep(n).len() <= s.len(),
        s.subrange(i, i + dec_rep(n).len()) == dec_rep(n),
        i + dec_rep(n).len() == s.len() || !is_dec_digit(s[i + dec_rep(n).len()]),
        n <= max,
    ensures
        parse_dec(s, i, max) == Some((n, i + dec_rep(n).len())),
{
    let len = dec_rep(n).len();
    lemma_dec_rep_shape(n);
    assert(forall|k: int| i <= k < i + len ==> is_dec_digit(#[trigger] s[k])) by {
        assert(forall|k: int|
            i <= k < i + len ==> #[trigger] s[k] == s.subrange(i, i + len)[k - i]);
    }
    lemma_scan_dec_run(s, i, i + len);
    assert(s.subrange(i, i + len) == dec_rep(n));
    lemma_dec_value_of_rep(n);
    assert(s[i] == dec_rep(n)[0]);
    if n == 0 {
        assert(len == 1);
    } else {
        assert(s[i] != 0x30);
    }
}


/// A longer digit run never denotes less: extending a run multiplies its
/// value by the base and adds a digit.
proof fn lemma_dec_value_prefix(s: Seq<u8>, i: int, j: int)
    requires
        0 <= i <= j <= s.len(),
    ensures
        dec_value(s.subrange(0, i)) <= dec_value(s.subrange(0, j)),
    decreases j - i,
{
    if i < j {
        lemma_dec_value_prefix(s, i, j - 1);
        assert(s.subrange(0, j).drop_last() =~= s.subrange(0, j - 1));
    }
}


/// Append the canonical decimal form of `n`.
pub fn push_dec(out: &mut Vec<u8>, n: u16)
    ensures
        final(out)@ == old(out)@ + dec_rep(n as nat),
    decreases n,
{
    if n >= 10 {
        push_dec(out, n / 10);
        out.push(0x30 + (n % 10) as u8);
        proof {
            assert(out@ =~= old(out)@ + dec_rep(n as nat));
        }
    } else {
        out.push(0x30 + n as u8);
        proof {
            assert(out@ =~= old(out)@ + dec_rep(n as nat));
        }
    }
}

/// Append the canonical lowercase hexadecimal form of `n`.
pub fn push_hex(out: &mut Vec<u8>, n: u16)
    ensures
        final(out)@ == old(out)@ + hex_rep(n as nat),
    decreases n,
{
    if n >= 16 {
        push_hex(out, n / 16);
        let d = (n % 16) as u8;
        out.push(if d < 10 { 0x30 + d } else { 0x61 + d - 10 });
        proof {
            assert(out@ =~= old(out)@ + hex_rep(n as nat));
        }
    } else {
        let d = n as u8;
        out.push(if d < 10 { 0x30 + d } else { 0x61 + d - 10 });
        proof {
            assert(out@ =~= old(out)@ + hex_rep(n as nat));
        }
    }
}

/// Read a decimal number at `i`, as `parse_dec` defines it.
pub fn read_dec(s: &Vec<u8>, i: usize, max: u16) -> (r: Option<(u16, usize)>)
    requires
        i <= s@.len(),
    ensures
        match r {
            Some((v, j)) => parse_dec(s@, i as int, max as nat) == Some((v as nat, j as int))
                && i < j <= s@.len(),
            None => parse_dec(s@, i as int, max as nat) is None,
        },
{
    let ghost gs = s@;
    if i == s.len() || !(0x30 <= s[i] && s[i] <= 0x39) {
        return None;
    }
    if s[i] == 0x30 {
        // A leading zero stands alone.
        if i + 1 < s.len() && 0x30 <= s[i + 1] && s[i + 1] <= 0x39 {
            proof {
                lemma_scan_dec_props(gs, i as int);
            }
            return None;
        }
        proof {
            lemma_scan_dec_run(gs, i + 1, i + 1);
            assert(gs.subrange(i as int, i + 1) =~= seq![gs[i as int]]);
            assert(seq![gs[i as int]].drop_last() =~= Seq::<u8>::empty());
            assert(dec_value(Seq::<u8>::empty()) == 0);
        }
        return Some((0, i + 1));
    }
    let mut j: usize = i;
    let mut acc: u32 = 0;
    while j < s.len() && 0x30 <= s[j] && s[j] <= 0x39
        invariant
            i <= j <= s@.len(),
            s@ == gs,
            forall|k: int| i <= k < j ==> is_dec_digit(#[trigger] gs[k]),
            acc == dec_value(gs.subrange(i as int, j as int)),
            acc <= max,
        decreases s@.len() - j,
    {
        let d: u32 = (s[j] - 0x30) as u32;
        let next: u32 = acc * 10 + d;
        proof {
            assert(gs.subrange(i as int, j + 1).drop_last() =~= gs.subrange(i as int, j as int));
        }
        if next > max as u32 {
            proof {
                lemma_scan_dec_props(gs, i as int);
                let endj = scan_dec(gs, i as int);
                // The full run extends this prefix, so its value is at least as large.
                let whole = gs.subrange(i as int, endj);
                assert(j + 1 <= endj) by {
                    if endj < j + 1 {
                        assert(is_dec_digit(gs[endj]));
                    }
                }
                assert(whole.subrange(0, j + 1 - i) =~= gs.subrange(i as int, j + 1));
                assert(whole.subrange(0, whole.len() as int) =~= whole);
                lemma_dec_value_prefix(whole, j + 1 - i, whole.len() as int);
            }
            return None;
        }
        acc = next;
        j = j + 1;
    }
    proof {
        lemma_scan_dec_run(gs, i as int, j as int);
    }
    Some((acc as u16, j))
}


} // verus!
