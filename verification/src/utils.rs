//! The clock as the protocol sees it: heartbeats carry only the low 16
//! bits of Unix seconds. The reading itself promises nothing; the
//! truncation of a reading is verified exactly.

use vstd::prelude::*;

verus! {

/// Relies on std::time::SystemTime::now and SystemTime::duration_since:
/// the seconds of the Unix time now, 0 if the clock reads before the
/// epoch. Nothing is promised of the value; callers state what holds of
/// every reading.
#[verifier::external_body]
fn unix_seconds() -> u64 {
    match std::time::SystemTime::now().duration_since(std::time::SystemTime::UNIX_EPOCH) {
        Ok(dur) => dur.as_secs(),
        Err(_) => 0,
    }
}

/// The low 16 bits of a seconds count: what a heartbeat carries of it.
pub fn low16(secs: u64) -> (r: u16)
    ensures
        r == secs % 0x1_0000,
{
    (secs % 0x1_0000) as u16
}

/// The current Unix time truncated to its low 16 bits: the heartbeat
/// timestamp. Whatever seconds the clock read, the result is that
/// reading modulo 65536, by `low16`'s contract.
pub fn current_time16() -> u16 {
    low16(unix_seconds())
}

} // verus!
