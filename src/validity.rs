//! Signature validity windows in RFC 1982 serial-number arithmetic.
use vstd::prelude::*;

verus! {

/// `a` comes before `b` as 32-bit serial numbers: `(b - a) mod 2^32` lies in `(0, 2^31)`.
pub open spec fn serial_lt(a: u32, b: u32) -> bool {
    let d = (b as int - a as int) % 0x1_0000_0000;
    0 < d < 0x8000_0000
}

/// A signature with this inception and expiration is valid at `now`: `now` is not
/// before the inception and is before the expiration.
pub open spec fn valid_at(inception: u32, expiration: u32, now: u32) -> bool {
    !serial_lt(now, inception) && serial_lt(now, expiration)
}

/// Whether `a` comes before `b` as serial numbers.
pub fn serial_before(a: u32, b: u32) -> (r: bool)
    ensures
        r == serial_lt(a, b),
{
    let d: u32 = if b >= a {
        b - a
    } else {
        ((b as u64 + 0x1_0000_0000u64) - a as u64) as u32
    };
    d > 0 && d < 0x8000_0000
}

/// Whether a signature's window `[inception, expiration)` holds the time `now`
/// (POSIX seconds, taken modulo 2^32).
pub fn sig_valid_at(inception: u32, expiration: u32, now: u64) -> (r: bool)
    ensures
        r == valid_at(inception, expiration, (now % 0x1_0000_0000) as u32),
{
    let t: u32 = (now % 0x1_0000_0000) as u32;
    !serial_before(t, inception) && serial_before(t, expiration)
}

/// A window is closed at its inception and open at its expiration: a signature is
/// valid at its inception and one second before its expiration, and not at it.
pub proof fn lemma_window_bounds(inception: u32, expiration: u32)
    requires
        serial_lt(inception, expiration),
    ensures
        valid_at(inception, expiration, inception),
        valid_at(inception, expiration, ((expiration as int - 1) % 0x1_0000_0000) as u32),
        !valid_at(inception, expiration, expiration),
{
    let last = ((expiration as int - 1) % 0x1_0000_0000) as u32;
    let d = (expiration as int - inception as int) % 0x1_0000_0000;
    assert(0 < d < 0x8000_0000);
    if expiration >= inception {
        assert(d == expiration - inception);
    } else {
        assert(d == expiration - inception + 0x1_0000_0000);
    }
    if expiration > 0 {
        assert(last == expiration - 1);
    } else {
        assert(last == 0xffff_ffff);
    }
}

} // verus!
