//! File times as plain values: seconds and nanoseconds since the unix
//! epoch, in the range the platform clock can hold.

use vstd::prelude::*;

verus! {

/// Nanoseconds in one second.
pub const NANOS_PER_SEC: u32 = 1_000_000_000;

/// A moment as seconds and nanoseconds since the unix epoch.
#[derive(Debug, Clone, Copy, PartialEq, Eq, Structural)]
pub struct Timestamp {
    /// Whole seconds since the epoch.
    pub secs: u64,
    /// Nanoseconds past `secs`, below one second.
    pub nanos: u32,
}

/// A moment the platform clock can hold: seconds within the signed
/// 64-bit range, nanoseconds below one second.
pub open spec fn stamp_ok(t: Timestamp) -> bool {
    t.secs <= i64::MAX && t.nanos < NANOS_PER_SEC
}

/// The moment `secs` seconds and `nanos` nanoseconds after the epoch:
/// nanoseconds beyond a second carry into the seconds, and a moment
/// past the clock's range is `None`.
pub open spec fn stamp_from_spec(secs: nat, nanos: nat) -> Option<Timestamp> {
    let s = secs + nanos / (NANOS_PER_SEC as nat);
    let n = nanos % (NANOS_PER_SEC as nat);
    if s <= i64::MAX {
        Some(Timestamp { secs: s as u64, nanos: n as u32 })
    } else {
        None
    }
}

/// Nanoseconds since the epoch.
pub open spec fn total_nanos(t: Timestamp) -> int {
    t.secs * (NANOS_PER_SEC as int) + t.nanos
}

/// The two moments lie less than two seconds apart, in either order.
pub open spec fn within_two_secs(a: Timestamp, b: Timestamp) -> bool {
    -2 * (NANOS_PER_SEC as int) < total_nanos(a) - total_nanos(b) < 2 * (NANOS_PER_SEC as int)
}

impl Timestamp {
    /// The epoch itself.
    pub fn epoch() -> (t: Timestamp)
        ensures
            t == (Timestamp { secs: 0, nanos: 0 }),
    {
        Timestamp { secs: 0, nanos: 0 }
    }

    /// The moment `secs` seconds and `nanos` nanoseconds after the
    /// epoch, as [`stamp_from_spec`] states.
    pub fn from_parts(secs: u64, nanos: u32) -> (r: Option<Timestamp>)
        ensures
            r == stamp_from_spec(secs as nat, nanos as nat),
            r matches Some(t) ==> stamp_ok(t),
    {
        let carry = (nanos / NANOS_PER_SEC) as u64;
        let n = nanos % NANOS_PER_SEC;
        if secs > (i64::MAX as u64) - carry {
            return None;
        }
        Some(Timestamp { secs: secs + carry, nanos: n })
    }
}

/// Whether two moments lie less than two seconds apart.
pub fn within_two_secs_exec(a: Timestamp, b: Timestamp) -> (r: bool)
    ensures
        r == within_two_secs(a, b),
{
    let ds: i128 = a.secs as i128 - b.secs as i128;
    assert(-0x1_0000_0000_0000_0000 < ds < 0x1_0000_0000_0000_0000);
    assert(-0x1_0000_0000_0000_0000 * 1_000_000_000 < ds * 1_000_000_000 < 0x1_0000_0000_0000_0000
        * 1_000_000_000) by (nonlinear_arith)
        requires
            -0x1_0000_0000_0000_0000 < ds < 0x1_0000_0000_0000_0000,
    ;
    let d: i128 = ds * (NANOS_PER_SEC as i128) + (a.nanos as i128 - b.nanos as i128);
    assert(d == total_nanos(a) - total_nanos(b)) by (nonlinear_arith)
        requires
            ds == a.secs - b.secs,
            d == ds * 1_000_000_000 + (a.nanos - b.nanos),
            NANOS_PER_SEC == 1_000_000_000,
    ;
    -2 * (NANOS_PER_SEC as i128) < d && d < 2 * (NANOS_PER_SEC as i128)
}


/// A length of time: seconds and nanoseconds below one second, as a
/// `Duration` holds it.
#[derive(Debug, Clone, Copy, PartialEq, Eq, Structural)]
pub struct Span {
    /// Whole seconds.
    pub secs: u64,
    /// Nanoseconds past `secs`, below one second.
    pub nanos: u32,
}

/// Nanoseconds in a span.
pub open spec fn span_nanos(d: Span) -> int {
    d.secs * (NANOS_PER_SEC as int) + d.nanos
}

/// The moment `grace` before `now`, in nanoseconds since the epoch
/// (negative before it); the epoch itself when the clock's signed
/// seconds cannot reach that far back.
pub open spec fn cutoff_spec(now: Timestamp, grace: Span) -> int {
    let d = total_nanos(now) - span_nanos(grace);
    if d >= (i64::MIN as int) * (NANOS_PER_SEC as int) {
        d
    } else {
        0
    }
}

/// [`cutoff_spec`]: the moment before which aged-out things lie.
pub fn cutoff_of(now: Timestamp, grace: Span) -> (c: i128)
    requires
        stamp_ok(now),
        grace.nanos < NANOS_PER_SEC,
    ensures
        c == cutoff_spec(now, grace),
{
    let now_n: i128 = now.secs as i128 * 1_000_000_000 + now.nanos as i128;
    let grace_n: i128 = grace.secs as i128 * 1_000_000_000 + grace.nanos as i128;
    assert(now_n == total_nanos(now));
    assert(grace_n == span_nanos(grace));
    let d = now_n - grace_n;
    if d >= (i64::MIN as i128) * 1_000_000_000 {
        d
    } else {
        0
    }
}

/// Whether `t` lies strictly after the cutoff `c` (nanoseconds).
pub open spec fn after_cutoff(t: Timestamp, c: int) -> bool {
    total_nanos(t) > c
}

/// [`after_cutoff`].
pub fn is_after(t: Timestamp, c: i128) -> (r: bool)
    ensures
        r == after_cutoff(t, c as int),
{
    let n: i128 = t.secs as i128 * 1_000_000_000 + t.nanos as i128;
    n > c
}

} // verus!
