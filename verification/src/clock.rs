//! The firing-policy value of a task: one-shot at an absolute time,
//! once per day at a wall-clock hour and minute, or repeating with a
//! fixed period. Timestamps are seconds since the Unix epoch; the local
//! timezone enters only as an explicit offset in seconds.

use vstd::prelude::*;

verus! {

pub const SECS_PER_DAY: u64 = 86400;

/// When a task fires.
///
/// - `Once(fire_at)`: a single firing at the absolute timestamp `fire_at`.
/// - `OncePerDay(hour, minute)`: a firing whenever the local wall clock
///   reads `hour:minute`.
/// - `Period(secs)`: a firing every `secs` seconds, forever.
#[derive(Clone, Copy, Debug, PartialEq, Eq, Structural)]
pub enum ClockType {
    Once(i64),
    OncePerDay(u8, u8),
    Period(u64),
}

/// Well-formedness: a daily clock names a real wall-clock minute and a
/// periodic clock has a positive period.
pub open spec fn clock_wf(c: ClockType) -> bool {
    match c {
        ClockType::Once(_) => true,
        ClockType::OncePerDay(hour, minute) => hour < 24 && minute < 60,
        ClockType::Period(secs) => secs > 0,
    }
}

/// Seconds since local midnight for the instant `now` (UTC seconds)
/// under the timezone offset `offset` (seconds east of UTC).
pub open spec fn spec_day_seconds(now: int, offset: int) -> int {
    (now + offset) % (SECS_PER_DAY as int)
}

pub open spec fn spec_local_hour(now: int, offset: int) -> int {
    spec_day_seconds(now, offset) / 3600
}

pub open spec fn spec_local_minute(now: int, offset: int) -> int {
    (spec_day_seconds(now, offset) % 3600) / 60
}

/// Whether a clock's moment has passed: a one-shot clock is due once
/// `now` reaches its firing time; a periodic clock is never "due" (it
/// never expires, it only repeats); a daily clock is due during the
/// local minute it names.
pub open spec fn spec_is_due(c: ClockType, now: int, offset: int) -> bool {
    match c {
        ClockType::Once(fire_at) => now >= fire_at,
        ClockType::OncePerDay(hour, minute) => spec_local_hour(now, offset) == hour
            && spec_local_minute(now, offset) == minute,
        ClockType::Period(_) => false,
    }
}

/// Euclidean remainder of `shifted` by the seconds of a day, i.e. the
/// position of the instant within its day. The argument is wide enough
/// to hold the sum of any timestamp and any offset.
fn euclid_day_seconds(shifted: i128) -> (r: u64)
    requires
        i128::MIN < shifted,
    ensures
        r == shifted as int % (SECS_PER_DAY as int),
        r < 86400,
{
    if shifted >= 0 {
        ((shifted as u128) % 86400) as u64
    } else {
        let m: u128 = (-(shifted + 1)) as u128;
        proof {
            lemma_neg_mod(m as int, 86400);
        }
        86399u64 - ((m % 86400) as u64)
    }
}

/// For a negative value `-(m+1)`, its Euclidean remainder mirrors the
/// remainder of `m`.
proof fn lemma_neg_mod(m: int, n: int)
    requires
        m >= 0,
        n > 0,
    ensures
        (-(m + 1)) % n == n - 1 - (m % n),
{
    let q = m / n;
    let r = m % n;
    vstd::arithmetic::div_mod::lemma_fundamental_div_mod(m, n);
    assert(m == q * n + r);
    assert(-(m + 1) == (-q - 1) * n + (n - 1 - r)) by (nonlinear_arith)
        requires
            m == q * n + r,
    ;
    vstd::arithmetic::div_mod::lemma_fundamental_div_mod_converse(
        -(m + 1),
        n,
        -q - 1,
        n - 1 - r,
    );
}

impl ClockType {
    /// Whether this clock is due at `now` under the timezone `offset`.
    pub fn is_due(&self, now: i64, offset: i64) -> (r: bool)
        ensures
            r == spec_is_due(*self, now as int, offset as int),
    {
        match self {
            ClockType::Once(fire_at) => now >= *fire_at,
            ClockType::OncePerDay(hour, minute) => {
                let day: u64 = euclid_day_seconds(now as i128 + offset as i128);
                let h: u64 = day / 3600;
                let m: u64 = (day % 3600) / 60;
                h == *hour as u64 && m == *minute as u64
            },
            ClockType::Period(_) => false,
        }
    }
}

} // verus!
