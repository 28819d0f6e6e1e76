//! Trusted access to the system clock, the local timezone and fresh id
//! generation. Each function wraps one call into an outside crate; the
//! rest of the library takes their results as plain values.

use vstd::prelude::*;

verus! {

/// Relies on `time::OffsetDateTime::now_utc` and its `unix_timestamp`:
/// the current instant as whole seconds since the Unix epoch. Nothing
/// can be promised of what the system clock reads.
#[verifier::external_body]
pub fn now_unix() -> i64 {
    time::OffsetDateTime::now_utc().unix_timestamp()
}

/// Relies on `time::UtcOffset::current_local_offset` and its
/// `whole_seconds`: the local timezone's offset from UTC in seconds, or
/// `None` where the platform cannot determine it. A `UtcOffset` lies
/// within plus or minus 25:59:59, so the seconds lie within 93599 of
/// zero.
#[verifier::external_body]
pub fn local_offset_seconds() -> (r: Option<i64>)
    ensures
        r is Some ==> -93600 < r.unwrap() < 93600,
{
    match time::UtcOffset::current_local_offset() {
        Ok(offset) => Some(offset.whole_seconds() as i64),
        Err(_) => None,
    }
}

/// Relies on `nanoid::format` with nanoid's default rng, url-safe
/// alphabet and default size: a random id of exactly 21 characters, all
/// drawn from the 64-symbol url-safe alphabet (so each is one byte).
/// The id is random: two calls may differ.
#[verifier::external_body]
pub fn fresh_task_id() -> (r: String)
    ensures
        r@.len() == 21,
{
    nanoid::format(nanoid::rngs::default, &nanoid::alphabet::SAFE, 21)
}

} // verus!
