//! Timestamps. A block's timestamp is kept as whole seconds since the Unix
//! epoch; its RFC 3339 text, which enters the hashed payload, comes from
//! chrono and is only named here.

use vstd::prelude::*;

verus! {

/// The largest supported timestamp: 9999-12-31T23:59:59Z in seconds since the
/// Unix epoch.
pub const MAX_TIMESTAMP: u64 = 253402300799;

/// The RFC 3339 text of a timestamp (seconds since the Unix epoch, UTC);
/// a function of the timestamp alone.
pub uninterp spec fn rfc3339_of(ts: u64) -> Seq<char>;

/// Relies on chrono's `DateTime::from_timestamp_secs` and
/// `DateTime::to_rfc3339`: every timestamp up to year 9999 converts, and the
/// text depends on the timestamp alone.
#[verifier::external_body]
pub fn rfc3339_utc(ts: u64) -> (r: String)
    requires
        ts <= MAX_TIMESTAMP,
    ensures
        r@ == rfc3339_of(ts),
{
    chrono::DateTime::from_timestamp_secs(ts as i64).unwrap().to_rfc3339()
}

/// Relies on chrono's `Utc::now` (`DateTime::timestamp`): seconds since the
/// Unix epoch of the machine clock; nothing is assumed of the value.
#[verifier::external_body]
pub fn now_timestamp() -> (r: i64) {
    chrono::Utc::now().timestamp()
}

/// Clamps a clock reading into the supported timestamp range.
pub fn clamp_timestamp(t: i64) -> (r: u64)
    ensures
        r <= MAX_TIMESTAMP,
        r == if t < 0 {
            0u64
        } else if t > MAX_TIMESTAMP as i64 {
            MAX_TIMESTAMP
        } else {
            t as u64
        },
{
    if t < 0 {
        0
    } else if t > MAX_TIMESTAMP as i64 {
        MAX_TIMESTAMP
    } else {
        t as u64
    }
}

} // verus!
