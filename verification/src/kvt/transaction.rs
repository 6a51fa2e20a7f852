//! Identifiers and timestamps of multiversion transactions.
use vstd::prelude::*;
use vstd::string::StringExecFns;
use std::time::Duration;
use crate::lsm::metrics::{duration_nanos, nanos_of, whole_seconds};

verus! {

/// Identifier of a transaction.
#[derive(Copy, Clone, Debug, Ord, PartialOrd, Eq, PartialEq, Hash, Structural)]
pub struct TransactionId(pub u64);

/// A point in time in milliseconds since the UNIX epoch, ordering the
/// versions of multiversion concurrency control.
#[derive(Copy, Clone, Debug, Ord, PartialOrd, Eq, PartialEq, Hash, Structural)]
pub struct Timestamp(pub i64);

/// Calls chrono's `DateTime::<Utc>::from_timestamp(secs, nanos)` and, where it
/// gives a date-time, that date-time's `timestamp_millis`. chrono returns `None`
/// (and never panics) for seconds outside its date range, which ends on
/// December 31, 262142 CE, or for an invalid nanosecond count; below 10^9
/// nanoseconds are always valid, and 8 * 10^12 seconds after the epoch lie
/// within the range. A date-time made this way round-trips to `secs` and
/// `nanos`, so its milliseconds are `secs * 1000 + nanos / 10^6`.
#[verifier::external_body]
fn utc_millis(secs: i64, nanos: u32) -> (r: Option<i64>)
    ensures
        0 <= secs < 8_000_000_000_000 && nanos < 1_000_000_000 ==> r is Some,
        r matches Some(m) ==> (nanos < 1_000_000_000 ==> m == secs * 1000 + nanos / 1_000_000),
{
    match chrono::DateTime::<chrono::Utc>::from_timestamp(secs, nanos) {
        Some(t) => Some(t.timestamp_millis()),
        None => None,
    }
}

/// Milliseconds since the UNIX epoch of a clock reading that lies `elapsed`
/// after the epoch, through chrono. A reading before the epoch (`None`) reads
/// as the epoch, as does one beyond the date range chrono can represent.
pub fn millis_since_epoch(elapsed: Option<Duration>) -> (r: i64)
    ensures
        match elapsed {
            None => r == 0,
            Some(d) => if nanos_of(d) / 1_000_000_000 < 8_000_000_000_000 {
                r == nanos_of(d) / 1_000_000
            } else {
                r == 0 || r == nanos_of(d) / 1_000_000
            },
        },
{
    match elapsed {
        None => 0,
        Some(d) => {
            let secs = whole_seconds(&d);
            let total = duration_nanos(&d);
            let sub = (total % 1_000_000_000) as u32;
            if secs > 0x7FFF_FFFF_FFFF_FFFFu64 {
                return 0;
            }
            let ghost n = nanos_of(d) as int;
            assert(n / 1_000_000 == (secs as int) * 1000 + (sub as int) / 1_000_000) by (nonlinear_arith)
                requires
                    secs as int == n / 1_000_000_000,
                    sub as int == n % 1_000_000_000,
                    n >= 0,
            {
                assert(n == 1_000_000_000 * (n / 1_000_000_000) + n % 1_000_000_000);
            }
            match utc_millis(secs as i64, sub) {
                Some(m) => m,
                None => 0,
            }
        },
    }
}

impl Timestamp {
    /// The current time by the system clock, in milliseconds since the UNIX
    /// epoch; a clock before the epoch reads as the epoch. Nothing more is
    /// stated of the value, which depends on the time of the call;
    /// `millis_since_epoch` states how it follows from the clock's reading.
    pub fn now() -> (r: Timestamp)
        ensures
            r.0 >= 0,
    {
        let t = crate::lsm::metrics::system_now();
        Timestamp(millis_since_epoch(crate::lsm::metrics::since_epoch(&t)))
    }

    /// The UNIX epoch, 0 ms.
    pub fn epoch() -> (r: Timestamp)
        ensures
            r.0 == 0,
    {
        Timestamp(0)
    }

    /// The timestamp as text, `Timestamp(<millis>ms)`.
    pub fn to_string(&self) -> (r: String)
        ensures
            r@ == seq!['T', 'i', 'm', 'e', 's', 't', 'a', 'm', 'p', '('] + crate::text::signed_dec(self.0 as int) + seq!['m', 's', ')'],
    {
        proof {
            reveal_strlit("Timestamp(");
            reveal_strlit("ms)");
        }
        let mut s = String::new();
        s.append("Timestamp(");
        crate::text::push_signed_dec(&mut s, self.0);
        s.append("ms)");
        assert(s@ =~= seq!['T', 'i', 'm', 'e', 's', 't', 'a', 'm', 'p', '('] + crate::text::signed_dec(self.0 as int) + seq!['m', 's', ')']);
        s
    }
}

} // verus!
