use vstd::prelude::*;

use crate::time_interval::{Timestamp, MAX_SECS};

verus! {

/// One trade: `price` and `volume` are fixed-point (see `UNITS_PER_WHOLE`).
#[derive(Debug, Clone)]
pub struct Transaction {
    pub token: String,
    pub price: i64,
    pub volume: i64,
    pub timestamp: Timestamp,
    pub is_buy: bool,
}

/// Relies on chrono::Utc::now, read through `timestamp` and
/// `timestamp_subsec_nanos`: the current UTC time as whole seconds from the
/// Unix epoch and the nanoseconds past them. `Utc::now` panics on a clock
/// before the epoch and on one past chrono's last year, so what it returns
/// lies between the two.
#[verifier::external_body]
fn utc_now() -> (r: (i64, u32))
    ensures
        0 <= r.0 <= MAX_SECS,
        r.1 < 1_000_000_000,
{
    let now = chrono::Utc::now();
    (now.timestamp(), now.timestamp_subsec_nanos())
}

impl Transaction {
    /// A trade stamped with the current time.
    pub fn new(token: String, price: i64, volume: i64, is_buy: bool) -> (r: Transaction)
        ensures
            r.token == token,
            r.price == price,
            r.volume == volume,
            r.is_buy == is_buy,
            0 <= r.timestamp.unix_secs(),
            r.timestamp.subsec() < 1_000_000_000,
    {
        let (secs, nanos) = utc_now();
        let timestamp = Timestamp::from_unix(secs, nanos).unwrap();
        Transaction { token, price, volume, timestamp, is_buy }
    }
}

} // verus!
