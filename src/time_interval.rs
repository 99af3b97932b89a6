use vstd::prelude::*;

verus! {

/// The fixed aggregation granularities.
#[derive(Debug, Clone, Copy, PartialEq, Eq, Hash, Structural)]
pub enum TimeInterval {
    Second1,
    Minute1,
    Minute5,
    Minute15,
    Hour1,
}

/// The wire label of a granularity.
pub open spec fn interval_label(iv: TimeInterval) -> Seq<char> {
    match iv {
        TimeInterval::Second1 => "1s"@,
        TimeInterval::Minute1 => "1m"@,
        TimeInterval::Minute5 => "5m"@,
        TimeInterval::Minute15 => "15m"@,
        TimeInterval::Hour1 => "1h"@,
    }
}

/// The length of a granularity's buckets, in seconds.
pub open spec fn interval_seconds(iv: TimeInterval) -> int {
    match iv {
        TimeInterval::Second1 => 1,
        TimeInterval::Minute1 => 60,
        TimeInterval::Minute5 => 300,
        TimeInterval::Minute15 => 900,
        TimeInterval::Hour1 => 3600,
    }
}

/// The granularity whose label is `s`, if there is one.
pub open spec fn interval_named(s: Seq<char>) -> Option<TimeInterval> {
    if s == "1s"@ {
        Some(TimeInterval::Second1)
    } else if s == "1m"@ {
        Some(TimeInterval::Minute1)
    } else if s == "5m"@ {
        Some(TimeInterval::Minute5)
    } else if s == "15m"@ {
        Some(TimeInterval::Minute15)
    } else if s == "1h"@ {
        Some(TimeInterval::Hour1)
    } else {
        None
    }
}

/// The message that rejects an unknown label.
pub open spec fn invalid_interval_message(s: Seq<char>) -> Seq<char> {
    "Invalid time interval: "@ + s
}

/// Whether two strings hold the same characters.
pub fn str_eq(a: &str, b: &str) -> (r: bool)
    ensures
        r == (a@ == b@),
{
    let x = a.to_owned();
    let y = b.to_owned();
    x == y
}

impl TimeInterval {
    /// The wire label ("1s", "1m", "5m", "15m", "1h").
    pub fn as_str(&self) -> (r: &'static str)
        ensures
            r@ == interval_label(*self),
    {
        match self {
            TimeInterval::Second1 => "1s",
            TimeInterval::Minute1 => "1m",
            TimeInterval::Minute5 => "5m",
            TimeInterval::Minute15 => "15m",
            TimeInterval::Hour1 => "1h",
        }
    }

    /// The bucket length in seconds.
    pub fn duration_seconds(&self) -> (r: u64)
        ensures
            r == interval_seconds(*self),
    {
        match self {
            TimeInterval::Second1 => 1,
            TimeInterval::Minute1 => 60,
            TimeInterval::Minute5 => 300,
            TimeInterval::Minute15 => 900,
            TimeInterval::Hour1 => 3600,
        }
    }

    /// Reads a wire label; anything else is rejected with a message naming it.
    pub fn parse(s: &str) -> (r: Result<TimeInterval, String>)
        ensures
            match interval_named(s@) {
                Some(iv) => r == Ok::<TimeInterval, String>(iv),
                None => r is Err && r->Err_0@ == invalid_interval_message(s@),
            },
    {
        if str_eq(s, "1s") {
            Ok(TimeInterval::Second1)
        } else if str_eq(s, "1m") {
            Ok(TimeInterval::Minute1)
        } else if str_eq(s, "5m") {
            Ok(TimeInterval::Minute5)
        } else if str_eq(s, "15m") {
            Ok(TimeInterval::Minute15)
        } else if str_eq(s, "1h") {
            Ok(TimeInterval::Hour1)
        } else {
            let mut msg = String::from_str("Invalid time interval: ");
            msg.append(s);
            Err(msg)
        }
    }
}

impl std::str::FromStr for TimeInterval {
    type Err = String;

    fn from_str(s: &str) -> (r: Result<TimeInterval, String>)
        ensures
            match interval_named(s@) {
                Some(iv) => r == Ok::<TimeInterval, String>(iv),
                None => r is Err && r->Err_0@ == invalid_interval_message(s@),
            },
    {
        TimeInterval::parse(s)
    }
}

/// Earliest supported instant, in seconds from the Unix epoch: 120,000,000
/// days before it, far beyond any calendar date, and a whole number of days
/// so that every bucket of an instant in range starts in range.
pub const MIN_SECS: i64 = -10_368_000_000_000;
/// Latest supported instant, 120,000,000 days after the Unix epoch.
pub const MAX_SECS: i64 = 10_368_000_000_000;

/// An instant in UTC: whole seconds from the Unix epoch and the nanoseconds
/// past that second. A leap second is held, as chrono holds it, by a
/// nanosecond count of one second or more.
#[derive(Debug, Clone, Copy, PartialEq, Eq, Hash, PartialOrd, Ord)]
pub struct Timestamp {
    secs: i64,
    nanos: u32,
}

/// Start of the bucket that holds the second `secs` under `iv`: the largest
/// multiple of the bucket length at or below it. The Unix epoch falls on a
/// whole hour and every hour has 3600 seconds, so for 5m and 15m this is the
/// minute of the hour floored to a multiple of 5 or 15, at second zero.
pub open spec fn bucket_secs(secs: int, iv: TimeInterval) -> int {
    secs - secs % interval_seconds(iv)
}

impl Timestamp {
    #[verifier::type_invariant]
    spec fn in_range(self) -> bool {
        MIN_SECS <= self.secs <= MAX_SECS
    }

    /// Seconds from the Unix epoch.
    pub closed spec fn unix_secs(self) -> int {
        self.secs as int
    }

    /// Nanoseconds past the second.
    pub closed spec fn subsec(self) -> int {
        self.nanos as int
    }

    /// Order of instants: by second, then by nanosecond.
    pub open spec fn not_after(self, other: Timestamp) -> bool {
        self.unix_secs() < other.unix_secs() || (self.unix_secs() == other.unix_secs()
            && self.subsec() <= other.subsec())
    }

    /// Strictly earlier.
    pub open spec fn before(self, other: Timestamp) -> bool {
        self.not_after(other) && !other.not_after(self)
    }

    /// The first instant of the bucket that holds this one under `iv`.
    pub closed spec fn bucket_of(self, iv: TimeInterval) -> Timestamp {
        Timestamp { secs: bucket_secs(self.secs as int, iv) as i64, nanos: 0 }
    }

    /// The bucket of an instant in range starts at `bucket_secs`, in range.
    pub proof fn lemma_bucket_of(self, iv: TimeInterval)
        requires
            MIN_SECS <= self.unix_secs() <= MAX_SECS,
        ensures
            self.bucket_of(iv).unix_secs() == bucket_secs(self.unix_secs(), iv),
            self.bucket_of(iv).subsec() == 0,
            MIN_SECS <= self.bucket_of(iv).unix_secs() <= MAX_SECS,
    {
        lemma_bucket_bounds(self.unix_secs(), iv);
        lemma_bucket_monotonic(MIN_SECS as int, self.unix_secs(), iv);
        lemma_min_secs_aligned(iv);
        lemma_bucket_aligned(MIN_SECS as int, iv);
    }

    /// Of two instants, one is earlier or they are the same.
    pub proof fn lemma_total(self, other: Timestamp)
        ensures
            self.before(other) || other.before(self) || self == other,
    {
        if self.unix_secs() == other.unix_secs() && self.subsec() == other.subsec() {
            self.lemma_same_instant(other);
        }
    }

    /// Two timestamps with the same second and nanosecond are the same.
    pub proof fn lemma_same_instant(self, other: Timestamp)
        requires
            self.unix_secs() == other.unix_secs(),
            self.subsec() == other.subsec(),
        ensures
            self == other,
    {
    }

    /// The instant `secs` seconds and `nanos` nanoseconds after the Unix epoch;
    /// `None` out of the supported range.
    pub fn from_unix(secs: i64, nanos: u32) -> (r: Option<Timestamp>)
        ensures
            r is Some <==> MIN_SECS <= secs <= MAX_SECS,
            r is Some ==> r->0.unix_secs() == secs && r->0.subsec() == nanos,
    {
        if MIN_SECS <= secs && secs <= MAX_SECS {
            Some(Timestamp { secs, nanos })
        } else {
            None
        }
    }

    /// Seconds from the Unix epoch.
    pub fn secs(&self) -> (r: i64)
        ensures
            r == self.unix_secs(),
            MIN_SECS <= r <= MAX_SECS,
    {
        proof {
            use_type_invariant(self);
        }
        self.secs
    }

    /// Nanoseconds past the second.
    pub fn subsec_nanos(&self) -> (r: u32)
        ensures
            r == self.subsec(),
    {
        self.nanos
    }

    /// Whether this instant is strictly earlier than `other`.
    pub fn is_before(&self, other: &Timestamp) -> (r: bool)
        ensures
            r == self.before(*other),
    {
        self.secs < other.secs || (self.secs == other.secs && self.nanos < other.nanos)
    }

    /// Whether this instant is earlier than `other` or the same.
    pub fn at_or_before(&self, other: &Timestamp) -> (r: bool)
        ensures
            r == self.not_after(*other),
    {
        self.secs < other.secs || (self.secs == other.secs && self.nanos <= other.nanos)
    }

    /// The first instant of the bucket that holds this one under `iv`.
    pub fn bucket_start(&self, iv: TimeInterval) -> (r: Timestamp)
        ensures
            r == self.bucket_of(iv),
            r.unix_secs() == bucket_secs(self.unix_secs(), iv),
            r.subsec() == 0,
    {
        proof {
            use_type_invariant(self);
        }
        let d = iv.duration_seconds();
        // MIN_SECS is a multiple of every bucket length, so the offset from it
        // has the same remainder as the instant itself.
        let offset = (self.secs - MIN_SECS) as u64;
        let rem = offset % d;
        proof {
            let k = -(MIN_SECS as int) / interval_seconds(iv);
            assert(-(MIN_SECS as int) == interval_seconds(iv) * k);
            vstd::arithmetic::div_mod::lemma_mod_multiples_vanish(
                k,
                self.secs as int,
                interval_seconds(iv),
            );
            vstd::arithmetic::div_mod::lemma_mod_multiples_vanish(
                k,
                0,
                interval_seconds(iv),
            );
            assert(rem == (self.secs as int) % interval_seconds(iv));
        }
        Timestamp { secs: self.secs - rem as i64, nanos: 0 }
    }
}

/// A bucket starts at or before each of its instants, and the next one
/// starts after them.
pub proof fn lemma_bucket_bounds(secs: int, iv: TimeInterval)
    ensures
        bucket_secs(secs, iv) <= secs < bucket_secs(secs, iv) + interval_seconds(iv),
        bucket_secs(secs, iv) == interval_seconds(iv) * (secs / interval_seconds(iv)),
{
    let d = interval_seconds(iv);
    vstd::arithmetic::div_mod::lemma_mod_bound(secs, d);
    vstd::arithmetic::div_mod::lemma_fundamental_div_mod(secs, d);
}

/// The earliest supported instant starts a bucket of every granularity.
pub proof fn lemma_min_secs_aligned(iv: TimeInterval)
    ensures
        (MIN_SECS as int) % interval_seconds(iv) == 0,
{
    match iv {
        TimeInterval::Second1 => assert((MIN_SECS as int) % 1 == 0),
        TimeInterval::Minute1 => assert((MIN_SECS as int) % 60 == 0),
        TimeInterval::Minute5 => assert((MIN_SECS as int) % 300 == 0),
        TimeInterval::Minute15 => assert((MIN_SECS as int) % 900 == 0),
        TimeInterval::Hour1 => assert((MIN_SECS as int) % 3600 == 0),
    }
}

/// A multiple of the bucket length is its own bucket start.
pub proof fn lemma_bucket_aligned(secs: int, iv: TimeInterval)
    requires
        secs % interval_seconds(iv) == 0,
    ensures
        bucket_secs(secs, iv) == secs,
{
}

/// Aligning is idempotent: an instant already at a bucket start is left
/// where it is, so aligning twice gives what aligning once gives.
pub proof fn lemma_bucket_idempotent(secs: int, iv: TimeInterval)
    ensures
        bucket_secs(bucket_secs(secs, iv), iv) == bucket_secs(secs, iv),
{
    let d = interval_seconds(iv);
    lemma_bucket_bounds(secs, iv);
    vstd::arithmetic::div_mod::lemma_mod_multiples_basic(secs / d, d);
    assert((secs / d) * d == d * (secs / d)) by (nonlinear_arith);
}

/// Aligning is monotonic: a later instant never falls in an earlier bucket.
pub proof fn lemma_bucket_monotonic(s1: int, s2: int, iv: TimeInterval)
    requires
        s1 <= s2,
    ensures
        bucket_secs(s1, iv) <= bucket_secs(s2, iv),
{
    let d = interval_seconds(iv);
    lemma_bucket_bounds(s1, iv);
    lemma_bucket_bounds(s2, iv);
    vstd::arithmetic::div_mod::lemma_div_is_ordered(s1, s2, d);
    vstd::arithmetic::mul::lemma_mul_inequality(s1 / d, s2 / d, d);
    assert((s1 / d) * d == d * (s1 / d)) by (nonlinear_arith);
    assert((s2 / d) * d == d * (s2 / d)) by (nonlinear_arith);
}

} // verus!
