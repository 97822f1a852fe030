//! `jiff` interop for the well-known `google.protobuf.Duration` and
//! `google.protobuf.Timestamp` messages.
//!
//! A proto `Duration` maps to `jiff::SignedDuration`, whose sign-consistent
//! seconds plus sub-second nanoseconds match proto's exactly; a proto
//! `Timestamp` maps to `jiff::Timestamp`, re-normalising the sub-second part,
//! which jiff keeps sign-consistent and proto keeps in `[0, 999_999_999]`.

use vstd::prelude::*;
use vstd::std_specs::convert::{FromSpecImpl, TryFromSpecImpl};

verus! {

/// The largest valid `nanos` of a proto `Timestamp`.
pub const NANOS_MAX: i32 = 999_999_999;

/// Earliest second of a `jiff::Timestamp`.
pub const JIFF_MIN_SECOND: i64 = -377_705_023_201;

/// Latest second of a `jiff::Timestamp`.
pub const JIFF_MAX_SECOND: i64 = 253_402_207_200;

/// `google.protobuf.Duration`: a signed span of `seconds` plus `nanos`.
#[derive(Clone, Copy, Debug, PartialEq, Eq, Structural, Default)]
pub struct Duration {
    pub seconds: i64,
    pub nanos: i32,
}

/// `google.protobuf.Timestamp`: `seconds` since the Unix epoch plus `nanos`.
#[derive(Clone, Copy, Debug, PartialEq, Eq, Structural, Default)]
pub struct ProtoTimestamp {
    pub seconds: i64,
    pub nanos: i32,
}

/// Errors converting a proto `Duration` to a `jiff::SignedDuration`.
#[derive(Debug, Clone, Copy, PartialEq, Eq, Structural)]
#[non_exhaustive]
pub enum DurationJiffError {
    /// The `nanos` field is outside `[-999_999_999, 999_999_999]` or its sign
    /// is inconsistent with `seconds`.
    InvalidNanos,
}

/// Errors converting a proto `Timestamp` to a `jiff::Timestamp`.
#[derive(Debug, Clone, Copy, PartialEq, Eq, Structural)]
pub enum TimestampError {
    /// `nanos` is outside `[0, 999_999_999]`.
    InvalidNanos,
    /// The instant is outside the target's representable range.
    Overflow,
}

#[verifier::external_type_specification]
#[verifier::external_body]
pub struct ExSignedDuration(jiff::SignedDuration);

#[verifier::external_type_specification]
#[verifier::external_body]
pub struct ExJiffTimestamp(jiff::Timestamp);

/// Whether `(seconds, nanos)` is a valid signed duration: `|nanos|` below
/// one second and never of the opposite sign to `seconds`.
pub open spec fn sign_consistent(seconds: i64, nanos: i32) -> bool {
    &&& -999_999_999 <= nanos <= 999_999_999
    &&& !(seconds > 0 && nanos < 0)
    &&& !(seconds < 0 && nanos > 0)
}

/// The value `jiff::SignedDuration::new(secs, nanos)` returns.
pub uninterp spec fn signed_duration_of(secs: i64, nanos: i32) -> jiff::SignedDuration;

/// `jiff::SignedDuration::new`.
///
/// Trusted: jiff stores a sign-consistent pair unchanged in its
/// `(secs, nanos)` fields (it only balances an excess or a sign mismatch),
/// so no other sign-consistent pair gives the same value; it panics only
/// when `|nanos|` reaches a second and the carry overflows, which
/// `requires` rules out. The contract names the result.
#[verifier::external_body]
fn signed_duration_new(secs: i64, nanos: i32) -> (r: jiff::SignedDuration)
    requires
        -1_000_000_000 < nanos < 1_000_000_000,
    ensures
        r == signed_duration_of(secs, nanos),
        sign_consistent(secs, nanos) ==> forall|s: i64, n: i32|
            sign_consistent(s, n) && #[trigger] signed_duration_of(s, n) == r ==> s == secs && n == nanos,
{
    jiff::SignedDuration::new(secs, nanos)
}

/// `jiff::SignedDuration::as_secs`.
///
/// Trusted: jiff keeps every value as a sign-consistent `(secs, nanos)`
/// pair, and `as_secs` returns `secs`; so the result is the first part of
/// the one sign-consistent pair `new` builds the value from.
#[verifier::external_body]
fn signed_duration_secs(d: &jiff::SignedDuration) -> (r: i64)
    ensures
        exists|n: i32| sign_consistent(r, n) && *d == signed_duration_of(r, n),
        forall|s: i64, n: i32|
            sign_consistent(s, n) && *d == #[trigger] signed_duration_of(s, n) ==> r == s,
{
    d.as_secs()
}

/// `jiff::SignedDuration::subsec_nanos`.
///
/// Trusted: returns the `nanos` of the value's sign-consistent pair (jiff
/// documents the range `-999_999_999..=999_999_999` and the shared sign).
#[verifier::external_body]
fn signed_duration_nanos(d: &jiff::SignedDuration) -> (r: i32)
    ensures
        exists|s: i64| sign_consistent(s, r) && *d == signed_duration_of(s, r),
        forall|s: i64, n: i32|
            sign_consistent(s, n) && *d == #[trigger] signed_duration_of(s, n) ==> r == n,
{
    d.subsec_nanos()
}

/// A jiff duration is built from a sign-consistent pair.
pub open spec fn jiff_duration_valid(d: jiff::SignedDuration) -> bool {
    exists|p: Duration| sign_consistent(p.seconds, p.nanos) && d == signed_duration_of(p.seconds, p.nanos)
}

/// The sign-consistent seconds and nanoseconds of a jiff duration.
pub open spec fn duration_parts(d: jiff::SignedDuration) -> Duration {
    choose|p: Duration| sign_consistent(p.seconds, p.nanos) && d == signed_duration_of(p.seconds, p.nanos)
}

/// What converting a proto `Duration` to jiff gives.
pub open spec fn duration_to_jiff_spec(p: Duration) -> Result<jiff::SignedDuration, DurationJiffError> {
    if sign_consistent(p.seconds, p.nanos) {
        Ok(signed_duration_of(p.seconds, p.nanos))
    } else {
        Err(DurationJiffError::InvalidNanos)
    }
}

impl Duration {
    /// The proto form of a `jiff::SignedDuration`: a direct copy of its
    /// sign-consistent seconds and nanoseconds.
    pub fn from_jiff(d: jiff::SignedDuration) -> (r: Duration)
        ensures
            r == duration_parts(d),
            sign_consistent(r.seconds, r.nanos),
            d == signed_duration_of(r.seconds, r.nanos),
    {
        let seconds = signed_duration_secs(&d);
        let nanos = signed_duration_nanos(&d);
        proof {
            let n0 = choose|n: i32| sign_consistent(seconds, n) && d == signed_duration_of(seconds, n);
            assert(nanos == n0);
            let w = Duration { seconds, nanos };
            assert(sign_consistent(w.seconds, w.nanos) && d == signed_duration_of(w.seconds, w.nanos));
            let c = duration_parts(d);
            assert(sign_consistent(c.seconds, c.nanos) && d == signed_duration_of(c.seconds, c.nanos));
            assert(seconds == c.seconds && nanos == c.nanos);
        }
        Duration { seconds, nanos }
    }

    /// The `jiff::SignedDuration` of a proto `Duration`, or `InvalidNanos`
    /// when `nanos` is out of range or of the opposite sign to `seconds`.
    /// A successful conversion reads back as the same `Duration`.
    pub fn to_jiff(self) -> (r: Result<jiff::SignedDuration, DurationJiffError>)
        ensures
            r == duration_to_jiff_spec(self),
            r matches Ok(d) ==> duration_parts(d) == self,
    {
        if !(-999_999_999 <= self.nanos && self.nanos <= 999_999_999) {
            return Err(DurationJiffError::InvalidNanos);
        }
        let sign_mismatch = (self.seconds > 0 && self.nanos < 0) || (self.seconds < 0 && self.nanos > 0);
        if sign_mismatch {
            return Err(DurationJiffError::InvalidNanos);
        }
        let d = signed_duration_new(self.seconds, self.nanos);
        proof {
            let c = duration_parts(d);
            assert(sign_consistent(self.seconds, self.nanos) && d == signed_duration_of(self.seconds, self.nanos));
            assert(sign_consistent(c.seconds, c.nanos) && d == signed_duration_of(c.seconds, c.nanos));
            assert(c.seconds == self.seconds && c.nanos == self.nanos);
        }
        Ok(d)
    }
}

/// Every jiff duration survives a trip through a proto `Duration`: its
/// proto form converts back to it.
pub proof fn law_jiff_duration_round_trip(d: jiff::SignedDuration)
    requires
        jiff_duration_valid(d),
    ensures
        duration_to_jiff_spec(duration_parts(d)) == Ok::<jiff::SignedDuration, DurationJiffError>(d),
{
}

impl From<jiff::SignedDuration> for Duration {
    fn from(d: jiff::SignedDuration) -> (r: Duration)
        ensures
            r == duration_parts(d),
            sign_consistent(r.seconds, r.nanos),
            d == signed_duration_of(r.seconds, r.nanos),
    {
        Duration::from_jiff(d)
    }
}

impl FromSpecImpl<jiff::SignedDuration> for Duration {
    open spec fn obeys_from_spec() -> bool {
        true
    }

    open spec fn from_spec(d: jiff::SignedDuration) -> Duration {
        duration_parts(d)
    }
}

impl TryFrom<Duration> for jiff::SignedDuration {
    type Error = DurationJiffError;

    fn try_from(d: Duration) -> (r: Result<jiff::SignedDuration, DurationJiffError>)
        ensures
            r == duration_to_jiff_spec(d),
            r matches Ok(x) ==> duration_parts(x) == d,
    {
        d.to_jiff()
    }
}

impl TryFromSpecImpl<Duration> for jiff::SignedDuration {
    open spec fn obeys_try_from_spec() -> bool {
        true
    }

    open spec fn try_from_spec(d: Duration) -> Result<jiff::SignedDuration, DurationJiffError> {
        duration_to_jiff_spec(d)
    }
}

} // verus!

verus! {

/// Whether `(second, nanosecond)` is accepted by `jiff::Timestamp::new`:
/// the second within jiff's range, `|nanosecond|` below one second, and no
/// negative nanoseconds at the minimum second.
pub open spec fn jiff_timestamp_valid(second: i64, nanosecond: i32) -> bool {
    &&& JIFF_MIN_SECOND <= second <= JIFF_MAX_SECOND
    &&& -999_999_999 <= nanosecond <= 999_999_999
    &&& !(second == JIFF_MIN_SECOND && nanosecond < 0)
}

/// The sign-consistent pair jiff balances `(second, nanosecond)` into.
pub open spec fn jiff_balance(second: i64, nanosecond: i32) -> (i64, i32) {
    if nanosecond == 0 || second == 0 || (second > 0) == (nanosecond > 0) {
        (second, nanosecond)
    } else if second < 0 {
        ((second + 1) as i64, (nanosecond - 1_000_000_000) as i32)
    } else {
        ((second - 1) as i64, (nanosecond + 1_000_000_000) as i32)
    }
}

/// The `jiff::Timestamp` whose sign-consistent parts are `(second,
/// nanosecond)`.
pub uninterp spec fn jiff_timestamp_of(second: i64, nanosecond: i32) -> jiff::Timestamp;

/// `jiff::Timestamp::new`, its error reduced to `None`.
///
/// Trusted: jiff (`jiff_core::Timestamp::new`) rejects a second outside
/// `[-377_705_023_201, 253_402_207_200]`, a nanosecond outside
/// `-999_999_999..=999_999_999` and negative nanoseconds at the minimum
/// second, and otherwise stores the pair balanced to a common sign.
///
/// The balanced pair is stored verbatim in the timestamp's `(second,
/// nanosecond)` fields, so no other valid sign-consistent pair gives the
/// same timestamp.
#[verifier::external_body]
fn jiff_timestamp_new(second: i64, nanosecond: i32) -> (r: Option<jiff::Timestamp>)
    ensures
        r is Some <==> jiff_timestamp_valid(second, nanosecond),
        r matches Some(t) ==> t == jiff_timestamp_of(
            jiff_balance(second, nanosecond).0,
            jiff_balance(second, nanosecond).1,
        ),
        r matches Some(t) ==> forall|s: i64, n: i32|
            jiff_timestamp_parts(s, n) && #[trigger] jiff_timestamp_of(s, n) == t ==> s == jiff_balance(
                second,
                nanosecond,
            ).0 && n == jiff_balance(second, nanosecond).1,
{
    jiff::Timestamp::new(second, nanosecond).ok()
}

/// The pairs jiff stores: valid and sign-consistent.
pub open spec fn jiff_timestamp_parts(second: i64, nanosecond: i32) -> bool {
    jiff_timestamp_valid(second, nanosecond) && sign_consistent(second, nanosecond)
}

/// `jiff::Timestamp::as_second`.
///
/// Trusted: jiff keeps every timestamp as a valid sign-consistent pair and
/// returns its second.
#[verifier::external_body]
fn jiff_timestamp_second(t: &jiff::Timestamp) -> (r: i64)
    ensures
        exists|n: i32| jiff_timestamp_parts(r, n) && *t == jiff_timestamp_of(r, n),
        forall|s: i64, n: i32|
            jiff_timestamp_parts(s, n) && *t == #[trigger] jiff_timestamp_of(s, n) ==> r == s,
{
    t.as_second()
}

/// `jiff::Timestamp::subsec_nanosecond`.
///
/// Trusted: returns the nanosecond of the timestamp's valid sign-consistent
/// pair.
#[verifier::external_body]
fn jiff_timestamp_nanos(t: &jiff::Timestamp) -> (r: i32)
    ensures
        exists|s: i64| jiff_timestamp_parts(s, r) && *t == jiff_timestamp_of(s, r),
        forall|s: i64, n: i32|
            jiff_timestamp_parts(s, n) && *t == #[trigger] jiff_timestamp_of(s, n) ==> r == n,
{
    t.subsec_nanosecond()
}

/// The proto timestamp with the same parts as a jiff pair: nanoseconds kept
/// when non-negative, else a second borrowed.
pub open spec fn proto_parts(second: i64, nanosecond: i32) -> ProtoTimestamp {
    if nanosecond < 0 {
        ProtoTimestamp { seconds: (second - 1) as i64, nanos: (nanosecond + 1_000_000_000) as i32 }
    } else {
        ProtoTimestamp { seconds: second, nanos: nanosecond }
    }
}

/// A jiff timestamp is built from a valid sign-consistent pair.
pub open spec fn jiff_timestamp_is_valid(t: jiff::Timestamp) -> bool {
    exists|s: i64, n: i32| jiff_timestamp_parts(s, n) && t == jiff_timestamp_of(s, n)
}

/// The proto form of a jiff timestamp's parts.
pub open spec fn timestamp_parts(t: jiff::Timestamp) -> ProtoTimestamp {
    let (s, n) = choose|s: i64, n: i32| jiff_timestamp_parts(s, n) && t == jiff_timestamp_of(s, n);
    proto_parts(s, n)
}

/// What converting a proto timestamp to jiff gives.
pub open spec fn timestamp_to_jiff_spec(t: ProtoTimestamp) -> Result<jiff::Timestamp, TimestampError> {
    if t.nanos < 0 || t.nanos > NANOS_MAX {
        Err(TimestampError::InvalidNanos)
    } else if JIFF_MIN_SECOND <= t.seconds <= JIFF_MAX_SECOND {
        Ok(jiff_timestamp_of(jiff_balance(t.seconds, t.nanos).0, jiff_balance(t.seconds, t.nanos).1))
    } else {
        Err(TimestampError::Overflow)
    }
}

impl ProtoTimestamp {
    /// The proto form of a `jiff::Timestamp`: its parts, with a negative
    /// sub-second component re-normalised by borrowing a second, so `-1.5s`
    /// becomes `{ seconds: -2, nanos: 500_000_000 }`.
    pub fn from_jiff(t: jiff::Timestamp) -> (r: ProtoTimestamp)
        ensures
            r == timestamp_parts(t),
            0 <= r.nanos <= NANOS_MAX,
            exists|s: i64, n: i32|
                jiff_timestamp_parts(s, n) && t == jiff_timestamp_of(s, n) && r == proto_parts(s, n),
    {
        let seconds = jiff_timestamp_second(&t);
        let nanos = jiff_timestamp_nanos(&t);
        proof {
            let n0 = choose|n: i32| jiff_timestamp_parts(seconds, n) && t == jiff_timestamp_of(seconds, n);
            assert(nanos == n0);
            let (cs, cn) = choose|s: i64, n: i32| jiff_timestamp_parts(s, n) && t == jiff_timestamp_of(s, n);
            assert(jiff_timestamp_parts(cs, cn) && t == jiff_timestamp_of(cs, cn));
            assert(seconds == cs && nanos == cn);
        }
        if nanos < 0 {
            ProtoTimestamp { seconds: seconds - 1, nanos: nanos + 1_000_000_000 }
        } else {
            ProtoTimestamp { seconds, nanos }
        }
    }

    /// The `jiff::Timestamp` of a proto timestamp: `InvalidNanos` when
    /// `nanos` is outside `[0, 999_999_999]`, `Overflow` when the second is
    /// outside jiff's range. A successful conversion reads back as the same
    /// proto timestamp.
    pub fn to_jiff(self) -> (r: Result<jiff::Timestamp, TimestampError>)
        ensures
            r == timestamp_to_jiff_spec(self),
            r matches Ok(t) ==> timestamp_parts(t) == self,
    {
        if self.nanos < 0 || self.nanos > NANOS_MAX {
            return Err(TimestampError::InvalidNanos);
        }
        match jiff_timestamp_new(self.seconds, self.nanos) {
            Some(t) => {
                proof {
                    let b = jiff_balance(self.seconds, self.nanos);
                    assert(jiff_timestamp_parts(b.0, b.1));
                    let (cs, cn) = choose|s: i64, n: i32| jiff_timestamp_parts(s, n) && t == jiff_timestamp_of(s, n);
                    assert(jiff_timestamp_parts(cs, cn) && t == jiff_timestamp_of(cs, cn));
                    assert(cs == b.0 && cn == b.1);
                    assert(proto_parts(b.0, b.1) == self);
                }
                Ok(t)
            },
            None => Err(TimestampError::Overflow),
        }
    }
}

impl From<jiff::Timestamp> for ProtoTimestamp {
    fn from(t: jiff::Timestamp) -> (r: ProtoTimestamp)
        ensures
            r == timestamp_parts(t),
            0 <= r.nanos <= NANOS_MAX,
            exists|s: i64, n: i32|
                jiff_timestamp_parts(s, n) && t == jiff_timestamp_of(s, n) && r == proto_parts(s, n),
    {
        ProtoTimestamp::from_jiff(t)
    }
}

impl FromSpecImpl<jiff::Timestamp> for ProtoTimestamp {
    open spec fn obeys_from_spec() -> bool {
        true
    }

    open spec fn from_spec(t: jiff::Timestamp) -> ProtoTimestamp {
        timestamp_parts(t)
    }
}

impl TryFrom<ProtoTimestamp> for jiff::Timestamp {
    type Error = TimestampError;

    fn try_from(t: ProtoTimestamp) -> (r: Result<jiff::Timestamp, TimestampError>)
        ensures
            r == timestamp_to_jiff_spec(t),
            r matches Ok(x) ==> timestamp_parts(x) == t,
    {
        t.to_jiff()
    }
}

impl TryFromSpecImpl<ProtoTimestamp> for jiff::Timestamp {
    open spec fn obeys_try_from_spec() -> bool {
        true
    }

    open spec fn try_from_spec(t: ProtoTimestamp) -> Result<jiff::Timestamp, TimestampError> {
        timestamp_to_jiff_spec(t)
    }
}

/// Every jiff timestamp survives a trip through a proto `Timestamp`: its
/// proto form, nanoseconds re-normalised into `[0, 999_999_999]`, converts
/// back to it, even at the ends of jiff's range.
pub proof fn law_jiff_timestamp_round_trip(t: jiff::Timestamp)
    requires
        jiff_timestamp_is_valid(t),
    ensures
        0 <= timestamp_parts(t).nanos <= NANOS_MAX,
        timestamp_to_jiff_spec(timestamp_parts(t)) == Ok::<jiff::Timestamp, TimestampError>(t),
{
    let (s, n) = choose|s: i64, n: i32| jiff_timestamp_parts(s, n) && t == jiff_timestamp_of(s, n);
    assert(jiff_timestamp_parts(s, n) && t == jiff_timestamp_of(s, n));
    let p = proto_parts(s, n);
    assert(jiff_balance(p.seconds, p.nanos) == (s, n));
}

} // verus!
