use buffa_codegen::wkt_jiff::{
    Duration, DurationJiffError, ProtoTimestamp, TimestampError, JIFF_MAX_SECOND, JIFF_MIN_SECOND,
    NANOS_MAX,
};

#[test]
fn positive_roundtrip() {
    let sd = jiff::SignedDuration::new(300, 500_000_000);
    let proto: Duration = sd.into();
    assert_eq!(proto.seconds, 300);
    assert_eq!(proto.nanos, 500_000_000);
    let back: jiff::SignedDuration = proto.try_into().unwrap();
    assert_eq!(back, sd);
}

#[test]
fn zero_roundtrip() {
    let sd = jiff::SignedDuration::ZERO;
    let proto: Duration = sd.into();
    assert_eq!(proto.seconds, 0);
    assert_eq!(proto.nanos, 0);
    let back: jiff::SignedDuration = proto.try_into().unwrap();
    assert_eq!(back, sd);
}

#[test]
fn negative_roundtrip() {
    let sd = jiff::SignedDuration::new(-1, -500_000_000);
    let proto: Duration = sd.into();
    assert_eq!(proto.seconds, -1);
    assert_eq!(proto.nanos, -500_000_000);
    let back: jiff::SignedDuration = proto.try_into().unwrap();
    assert_eq!(back, sd);
}

#[test]
fn sub_second_negative_roundtrip() {
    let sd = jiff::SignedDuration::new(0, -500_000_000);
    let proto: Duration = sd.into();
    assert_eq!(proto.seconds, 0);
    assert_eq!(proto.nanos, -500_000_000);
    let back: jiff::SignedDuration = proto.try_into().unwrap();
    assert_eq!(back, sd);
}

#[test]
fn duration_jiff_invalid_nanos_rejected() {
    let bad = Duration {
        seconds: 1,
        nanos: 1_000_000_000,
    };
    let r: Result<jiff::SignedDuration, _> = bad.try_into();
    assert_eq!(r, Err(DurationJiffError::InvalidNanos));
}

#[test]
fn nanos_i32_min_is_invalid() {
    let bad = Duration {
        seconds: 0,
        nanos: i32::MIN,
    };
    let r: Result<jiff::SignedDuration, _> = bad.try_into();
    assert_eq!(r, Err(DurationJiffError::InvalidNanos));
}

#[test]
fn sign_mismatch_rejected() {
    let bad = Duration {
        seconds: 5,
        nanos: -1,
    };
    let r: Result<jiff::SignedDuration, _> = bad.try_into();
    assert_eq!(r, Err(DurationJiffError::InvalidNanos));

    let bad2 = Duration {
        seconds: -5,
        nanos: 1,
    };
    let r2: Result<jiff::SignedDuration, _> = bad2.try_into();
    assert_eq!(r2, Err(DurationJiffError::InvalidNanos));
}

#[test]
fn signed_duration_extremes_roundtrip() {
    for sd in [jiff::SignedDuration::MAX, jiff::SignedDuration::MIN] {
        let proto: Duration = sd.into();
        assert_eq!(proto.seconds, sd.as_secs());
        assert_eq!(proto.nanos, sd.subsec_nanos());
        let back: jiff::SignedDuration = proto.try_into().unwrap();
        assert_eq!(back, sd);
    }
}

#[test]
fn duration_default_and_zero_nanos_edges() {
    let d = Duration::default();
    assert_eq!(d.to_jiff(), Ok(jiff::SignedDuration::ZERO));
    let edge = Duration {
        seconds: -3,
        nanos: -999_999_999,
    };
    assert_eq!(edge.to_jiff(), Ok(jiff::SignedDuration::new(-3, -999_999_999)));
    let edge = Duration {
        seconds: 0,
        nanos: -1_000_000_000,
    };
    assert_eq!(edge.to_jiff(), Err(DurationJiffError::InvalidNanos));
}

#[test]
fn post_epoch_roundtrip() {
    let jt = jiff::Timestamp::new(1_700_000_000, 123_456_789).unwrap();
    let ts: ProtoTimestamp = jt.into();
    assert_eq!(ts.seconds, 1_700_000_000);
    assert_eq!(ts.nanos, 123_456_789);
    let back: jiff::Timestamp = ts.try_into().unwrap();
    assert_eq!(back, jt);
}

#[test]
fn epoch_roundtrip() {
    let jt = jiff::Timestamp::new(0, 0).unwrap();
    let ts: ProtoTimestamp = jt.into();
    assert_eq!(ts.seconds, 0);
    assert_eq!(ts.nanos, 0);
    let back: jiff::Timestamp = ts.try_into().unwrap();
    assert_eq!(back, jt);
}

#[test]
fn pre_epoch_borrows_second() {
    let jt = jiff::Timestamp::new(-2, 500_000_000).unwrap();
    assert_eq!(jt.as_second(), -1);
    assert_eq!(jt.subsec_nanosecond(), -500_000_000);
    let ts: ProtoTimestamp = jt.into();
    assert_eq!(ts.seconds, -2);
    assert_eq!(ts.nanos, 500_000_000);
    let back: jiff::Timestamp = ts.try_into().unwrap();
    assert_eq!(back, jt);
}

#[test]
fn exact_pre_epoch_second_roundtrip() {
    let jt = jiff::Timestamp::new(-2, 0).unwrap();
    let ts: ProtoTimestamp = jt.into();
    assert_eq!(ts.seconds, -2);
    assert_eq!(ts.nanos, 0);
    let back: jiff::Timestamp = ts.try_into().unwrap();
    assert_eq!(back, jt);
}

#[test]
fn nanos_upper_boundary_roundtrip() {
    let ts = ProtoTimestamp {
        seconds: 5,
        nanos: 999_999_999,
    };
    let jt: jiff::Timestamp = ts.clone().try_into().expect("upper boundary converts");
    let back: ProtoTimestamp = jt.into();
    assert_eq!(back, ts);
}

#[test]
fn timestamp_jiff_invalid_nanos_rejected() {
    let neg = ProtoTimestamp {
        seconds: 0,
        nanos: -1,
    };
    let r: Result<jiff::Timestamp, _> = neg.try_into();
    assert_eq!(r, Err(TimestampError::InvalidNanos));

    let too_big = ProtoTimestamp {
        seconds: 0,
        nanos: 1_000_000_000,
    };
    let r2: Result<jiff::Timestamp, _> = too_big.try_into();
    assert_eq!(r2, Err(TimestampError::InvalidNanos));
}

#[test]
fn out_of_range_seconds_is_overflow() {
    let huge = ProtoTimestamp {
        seconds: i64::MAX,
        nanos: 0,
    };
    let r: Result<jiff::Timestamp, _> = huge.try_into();
    assert_eq!(r, Err(TimestampError::Overflow));

    let tiny = ProtoTimestamp {
        seconds: i64::MIN,
        nanos: 0,
    };
    let r2: Result<jiff::Timestamp, _> = tiny.try_into();
    assert_eq!(r2, Err(TimestampError::Overflow));
}

#[test]
fn jiff_extremes_roundtrip() {
    for jt in [jiff::Timestamp::MIN, jiff::Timestamp::MAX] {
        let ts: ProtoTimestamp = jt.into();
        assert!(
            (0..=NANOS_MAX).contains(&ts.nanos),
            "nanos must stay within proto invariant: got {}",
            ts.nanos
        );
        let back: jiff::Timestamp = ts.try_into().expect("jiff extreme must convert back");
        assert_eq!(back, jt);
    }
}

#[test]
fn borrow_at_near_min_roundtrip() {
    let min_second = jiff::Timestamp::MIN.as_second();
    let jt = jiff::Timestamp::new(min_second + 1, -999_999_999).unwrap();
    let ts: ProtoTimestamp = jt.into();
    assert_eq!(ts.seconds, min_second);
    assert_eq!(ts.nanos, 1);
    let back: jiff::Timestamp = ts.try_into().expect("near-MIN borrow must convert back");
    assert_eq!(back, jt);
}

#[test]
fn jiff_range_constants_match_jiff() {
    assert_eq!(jiff::Timestamp::MIN.as_second(), JIFF_MIN_SECOND);
    assert_eq!(jiff::Timestamp::MAX.as_second(), JIFF_MAX_SECOND);
    let just_out = ProtoTimestamp {
        seconds: JIFF_MAX_SECOND + 1,
        nanos: 0,
    };
    assert_eq!(just_out.to_jiff(), Err(TimestampError::Overflow));
    let min_edge = ProtoTimestamp {
        seconds: JIFF_MIN_SECOND,
        nanos: 0,
    };
    assert_eq!(min_edge.to_jiff(), jiff::Timestamp::new(JIFF_MIN_SECOND, 0).map_err(|_| TimestampError::Overflow));
}
