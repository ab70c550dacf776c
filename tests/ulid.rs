use std::str::FromStr;

use utrakr::ulid::{decode, encode, DecodeError, MonotonicError, Ulid, UlidGenerator};

#[test]
fn ulid_test_smoke() {
    let ulid = UlidGenerator::new().generate().unwrap();
    assert_eq!(ulid, Ulid::from_str(&ulid.to_string()).unwrap());
}

#[test]
fn encode_exact_values() {
    assert_eq!(encode(0), "00000000000000000000000000");
    assert_eq!(encode(u128::MAX), "7ZZZZZZZZZZZZZZZZZZZZZZZZZ");
    assert_eq!(encode(31), "0000000000000000000000000Z");
    assert_eq!(encode(32), "00000000000000000000000010");
    assert_eq!(encode(1 << 80), "00000000010000000000000000");
}

#[test]
fn decode_encode_round_trip() {
    let values: [u128; 6] = [
        0,
        1,
        u128::MAX,
        1 << 80,
        0x0123_4567_89ab_cdef_fedc_ba98_7654_3210,
        (1 << 127) + 12345,
    ];
    for v in values.iter() {
        let text = encode(*v);
        assert_eq!(text.len(), 26);
        assert_eq!(decode(&text), Ok(*v));
    }
}

#[test]
fn decode_accepts_lower_case() {
    assert_eq!(decode("0000000000000000000000000z"), Ok(31));
    assert_eq!(decode("7zzzzzzzzzzzzzzzzzzzzzzzzz"), Ok(u128::MAX));
    assert_eq!(decode("0000000000000000000000000a"), Ok(10));
}

#[test]
fn decode_invalid_length() {
    assert_eq!(decode(""), Err(DecodeError::InvalidLength));
    assert_eq!(decode("0000000000000000000000000"), Err(DecodeError::InvalidLength));
    assert_eq!(decode("000000000000000000000000000"), Err(DecodeError::InvalidLength));
}

#[test]
fn decode_invalid_char() {
    assert_eq!(decode("0000000000000000000000000U"), Err(DecodeError::InvalidChar));
    assert_eq!(decode("I0000000000000000000000000"), Err(DecodeError::InvalidChar));
    assert_eq!(decode("000000000000l0000000000000"), Err(DecodeError::InvalidChar));
    assert_eq!(decode("0000000000000-000000000000"), Err(DecodeError::InvalidChar));
    assert_eq!(DecodeError::InvalidChar.message(), "invalid character");
    assert_eq!(DecodeError::InvalidLength.message(), "invalid length");
}

#[test]
fn decode_wraps_values_above_128_bits() {
    assert_eq!(decode("80000000000000000000000000"), Ok(0));
}

#[test]
fn fields_of_identifier() {
    let u = Ulid::from_datetime_with_source(1_590_000_000_123, 0xabcd, 42);
    assert_eq!(u.timestamp_millis(), 1_590_000_000_123);
    let expected: u128 = (1_590_000_000_123u128 << 80) | (0xabcd_u128 << 64) | 42;
    assert_eq!(u, Ulid::from_u128(expected));
    assert_eq!(Ulid::from(expected), u);
    assert_eq!(Ulid::from_string(&u.to_string()), Ok(u));
}

#[test]
fn millis_keeps_low_48_bits() {
    let u = Ulid::from_datetime_with_source((1i64 << 48) + 7, 0, 0);
    assert_eq!(u.timestamp_millis(), 7);
}

#[test]
fn same_millisecond_increments() {
    let mut g = UlidGenerator::new();
    let first = g.generate_from_datetime_with_source(1000, 0, 5).unwrap();
    let second = g.generate_from_datetime_with_source(1000, 77, 77).unwrap();
    assert_eq!(second, Ulid::from_u128(first.as_u128() + 1));
}

#[test]
fn earlier_clock_increments() {
    let mut g = UlidGenerator::new();
    let first = g.generate_from_datetime_with_source(2000, 1, 1).unwrap();
    let second = g.generate_from_datetime_with_source(1500, 9, 9).unwrap();
    assert_eq!(second.timestamp_millis(), 2000);
    assert!(first < second);
}

#[test]
fn overflow_when_random_field_full() {
    let mut g = UlidGenerator::new();
    let first = g.generate_from_datetime_with_source(1000, u16::MAX, u64::MAX).unwrap();
    assert_eq!(first.timestamp_millis(), 1000);
    assert_eq!(
        g.generate_from_datetime_with_source(1000, 0, 0),
        Err(MonotonicError::Overflow)
    );
    // the state is unchanged: a later millisecond works again
    let next = g.generate_from_datetime_with_source(1001, 0, 0).unwrap();
    assert_eq!(next, Ulid::from_datetime_with_source(1001, 0, 0));
    assert_eq!(
        MonotonicError::Overflow.message(),
        "Ulid random bits would overflow"
    );
}

#[test]
fn increasing_for_non_decreasing_times() {
    let mut g = UlidGenerator::new();
    let times: [i64; 8] = [5, 5, 6, 6, 6, 100, 100, 1_600_000_000_000];
    let mut prev: Option<Ulid> = None;
    for t in times.iter() {
        let u = g.generate_from_datetime(*t).unwrap();
        if let Some(p) = prev {
            assert!(p < u);
            assert!(p.to_string() < u.to_string());
        }
        prev = Some(u);
    }
}

#[test]
fn generate_uses_current_time() {
    let mut g = UlidGenerator::new();
    let u = g.generate().unwrap();
    let now = chrono::Utc::now().timestamp_millis();
    let t = u.timestamp_millis();
    assert!(t <= now && now - t < 60_000);
}
