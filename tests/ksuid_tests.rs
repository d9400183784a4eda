use ::ksuid::ksuid::{self, DecodeError, Ksuid};
use rand::distributions::Standard;
use rand::{Rng, SeedableRng};

#[test]
fn test_new_with_timestamp() {
    let ksuid = ksuid::new(Some(85), None);
    assert_eq!(ksuid.timestamp, 85);
}

#[test]
fn test_new_with_payload() {
    let payload: u128 = rand::rngs::StdRng::from_entropy().sample(Standard);
    let ksuid = ksuid::new(None, Some(payload));
    assert_eq!(payload, ksuid.payload);
}

#[test]
fn test_new_with_payload_and_timestamp() {
    let payload: u128 = rand::rngs::StdRng::from_entropy().sample(Standard);
    let epoch_base = ksuid::gen_epoch();
    let timestamp = (chrono::Utc::now().timestamp() - epoch_base) as u32;
    let ksuid = ksuid::new(Some(timestamp), Some(payload));
    assert_eq!(ksuid.payload, payload);
    assert_eq!(ksuid.timestamp, timestamp);
}

#[test]
fn test_serialize_with_random_data_returns_right_length() {
    let ksuid = ksuid::new(None, None);
    let serialized = ksuid.serialize();
    println!("Got ksuid: {:?} which serialized to: {:?}", ksuid, serialized);
    assert_eq!(serialized.char_indices().count(), 27);
}

#[test]
fn test_serialize_deserialize() {
    let ksuid = ksuid::new(None, None);
    let serialized = ksuid.serialize();
    let ksuid2 = ksuid::deserialize(&serialized).unwrap();
    assert_eq!(ksuid, ksuid2);
}

#[test]
fn concrete_example_serializes_and_reads_back() {
    let k = ksuid::new(Some(85), Some(0));
    let s = k.serialize();
    assert_eq!(s, "0000AgGX2BQHVgGSHQN31YwWnGy");
    let back = ksuid::deserialize(&s).unwrap();
    assert_eq!(back.timestamp, 85);
    assert_eq!(back.payload, 0);
}

#[test]
fn zero_identifier_is_all_zeros() {
    let k = Ksuid { timestamp: 0, payload: 0 };
    assert_eq!(k.serialize(), "000000000000000000000000000");
    assert_eq!(ksuid::deserialize("000000000000000000000000000"), Ok(k));
}

#[test]
fn smallest_nonzero_payload() {
    let k = Ksuid { timestamp: 0, payload: 1 };
    assert_eq!(k.serialize(), "000000000000000000000000001");
    let k = Ksuid { timestamp: 1, payload: 0 };
    assert_eq!(k.serialize(), "000007n42DGM5Tflk9n8mt7Fhc8");
}

#[test]
fn largest_identifier_round_trips() {
    let k = Ksuid { timestamp: u32::MAX, payload: u128::MAX };
    let s = k.serialize();
    assert_eq!(s, "aWgEPTl1tmebfsQzFP4bxwgy80V");
    assert_eq!(ksuid::deserialize(&s), Ok(k));
}

#[test]
fn realistic_identifier_round_trips() {
    let k = Ksuid { timestamp: 300_000_000, payload: 12345 };
    let s = k.serialize();
    assert_eq!(s, "2YBXZHqCHEdmhp5sdLmoTEW76aX");
    assert_eq!(ksuid::deserialize(&s), Ok(k));
}

#[test]
fn one_past_largest_overflows() {
    assert_eq!(ksuid::deserialize("aWgEPTl1tmebfsQzFP4bxwgy80W"), Err(DecodeError::Overflow));
    assert_eq!(ksuid::deserialize("zzzzzzzzzzzzzzzzzzzzzzzzzzz"), Err(DecodeError::Overflow));
}

#[test]
fn foreign_character_is_refused() {
    let mut s = ksuid::new(None, None).serialize();
    s.replace_range(5..6, "!");
    assert_eq!(s.chars().count(), 27);
    assert_eq!(ksuid::deserialize(&s), Err(DecodeError::InvalidCharacter));
    assert_eq!(ksuid::deserialize("0000AgGX2BQHVgGSHQN31YwWnG\u{130}"), Err(DecodeError::InvalidCharacter));
    assert_eq!(ksuid::deserialize("0000AgGX2BQHVgGSHQN31YwWnG "), Err(DecodeError::InvalidCharacter));
}

#[test]
fn wrong_length_is_refused() {
    assert_eq!(ksuid::deserialize(""), Err(DecodeError::InvalidLength));
    assert_eq!(ksuid::deserialize("AgGX2BQHVgGSHQN31YwWnGy"), Err(DecodeError::InvalidLength));
    assert_eq!(ksuid::deserialize("00000AgGX2BQHVgGSHQN31YwWnGy"), Err(DecodeError::InvalidLength));
}

#[test]
fn text_order_follows_field_order() {
    let ids = [
        Ksuid { timestamp: 0, payload: 0 },
        Ksuid { timestamp: 0, payload: 61 },
        Ksuid { timestamp: 0, payload: 62 },
        Ksuid { timestamp: 0, payload: u128::MAX },
        Ksuid { timestamp: 1, payload: 0 },
        Ksuid { timestamp: 85, payload: 7 },
        Ksuid { timestamp: u32::MAX, payload: u128::MAX },
    ];
    for a in ids.iter() {
        for b in ids.iter() {
            assert_eq!(a < b, a.serialize() < b.serialize());
        }
    }
}

#[test]
fn timestamp_counts_from_custom_epoch() {
    assert_eq!(ksuid::gen_epoch(), 1_400_000_000);
    assert_eq!(ksuid::to_std_epoch(0), 1_400_000_000);
    assert_eq!(ksuid::to_std_epoch(85), 1_400_000_085);
    assert_eq!(ksuid::timestamp_from_unix(1_400_000_000), 0);
    assert_eq!(ksuid::timestamp_from_unix(1_400_000_085), 85);
    assert_eq!(ksuid::timestamp_from_unix(1_700_000_000), 300_000_000);
}

#[test]
fn clock_before_epoch_clamps_to_zero() {
    assert_eq!(ksuid::timestamp_from_unix(0), 0);
    assert_eq!(ksuid::timestamp_from_unix(1_399_999_999), 0);
    assert_eq!(ksuid::timestamp_from_unix(i64::MIN), 0);
}

#[test]
fn clock_past_span_wraps() {
    assert_eq!(ksuid::timestamp_from_unix(1_400_000_000 + (1i64 << 32)), 0);
    assert_eq!(ksuid::timestamp_from_unix(1_400_000_000 + (1i64 << 32) - 1), u32::MAX);
}

#[test]
fn seconds_apart_give_distinct_timestamps() {
    let first = ksuid::timestamp_from_unix(1_700_000_000);
    let second = ksuid::timestamp_from_unix(1_700_000_002);
    assert_ne!(first, second);
}

#[test]
fn fresh_identifier_has_recent_timestamp() {
    let before = ksuid::timestamp_from_unix(chrono::Utc::now().timestamp());
    let k = ksuid::new(None, Some(9));
    let after = ksuid::timestamp_from_unix(chrono::Utc::now().timestamp());
    assert!(before <= k.timestamp && k.timestamp <= after);
    assert!(k.timestamp > 300_000_000);
    assert_eq!(k.payload, 9);
}

#[test]
fn fresh_payloads_differ() {
    let a = ksuid::new(Some(1), None);
    let b = ksuid::new(Some(1), None);
    assert_ne!(a.payload, b.payload);
}
