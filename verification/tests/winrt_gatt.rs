use gattify::model::{CharacteristicProperties, LinkLimits, WriteType};
use gattify::winrt::gatt::{
    check_access, check_write_length, link_limits, notification_length, properties_from_bits,
    properties_to_bits, read_answer, subscriber_changes, uuid_from_u128, uuid_to_u128,
    value_length, write_error, Access, Mode, SubscriberChange, ATT_ATTRIBUTE_NOT_FOUND,
    ATT_INVALID_ATTRIBUTE_VALUE_LENGTH, ATT_INVALID_OFFSET, ATT_READ_NOT_PERMITTED,
    ATT_UNLIKELY_ERROR, ATT_WRITE_NOT_PERMITTED,
};
use gattify::ErrorCode;

/// Properties from letters: `r`ead, `w`rite, write `c`ommand, `n`otify, `i`ndicate.
fn properties(flags: &str) -> CharacteristicProperties {
    CharacteristicProperties {
        read: flags.contains('r'),
        write: flags.contains('w'),
        write_without_response: flags.contains('c'),
        notify: flags.contains('n'),
        indicate: flags.contains('i'),
    }
}

#[test]
fn uuids_round_trip_through_their_128_bit_value() {
    let value = uuid_to_u128("80FF87C3-8E84-4914-AEDC-0D6A3BA5534D").unwrap();
    assert_eq!(value, 0x80ff_87c3_8e84_4914_aedc_0d6a_3ba5_534d);
    assert_eq!(uuid_from_u128(value), "80ff87c3-8e84-4914-aedc-0d6a3ba5534d");
    assert_eq!(
        uuid_from_u128(uuid_to_u128("180d").unwrap()),
        "0000180d-0000-1000-8000-00805f9b34fb"
    );
    assert_eq!(uuid_to_u128("not a uuid"), None);
}

#[test]
fn link_limits_follow_the_att_mtu_and_stop_at_512() {
    assert_eq!(
        link_limits(185),
        LinkLimits {
            write_with_response: Some(182),
            write_without_response: Some(182),
            notification: Some(182),
            att_mtu: Some(185),
        }
    );
    assert_eq!(value_length(517), 512);
    assert_eq!(value_length(525), 512);
    assert_eq!(value_length(23), 20);
    assert_eq!(value_length(0), 20);
    assert_eq!(link_limits(525).att_mtu, Some(525));
    assert_eq!(notification_length(522), 512);
    assert_eq!(notification_length(20), 20);
}

#[test]
fn property_bits_map_both_ways() {
    let all = properties("rwcni");
    assert_eq!(properties_to_bits(&all), 0x3E);
    assert_eq!(properties_from_bits(0x3E), all);
    // Broadcast and extended properties have no contract field.
    assert_eq!(properties_from_bits(0x01 | 0x80 | 0x02), properties("r"));
    assert_eq!(properties_to_bits(&CharacteristicProperties::default()), 0);
}

#[test]
fn a_client_needs_the_matching_property() {
    let read_only = properties("r");
    assert!(check_access(&read_only, Access::Read).is_ok());
    let error = check_access(&read_only, Access::Write(WriteType::WithResponse)).unwrap_err();
    assert_eq!(error.code, ErrorCode::Unsupported);
    let commands = properties("c");
    assert!(check_access(&commands, Access::Write(WriteType::WithoutResponse)).is_ok());
    assert!(check_access(&commands, Access::Write(WriteType::WithResponse)).is_err());
    assert!(check_access(&read_only, Access::Subscribe).is_err());
}

#[test]
fn a_subscription_indicates_only_without_notify() {
    let both = properties("ni");
    let indicate = properties("i");
    assert_eq!(check_access(&both, Access::Subscribe).unwrap(), Some(Mode::Notify));
    assert_eq!(
        check_access(&indicate, Access::Subscribe).unwrap(),
        Some(Mode::Indicate)
    );
}

#[test]
fn write_lengths_follow_the_write_type() {
    assert!(check_write_length(512, WriteType::WithResponse, 23).is_ok());
    assert_eq!(
        check_write_length(513, WriteType::WithResponse, 517)
            .unwrap_err()
            .code,
        ErrorCode::PayloadTooLarge
    );
    assert!(check_write_length(182, WriteType::WithoutResponse, 185).is_ok());
    assert!(check_write_length(183, WriteType::WithoutResponse, 185).is_err());
}

#[test]
fn a_read_returns_the_value_from_its_offset() {
    assert_eq!(read_answer(true, b"hello", 0), Ok(&b"hello"[..]));
    assert_eq!(read_answer(true, b"hello", 3), Ok(&b"lo"[..]));
    assert_eq!(read_answer(true, b"hello", 5), Ok(&b""[..]));
    assert_eq!(read_answer(true, b"hello", 6), Err(ATT_INVALID_OFFSET));
    assert_eq!(read_answer(false, b"hello", 0), Err(ATT_READ_NOT_PERMITTED));
}

#[test]
fn a_server_write_must_be_permitted_start_at_zero_and_fit() {
    let writable = properties("w");
    let commands = properties("c");
    let read_only = properties("r");
    assert_eq!(write_error(&writable, 4, 0, 4), None);
    assert_eq!(write_error(&commands, 4, 0, 1), None);
    assert_eq!(write_error(&read_only, 4, 0, 1), Some(ATT_WRITE_NOT_PERMITTED));
    assert_eq!(write_error(&writable, 4, 2, 1), Some(ATT_INVALID_OFFSET));
    assert_eq!(
        write_error(&writable, 4, 0, 5),
        Some(ATT_INVALID_ATTRIBUTE_VALUE_LENGTH)
    );
    assert_eq!(ATT_ATTRIBUTE_NOT_FOUND, 0x0A);
    assert_eq!(ATT_UNLIKELY_ERROR, 0x0E);
}

#[test]
fn subscriber_lists_diff_into_subscribes_resizes_and_unsubscribes() {
    let before: Vec<(String, u32)> = vec![("a".to_owned(), 20), ("b".to_owned(), 20)];
    let after: Vec<(String, u32)> = vec![("b".to_owned(), 182), ("c".to_owned(), 20)];
    assert_eq!(
        subscriber_changes(&before, &after),
        vec![
            SubscriberChange::Unsubscribed("a".into()),
            SubscriberChange::Resized("b".into(), 182),
            SubscriberChange::Subscribed("c".into(), 20),
        ]
    );
    assert!(subscriber_changes(&after, &after).is_empty());
}

#[test]
fn every_bit_pattern_of_the_five_properties_round_trips() {
    for bits in 0u32..32 {
        let value = bits << 1;
        assert_eq!(properties_to_bits(&properties_from_bits(value)), value);
    }
}

#[test]
fn uuid_text_is_lowercase_and_hyphenated() {
    assert_eq!(uuid_from_u128(0), "00000000-0000-0000-0000-000000000000");
    assert_eq!(uuid_from_u128(u128::MAX), "ffffffff-ffff-ffff-ffff-ffffffffffff");
}
