use gattify::winrt::scan::{
    device_name, discovered, parse_section, reported_rssi, Packet, ScanFilter, Section,
    Sightings, Throttle, CACHED_NAMES, RESULT_INTERVAL_MS, SIGHTING_LIFETIME_MS,
};
use gattify::{ErrorCode, ScanId};

const PEER: &str = "80ff87c3-8e84-4914-aedc-0d6a3ba5534d";
const HEART_RATE: &str = "0000180d-0000-1000-8000-00805f9b34fb";

fn filter(uuids: &[&str]) -> ScanFilter {
    ScanFilter::parse(
        &uuids
            .iter()
            .map(|uuid| (*uuid).to_owned())
            .collect::<Vec<_>>(),
    )
    .unwrap()
}

fn uuids(values: &[&str]) -> Vec<String> {
    values.iter().map(|value| (*value).to_owned()).collect()
}

/// The little-endian bytes of the peer service UUID.
fn peer_le() -> Vec<u8> {
    0x80ff_87c3_8e84_4914_aedc_0d6a_3ba5_534d_u128
        .to_le_bytes()
        .to_vec()
}

#[test]
fn filters_are_normalized_and_an_empty_filter_matches_every_device() {
    let short = filter(&["180D"]);
    assert!(short.matches(&uuids(&[HEART_RATE])));
    assert!(!short.matches(&uuids(&[PEER])));
    assert!(filter(&[]).matches(&uuids(&[])));
    let error = ScanFilter::parse(&["nope".to_owned()]).unwrap_err();
    assert_eq!(error.code, ErrorCode::InvalidArgument);
}

#[test]
fn a_device_passes_once_per_second_per_scan() {
    let mut throttle = Throttle::default();
    let start = 1_000_000;
    assert!(throttle.allow("device-1", start));
    assert!(!throttle.allow("device-1", start + 999));
    assert!(throttle.allow("device-2", start + 10));
    assert!(throttle.allow("device-1", start + RESULT_INTERVAL_MS));
}

#[test]
fn service_data_sections_expand_their_uuids() {
    assert_eq!(
        parse_section(0x16, &[0x0D, 0x18, 0x01, 0x02]),
        Section::ServiceData(HEART_RATE.into(), vec![1, 2])
    );
    assert_eq!(
        parse_section(0x20, &[0x0D, 0x18, 0x00, 0x00]),
        Section::ServiceData(HEART_RATE.into(), Vec::new())
    );
    let mut section = peer_le();
    section.extend_from_slice(b"Host");
    assert_eq!(
        parse_section(0x21, &section),
        Section::ServiceData(PEER.into(), b"Host".to_vec())
    );
    assert_eq!(parse_section(0x21, &[1, 2, 3]), Section::Other);
    assert_eq!(parse_section(0x09, b"name"), Section::Other);
}

#[test]
fn solicitation_sections_list_their_uuids() {
    assert_eq!(
        parse_section(0x14, &[0x0D, 0x18, 0x0F, 0x18]),
        Section::Solicited(vec![
            HEART_RATE.into(),
            "0000180f-0000-1000-8000-00805f9b34fb".into()
        ])
    );
    assert_eq!(
        parse_section(0x15, &peer_le()),
        Section::Solicited(vec![PEER.into()])
    );
    assert_eq!(
        parse_section(0x1F, &[0x0D, 0x18, 0x00, 0x00]),
        Section::Solicited(vec![HEART_RATE.into()])
    );
}

#[test]
fn an_unknown_signal_strength_is_none() {
    assert_eq!(reported_rssi(127), None);
    assert_eq!(reported_rssi(-58), Some(-58));
}

fn advertisement() -> Packet {
    Packet {
        service_uuids: vec![PEER.into()],
        connectable: Some(true),
        ..Packet::default()
    }
}

fn scan_response(name_bytes: &[u8]) -> Packet {
    let mut packet = Packet {
        scan_response: true,
        ..Packet::default()
    };
    let mut section = peer_le();
    section.extend_from_slice(name_bytes);
    packet.add_section(0x21, &section);
    packet.add_section(0x09, b"ignored");
    packet
}

#[test]
fn a_filter_uuid_in_the_advertisement_still_matches_when_the_name_arrives_later() {
    let mut sightings = Sightings::default();
    let now = 5_000;
    let first = sightings.record(1, advertisement(), now);
    assert_eq!(device_name(&first, &filter(&[PEER])), None);

    let merged = sightings.record(1, scan_response(b"Host A"), now);
    assert!(filter(&[PEER]).matches(&merged.match_uuids));
    assert_eq!(merged.service_uuids, vec![PEER.to_owned()]);
    assert_eq!(merged.connectable, Some(true));
    assert_eq!(
        device_name(&merged, &filter(&[PEER])).as_deref(),
        Some("Host A")
    );
}

#[test]
fn the_name_rule_prefers_the_local_name_then_filter_service_data_then_the_cache() {
    let mut sightings = Sightings::default();
    let now = 5_000;
    sightings.record(
        1,
        Packet {
            local_name: Some("Cached".into()),
            ..advertisement()
        },
        now,
    );
    let mut named = sightings.record(1, scan_response(b"Host A"), now);
    assert_eq!(named.local_name.as_deref(), Some("Cached"));
    assert_eq!(
        device_name(&named, &filter(&[PEER])).as_deref(),
        Some("Cached")
    );

    named.local_name = None;
    assert_eq!(
        device_name(&named, &filter(&[PEER])).as_deref(),
        Some("Host A")
    );
    assert_eq!(
        device_name(&named, &filter(&[HEART_RATE])).as_deref(),
        Some("Cached")
    );
    assert_eq!(device_name(&named, &filter(&[])).as_deref(), Some("Cached"));

    let invalid = sightings.record(2, scan_response(&[0xFF, 0xFE]), now);
    assert_eq!(device_name(&invalid, &filter(&[PEER])), None);
}

#[test]
fn service_data_uuids_and_solicited_uuids_match_filters() {
    let mut sightings = Sightings::default();
    let now = 5_000;
    let data_only = sightings.record(1, scan_response(b"x"), now);
    assert!(filter(&[PEER]).matches(&data_only.match_uuids));
    assert_eq!(data_only.connectable, None);

    let mut solicited = Packet::default();
    solicited.add_section(0x14, &[0x0D, 0x18]);
    let sighting = sightings.record(2, solicited, now);
    assert!(filter(&[HEART_RATE]).matches(&sighting.match_uuids));
    assert!(sighting.service_uuids.is_empty());
}

#[test]
fn the_merge_keeps_the_advertisement_fields_first_and_adds_new_ones() {
    let mut sightings = Sightings::default();
    let now = 5_000;
    sightings.record(
        1,
        Packet {
            manufacturer_data: vec![(76, vec![1])],
            service_data: vec![(HEART_RATE.into(), vec![1])],
            ..advertisement()
        },
        now,
    );
    let merged = sightings.record(
        1,
        Packet {
            scan_response: true,
            service_uuids: vec![HEART_RATE.into(), PEER.into()],
            manufacturer_data: vec![(76, vec![2]), (6, vec![3])],
            service_data: vec![(HEART_RATE.into(), vec![2])],
            ..Packet::default()
        },
        now,
    );
    assert_eq!(merged.service_uuids, vec![PEER.to_owned(), HEART_RATE.into()]);
    assert_eq!(merged.manufacturer_data, vec![(76, vec![1]), (6, vec![3])]);
    assert_eq!(merged.service_data, vec![(HEART_RATE.to_owned(), vec![1])]);
}

#[test]
fn forgetting_packets_keeps_the_cached_name() {
    let mut sightings = Sightings::default();
    let now = 5_000;
    sightings.record(
        1,
        Packet {
            local_name: Some("Old".into()),
            ..advertisement()
        },
        now,
    );
    sightings.record(2, advertisement(), now);
    sightings.forget_packets();
    assert!(!sightings.knows(1));
    assert!(!sightings.knows(2));
    assert_eq!(sightings.cached_names(), 1);
    let later = sightings.record(1, advertisement(), now);
    assert_eq!(later.local_name, None);
    assert_eq!(
        device_name(&later, &filter(&[PEER])).as_deref(),
        Some("Old")
    );
}

#[test]
fn a_device_not_heard_for_a_minute_loses_its_packets() {
    let mut sightings = Sightings::default();
    let start = 5_000;
    sightings.record(1, advertisement(), start);
    sightings.record(2, advertisement(), start + 50_000);
    sightings.record(3, Packet::default(), start + SIGHTING_LIFETIME_MS + 1_000);
    assert!(!sightings.knows(1));
    let later = start + SIGHTING_LIFETIME_MS + 2_000;
    let returned = sightings.record(1, scan_response(b"Host A"), later);
    assert!(returned.service_uuids.is_empty());
    assert_eq!(returned.connectable, None);
    let kept = sightings.record(2, scan_response(b"Host B"), later);
    assert_eq!(kept.service_uuids, vec![PEER.to_owned()]);
}

#[test]
fn the_name_cache_keeps_the_names_heard_most_recently() {
    let mut sightings = Sightings::default();
    let start = 5_000;
    let named = |index: u64| Packet {
        local_name: Some(format!("Device {index}")),
        ..advertisement()
    };
    for index in 0..=CACHED_NAMES as u64 {
        sightings.record(index, named(index), start + index);
    }
    assert_eq!(sightings.cached_names(), CACHED_NAMES);
    let now = start + 5_000;
    assert_eq!(sightings.record(0, advertisement(), now).cached_name, None);
    assert_eq!(
        sightings
            .record(1, advertisement(), now)
            .cached_name
            .as_deref(),
        Some("Device 1")
    );
}

#[test]
fn a_result_carries_the_merged_fields_and_its_scan() {
    let mut sightings = Sightings::default();
    let now = 5_000;
    sightings.record(
        1,
        Packet {
            manufacturer_data: vec![(76, vec![1, 2])],
            ..advertisement()
        },
        now,
    );
    let sighting = sightings.record(1, scan_response(b"Host A"), now);
    let device = discovered(
        "device-3",
        &ScanId::new("scan-1"),
        &sighting,
        &filter(&[PEER]),
        Some(-58),
        1_757_664_000_000,
    );
    assert_eq!(device.id.as_str(), "device-3");
    assert_eq!(device.name.as_deref(), Some("Host A"));
    assert_eq!(device.rssi, Some(-58));
    assert_eq!(device.service_uuids, vec![PEER.to_owned()]);
    let advertisement = device.advertisement.unwrap();
    assert_eq!(advertisement.local_name, None);
    assert_eq!(advertisement.service_data.len(), 1);
    assert_eq!(advertisement.service_data[0].service_uuid, PEER);
    assert_eq!(advertisement.service_data[0].bytes_base64, "SG9zdCBB");
    assert_eq!(advertisement.manufacturer_data.len(), 1);
    assert_eq!(advertisement.manufacturer_data[0].company_id, 76);
    assert_eq!(advertisement.manufacturer_data[0].bytes_base64, "AQI=");
    assert_eq!(advertisement.connectable, Some(true));
    assert_eq!(device.observed_at_millis, 1_757_664_000_000);
    assert_eq!(device.scan_id.as_str(), "scan-1");
}

#[test]
fn the_first_valid_utf8_filter_data_names_the_device() {
    const BATTERY: &str = "0000180f-0000-1000-8000-00805f9b34fb";
    const EMPTY: &str = "00001810-0000-1000-8000-00805f9b34fb";
    let mut sightings = Sightings::default();
    let packet = Packet {
        service_data: vec![
            (PEER.into(), vec![0xFF]),
            (EMPTY.into(), Vec::new()),
            (HEART_RATE.into(), b"Heart".to_vec()),
            (BATTERY.into(), "Hôte".as_bytes().to_vec()),
        ],
        ..Packet::default()
    };
    let sighting = sightings.record(4, packet, 0);
    assert_eq!(
        device_name(&sighting, &filter(&[PEER, EMPTY, BATTERY])).as_deref(),
        Some("Hôte")
    );
    assert_eq!(
        device_name(&sighting, &filter(&[BATTERY, HEART_RATE])).as_deref(),
        Some("Heart")
    );
    assert_eq!(device_name(&sighting, &filter(&[PEER, EMPTY])), None);
}

#[test]
fn repeated_service_data_keeps_the_first_entry() {
    let mut sightings = Sightings::default();
    let packet = Packet {
        service_data: vec![(PEER.into(), vec![0xFF]), (PEER.into(), b"Late".to_vec())],
        ..Packet::default()
    };
    let sighting = sightings.record(5, packet, 0);
    assert_eq!(sighting.service_data, vec![(PEER.to_owned(), vec![0xFF])]);
    assert_eq!(device_name(&sighting, &filter(&[PEER])), None);
}

#[test]
fn a_sweep_runs_at_most_every_ten_seconds() {
    let mut sightings = Sightings::default();
    sightings.record(1, advertisement(), 0);
    sightings.record(2, advertisement(), SIGHTING_LIFETIME_MS - 5_000);
    // The last sweep ran at 55 s; the next is due ten seconds later.
    sightings.record(3, advertisement(), SIGHTING_LIFETIME_MS - 1);
    sightings.record(3, advertisement(), SIGHTING_LIFETIME_MS + 1);
    assert!(sightings.knows(1));
    sightings.record(3, advertisement(), SIGHTING_LIFETIME_MS + 10_000);
    assert!(!sightings.knows(1));
    assert!(sightings.knows(2));
}
