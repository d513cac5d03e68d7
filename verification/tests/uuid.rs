use gattify::uuid::normalize_uuid;

#[test]
fn short_uuids_expand_with_the_bluetooth_base() {
    assert_eq!(
        normalize_uuid("180D").as_deref(),
        Some("0000180d-0000-1000-8000-00805f9b34fb")
    );
    assert_eq!(
        normalize_uuid("0000180d").as_deref(),
        Some("0000180d-0000-1000-8000-00805f9b34fb")
    );
}

#[test]
fn long_uuids_are_lowercased_and_hyphenated() {
    assert_eq!(
        normalize_uuid("80FF87C38E844914AEDC0D6A3BA5534D").as_deref(),
        Some("80ff87c3-8e84-4914-aedc-0d6a3ba5534d")
    );
    assert_eq!(
        normalize_uuid("80ff87c3-8e84-4914-aedc-0d6a3ba5534d").as_deref(),
        Some("80ff87c3-8e84-4914-aedc-0d6a3ba5534d")
    );
}

#[test]
fn other_values_are_rejected() {
    assert_eq!(normalize_uuid("xyz"), None);
    assert_eq!(normalize_uuid("180"), None);
    assert_eq!(normalize_uuid(""), None);
    assert_eq!(normalize_uuid("0000180g"), None);
}

#[test]
fn a_normalized_uuid_normalizes_to_itself() {
    for value in ["180d", "0000180D", "80FF87C38E844914AEDC0D6A3BA5534D"] {
        let once = normalize_uuid(value).unwrap();
        assert_eq!(normalize_uuid(&once).as_deref(), Some(once.as_str()));
    }
}

#[test]
fn hyphens_anywhere_are_ignored_but_digits_count() {
    assert_eq!(
        normalize_uuid("-80ff87c38-e84-4914-aedc-0d6a3ba5534d-").as_deref(),
        Some("80ff87c3-8e84-4914-aedc-0d6a3ba5534d")
    );
    assert_eq!(normalize_uuid("18-0D").as_deref(), Some("0000180d-0000-1000-8000-00805f9b34fb"));
    assert_eq!(normalize_uuid("80ff87c3-8e84-4914-aedc-0d6a3ba5534d0"), None);
    assert_eq!(normalize_uuid("----"), None);
}

#[test]
fn normalizing_canonical_text_changes_nothing() {
    for value in ["180D", "0000180d", "80FF87C3-8E84-4914-AEDC-0D6A3BA5534D"] {
        let once = normalize_uuid(value).unwrap();
        assert_eq!(normalize_uuid(&once), Some(once.clone()));
    }
}
