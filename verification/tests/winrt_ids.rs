use std::collections::BTreeSet;

use gattify::winrt::ids::{owner_family, stale_services, HandleTable, IdAllocator, Remotes};

#[test]
fn each_prefix_counts_from_one_without_reuse() {
    let mut ids = IdAllocator::default();
    assert_eq!(ids.next("scan"), "scan-1");
    assert_eq!(ids.next("connection"), "connection-1");
    assert_eq!(ids.next("scan"), "scan-2");
}

#[test]
fn the_owner_family_follows_the_first_colon() {
    assert_eq!(owner_family("webview:main"), "main");
    assert_eq!(owner_family("gattify-peer:main"), "main");
    assert_eq!(owner_family("a:b:c"), "b:c");
    assert_eq!(owner_family("plain"), "plain");
}

#[test]
fn a_remote_keeps_its_id_and_hides_its_address() {
    let mut ids = IdAllocator::default();
    let mut devices = Remotes::new("device");
    let first = devices.id_for(&0xAABB_CCDD_EEFF_u64, &mut ids);
    let second = devices.id_for(&0x1122_3344_5566_u64, &mut ids);
    assert_eq!(first, "device-1");
    assert_eq!(second, "device-2");
    assert_eq!(devices.id_for(&0xAABB_CCDD_EEFF_u64, &mut ids), "device-1");
    assert_eq!(devices.key_of("device-2"), Some(&0x1122_3344_5566_u64));
    assert_eq!(devices.key_of("device-3"), None);
}

#[test]
fn a_device_is_usable_by_every_owner_of_the_family_that_saw_it() {
    let mut ids = IdAllocator::default();
    let mut devices = Remotes::new("device");
    let id = devices.id_for(&7_u64, &mut ids);
    assert!(!devices.seen_by_family_of(&id, "webview:main"));
    devices.mark_seen(&id, "webview:main");
    assert!(devices.seen_by_family_of(&id, "gattify-peer:main"));
    assert!(!devices.seen_by_family_of(&id, "webview:other"));
}

#[test]
fn a_second_discovery_returns_the_same_handles() {
    let mut table = HandleTable::new("connection-2");
    let service = table.service((1, "s".into()));
    let tx = table.characteristic((3, "tx".into()), "first tx");
    let rx = table.characteristic((5, "rx".into()), "first rx");
    assert_eq!(service, "connection-2/service-1");
    assert_eq!(tx, "connection-2/characteristic-1");
    assert_eq!(rx, "connection-2/characteristic-2");

    table.forget_attributes();
    assert_eq!(table.get(&tx), None);
    assert_eq!(table.characteristic((5, "rx".into()), "second rx"), rx);
    assert_eq!(table.service((1, "s".into())), service);
    assert_eq!(table.get(&rx), Some(&"second rx"));
    assert_eq!(table.get(&tx), None);
    assert_eq!(
        table.characteristic((9, "new".into()), "new"),
        "connection-2/characteristic-3"
    );
}

#[test]
fn services_of_older_discoveries_close_unless_a_subscription_uses_them() {
    let mut services = vec![(1, "old a"), (1, "old b"), (2, "used"), (3, "latest")];
    let in_use: BTreeSet<u64> = [2].into_iter().collect();
    assert_eq!(stale_services(&mut services, 3, &in_use), vec!["old a", "old b"]);
    assert_eq!(services, vec![(2, "used"), (3, "latest")]);
    assert!(stale_services(&mut services, 3, &in_use).is_empty());
    assert_eq!(stale_services(&mut services, 3, &BTreeSet::new()), vec!["used"]);
}

#[test]
fn string_keys_get_their_own_ids_per_prefix() {
    let mut ids = IdAllocator::default();
    let mut peers: Remotes<String> = Remotes::new("peer");
    let a = peers.id_for(&"central-a".to_owned(), &mut ids);
    let b = peers.id_for(&"central-b".to_owned(), &mut ids);
    assert_eq!(a, "peer-1");
    assert_eq!(b, "peer-2");
    assert_eq!(peers.id_for(&"central-a".to_owned(), &mut ids), "peer-1");
    assert_eq!(peers.key_of("peer-2"), Some(&"central-b".to_owned()));
    assert_eq!(ids.next("device"), "device-1");
}

#[test]
fn an_unknown_handle_has_no_attribute() {
    let mut table: HandleTable<u8> = HandleTable::new("connection-1");
    assert_eq!(table.get("connection-1/characteristic-1"), None);
    let handle = table.characteristic((1, "x".into()), 7);
    assert_eq!(table.get(&handle), Some(&7));
    assert_eq!(table.get("connection-9/characteristic-1"), None);
}
