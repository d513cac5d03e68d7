use gattify::events::{event_name, route, webview_owner, Route};
use gattify::OwnerId;

#[test]
fn owners_route_to_the_driver_or_their_webview() {
    assert_eq!(
        route(&OwnerId::new("gattify-peer:main")),
        Route::Peer("main")
    );
    assert_eq!(route(&OwnerId::new("webview:main")), Route::Webview("main"));
    assert_eq!(route(&OwnerId::new("somebody")), Route::Drop);
}

#[test]
fn event_kinds_become_kebab_case_names() {
    assert_eq!(event_name("scanResult"), "gattify://scan-result");
    assert_eq!(
        event_name("characteristicValue"),
        "gattify://characteristic-value"
    );
    assert_eq!(event_name("peer-ready"), "gattify://peer-ready");
}

#[test]
fn a_webview_owner_routes_back_to_its_label() {
    let owner = webview_owner("settings");
    assert_eq!(owner.as_str(), "webview:settings");
    assert_eq!(route(&owner), Route::Webview("settings"));
}

#[test]
fn a_kind_without_capitals_keeps_its_letters() {
    assert_eq!(event_name(""), "gattify://");
    assert_eq!(event_name("adapterStateChanged"), "gattify://adapter-state-changed");
}
