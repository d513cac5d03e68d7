use gattify::command::Command;
use gattify::endpoints::send_payload;

use gattify::peer::driver::{check_version, server_definition};
use gattify::peer::table::Link;
use gattify::text::{push_decimal, strip_prefix};
use gattify::{CharacteristicHandle, ConnectionId, ErrorCode};

#[test]
fn base64_values_are_encoded_with_padding() {
    let definition = server_definition("80ff87c3-8e84-4914-aedc-0d6a3ba5534d");
    assert_eq!(
        definition.services[0].characteristics[0]
            .initial_value_base64
            .as_deref(),
        Some("AQ==")
    );
    let link = Link::Central {
        connection_id: ConnectionId::new("connection-1"),
        rx: CharacteristicHandle::new("connection-1/characteristic-2"),
        subscription_id: gattify::SubscriptionId::new("subscription-1"),
    };
    let Command::Write { value_base64, .. } = link.frame_command(b"Host A") else {
        panic!("expected a write")
    };
    assert_eq!(value_base64, "SG9zdCBB");
    let Command::Write { value_base64, .. } = link.frame_command(&[1, 2]) else {
        panic!("expected a write")
    };
    assert_eq!(value_base64, "AQI=");
}

#[test]
fn base64_values_are_decoded_or_refused() {
    assert_eq!(send_payload("AQI=").unwrap(), vec![1, 2]);
    assert_eq!(send_payload("SG9zdCBB").unwrap(), b"Host A".to_vec());
    assert_eq!(send_payload("AQI").unwrap_err().code, ErrorCode::InvalidArgument);
    assert_eq!(check_version("AQ=="), Ok(()));
    assert_eq!(check_version("Ag==").unwrap_err().code, ErrorCode::ProtocolMismatch);
}

#[test]
fn decimals_and_prefixes() {
    let mut out = String::from("n=");
    push_decimal(&mut out, 1_757_664_000_000);
    assert_eq!(out, "n=1757664000000");
    let mut zero = String::new();
    push_decimal(&mut zero, 0);
    assert_eq!(zero, "0");
    assert_eq!(strip_prefix("webview:main", "webview:"), Some("main"));
    assert_eq!(strip_prefix("web", "webview:"), None);
}
