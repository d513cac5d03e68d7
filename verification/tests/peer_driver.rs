use gattify::command::Reply;
use gattify::model::{CharacteristicInstance, CharacteristicProperties, ServiceInstance};
use gattify::peer::driver::{
    check_version, closed_delivery, control_frame, frame_size, on_peer_frame, peer_characteristics,
    peer_label, peer_owner, server_definition, unexpected, CloseReason, FrameEffect, PeerEvent,
    INFO_CHARACTERISTIC_UUID, RX_CHARACTERISTIC_UUID, TX_CHARACTERISTIC_UUID,
};
use gattify::peer::frame::{fragment, Frame, FrameKind};
use gattify::peer::receiver::Receiver;
use gattify::peer::sender::Sender;
use gattify::{CharacteristicHandle, DeliveryOutcome, ErrorCode, PeerId, ServiceHandle};

const SERVICE: &str = "80ff87c3-8e84-4914-aedc-0d6a3ba5534d";

fn characteristic(handle: &str, uuid: &str) -> CharacteristicInstance {
    CharacteristicInstance {
        handle: CharacteristicHandle::new(handle),
        uuid: uuid.into(),
        properties: CharacteristicProperties::default(),
    }
}

#[test]
fn peer_owners_carry_the_webview_label() {
    let owner = peer_owner("main");
    assert_eq!(owner.as_str(), "gattify-peer:main");
    assert_eq!(peer_label(&owner), Some("main"));
    assert_eq!(peer_label(&gattify::OwnerId::new("webview:main")), None);
}

#[test]
fn frames_use_the_reported_length_up_to_one_attribute() {
    assert_eq!(frame_size(None), 20);
    assert_eq!(frame_size(Some(182)), 182);
    assert_eq!(frame_size(Some(600)), 512);
}

#[test]
fn control_frames_are_header_only() {
    let hello = control_frame(FrameKind::Hello);
    let frame = Frame::decode(&hello, 16).unwrap();
    assert_eq!(frame.kind, FrameKind::Hello);
    assert!(frame.payload.is_empty());
    assert_eq!(control_frame(FrameKind::Close)[1], 0x05);
}

#[test]
fn the_host_must_speak_version_one() {
    assert!(check_version("AQ==").is_ok());
    let error = check_version("Ag==").unwrap_err();
    assert_eq!(error.code, ErrorCode::ProtocolMismatch);
    assert_eq!(error.message, "the host speaks protocol version [2], not 1");
    assert_eq!(
        check_version("not base64").unwrap_err().code,
        ErrorCode::ProtocolMismatch
    );
}

#[test]
fn the_host_definition_holds_info_rx_and_tx() {
    let definition = server_definition(SERVICE);
    let service = &definition.services[0];
    assert_eq!(service.uuid, SERVICE);
    let uuids: Vec<&str> = service
        .characteristics
        .iter()
        .map(|c| c.uuid.as_str())
        .collect();
    assert_eq!(
        uuids,
        [INFO_CHARACTERISTIC_UUID, RX_CHARACTERISTIC_UUID, TX_CHARACTERISTIC_UUID]
    );
    assert_eq!(service.characteristics[0].initial_value_base64.as_deref(), Some("AQ=="));
    assert!(gattify::model::validate_server_definition(&definition).is_ok());
}

#[test]
fn the_peer_characteristics_are_found_by_uuid() {
    let services = vec![ServiceInstance {
        handle: ServiceHandle::new("connection-1/service-1"),
        uuid: SERVICE.into(),
        characteristics: vec![
            characteristic("c/tx", TX_CHARACTERISTIC_UUID),
            characteristic("c/info", INFO_CHARACTERISTIC_UUID),
            characteristic("c/rx", RX_CHARACTERISTIC_UUID),
        ],
    }];
    let [info, rx, tx] = peer_characteristics(&services, SERVICE).unwrap();
    assert_eq!(info.as_str(), "c/info");
    assert_eq!(rx.as_str(), "c/rx");
    assert_eq!(tx.as_str(), "c/tx");
    assert_eq!(
        peer_characteristics(&services, "0000180d-0000-1000-8000-00805f9b34fb")
            .unwrap_err()
            .code,
        ErrorCode::ProtocolMismatch
    );
}

#[test]
fn a_data_frame_is_delivered_and_acknowledged() {
    let mut receiver = Receiver::default();
    let mut sender = Sender::default();
    let frames = fragment(FrameKind::Data, 4, b"hi", 20, 16 * 1024).unwrap();
    let effect = on_peer_frame(FrameKind::Data, 4, &frames[0], 0, &mut receiver, &mut sender);
    let FrameEffect::Deliver { payload, ack } = effect else {
        panic!("expected a delivery")
    };
    assert_eq!(payload, b"hi");
    assert_eq!(Frame::decode(&ack, 16).unwrap().kind, FrameKind::Ack);
    assert!(receiver.pop_message().is_none());
    let again = on_peer_frame(FrameKind::Data, 4, &frames[0], 1, &mut receiver, &mut sender);
    assert!(matches!(again, FrameEffect::Reack { .. }));
}

#[test]
fn an_ack_settles_the_message_in_flight() {
    let mut receiver = Receiver::default();
    let mut sender = Sender::default();
    let id = sender.enqueue(vec![1]).unwrap();
    sender.poll(0).unwrap();
    let effect = on_peer_frame(FrameKind::Ack, id, &[], 0, &mut receiver, &mut sender);
    assert_eq!(effect, FrameEffect::Acknowledged { message_id: id });
    assert_eq!(sender.in_flight(), None);
    let close = on_peer_frame(FrameKind::Close, 0, &[], 0, &mut receiver, &mut sender);
    assert_eq!(close, FrameEffect::Closed);
}

#[test]
fn a_closing_peer_reports_what_may_have_arrived() {
    assert_eq!(closed_delivery(Some(3), 3), DeliveryOutcome::Unknown);
    assert_eq!(closed_delivery(Some(3), 4), DeliveryOutcome::NotSubmitted);
    assert_eq!(closed_delivery(None, 4), DeliveryOutcome::NotSubmitted);
}

#[test]
fn peer_events_have_kebab_case_names() {
    let peer_id = PeerId::new("peer-1");
    assert_eq!(
        PeerEvent::Closed { peer_id: peer_id.clone(), reason: CloseReason::Lost }.name(),
        "peer-closed"
    );
    assert_eq!(PeerEvent::Message { peer_id, bytes: Vec::new() }.name(), "peer-message");
}

#[test]
fn an_unexpected_reply_is_internal() {
    let error = unexpected(&Reply::Empty);
    assert_eq!(error.code, ErrorCode::Internal);
    assert!(error
        .message
        .starts_with("the backend answered with an unexpected reply: "));
    assert!(error.message.ends_with("Empty"));
}

#[test]
fn a_message_event_carries_its_bytes_in_base64() {
    let message = PeerEvent::Message {
        peer_id: PeerId::new("peer-1"),
        bytes: b"hello".to_vec(),
    };
    assert_eq!(message.value_base64(), Some("aGVsbG8=".to_owned()));
    let closed = PeerEvent::Closed {
        peer_id: PeerId::new("peer-1"),
        reason: CloseReason::Lost,
    };
    assert_eq!(closed.value_base64(), None);
}
