use base64::engine::general_purpose::STANDARD;
use base64::Engine;
use gattify::command::Event;
use gattify::peer::driver::{control_frame, peer_owner, CloseReason, PeerEvent, TX_KEY, RX_KEY};
use gattify::peer::frame::{fragment, Frame, FrameKind};
use gattify::peer::sender::SendAction;
use gattify::peer::table::{DriverEffect, Link, PeerState, PumpStep};
use gattify::{
    CharacteristicHandle, ConnectionId, DeliveryOutcome, ErrorCode, PeerId, ServerId,
    SubscriptionId,
};

fn host() -> (PeerState, String) {
    let mut state = PeerState::new();
    let endpoint_id = state.allocate("endpoint");
    state.add_endpoint(&endpoint_id, "main", "80ff87c3-8e84-4914-aedc-0d6a3ba5534d", 16384, Some(ServerId::new("server-1")));
    (state, endpoint_id)
}

fn write(central: &str, frame: &[u8]) -> Event {
    Event::ServerWrite {
        server_id: ServerId::new("server-1"),
        peer_id: Some(PeerId::new(central)),
        characteristic_key: RX_KEY.to_owned(),
        value_base64: STANDARD.encode(frame),
    }
}

fn hello(state: &mut PeerState, central: &str) -> Vec<DriverEffect> {
    let mut effects = Vec::new();
    state.handle_event(&peer_owner("main"), write(central, &control_frame(FrameKind::Hello)), 0, &mut effects);
    effects
}

fn new_peer(effects: &[DriverEffect]) -> PeerId {
    effects
        .iter()
        .find_map(|effect| match effect {
            DriverEffect::Start { peer_id, .. } => Some(peer_id.clone()),
            _ => None,
        })
        .expect("a new peer")
}

#[test]
fn a_hello_makes_a_ready_host_peer() {
    let (mut state, endpoint_id) = host();
    let effects = hello(&mut state, "central-1");
    let peer_id = new_peer(&effects);
    assert_eq!(peer_id.as_str(), "peer-2");
    assert_eq!(
        effects,
        vec![
            DriverEffect::Start {
                peer_id: peer_id.clone(),
                label: "main".to_owned(),
                link: Link::Peripheral {
                    server_id: ServerId::new("server-1"),
                    central: PeerId::new("central-1"),
                },
            },
            DriverEffect::Frame { peer_id: peer_id.clone(), bytes: control_frame(FrameKind::HelloAck) },
            DriverEffect::Emit {
                label: "main".to_owned(),
                event: PeerEvent::Ready { endpoint_id, peer_id, dialed: false },
            },
        ]
    );
}

#[test]
fn a_second_hello_from_a_central_loses_its_first_peer() {
    let (mut state, _) = host();
    let first = new_peer(&hello(&mut state, "central-1"));
    let effects = hello(&mut state, "central-1");
    let second = new_peer(&effects);
    assert_ne!(first, second);
    assert!(!state.has_peer(&first));
    assert!(state.has_peer(&second));
    assert!(effects.contains(&DriverEffect::Emit {
        label: "main".to_owned(),
        event: PeerEvent::Closed { peer_id: first.clone(), reason: CloseReason::Lost },
    }));
    assert!(effects.contains(&DriverEffect::Finish { peer_id: first, send_close: false, disconnect: false }));
}

#[test]
fn events_of_other_owners_are_ignored() {
    let (mut state, _) = host();
    let mut effects = Vec::new();
    state.handle_event(
        &gattify::OwnerId::new("webview:main"),
        write("central-1", &control_frame(FrameKind::Hello)),
        0,
        &mut effects,
    );
    assert!(effects.is_empty());
}

#[test]
fn a_message_to_a_host_peer_is_delivered_and_acknowledged() {
    let (mut state, _) = host();
    let peer_id = new_peer(&hello(&mut state, "central-1"));
    let frames = fragment(FrameKind::Data, 9, b"hi", 20, 16384).unwrap();
    let mut effects = Vec::new();
    state.handle_event(&peer_owner("main"), write("central-1", &frames[0]), 1, &mut effects);
    assert_eq!(effects.len(), 2);
    let DriverEffect::Frame { bytes, .. } = &effects[0] else { panic!("expected the ACK") };
    assert_eq!(Frame::decode(bytes, 16).unwrap().kind, FrameKind::Ack);
    assert_eq!(
        effects[1],
        DriverEffect::Emit {
            label: "main".to_owned(),
            event: PeerEvent::Message { peer_id, bytes: b"hi".to_vec() },
        }
    );
}

#[test]
fn a_peer_belongs_to_its_webview() {
    let (mut state, _) = host();
    let peer_id = new_peer(&hello(&mut state, "central-1"));
    let mut effects = Vec::new();
    let error = state.enqueue("other", &peer_id, b"x".to_vec(), &mut effects).unwrap_err();
    assert_eq!(error.code, ErrorCode::InvalidHandle);
    assert_eq!(
        state.close_peer("other", &peer_id, &mut effects).unwrap_err().code,
        ErrorCode::InvalidHandle
    );
    assert!(effects.is_empty());
    assert!(state.close_peer("main", &peer_id, &mut effects).is_ok());
    assert!(effects.contains(&DriverEffect::Finish { peer_id: peer_id.clone(), send_close: true, disconnect: false }));
    assert!(!state.has_peer(&peer_id));
}

#[test]
fn a_send_goes_out_and_its_ack_settles_it() {
    let (mut state, _) = host();
    let peer_id = new_peer(&hello(&mut state, "central-1"));
    let mut effects = Vec::new();
    let message_id = state.enqueue("main", &peer_id, b"hello".to_vec(), &mut effects).unwrap();
    assert_eq!(effects, vec![DriverEffect::Wake { peer_id: peer_id.clone() }]);
    effects.clear();
    let PumpStep::Polled { action: Ok(SendAction::Submit { message_id: sent, frames, .. }), .. } =
        state.pump(&peer_id, 10, &mut effects)
    else {
        panic!("expected a submission")
    };
    assert_eq!(sent, message_id);
    assert_eq!(frames.len(), 1);
    let ack = Frame::ack(message_id).encode(16).unwrap();
    state.handle_event(&peer_owner("main"), write("central-1", &ack), 11, &mut effects);
    assert_eq!(
        effects,
        vec![
            DriverEffect::Acknowledged { peer_id: peer_id.clone(), message_id },
            DriverEffect::Wake { peer_id: peer_id.clone() },
        ]
    );
    effects.clear();
    assert_eq!(
        state.pump(&peer_id, 12, &mut effects),
        PumpStep::Polled { action: Ok(SendAction::Idle), busy: false }
    );
}

#[test]
fn an_unsubscribed_central_loses_its_peer() {
    let (mut state, _) = host();
    let peer_id = new_peer(&hello(&mut state, "central-1"));
    let mut effects = Vec::new();
    state.enqueue("main", &peer_id, b"x".to_vec(), &mut effects).unwrap();
    effects.clear();
    state.handle_event(
        &peer_owner("main"),
        Event::SubscriptionChanged {
            server_id: ServerId::new("server-1"),
            peer_id: PeerId::new("central-1"),
            characteristic_key: TX_KEY.to_owned(),
            subscribed: false,
            max_value_length: None,
        },
        5,
        &mut effects,
    );
    assert!(!state.has_peer(&peer_id));
    assert!(effects.contains(&DriverEffect::PeerClosed {
        peer_id: peer_id.clone(),
        message_id: 1,
        delivery: DeliveryOutcome::NotSubmitted,
    }));
}

#[test]
fn a_joiner_becomes_ready_on_hello_ack() {
    let (mut state, endpoint_id) = host();
    let peer_id = PeerId::new("peer-9");
    let link = Link::Central {
        connection_id: ConnectionId::new("connection-1"),
        rx: CharacteristicHandle::new("connection-1/characteristic-2"),
        subscription_id: SubscriptionId::new("subscription-1"),
    };
    let mut effects = Vec::new();
    state.add_joiner("main", &endpoint_id, &peer_id, link, 20, 16384, &mut effects).unwrap();
    assert_eq!(effects[1], DriverEffect::Hello { peer_id: peer_id.clone(), bytes: control_frame(FrameKind::Hello) });
    effects.clear();
    assert_eq!(
        state.enqueue("main", &peer_id, b"x".to_vec(), &mut effects).unwrap_err().code,
        ErrorCode::InvalidHandle
    );
    state.handle_event(
        &peer_owner("main"),
        Event::CharacteristicValue {
            subscription_id: SubscriptionId::new("subscription-1"),
            value_base64: STANDARD.encode(control_frame(FrameKind::HelloAck)),
        },
        0,
        &mut effects,
    );
    assert_eq!(
        effects,
        vec![
            DriverEffect::HelloAcked { peer_id: peer_id.clone() },
            DriverEffect::Wake { peer_id: peer_id.clone() },
            DriverEffect::Emit {
                label: "main".to_owned(),
                event: PeerEvent::Ready { endpoint_id, peer_id: peer_id.clone(), dialed: true },
            },
        ]
    );
    effects.clear();
    state.handle_event(
        &peer_owner("main"),
        Event::ConnectionClosed { connection_id: ConnectionId::new("connection-1") },
        1,
        &mut effects,
    );
    assert!(!state.has_peer(&peer_id));
    assert!(effects.contains(&DriverEffect::Emit {
        label: "main".to_owned(),
        event: PeerEvent::Closed { peer_id, reason: CloseReason::Lost },
    }));
}

#[test]
fn a_forgotten_webview_hears_nothing() {
    let (mut state, endpoint_id) = host();
    let peer_id = new_peer(&hello(&mut state, "central-1"));
    let mut effects = Vec::new();
    state.forget_label("main", &mut effects);
    assert!(!state.has_peer(&peer_id));
    assert!(effects.iter().all(|effect| !matches!(effect, DriverEffect::Emit { .. })));
    assert_eq!(
        state.dial_target("main", &endpoint_id).unwrap_err().code,
        ErrorCode::InvalidHandle
    );
}

#[test]
fn closing_an_endpoint_closes_its_peers_and_returns_its_server() {
    let (mut state, endpoint_id) = host();
    let peer_id = new_peer(&hello(&mut state, "central-1"));
    let mut effects = Vec::new();
    assert_eq!(
        state.close_endpoint("other", &endpoint_id, &mut effects).unwrap_err().code,
        ErrorCode::InvalidHandle
    );
    let server = state.close_endpoint("main", &endpoint_id, &mut effects).unwrap();
    assert_eq!(server, Some(ServerId::new("server-1")));
    assert!(!state.has_peer(&peer_id));
    assert!(effects.contains(&DriverEffect::Finish { peer_id, send_close: true, disconnect: false }));
}

#[test]
fn a_frame_command_writes_rx_or_notifies_tx() {
    let joiner = Link::Central {
        connection_id: ConnectionId::new("connection-1"),
        rx: CharacteristicHandle::new("connection-1/characteristic-2"),
        subscription_id: SubscriptionId::new("subscription-1"),
    };
    let command = joiner.frame_command(&[1, 2]);
    assert!(matches!(
        command,
        gattify::command::Command::Write { ref value_base64, write_type: gattify::model::WriteType::WithResponse, .. }
            if value_base64 == "AQI="
    ));
    let host = Link::Peripheral { server_id: ServerId::new("server-1"), central: PeerId::new("central-1") };
    assert!(matches!(
        host.frame_command(&[1, 2]),
        gattify::command::Command::Notify { ref characteristic_key, .. } if characteristic_key == TX_KEY
    ));
}

#[test]
fn an_endpoint_whose_advertisement_failed_goes_and_closes_its_server() {
    let (mut state, endpoint_id) = host();
    let close = state.abandon_endpoint(&endpoint_id, ServerId::new("server-1"));
    assert_eq!(
        close,
        gattify::command::Command::CloseServer {
            server_id: ServerId::new("server-1")
        }
    );
    assert_eq!(
        state.dial_target("main", &endpoint_id).unwrap_err().code,
        ErrorCode::InvalidHandle
    );
}
