use gattify::command::{Command, Reply};
use gattify::model::{
    AdvertisingOptions, CharacteristicInstance, CharacteristicProperties, ConnectOptions,
    LinkLimits, ServiceInstance,
};
use gattify::peer::dial::{
    created_server, dial_next, dial_start, endpoint_advertisement, hello_result, send_result,
    DialStage, DialStep, HelloWait, SendWait,
};
use gattify::peer::driver::{
    peer_closed, SendReceipt, INFO_CHARACTERISTIC_UUID, RX_CHARACTERISTIC_UUID,
    TX_CHARACTERISTIC_UUID,
};
use gattify::peer::table::{Link, PeerState};
use gattify::{
    BleError, CharacteristicHandle, ConnectionId, DeliveryOutcome, DeviceId, ErrorCode, PeerId,
    ServerId, ServiceHandle, SubscriptionId,
};

const SERVICE: &str = "80ff87c3-8e84-4914-aedc-0d6a3ba5534d";

fn characteristic(handle: &str, uuid: &str) -> CharacteristicInstance {
    CharacteristicInstance {
        handle: CharacteristicHandle::new(handle),
        uuid: uuid.into(),
        properties: CharacteristicProperties::default(),
    }
}

fn peer_service() -> ServiceInstance {
    ServiceInstance {
        handle: ServiceHandle::new("connection-1/service-1"),
        uuid: "80FF87C3-8E84-4914-AEDC-0D6A3BA5534D".into(),
        characteristics: vec![
            characteristic("connection-1/characteristic-1", INFO_CHARACTERISTIC_UUID),
            characteristic("connection-1/characteristic-2", RX_CHARACTERISTIC_UUID),
            characteristic("connection-1/characteristic-3", TX_CHARACTERISTIC_UUID),
        ],
    }
}

fn run(step: DialStep) -> (Command, DialStage) {
    match step {
        DialStep::Run { command, next } => (command, next),
        DialStep::Join { .. } => panic!("expected a command"),
    }
}

#[test]
fn a_dial_connects_discovers_reads_the_version_subscribes_and_joins() {
    let (command, stage) = dial_start(DeviceId::new("device-1"));
    assert_eq!(
        command,
        Command::Connect {
            device_id: DeviceId::new("device-1"),
            options: ConnectOptions { timeout_ms: None },
        }
    );
    let connected = Reply::Connected {
        connection_id: ConnectionId::new("connection-1"),
        limits: LinkLimits {
            write_with_response: Some(182),
            write_without_response: None,
            notification: None,
            att_mtu: Some(185),
        },
    };
    let step = dial_next(stage, connected, SERVICE).unwrap();
    assert_eq!(step.connection(), Some(ConnectionId::new("connection-1")));
    let (command, stage) = run(step);
    assert_eq!(
        command,
        Command::DiscoverServices {
            connection_id: ConnectionId::new("connection-1")
        }
    );
    let (command, stage) =
        run(dial_next(stage, Reply::Services(vec![peer_service()]), SERVICE).unwrap());
    assert_eq!(
        command,
        Command::Read {
            connection_id: ConnectionId::new("connection-1"),
            characteristic: CharacteristicHandle::new("connection-1/characteristic-1"),
        }
    );
    let (command, stage) = run(dial_next(
        stage,
        Reply::Bytes {
            value_base64: "AQ==".into(),
        },
        SERVICE,
    )
    .unwrap());
    assert_eq!(
        command,
        Command::Subscribe {
            connection_id: ConnectionId::new("connection-1"),
            characteristic: CharacteristicHandle::new("connection-1/characteristic-3"),
        }
    );
    let step = dial_next(
        stage,
        Reply::SubscriptionStarted {
            subscription_id: SubscriptionId::new("subscription-1"),
        },
        SERVICE,
    )
    .unwrap();
    let DialStep::Join { link, value_limit } = step else {
        panic!("expected the join")
    };
    assert_eq!(value_limit, 182);
    assert_eq!(
        link,
        Link::Central {
            connection_id: ConnectionId::new("connection-1"),
            rx: CharacteristicHandle::new("connection-1/characteristic-2"),
            subscription_id: SubscriptionId::new("subscription-1"),
        }
    );
}

#[test]
fn a_dial_fails_on_a_wrong_reply_a_missing_service_or_another_version() {
    let error = dial_next(DialStage::Connecting, Reply::Empty, SERVICE).unwrap_err();
    assert_eq!(error.code, ErrorCode::Internal);
    let discovering = || DialStage::Discovering {
        connection_id: ConnectionId::new("connection-1"),
        value_limit: 20,
    };
    let error = dial_next(discovering(), Reply::Services(Vec::new()), SERVICE).unwrap_err();
    assert_eq!(error.code, ErrorCode::ProtocolMismatch);
    let mut partial = peer_service();
    partial.characteristics.pop();
    let error = dial_next(discovering(), Reply::Services(vec![partial]), SERVICE).unwrap_err();
    assert_eq!(error.code, ErrorCode::ProtocolMismatch);
    let reading = DialStage::ReadingInfo {
        connection_id: ConnectionId::new("connection-1"),
        value_limit: 20,
        rx: CharacteristicHandle::new("rx"),
        tx: CharacteristicHandle::new("tx"),
    };
    let error = dial_next(
        reading,
        Reply::Bytes {
            value_base64: "Ag==".into(),
        },
        SERVICE,
    )
    .unwrap_err();
    assert_eq!(error.code, ErrorCode::ProtocolMismatch);
    assert_eq!(error.message, "the host speaks protocol version [2], not 1");
}

#[test]
fn an_acknowledged_hello_wins_over_a_failed_write() {
    let write_error = BleError::new(ErrorCode::Timeout, "the write response was lost");
    assert_eq!(
        hello_result(HelloWait::Acknowledged, Some(write_error.clone())),
        Ok(())
    );
    assert_eq!(
        hello_result(HelloWait::TimedOut, Some(write_error.clone())),
        Err(write_error)
    );
    let error = hello_result(HelloWait::TimedOut, None).unwrap_err();
    assert_eq!(error.code, ErrorCode::Timeout);
    assert_eq!(error.message, "the host sent no HELLO_ACK within 10 s");
    let error = hello_result(HelloWait::Closed, None).unwrap_err();
    assert_eq!(error.code, ErrorCode::Disconnected);
}

#[test]
fn a_send_without_an_answer_has_an_unknown_delivery() {
    let receipt = SendReceipt {
        message_id: 3,
        delivery: DeliveryOutcome::TransportAcknowledged,
    };
    assert_eq!(
        send_result(SendWait::Answered(Ok(receipt.clone()))),
        Ok(receipt)
    );
    let error = send_result(SendWait::TimedOut).unwrap_err();
    assert_eq!(error.code, ErrorCode::Timeout);
    assert_eq!(error.delivery, Some(DeliveryOutcome::Unknown));
    let error = send_result(SendWait::Closed).unwrap_err();
    assert_eq!(error.code, ErrorCode::Disconnected);
    assert_eq!(error.delivery, Some(DeliveryOutcome::Unknown));
    let error = peer_closed(DeliveryOutcome::NotSubmitted);
    assert_eq!(error.message, "the peer closed");
    assert_eq!(error.delivery, Some(DeliveryOutcome::NotSubmitted));
}

#[test]
fn a_listening_endpoint_advertises_its_service() {
    assert_eq!(
        created_server(Reply::ServerCreated {
            server_id: ServerId::new("server-1")
        }),
        Ok(ServerId::new("server-1"))
    );
    assert_eq!(
        created_server(Reply::Empty).unwrap_err().code,
        ErrorCode::Internal
    );
    assert_eq!(
        endpoint_advertisement(ServerId::new("server-1"), SERVICE.into(), Some("Host".into())),
        Command::StartAdvertising {
            server_id: ServerId::new("server-1"),
            options: AdvertisingOptions {
                service_uuid: SERVICE.into(),
                local_name: Some("Host".into()),
                local_name_optional: true,
            },
        }
    );
}

#[test]
fn an_abandoned_dial_without_a_peer_leaves_the_connection_to_the_caller() {
    let mut state = PeerState::new();
    let mut effects = Vec::new();
    assert!(!state.abandon_dial(&PeerId::new("peer-1"), &mut effects));
    assert!(effects.is_empty());
}
