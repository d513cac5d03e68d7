use gattify::command::{Command, Event, Reply};
use gattify::model::{
    AdvertisingOptions, CharacteristicInstance, CharacteristicProperties, ConnectOptions,
    LocalCharacteristic, LocalService, ScanOptions, ServerDefinition, ServiceInstance, WriteType,
};
use gattify::scope::{ScopeGuard, ServiceScope};
use gattify::{
    BleResult, CharacteristicHandle, ConnectionId, DeviceId, ErrorCode, OwnerId, ScanId,
    ServerId, ServiceHandle, SubscriptionId,
};

const LAB: &str = "80ff87c3-8e84-4914-aedc-0d6a3ba5534d";
const OTHER: &str = "0000180d-0000-1000-8000-00805f9b34fb";

fn scope() -> ServiceScope {
    ServiceScope::new(&[LAB], &[])
}

fn owner() -> OwnerId {
    OwnerId::new("webview:main")
}

fn connection() -> ConnectionId {
    ConnectionId::new("connection-1")
}

fn code(result: BleResult<Command>) -> ErrorCode {
    result.unwrap_err().code
}

fn scan(uuids: &[&str]) -> Command {
    Command::StartScan(ScanOptions {
        service_uuids: uuids.iter().map(|uuid| (*uuid).to_owned()).collect(),
        timeout_ms: None,
    })
}

fn read(handle: &str) -> Command {
    Command::Read {
        connection_id: connection(),
        characteristic: CharacteristicHandle::new(handle),
    }
}

fn server(uuid: &str) -> Command {
    Command::CreateServer(ServerDefinition {
        services: vec![LocalService {
            instance_key: "peer".into(),
            uuid: uuid.into(),
            primary: true,
            characteristics: vec![LocalCharacteristic {
                instance_key: "info".into(),
                uuid: "B1E10F10-6A2C-4A62-8E9E-2C938FA30101".into(),
                properties: CharacteristicProperties::default(),
                initial_value_base64: None,
                max_value_length: 1,
            }],
        }],
    })
}

fn service(uuid: &str, characteristic: &str) -> ServiceInstance {
    ServiceInstance {
        handle: ServiceHandle::new(&format!("connection-1/{characteristic}-service")),
        uuid: uuid.into(),
        characteristics: vec![CharacteristicInstance {
            handle: CharacteristicHandle::new(characteristic),
            uuid: "b1e10f10-6a2c-4a62-8e9e-2c938fa30101".into(),
            properties: CharacteristicProperties::default(),
        }],
    }
}

fn discover(guard: &mut ScopeGuard) -> Vec<ServiceInstance> {
    let command = Command::DiscoverServices {
        connection_id: connection(),
    };
    let reply = Ok(Reply::Services(vec![
        service(LAB, "connection-1/characteristic-1"),
        service(OTHER, "connection-1/characteristic-2"),
    ]));
    let Reply::Services(services) = guard.observe(&scope(), &owner(), &command, reply).unwrap()
    else {
        panic!("expected services");
    };
    services
}

#[test]
fn denied_uuids_leave_the_scope() {
    let scope = ServiceScope::new(&[LAB, OTHER], &["180D"]);
    assert!(scope.allows(LAB));
    assert!(!scope.allows(OTHER));
}

#[test]
fn cleanup_commands_never_read_the_scope() {
    let guard = ScopeGuard::default();
    let empty = ServiceScope::default();
    for command in [
        Command::StopScan {
            scan_id: ScanId::new("scan-1"),
        },
        Command::Disconnect {
            connection_id: connection(),
        },
        Command::Unsubscribe {
            subscription_id: SubscriptionId::new("subscription-1"),
        },
        Command::CloseServer {
            server_id: ServerId::new("server-1"),
        },
        Command::StopAdvertising {
            server_id: ServerId::new("server-1"),
        },
    ] {
        assert_eq!(
            guard.authorize(&empty, &owner(), command.clone()),
            Ok(command)
        );
    }
}

#[test]
fn an_empty_scope_rejects_every_radio_command() {
    let guard = ScopeGuard::default();
    let empty = ServiceScope::default();
    let connect = Command::Connect {
        device_id: DeviceId::new("device-1"),
        options: ConnectOptions { timeout_ms: None },
    };
    assert_eq!(
        code(guard.authorize(&empty, &owner(), connect)),
        ErrorCode::PermissionDenied
    );
    assert_eq!(
        code(guard.authorize(&empty, &owner(), scan(&[LAB]))),
        ErrorCode::PermissionDenied
    );
}

#[test]
fn a_scan_needs_a_filter_inside_the_scope() {
    let guard = ScopeGuard::default();
    assert_eq!(
        code(guard.authorize(&scope(), &owner(), scan(&[]))),
        ErrorCode::PermissionDenied
    );
    assert_eq!(
        code(guard.authorize(&scope(), &owner(), scan(&[LAB, OTHER]))),
        ErrorCode::PermissionDenied
    );
    assert_eq!(
        code(guard.authorize(&scope(), &owner(), scan(&["not-a-uuid"]))),
        ErrorCode::InvalidArgument
    );
    assert_eq!(
        guard.authorize(
            &scope(),
            &owner(),
            scan(&["80FF87C38E844914AEDC0D6A3BA5534D"])
        ),
        Ok(scan(&[LAB]))
    );
}

#[test]
fn connect_is_left_to_the_native_scan_rule() {
    let guard = ScopeGuard::default();
    let connect = Command::Connect {
        device_id: DeviceId::new("device-1"),
        options: ConnectOptions { timeout_ms: None },
    };
    assert_eq!(
        guard.authorize(&scope(), &owner(), connect.clone()),
        Ok(connect)
    );
}

#[test]
fn discovery_drops_services_outside_the_scope() {
    let mut guard = ScopeGuard::default();
    let services = discover(&mut guard);
    assert_eq!(services.len(), 1);
    assert_eq!(services[0].uuid, LAB);
}

#[test]
fn only_handles_from_a_scoped_discovery_are_usable() {
    let mut guard = ScopeGuard::default();
    assert_eq!(
        code(guard.authorize(&scope(), &owner(), read("connection-1/characteristic-1"))),
        ErrorCode::PermissionDenied
    );
    discover(&mut guard);
    let allowed = read("connection-1/characteristic-1");
    assert_eq!(
        guard.authorize(&scope(), &owner(), allowed.clone()),
        Ok(allowed)
    );
    assert_eq!(
        code(guard.authorize(&scope(), &owner(), read("connection-1/characteristic-2"))),
        ErrorCode::PermissionDenied
    );
    let write = Command::Write {
        connection_id: connection(),
        characteristic: CharacteristicHandle::new("connection-1/characteristic-1"),
        value_base64: "AA==".into(),
        write_type: WriteType::WithResponse,
    };
    assert!(guard.authorize(&scope(), &owner(), write).is_ok());
    let subscribe = Command::Subscribe {
        connection_id: ConnectionId::new("connection-9"),
        characteristic: CharacteristicHandle::new("connection-1/characteristic-1"),
    };
    assert_eq!(
        code(guard.authorize(&scope(), &owner(), subscribe)),
        ErrorCode::PermissionDenied
    );
    assert_eq!(
        code(guard.authorize(
            &scope(),
            &OwnerId::new("webview:other"),
            read("connection-1/characteristic-1")
        )),
        ErrorCode::PermissionDenied
    );
}

#[test]
fn handles_are_forgotten_with_their_connection() {
    let mut guard = ScopeGuard::default();
    discover(&mut guard);
    let disconnect = Command::Disconnect {
        connection_id: connection(),
    };
    guard
        .observe(&scope(), &owner(), &disconnect, Ok(Reply::Empty))
        .unwrap();
    assert!(guard
        .authorize(&scope(), &owner(), read("connection-1/characteristic-1"))
        .is_err());

    discover(&mut guard);
    guard.forget_connection(&owner(), &connection());
    assert!(guard
        .authorize(&scope(), &owner(), read("connection-1/characteristic-1"))
        .is_err());

    discover(&mut guard);
    guard.forget_owner(&owner());
    assert!(guard
        .authorize(&scope(), &owner(), read("connection-1/characteristic-1"))
        .is_err());
}

#[test]
fn a_server_may_only_host_scoped_services() {
    let guard = ScopeGuard::default();
    assert_eq!(
        code(guard.authorize(&scope(), &owner(), server(OTHER))),
        ErrorCode::PermissionDenied
    );
    let Command::CreateServer(definition) = guard
        .authorize(
            &scope(),
            &owner(),
            server("80FF87C38E844914AEDC0D6A3BA5534D"),
        )
        .unwrap()
    else {
        panic!("expected a server definition");
    };
    assert_eq!(definition.services[0].uuid, LAB);
    assert_eq!(
        definition.services[0].characteristics[0].uuid,
        "b1e10f10-6a2c-4a62-8e9e-2c938fa30101"
    );
}

#[test]
fn advertising_is_limited_to_the_scope() {
    let guard = ScopeGuard::default();
    let advertise = |uuid: &str| Command::StartAdvertising {
        server_id: ServerId::new("server-1"),
        options: AdvertisingOptions {
            service_uuid: uuid.into(),
            local_name: None,
            local_name_optional: true,
        },
    };
    assert_eq!(
        code(guard.authorize(&scope(), &owner(), advertise(OTHER))),
        ErrorCode::PermissionDenied
    );
    assert_eq!(
        guard.authorize(
            &scope(),
            &owner(),
            advertise("80FF87C3-8E84-4914-AEDC-0D6A3BA5534D")
        ),
        Ok(advertise(LAB))
    );
}

#[test]
fn permit_returns_the_normalized_uuid_or_the_refusal() {
    let scope = scope();
    assert_eq!(scope.permit("80FF87C38E844914AEDC0D6A3BA5534D").unwrap(), LAB);
    assert_eq!(scope.permit(OTHER).unwrap_err().code, ErrorCode::PermissionDenied);
    assert_eq!(scope.permit("nope").unwrap_err().code, ErrorCode::InvalidArgument);
    assert!(!scope.is_empty());
    assert!(ServiceScope::default().is_empty());
}

#[test]
fn a_closed_connection_event_takes_its_handles() {
    let mut guard = ScopeGuard::default();
    discover(&mut guard);
    guard.observe_event(
        &owner(),
        &Event::ScanStopped {
            scan_id: ScanId::new("scan-1"),
        },
    );
    assert!(guard
        .authorize(&scope(), &owner(), read("connection-1/characteristic-1"))
        .is_ok());
    guard.observe_event(
        &owner(),
        &Event::ConnectionClosed {
            connection_id: connection(),
        },
    );
    assert!(guard
        .authorize(&scope(), &owner(), read("connection-1/characteristic-1"))
        .is_err());
}

#[test]
fn each_refusal_names_its_reason() {
    let guard = ScopeGuard::default();
    let message = |scope: &ServiceScope, command: Command| {
        guard.authorize(scope, &owner(), command).unwrap_err().message
    };
    assert_eq!(
        message(&ServiceScope::new(&[], &[]), scan(&[LAB])),
        "the gattify:scope permission lists no service UUID"
    );
    assert_eq!(message(&scope(), scan(&[])), "a scan needs a service UUID filter");
    assert_eq!(
        message(&scope(), scan(&[LAB, "180d"])),
        "service UUID 0000180d-0000-1000-8000-00805f9b34fb is outside the gattify:scope"
    );
    assert_eq!(message(&scope(), scan(&["nope"])), "value is not a UUID");
    assert_eq!(
        message(&scope(), read("connection-1/characteristic-9")),
        "the characteristic did not come from a scoped discovery on this connection"
    );
}

#[test]
fn handles_follow_the_latest_discovery_of_their_connection() {
    let mut guard = ScopeGuard::default();
    discover(&mut guard);
    let handle = "connection-1/characteristic-1";
    assert_eq!(guard.authorize(&scope(), &owner(), read(handle)), Ok(read(handle)));
    guard.observe_event(
        &owner(),
        &Event::ConnectionClosed {
            connection_id: connection(),
        },
    );
    assert_eq!(
        code(guard.authorize(&scope(), &owner(), read(handle))),
        ErrorCode::PermissionDenied
    );
    discover(&mut guard);
    assert_eq!(guard.authorize(&scope(), &owner(), read(handle)), Ok(read(handle)));
    guard.forget_owner(&owner());
    assert_eq!(
        code(guard.authorize(&scope(), &owner(), read(handle))),
        ErrorCode::PermissionDenied
    );
}
