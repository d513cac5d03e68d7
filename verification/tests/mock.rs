use gattify::command::{Command, OperationContext, Reply};
use gattify::mock::MockBackend;
use gattify::model::{ConnectOptions, ResourceSnapshot, ScanOptions, ServerDefinition, WriteType};
use gattify::{CharacteristicHandle, DeviceId, ErrorCode, OperationId, OwnerId};

fn context(operation: &str, owner: &str) -> OperationContext {
    OperationContext {
        operation_id: OperationId::new(operation),
        owner_id: OwnerId::new(owner),
        deadline_millis: None,
    }
}

fn scan() -> Command {
    Command::StartScan(ScanOptions {
        service_uuids: Vec::new(),
        timeout_ms: None,
    })
}

#[test]
fn mock_owner_cleanup_releases_every_resource() {
    let mut backend = MockBackend::default();
    backend.execute(context("operation-1", "webview-a"), scan()).unwrap();
    backend
        .execute(
            context("operation-2", "webview-a"),
            Command::Connect {
                device_id: DeviceId::new("ephemeral-device"),
                options: ConnectOptions { timeout_ms: None },
            },
        )
        .unwrap();
    backend
        .execute(context("operation-3", "webview-a"), Command::CloseOwner)
        .unwrap();
    let reply = backend
        .execute(context("operation-4", "webview-a"), Command::DebugResources)
        .unwrap();
    assert_eq!(
        reply,
        Reply::Resources(ResourceSnapshot {
            scans: 0,
            connections: 0,
            subscriptions: 0,
            servers: 0,
        })
    );
}

#[test]
fn mock_cross_owner_handle_use_is_rejected() {
    let mut backend = MockBackend::default();
    let Reply::ScanStarted { scan_id } = backend
        .execute(context("operation-1", "owner-a"), scan())
        .unwrap()
    else {
        panic!("expected scan handle")
    };
    let error = backend
        .execute(context("operation-2", "owner-b"), Command::StopScan { scan_id })
        .unwrap_err();
    assert_eq!(error.code, ErrorCode::InvalidHandle);
}

#[test]
fn resources_are_counted_across_owners() {
    let mut backend = MockBackend::default();
    backend.execute(context("operation-1", "owner-a"), scan()).unwrap();
    backend.execute(context("operation-2", "owner-a"), scan()).unwrap();
    backend.execute(context("operation-3", "owner-b"), scan()).unwrap();
    assert_eq!(
        backend
            .execute(context("operation-4", "owner-a"), Command::DebugResources)
            .unwrap(),
        Reply::Resources(ResourceSnapshot {
            scans: 3,
            connections: 0,
            subscriptions: 0,
            servers: 0,
        })
    );
}

#[test]
fn a_cancelled_operation_fails_as_cancelled() {
    let mut backend = MockBackend::default();
    backend
        .execute(
            context("operation-9", "owner-a"),
            Command::Cancel {
                operation_id: OperationId::new("operation-1"),
            },
        )
        .unwrap();
    let error = backend
        .execute(context("operation-1", "owner-a"), scan())
        .unwrap_err();
    assert_eq!(error.code, ErrorCode::Cancelled);
    assert_eq!(error.message, "operation was cancelled");
}

#[test]
fn the_mock_adapter_is_powered_on() {
    let mut backend = MockBackend::default();
    assert_eq!(
        backend.execute(context("operation-1", "owner-a"), Command::GetState).unwrap(),
        Reply::State(gattify::model::AdapterState::PoweredOn)
    );
}

#[test]
fn a_refused_server_keeps_the_message_of_its_broken_rule() {
    let mut backend = MockBackend::default();
    let error = backend
        .execute(
            context("operation-1", "owner-a"),
            Command::CreateServer(ServerDefinition { services: Vec::new() }),
        )
        .unwrap_err();
    assert_eq!(error.code, ErrorCode::InvalidArgument);
    assert_eq!(error.message, "at least one service is required");
    let Reply::Connected { connection_id, .. } = backend
        .execute(
            context("operation-2", "owner-a"),
            Command::Connect {
                device_id: DeviceId::new("device-1"),
                options: ConnectOptions { timeout_ms: None },
            },
        )
        .unwrap()
    else {
        panic!("expected a connection")
    };
    let error = backend
        .execute(
            context("operation-3", "owner-a"),
            Command::Write {
                connection_id,
                characteristic: CharacteristicHandle::new("characteristic-1"),
                value_base64: "not base64!".into(),
                write_type: WriteType::WithResponse,
            },
        )
        .unwrap_err();
    assert_eq!(error.message, "invalid base64 payload");
}

fn connect() -> Command {
    Command::Connect {
        device_id: DeviceId::new("ephemeral-device"),
        options: ConnectOptions { timeout_ms: None },
    }
}

#[test]
fn a_connection_of_one_owner_is_refused_to_another() {
    let mut backend = MockBackend::default();
    let Reply::Connected { connection_id, .. } = backend
        .execute(context("operation-1", "owner-a"), connect())
        .unwrap()
    else {
        panic!("expected connection handle")
    };
    let error = backend
        .execute(
            context("operation-2", "owner-b"),
            Command::DiscoverServices {
                connection_id: connection_id.clone(),
            },
        )
        .unwrap_err();
    assert_eq!(error.code, ErrorCode::InvalidHandle);
    backend
        .execute(
            context("operation-3", "owner-a"),
            Command::DiscoverServices { connection_id },
        )
        .unwrap();
}

#[test]
fn a_closed_owner_can_no_longer_use_its_handles() {
    let mut backend = MockBackend::default();
    let Reply::Connected { connection_id, .. } = backend
        .execute(context("operation-1", "owner-a"), connect())
        .unwrap()
    else {
        panic!("expected connection handle")
    };
    backend.execute(context("operation-2", "owner-b"), scan()).unwrap();
    backend
        .execute(context("operation-3", "owner-a"), Command::CloseOwner)
        .unwrap();
    let error = backend
        .execute(
            context("operation-4", "owner-a"),
            Command::Disconnect { connection_id },
        )
        .unwrap_err();
    assert_eq!(error.code, ErrorCode::InvalidHandle);
    assert_eq!(
        backend
            .execute(context("operation-5", "owner-b"), Command::DebugResources)
            .unwrap(),
        Reply::Resources(ResourceSnapshot {
            scans: 1,
            connections: 0,
            subscriptions: 0,
            servers: 0,
        })
    );
}
