use gattify::command::{Command, OperationContext, Reply};
use gattify::model::{AdapterState, PermissionOutcome, SupportLevel};
use gattify::system::{peer_unavailable, unverified_capabilities, SystemBackend};
use gattify::{ErrorCode, OperationId, OwnerId, ScanId};

fn context() -> OperationContext {
    OperationContext {
        operation_id: OperationId::new("operation-1"),
        owner_id: OwnerId::new("webview:main"),
        deadline_millis: None,
    }
}

#[test]
fn missing_backend_never_reports_supported() {
    let capabilities = unverified_capabilities("linux");
    assert!(matches!(capabilities.central.level, SupportLevel::Unknown));
    assert!(matches!(capabilities.targeted_notify.level, SupportLevel::Unknown));
}

#[test]
fn the_gate_names_the_platform_and_the_role() {
    let capabilities = unverified_capabilities("linux");
    assert_eq!(capabilities.central.reason, "linux:central:backendNotVerified");
    assert_eq!(
        capabilities.simultaneous_roles.reason,
        "linux:simultaneousRoles:backendNotVerified"
    );
    assert_eq!(capabilities.background.level, SupportLevel::Unsupported);
    assert_eq!(capabilities.background.reason, "foregroundOnlyContract");
    assert_eq!(capabilities.max_connections, None);
}

#[test]
fn status_queries_answer_and_radio_commands_fail() {
    let backend = SystemBackend::default();
    assert_eq!(
        backend.execute(context(), Command::GetState, "linux"),
        Ok(Reply::State(AdapterState::Unknown))
    );
    let Ok(Reply::Permissions(permissions)) =
        backend.execute(context(), Command::CheckPermissions, "linux")
    else {
        panic!("expected permissions")
    };
    assert_eq!(permissions.scan, PermissionOutcome::Unknown);
    assert_eq!(
        backend.execute(context(), Command::CloseOwner, "linux"),
        Ok(Reply::Empty)
    );
    let error = backend
        .execute(
            context(),
            Command::StopScan {
                scan_id: ScanId::new("scan-1"),
            },
            "linux",
        )
        .unwrap_err();
    assert_eq!(error.code, ErrorCode::Unsupported);
    assert_eq!(
        error.message,
        "native backend is not implemented; peer feature is disabled"
    );
}

#[test]
fn every_peer_endpoint_is_unsupported_without_a_peer_transport() {
    let error = peer_unavailable();
    assert_eq!(error.code, ErrorCode::Unsupported);
    assert_eq!(error.message, "peer transport is disabled in this Rust build");
    assert!(error.resource_id.is_none());
}
