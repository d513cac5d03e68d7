use gattify::command::Command;
use gattify::endpoints::{check_role, command_has_role, send_payload, CommandRole};
use gattify::model::{
    AdvertisingOptions, ConnectOptions, PermissionRequest, ScanOptions, ServerDefinition,
    WriteType,
};
use gattify::{
    CharacteristicHandle, ConnectionId, DeliveryOutcome, DeviceId, ErrorCode, OperationId, PeerId,
    ScanId, ServerId, SubscriptionId,
};

fn expected_role(command: &Command) -> Option<CommandRole> {
    match command {
        Command::StartScan(_) | Command::StopScan { .. } => Some(CommandRole::Scan),
        Command::Connect { .. }
        | Command::Disconnect { .. }
        | Command::DiscoverServices { .. }
        | Command::Read { .. }
        | Command::Write { .. }
        | Command::Subscribe { .. }
        | Command::Unsubscribe { .. } => Some(CommandRole::Connect),
        Command::CreateServer(_)
        | Command::CloseServer { .. }
        | Command::SetValue { .. }
        | Command::Notify { .. } => Some(CommandRole::Server),
        Command::StartAdvertising { .. } | Command::StopAdvertising { .. } => {
            Some(CommandRole::Advertise)
        }
        Command::GetState
        | Command::GetCapabilities
        | Command::CheckPermissions
        | Command::RequestPermissions(_)
        | Command::Cancel { .. }
        | Command::CloseOwner
        | Command::DebugResources => None,
    }
}

fn every_command() -> Vec<Command> {
    vec![
        Command::GetState,
        Command::GetCapabilities,
        Command::CheckPermissions,
        Command::RequestPermissions(PermissionRequest {
            scan: true,
            connect: false,
            advertise: false,
        }),
        Command::StartScan(ScanOptions {
            service_uuids: Vec::new(),
            timeout_ms: None,
        }),
        Command::StopScan {
            scan_id: ScanId::new("scan-1"),
        },
        Command::Connect {
            device_id: DeviceId::new("device-1"),
            options: ConnectOptions { timeout_ms: None },
        },
        Command::Disconnect {
            connection_id: ConnectionId::new("connection-1"),
        },
        Command::DiscoverServices {
            connection_id: ConnectionId::new("connection-1"),
        },
        Command::Read {
            connection_id: ConnectionId::new("connection-1"),
            characteristic: CharacteristicHandle::new("characteristic-1"),
        },
        Command::Write {
            connection_id: ConnectionId::new("connection-1"),
            characteristic: CharacteristicHandle::new("characteristic-1"),
            value_base64: "AA==".into(),
            write_type: WriteType::WithResponse,
        },
        Command::Subscribe {
            connection_id: ConnectionId::new("connection-1"),
            characteristic: CharacteristicHandle::new("characteristic-1"),
        },
        Command::Unsubscribe {
            subscription_id: SubscriptionId::new("subscription-1"),
        },
        Command::CreateServer(ServerDefinition {
            services: Vec::new(),
        }),
        Command::CloseServer {
            server_id: ServerId::new("server-1"),
        },
        Command::StartAdvertising {
            server_id: ServerId::new("server-1"),
            options: AdvertisingOptions {
                service_uuid: "180d".into(),
                local_name: None,
                local_name_optional: false,
            },
        },
        Command::StopAdvertising {
            server_id: ServerId::new("server-1"),
        },
        Command::SetValue {
            server_id: ServerId::new("server-1"),
            characteristic_key: "characteristic-1".into(),
            value_base64: "AA==".into(),
        },
        Command::Notify {
            server_id: ServerId::new("server-1"),
            peer_id: PeerId::new("peer-1"),
            characteristic_key: "characteristic-1".into(),
            value_base64: "AA==".into(),
        },
        Command::Cancel {
            operation_id: OperationId::new("operation-1"),
        },
        Command::CloseOwner,
        Command::DebugResources,
    ]
}

#[test]
fn each_command_passes_only_its_own_role_endpoint() {
    let roles = [
        CommandRole::Scan,
        CommandRole::Connect,
        CommandRole::Server,
        CommandRole::Advertise,
    ];
    for command in every_command() {
        for role in roles {
            assert_eq!(
                command_has_role(&command, role),
                expected_role(&command) == Some(role),
                "command {command:?} against role {role:?}"
            );
        }
    }
}

#[test]
fn a_command_of_another_role_is_an_invalid_argument() {
    let stop = Command::StopScan {
        scan_id: ScanId::new("scan-1"),
    };
    assert_eq!(check_role(&stop, CommandRole::Scan), Ok(()));
    let error = check_role(&stop, CommandRole::Connect).unwrap_err();
    assert_eq!(error.code, ErrorCode::InvalidArgument);
    assert_eq!(
        error.message,
        "command is not permitted through this role-specific endpoint"
    );
    assert!(check_role(&Command::GetState, CommandRole::Scan).is_err());
}

#[test]
fn a_send_payload_is_decoded_or_never_submitted() {
    assert_eq!(send_payload("AAE=").unwrap(), vec![0u8, 1]);
    assert_eq!(send_payload("").unwrap(), Vec::<u8>::new());
    let error = send_payload("not base64!").unwrap_err();
    assert_eq!(error.code, ErrorCode::InvalidArgument);
    assert_eq!(error.message, "valueBase64 is not base64");
    assert_eq!(error.delivery, Some(DeliveryOutcome::NotSubmitted));
}
