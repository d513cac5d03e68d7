use gattify::command::Command;
use gattify::model::{
    AdapterState, ConnectOptions, Deadlines, PermissionOutcome, PermissionState, Support,
    SupportLevel,
};
use gattify::winrt::status::{
    adapter_state, bluetooth_error, capabilities, communication_error, deadline_for,
    hresult_error, permissions, protocol_error, readiness_error, AdapterFacts, RadioPower,
};
use gattify::{ConnectionId, DeviceId, ErrorCode};

fn facts(central: bool, peripheral: bool) -> AdapterFacts {
    AdapterFacts {
        low_energy: true,
        central,
        peripheral,
        max_advertisement_data_length: None,
    }
}

#[test]
fn the_adapter_state_follows_the_adapter_then_the_radio() {
    let le = facts(true, true);
    assert_eq!(adapter_state(None, None), AdapterState::Unavailable);
    let classic_only = AdapterFacts {
        low_energy: false,
        ..le
    };
    assert_eq!(
        adapter_state(Some(&classic_only), Some(RadioPower::On)),
        AdapterState::Unavailable
    );
    assert_eq!(
        adapter_state(Some(&le), Some(RadioPower::On)),
        AdapterState::PoweredOn
    );
    assert_eq!(
        adapter_state(Some(&le), Some(RadioPower::Off)),
        AdapterState::PoweredOff
    );
    assert_eq!(
        adapter_state(Some(&le), Some(RadioPower::Disabled)),
        AdapterState::PoweredOff
    );
    assert_eq!(
        adapter_state(Some(&le), Some(RadioPower::Unknown)),
        AdapterState::Unknown
    );
}

#[test]
fn an_le_adapter_without_a_radio_counts_as_on() {
    let le = facts(true, true);
    assert_eq!(adapter_state(Some(&le), None), AdapterState::PoweredOn);
    assert_eq!(readiness_error(adapter_state(Some(&le), None)), None);
    let classic_only = AdapterFacts {
        low_energy: false,
        ..le
    };
    assert_eq!(
        adapter_state(Some(&classic_only), None),
        AdapterState::Unavailable
    );
}

#[test]
fn commands_that_need_the_radio_reject_with_the_code_of_the_state() {
    let code = |state| readiness_error(state).map(|error| error.code);
    assert_eq!(code(AdapterState::PoweredOn), None);
    assert_eq!(code(AdapterState::PoweredOff), Some(ErrorCode::BluetoothOff));
    assert_eq!(code(AdapterState::Unavailable), Some(ErrorCode::Unavailable));
    assert_eq!(code(AdapterState::Unknown), Some(ErrorCode::Unavailable));
    assert_eq!(code(AdapterState::Resetting), Some(ErrorCode::Unavailable));
    assert_eq!(
        code(AdapterState::Unauthorized),
        Some(ErrorCode::PermissionDenied)
    );
}

#[test]
fn capabilities_follow_the_roles_of_the_adapter() {
    let both = capabilities(Some(&facts(true, true)));
    assert_eq!(both.central, Support::supported());
    assert_eq!(both.peripheral, Support::supported());
    assert_eq!(both.advertising, Support::supported());
    assert_eq!(both.targeted_notify, Support::supported());
    assert_eq!(both.simultaneous_roles, Support::supported());
    assert_eq!(
        both.background,
        Support::unsupported("foregroundOnlyContract")
    );
    assert_eq!(both.max_connections, None);
    assert_eq!(both.max_advertising_data_length, Some(31));

    let central_only = capabilities(Some(&facts(true, false)));
    assert_eq!(central_only.central.level, SupportLevel::Supported);
    for support in [
        &central_only.peripheral,
        &central_only.advertising,
        &central_only.targeted_notify,
        &central_only.simultaneous_roles,
    ] {
        assert_eq!(support, &Support::unsupported("noPeripheralRole"));
    }
    let peripheral_only = capabilities(Some(&facts(false, true)));
    assert_eq!(
        peripheral_only.simultaneous_roles,
        Support::unsupported("noCentralRole")
    );
}

#[test]
fn the_advertising_data_length_is_the_legacy_length_at_most() {
    let with_length = |length| {
        capabilities(Some(&AdapterFacts {
            max_advertisement_data_length: Some(length),
            ..facts(true, true)
        }))
        .max_advertising_data_length
    };
    assert_eq!(with_length(1650), Some(31));
    assert_eq!(with_length(24), Some(24));
    assert_eq!(with_length(0), Some(31));
}

#[test]
fn without_an_le_adapter_every_role_is_unsupported() {
    for (adapter, reason) in [
        (None, "noAdapter"),
        (
            Some(AdapterFacts {
                low_energy: false,
                ..facts(true, true)
            }),
            "noLowEnergy",
        ),
    ] {
        let capabilities = capabilities(adapter.as_ref());
        assert_eq!(capabilities.central, Support::unsupported(reason));
        assert_eq!(
            capabilities.simultaneous_roles,
            Support::unsupported(reason)
        );
        assert_eq!(
            capabilities.background,
            Support::unsupported("foregroundOnlyContract")
        );
        assert_eq!(capabilities.max_advertising_data_length, None);
    }
}

#[test]
fn no_role_needs_a_runtime_permission() {
    assert_eq!(
        permissions(),
        PermissionState {
            scan: PermissionOutcome::NotRequired,
            connect: PermissionOutcome::NotRequired,
            advertise: PermissionOutcome::NotRequired,
        }
    );
}

#[test]
fn deadlines_default_per_command() {
    let connect = |timeout_ms| Command::Connect {
        device_id: DeviceId::new("device-1"),
        options: ConnectOptions { timeout_ms },
    };
    let discover = Command::DiscoverServices {
        connection_id: ConnectionId::new("connection-1"),
    };
    assert_eq!(deadline_for(&connect(None), None), Some(15_000));
    assert_eq!(deadline_for(&connect(Some(3_000)), None), Some(3_000));
    assert_eq!(deadline_for(&connect(Some(3_000)), Some(700)), Some(700));
    assert_eq!(deadline_for(&discover, None), Some(10_000));
    assert_eq!(deadline_for(&Command::CloseOwner, None), None);
    assert_eq!(deadline_for(&Command::GetState, Some(50)), Some(50));
}

#[test]
fn the_default_deadlines_match_the_command_defaults() {
    let defaults = Deadlines::default();
    assert_eq!(defaults.connect, 15_000);
    assert_eq!(defaults.discovery, 10_000);
    assert_eq!(defaults.procedure, 5_000);
    let read = Command::DiscoverServices {
        connection_id: ConnectionId::new("connection-1"),
    };
    assert_eq!(deadline_for(&read, None), Some(defaults.discovery));
}

#[test]
fn platform_errors_keep_their_native_code() {
    let busy = bluetooth_error(2, "creating the service");
    assert_eq!(busy.code, ErrorCode::Busy);
    assert_eq!(busy.native_code.as_deref(), Some("bluetoothError2"));
    assert_eq!(bluetooth_error(1, "x").code, ErrorCode::BluetoothOff);
    assert_eq!(bluetooth_error(7, "x").code, ErrorCode::PermissionDenied);
    assert_eq!(bluetooth_error(4, "x").code, ErrorCode::Internal);

    let unreachable = communication_error(1, None, "the read");
    assert_eq!(unreachable.code, ErrorCode::Disconnected);
    assert_eq!(
        unreachable.native_code.as_deref(),
        Some("gattCommunicationStatus1")
    );
    assert_eq!(
        communication_error(3, None, "x").code,
        ErrorCode::PermissionDenied
    );
    assert_eq!(
        communication_error(2, None, "x").native_code.as_deref(),
        Some("gattCommunicationStatus2")
    );

    let too_long = communication_error(2, Some(0x0D), "the write");
    assert_eq!(too_long.code, ErrorCode::PayloadTooLarge);
    assert_eq!(too_long.native_code.as_deref(), Some("gattProtocolError13"));
    let not_permitted = protocol_error(0x03, "the write");
    assert_eq!(not_permitted.code, ErrorCode::Internal);
    assert_eq!(
        not_permitted.native_code.as_deref(),
        Some("gattProtocolError3")
    );
}

#[test]
fn hresults_map_to_contract_codes_and_keep_their_hex_form() {
    let denied = hresult_error(0x8007_0005_u32 as i32, "Access is denied.\r\n", "the connect");
    assert_eq!(denied.code, ErrorCode::PermissionDenied);
    assert_eq!(denied.native_code.as_deref(), Some("hresult0x80070005"));
    assert_eq!(denied.message, "the connect failed: Access is denied.");
    let missing = hresult_error(0x8000_4002_u32 as i32, "", "setting the service data");
    assert_eq!(missing.code, ErrorCode::Unsupported);
    assert_eq!(missing.message, "setting the service data failed");
    assert_eq!(
        hresult_error(0x8065_000D_u32 as i32, "", "x").code,
        ErrorCode::PayloadTooLarge
    );
    assert_eq!(
        hresult_error(0x8007_048F_u32 as i32, "", "x").code,
        ErrorCode::Disconnected
    );
    let other = hresult_error(0x8000_000E_u32 as i32, "", "x");
    assert_eq!(other.code, ErrorCode::Internal);
    assert_eq!(other.native_code.as_deref(), Some("hresult0x8000000e"));
}

#[test]
fn error_messages_name_the_action() {
    let error = protocol_error(0x0D, "the write");
    assert_eq!(error.message, "the write failed with ATT error 0x0d");
    let negative = bluetooth_error(-3, "x");
    assert_eq!(negative.native_code.as_deref(), Some("bluetoothError-3"));
}
