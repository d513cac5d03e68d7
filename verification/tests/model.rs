use gattify::model::{
    validate_server_definition, validate_uuid, AdapterState, Capabilities, CharacteristicProperties,
    LocalCharacteristic, LocalService, ServerDefinition, Support, SupportLevel,
};
use gattify::ErrorCode;

fn definition(initial: Option<&str>, max_value_length: u32) -> ServerDefinition {
    ServerDefinition {
        services: vec![LocalService {
            instance_key: "s".into(),
            uuid: "b1e10f10-6a2c-4a62-8e9e-2c938fa30100".into(),
            primary: true,
            characteristics: vec![LocalCharacteristic {
                instance_key: "c".into(),
                uuid: "b1e10f10-6a2c-4a62-8e9e-2c938fa30101".into(),
                properties: CharacteristicProperties::default(),
                initial_value_base64: initial.map(Into::into),
                max_value_length,
            }],
        }],
    }
}

#[test]
fn instance_keys_cannot_hold_the_key_separator() {
    let mut slashed_service = definition(None, 20);
    slashed_service.services[0].instance_key = "a/b".into();
    assert_eq!(
        validate_server_definition(&slashed_service).unwrap_err().code,
        ErrorCode::InvalidArgument
    );
    let mut slashed_characteristic = definition(None, 20);
    slashed_characteristic.services[0].characteristics[0].instance_key = "b/c".into();
    assert_eq!(
        validate_server_definition(&slashed_characteristic)
            .unwrap_err()
            .code,
        ErrorCode::InvalidArgument
    );
}

#[test]
fn initial_values_are_validated_before_reaching_a_platform_sdk() {
    assert!(validate_server_definition(&definition(Some("AAEC"), 20)).is_ok());
    assert_eq!(
        validate_server_definition(&definition(Some("not base64!"), 20))
            .unwrap_err()
            .code,
        ErrorCode::InvalidArgument
    );
    assert_eq!(
        validate_server_definition(&definition(Some("AAEC"), 2))
            .unwrap_err()
            .code,
        ErrorCode::InvalidArgument
    );
}

#[test]
fn a_definition_needs_services_and_unique_keys() {
    assert!(validate_server_definition(&ServerDefinition { services: Vec::new() }).is_err());
    let mut twice = definition(None, 20);
    let copy = twice.services[0].characteristics[0].clone();
    twice.services[0].characteristics.push(copy);
    assert_eq!(
        validate_server_definition(&twice).unwrap_err().code,
        ErrorCode::InvalidArgument
    );
    let mut bad_uuid = definition(None, 20);
    bad_uuid.services[0].uuid = "180d".into();
    assert!(validate_server_definition(&bad_uuid).is_err());
    assert!(validate_server_definition(&definition(None, 0)).is_err());
    assert!(validate_server_definition(&definition(None, 513)).is_ok());
}

#[test]
fn uuids_must_be_128_bit_hexadecimal() {
    assert!(validate_uuid("80ff87c3-8e84-4914-aedc-0d6a3ba5534d").is_ok());
    assert!(validate_uuid("80FF87C38E844914AEDC0D6A3BA5534D").is_ok());
    assert_eq!(validate_uuid("180d").unwrap_err().code, ErrorCode::InvalidArgument);
    assert!(validate_uuid("80ff87c3-8e84-4914-aedc-0d6a3ba5534g").is_err());
}

#[test]
fn adapter_states_parse_from_their_names() {
    assert_eq!(AdapterState::parse("poweredOn"), Ok(AdapterState::PoweredOn));
    assert_eq!(AdapterState::parse("unknown"), Ok(AdapterState::Unknown));
    assert_eq!(
        AdapterState::parse("on").unwrap_err().code,
        ErrorCode::InvalidArgument
    );
    assert_eq!("resetting".parse::<AdapterState>(), Ok(AdapterState::Resetting));
    assert_eq!(AdapterState::default(), AdapterState::Unknown);
}

#[test]
fn support_levels_carry_their_reason() {
    assert_eq!(Support::supported().level, SupportLevel::Supported);
    assert_eq!(Support::supported().reason, "available");
    assert_eq!(Support::unknown("x").level, SupportLevel::Unknown);
    let unknown = Capabilities::unknown();
    assert_eq!(unknown.central.reason, "notProbed");
    assert_eq!(unknown.max_connections, None);
}

#[test]
fn each_broken_rule_names_itself() {
    let message = |definition: &ServerDefinition| {
        validate_server_definition(definition).unwrap_err().message
    };
    assert_eq!(
        message(&ServerDefinition { services: Vec::new() }),
        "at least one service is required"
    );
    assert_eq!(
        message(&definition(Some("not base64!"), 20)),
        "characteristic initial value is not valid base64"
    );
    assert_eq!(
        message(&definition(Some("AAEC"), 2)),
        "characteristic initial value exceeds its maximum length"
    );
    assert_eq!(
        message(&definition(None, 0)),
        "characteristic max value length must be positive"
    );
    let mut slashed = definition(None, 20);
    slashed.services[0].instance_key = "a/b".into();
    assert_eq!(message(&slashed), "instance keys must not contain '/'");
    let mut bad_uuid = definition(None, 20);
    bad_uuid.services[0].characteristics[0].uuid = "180d".into();
    assert_eq!(message(&bad_uuid), "UUID must be a 128-bit hexadecimal UUID");
    let mut twice = definition(None, 20);
    let characteristic = twice.services[0].characteristics[0].clone();
    twice.services[0].characteristics.push(characteristic);
    assert_eq!(
        message(&twice),
        "duplicate characteristic instance key within service"
    );
    let mut two_services = definition(None, 20);
    let service = two_services.services[0].clone();
    two_services.services.push(service);
    assert_eq!(message(&two_services), "duplicate service instance key");
}

#[test]
fn characteristic_keys_need_only_differ_within_their_service() {
    let mut first = definition(None, 20);
    first.services[0].instance_key = "x:y".into();
    first.services[0].characteristics[0].instance_key = "z".into();
    let mut second = first.services[0].clone();
    second.instance_key = "x".into();
    second.uuid = "b1e10f10-6a2c-4a62-8e9e-2c938fa30200".into();
    second.characteristics[0].instance_key = "y:z".into();
    first.services.push(second);
    assert!(validate_server_definition(&first).is_ok());
}
