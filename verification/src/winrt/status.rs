//! The adapter state, capabilities and permissions of the Windows backend, and the
//! mapping of platform errors to contract codes.

use vstd::prelude::*;

use crate::command::Command;
use crate::error::{BleError, ErrorCode};
use crate::model::{
    support_is, AdapterState, Capabilities, PermissionOutcome, PermissionState, Support,
    SupportLevel,
};
use crate::text::{decimal, push_char, push_decimal, push_text};

verus! {

/// The legacy advertising data length, which the service provider uses.
pub const LEGACY_ADVERTISING_DATA_LENGTH: u32 = 31;

/// The ATT error for an invalid attribute value length.
pub const ATT_INVALID_ATTRIBUTE_VALUE_LENGTH: u8 = 0x0D;

/// The state of the Bluetooth radio.
#[derive(Clone, Copy, Debug, PartialEq, Eq, Structural)]
pub enum RadioPower {
    On,
    Off,
    /// Switched off by the firmware or a hardware switch.
    Disabled,
    Unknown,
}

/// What the default adapter supports.
#[derive(Clone, Copy, Debug, PartialEq, Eq, Structural)]
pub struct AdapterFacts {
    pub low_energy: bool,
    pub central: bool,
    pub peripheral: bool,
    /// The maximum advertisement data length, where Windows reports one.
    pub max_advertisement_data_length: Option<u32>,
}

/// A missing adapter or one without LE is unavailable; a disabled radio is off; an LE
/// adapter without a radio object counts as on.
pub open spec fn state_of(facts: Option<AdapterFacts>, radio: Option<RadioPower>) -> AdapterState {
    match facts {
        None => AdapterState::Unavailable,
        Some(f) => if !f.low_energy {
            AdapterState::Unavailable
        } else {
            match radio {
                None => AdapterState::PoweredOn,
                Some(RadioPower::On) => AdapterState::PoweredOn,
                Some(RadioPower::Off) => AdapterState::PoweredOff,
                Some(RadioPower::Disabled) => AdapterState::PoweredOff,
                Some(RadioPower::Unknown) => AdapterState::Unknown,
            }
        },
    }
}

pub fn adapter_state(facts: Option<&AdapterFacts>, radio: Option<RadioPower>) -> (state: AdapterState)
    ensures
        state == state_of(
            match facts {
                Some(f) => Some(*f),
                None => None,
            },
            radio,
        ),
{
    match facts {
        None => AdapterState::Unavailable,
        Some(facts) => {
            if !facts.low_energy {
                AdapterState::Unavailable
            } else {
                match radio {
                    None | Some(RadioPower::On) => AdapterState::PoweredOn,
                    Some(RadioPower::Off) | Some(RadioPower::Disabled) => AdapterState::PoweredOff,
                    Some(RadioPower::Unknown) => AdapterState::Unknown,
                }
            }
        },
    }
}

/// The code and message that a command needing the radio gets in `state`, or `None`
/// when the adapter is on.
pub open spec fn readiness(state: AdapterState) -> Option<(ErrorCode, Seq<char>)> {
    match state {
        AdapterState::PoweredOn => None,
        AdapterState::PoweredOff => Some((ErrorCode::BluetoothOff, "Bluetooth is off"@)),
        AdapterState::Unauthorized => Some(
            (ErrorCode::PermissionDenied, "the app may not use Bluetooth"@),
        ),
        AdapterState::Unavailable => Some(
            (ErrorCode::Unavailable, "this computer has no Bluetooth LE adapter"@),
        ),
        AdapterState::Resetting => Some(
            (ErrorCode::Unavailable, "the Bluetooth adapter is not ready"@),
        ),
        AdapterState::Unknown => Some((ErrorCode::Unavailable, "the Bluetooth adapter is not ready"@)),
    }
}

/// The rejection for a command that needs the adapter on, or `None` when it is on.
pub fn readiness_error(state: AdapterState) -> (error: Option<BleError>)
    ensures
        match readiness(state) {
            None => error is None,
            Some((code, message)) => error matches Some(e) && e.is_plain(code) && e.message@
                == message,
        },
{
    match state {
        AdapterState::PoweredOn => None,
        AdapterState::PoweredOff => Some(BleError::new(ErrorCode::BluetoothOff, "Bluetooth is off")),
        AdapterState::Unauthorized => Some(
            BleError::new(ErrorCode::PermissionDenied, "the app may not use Bluetooth"),
        ),
        AdapterState::Unavailable => Some(
            BleError::new(ErrorCode::Unavailable, "this computer has no Bluetooth LE adapter"),
        ),
        AdapterState::Resetting | AdapterState::Unknown => Some(
            BleError::new(ErrorCode::Unavailable, "the Bluetooth adapter is not ready"),
        ),
    }
}

/// A role entry: supported, or unsupported for `reason`.
pub open spec fn role_is(support: Support, supported: bool, reason: Seq<char>) -> bool {
    if supported {
        support_is(support, SupportLevel::Supported, "available"@)
    } else {
        support_is(support, SupportLevel::Unsupported, reason)
    }
}

/// The advertising data length an LE adapter reports: its own maximum where it
/// gives a positive one, at most the legacy length.
pub open spec fn advertising_length(facts: AdapterFacts) -> u32 {
    match facts.max_advertisement_data_length {
        Some(length) => if length > 0 && length < LEGACY_ADVERTISING_DATA_LENGTH {
            length
        } else {
            LEGACY_ADVERTISING_DATA_LENGTH
        },
        None => LEGACY_ADVERTISING_DATA_LENGTH,
    }
}

/// What the adapter reports: without an LE adapter every role is unsupported for
/// `noAdapter` or `noLowEnergy`; with one the roles follow the adapter.
pub open spec fn capabilities_of(facts: Option<AdapterFacts>, c: Capabilities) -> bool {
    &&& support_is(c.background, SupportLevel::Unsupported, "foregroundOnlyContract"@)
    &&& c.max_connections is None
    &&& match facts {
        Some(f) if f.low_energy => {
            &&& role_is(c.central, f.central, "noCentralRole"@)
            &&& role_is(c.peripheral, f.peripheral, "noPeripheralRole"@)
            &&& role_is(c.advertising, f.peripheral, "noPeripheralRole"@)
            &&& role_is(c.targeted_notify, f.peripheral, "noPeripheralRole"@)
            &&& if f.central {
                role_is(c.simultaneous_roles, f.peripheral, "noPeripheralRole"@)
            } else {
                support_is(c.simultaneous_roles, SupportLevel::Unsupported, "noCentralRole"@)
            }
            &&& c.max_advertising_data_length == Some(advertising_length(f))
        },
        _ => {
            let reason = if facts is None {
                "noAdapter"@
            } else {
                "noLowEnergy"@
            };
            &&& support_is(c.central, SupportLevel::Unsupported, reason)
            &&& support_is(c.peripheral, SupportLevel::Unsupported, reason)
            &&& support_is(c.advertising, SupportLevel::Unsupported, reason)
            &&& support_is(c.targeted_notify, SupportLevel::Unsupported, reason)
            &&& support_is(c.simultaneous_roles, SupportLevel::Unsupported, reason)
            &&& c.max_advertising_data_length is None
        },
    }
}

fn role(supported: bool, reason: &str) -> (support: Support)
    ensures
        role_is(support, supported, reason@),
{
    if supported {
        Support::supported()
    } else {
        Support::unsupported(reason)
    }
}

pub fn capabilities(facts: Option<&AdapterFacts>) -> (c: Capabilities)
    ensures
        capabilities_of(
            match facts {
                Some(f) => Some(*f),
                None => None,
            },
            c,
        ),
{
    let background = Support::unsupported("foregroundOnlyContract");
    let reason = match facts {
        None => Some("noAdapter"),
        Some(f) => if f.low_energy {
            None
        } else {
            Some("noLowEnergy")
        },
    };
    match reason {
        Some(reason) => {
            return Capabilities {
                central: Support::unsupported(reason),
                peripheral: Support::unsupported(reason),
                advertising: Support::unsupported(reason),
                targeted_notify: Support::unsupported(reason),
                simultaneous_roles: Support::unsupported(reason),
                background,
                max_connections: None,
                max_advertising_data_length: None,
            };
        },
        None => {},
    }
    let facts = match facts {
        Some(f) => f,
        None => {
            return Capabilities {
                central: Support::unsupported("noAdapter"),
                peripheral: Support::unsupported("noAdapter"),
                advertising: Support::unsupported("noAdapter"),
                targeted_notify: Support::unsupported("noAdapter"),
                simultaneous_roles: Support::unsupported("noAdapter"),
                background,
                max_connections: None,
                max_advertising_data_length: None,
            };
        },
    };
    let length = match facts.max_advertisement_data_length {
        Some(length) => if length > 0 && length < LEGACY_ADVERTISING_DATA_LENGTH {
            length
        } else {
            LEGACY_ADVERTISING_DATA_LENGTH
        },
        None => LEGACY_ADVERTISING_DATA_LENGTH,
    };
    Capabilities {
        central: role(facts.central, "noCentralRole"),
        peripheral: role(facts.peripheral, "noPeripheralRole"),
        advertising: role(facts.peripheral, "noPeripheralRole"),
        targeted_notify: role(facts.peripheral, "noPeripheralRole"),
        simultaneous_roles: if facts.central {
            role(facts.peripheral, "noPeripheralRole")
        } else {
            Support::unsupported("noCentralRole")
        },
        background,
        max_connections: None,
        max_advertising_data_length: Some(length),
    }
}

/// An unpackaged desktop app has no runtime Bluetooth permission, and a packaged app
/// declares the capability in its manifest: neither has anything to ask the user.
pub fn permissions() -> (state: PermissionState)
    ensures
        state == (PermissionState {
            scan: PermissionOutcome::NotRequired,
            connect: PermissionOutcome::NotRequired,
            advertise: PermissionOutcome::NotRequired,
        }),
{
    PermissionState {
        scan: PermissionOutcome::NotRequired,
        connect: PermissionOutcome::NotRequired,
        advertise: PermissionOutcome::NotRequired,
    }
}

/// The contract default deadline of a command, in milliseconds.
pub open spec fn default_deadline(command: Command) -> Option<u64> {
    match command {
        Command::Connect { options, .. } => Some(
            match options.timeout_ms {
                Some(ms) => ms,
                None => 15_000,
            },
        ),
        Command::DiscoverServices { .. } => Some(10_000),
        Command::Read { .. } => Some(5_000),
        Command::Write { .. } => Some(5_000),
        Command::Subscribe { .. } => Some(5_000),
        Command::Unsubscribe { .. } => Some(5_000),
        Command::Notify { .. } => Some(5_000),
        Command::CreateServer(_) => Some(5_000),
        Command::StartAdvertising { .. } => Some(5_000),
        _ => None,
    }
}

/// The deadline of a command in milliseconds: the requested one, else the contract
/// default, else none.
pub fn deadline_for(command: &Command, requested: Option<u64>) -> (millis: Option<u64>)
    ensures
        millis == match requested {
            Some(ms) => Some(ms),
            None => default_deadline(*command),
        },
{
    match requested {
        Some(ms) => Some(ms),
        None => match command {
            Command::Connect { options, .. } => Some(
                match options.timeout_ms {
                    Some(ms) => ms,
                    None => 15_000,
                },
            ),
            Command::DiscoverServices { .. } => Some(10_000),
            Command::Read { .. } | Command::Write { .. } | Command::Subscribe { .. }
            | Command::Unsubscribe { .. } | Command::Notify { .. } | Command::CreateServer(_)
            | Command::StartAdvertising { .. } => Some(5_000),
            _ => None,
        },
    }
}

/// The decimal text of a signed number.
pub open spec fn signed_decimal(value: int) -> Seq<char> {
    if value < 0 {
        seq!['-'] + decimal((-value) as nat)
    } else {
        decimal(value as nat)
    }
}

fn push_signed(out: &mut String, value: i32)
    ensures
        final(out)@ == old(out)@ + signed_decimal(value as int),
{
    if value < 0 {
        push_char(out, '-');
        let magnitude: u64 = (0i64 - (value as i64)) as u64;
        push_decimal(out, magnitude);
        assert(final(out)@ =~= old(out)@ + signed_decimal(value as int));
    } else {
        push_decimal(out, value as u64);
    }
}

/// The lowercase hexadecimal digit of `d`.
pub open spec fn hex_char(d: int) -> char {
    if d < 10 {
        (d + 48) as char
    } else {
        (d + 87) as char
    }
}

/// The last `width` hexadecimal digits of `value`, most significant first.
pub open spec fn hex_digits(value: nat, width: nat) -> Seq<char>
    decreases width,
{
    if width == 0 {
        Seq::empty()
    } else {
        hex_digits(value / 16, (width - 1) as nat).push(hex_char((value % 16) as int))
    }
}

pub proof fn lemma_hex_digits_len(value: nat, width: nat)
    ensures
        hex_digits(value, width).len() == width,
    decreases width,
{
    if width > 0 {
        lemma_hex_digits_len(value / 16, (width - 1) as nat);
    }
}

fn push_hex(out: &mut String, value: u32, width: u32)
    requires
        width <= 8,
    ensures
        final(out)@ == old(out)@ + hex_digits(value as nat, width as nat),
    decreases width,
{
    if width > 0 {
        push_hex(out, value / 16, width - 1);
        let d: u8 = (value % 16) as u8;
        let c = if d < 10 {
            (d + 48) as char
        } else {
            (d + 87) as char
        };
        push_char(out, c);
    }
}

/// A platform error: the contract code, the message and the native code.
fn platform_error(code: ErrorCode, message: String, native_code: String) -> (error: BleError)
    ensures
        error.code == code,
        error.message == message,
        error.native_code == Some(native_code),
        error.operation_id is None,
        error.resource_id is None,
        error.delivery is None,
{
    let mut error = BleError::with_message(code, message);
    error.native_code = Some(native_code);
    error
}

/// The code and reason of a `BluetoothError` other than success.
pub open spec fn bluetooth_reason(value: i32) -> (ErrorCode, Seq<char>) {
    if value == 1 {
        (ErrorCode::BluetoothOff, "the Bluetooth radio is not available"@)
    } else if value == 2 {
        (ErrorCode::Busy, "the resource is in use"@)
    } else if value == 3 {
        (ErrorCode::Disconnected, "the device is not connected"@)
    } else if value == 5 {
        (ErrorCode::Unsupported, "a policy disables it"@)
    } else if value == 6 || value == 9 {
        (ErrorCode::Unsupported, "the adapter does not support it"@)
    } else if value == 7 || value == 8 {
        (ErrorCode::PermissionDenied, "the user did not allow it"@)
    } else {
        (ErrorCode::Internal, "Windows reported an error"@)
    }
}

/// A platform error whose code, message and native code are the given ones.
pub open spec fn platform_error_is(error: BleError, code: ErrorCode, message: Seq<char>, native: Seq<char>) -> bool {
    &&& error.code == code
    &&& error.message@ == message
    &&& error.native_code matches Some(n) && n@ == native
    &&& error.operation_id is None
    &&& error.resource_id is None
    &&& error.delivery is None
}

fn failed_because(action: &str, reason: &str) -> (message: String)
    ensures
        message@ == action@ + " failed: "@ + reason@,
{
    let mut message = action.to_owned();
    push_text(&mut message, " failed: ");
    push_text(&mut message, reason);
    message
}

/// Maps a `BluetoothError` other than success, keeping `bluetoothError<n>`.
pub fn bluetooth_error(value: i32, action: &str) -> (error: BleError)
    ensures
        platform_error_is(
            error,
            bluetooth_reason(value).0,
            action@ + " failed: "@ + bluetooth_reason(value).1,
            "bluetoothError"@ + signed_decimal(value as int),
        ),
{
    let (code, reason) = if value == 1 {
        (ErrorCode::BluetoothOff, "the Bluetooth radio is not available")
    } else if value == 2 {
        (ErrorCode::Busy, "the resource is in use")
    } else if value == 3 {
        (ErrorCode::Disconnected, "the device is not connected")
    } else if value == 5 {
        (ErrorCode::Unsupported, "a policy disables it")
    } else if value == 6 || value == 9 {
        (ErrorCode::Unsupported, "the adapter does not support it")
    } else if value == 7 || value == 8 {
        (ErrorCode::PermissionDenied, "the user did not allow it")
    } else {
        (ErrorCode::Internal, "Windows reported an error")
    };
    let mut native = "bluetoothError".to_owned();
    push_signed(&mut native, value);
    platform_error(code, failed_because(action, reason), native)
}

/// The code of an ATT error.
pub open spec fn att_code(value: u8) -> ErrorCode {
    if value == ATT_INVALID_ATTRIBUTE_VALUE_LENGTH {
        ErrorCode::PayloadTooLarge
    } else {
        ErrorCode::Internal
    }
}

/// Maps an ATT error, keeping `gattProtocolError<n>`.
pub fn protocol_error(value: u8, action: &str) -> (error: BleError)
    ensures
        platform_error_is(
            error,
            att_code(value),
            action@ + " failed with ATT error 0x"@ + hex_digits(value as nat, 2),
            "gattProtocolError"@ + decimal(value as nat),
        ),
{
    let code = if value == ATT_INVALID_ATTRIBUTE_VALUE_LENGTH {
        ErrorCode::PayloadTooLarge
    } else {
        ErrorCode::Internal
    };
    let mut message = action.to_owned();
    push_text(&mut message, " failed with ATT error 0x");
    push_hex(&mut message, value as u32, 2);
    let mut native = "gattProtocolError".to_owned();
    push_decimal(&mut native, value as u64);
    platform_error(code, message, native)
}

/// The code and reason of a GATT communication status other than success, when it
/// carries no ATT error.
pub open spec fn communication_reason(status: i32) -> (ErrorCode, Seq<char>) {
    if status == 1 {
        (ErrorCode::Disconnected, "the device is unreachable"@)
    } else if status == 3 {
        (ErrorCode::PermissionDenied, "access is denied"@)
    } else {
        (ErrorCode::Internal, "the GATT request failed"@)
    }
}

/// Maps a GATT communication status other than success, keeping
/// `gattCommunicationStatus<n>`, or the ATT error of a protocol error.
pub fn communication_error(status: i32, att_error: Option<u8>, action: &str) -> (error: BleError)
    ensures
        match att_error {
            Some(value) if status == 2 => platform_error_is(
                error,
                att_code(value),
                action@ + " failed with ATT error 0x"@ + hex_digits(value as nat, 2),
                "gattProtocolError"@ + decimal(value as nat),
            ),
            _ => platform_error_is(
                error,
                communication_reason(status).0,
                action@ + " failed: "@ + communication_reason(status).1,
                "gattCommunicationStatus"@ + signed_decimal(status as int),
            ),
        },
{
    if status == 2 {
        match att_error {
            Some(value) => {
                return protocol_error(value, action);
            },
            None => {},
        }
    }
    let (code, reason) = if status == 1 {
        (ErrorCode::Disconnected, "the device is unreachable")
    } else if status == 3 {
        (ErrorCode::PermissionDenied, "access is denied")
    } else {
        (ErrorCode::Internal, "the GATT request failed")
    };
    let mut native = "gattCommunicationStatus".to_owned();
    push_signed(&mut native, status);
    platform_error(code, failed_because(action, reason), native)
}

/// `str::trim`: the text without leading and trailing Unicode white space.
pub uninterp spec fn trimmed(text: Seq<char>) -> Seq<char>;

/// `str::trim`, whose result the contract names [`trimmed`]; which characters count
/// as white space is the standard library's rule.
#[verifier::external_body]
fn trim_text(text: &str) -> (trimmed_text: &str)
    ensures
        trimmed_text@ == trimmed(text@),
{
    text.trim()
}

/// The code of a failed platform call, by its HRESULT bits.
pub open spec fn hresult_code(bits: u32) -> ErrorCode {
    if bits == 0x8007_0005 {
        ErrorCode::PermissionDenied
    } else if bits == 0x8007_048F {
        ErrorCode::Disconnected
    } else if bits == 0x8007_10DF {
        ErrorCode::Unavailable
    } else if bits == 0x8000_4001 || bits == 0x8000_4002 || bits == 0x8007_0032 {
        ErrorCode::Unsupported
    } else if bits == 0x8065_000D {
        ErrorCode::PayloadTooLarge
    } else {
        ErrorCode::Internal
    }
}

fn unsigned_bits(value: i32) -> (bits: u32)
    ensures
        bits == value as u32,
{
    value as u32
}

/// Maps a failed platform call, keeping `hresult0x<8 hex digits>`.
pub fn hresult_error(value: i32, message: &str, action: &str) -> (error: BleError)
    ensures
        platform_error_is(
            error,
            hresult_code(value as u32),
            if trimmed(message@).len() == 0 {
                action@ + " failed"@
            } else {
                action@ + " failed: "@ + trimmed(message@)
            },
            "hresult0x"@ + hex_digits((value as u32) as nat, 8),
        ),
{
    let bits = unsigned_bits(value);
    let code = if bits == 0x8007_0005 {
        ErrorCode::PermissionDenied
    } else if bits == 0x8007_048F {
        ErrorCode::Disconnected
    } else if bits == 0x8007_10DF {
        ErrorCode::Unavailable
    } else if bits == 0x8000_4001 || bits == 0x8000_4002 || bits == 0x8007_0032 {
        ErrorCode::Unsupported
    } else if bits == 0x8065_000D {
        ErrorCode::PayloadTooLarge
    } else {
        ErrorCode::Internal
    };
    let trimmed_message = trim_text(message);
    let text = if trimmed_message.is_empty() {
        let mut text = action.to_owned();
        push_text(&mut text, " failed");
        text
    } else {
        failed_because(action, trimmed_message)
    };
    let mut native = "hresult0x".to_owned();
    push_hex(&mut native, bits, 8);
    platform_error(code, text, native)
}

/// The contract codes of the platform failures that Windows names, as a table:
/// `E_ACCESSDENIED` is refused permission, `ERROR_DEVICE_NOT_CONNECTED` a lost
/// link, `ERROR_DEVICE_NOT_AVAILABLE` an unavailable device, `E_NOTIMPL`,
/// `E_NOINTERFACE` and `ERROR_NOT_SUPPORTED` unsupported, and
/// `E_BLUETOOTH_ATT_INVALID_ATTRIBUTE_VALUE_LENGTH` a payload too large; every other
/// failure is internal. The same holds of the `BluetoothError` values, the GATT
/// communication statuses and the ATT error codes.
pub proof fn law_platform_failures_map_to_their_codes(bits: u32, value: i32, att: u8)
    ensures
        bits == 0x8007_0005 ==> hresult_code(bits) == ErrorCode::PermissionDenied,
        bits == 0x8007_048F ==> hresult_code(bits) == ErrorCode::Disconnected,
        bits == 0x8007_10DF ==> hresult_code(bits) == ErrorCode::Unavailable,
        bits == 0x8000_4001 ==> hresult_code(bits) == ErrorCode::Unsupported,
        bits == 0x8000_4002 ==> hresult_code(bits) == ErrorCode::Unsupported,
        bits == 0x8007_0032 ==> hresult_code(bits) == ErrorCode::Unsupported,
        bits == 0x8065_000D ==> hresult_code(bits) == ErrorCode::PayloadTooLarge,
        bits != 0x8007_0005 && bits != 0x8007_048F && bits != 0x8007_10DF && bits != 0x8000_4001
            && bits != 0x8000_4002 && bits != 0x8007_0032 && bits != 0x8065_000D ==> hresult_code(
            bits,
        ) == ErrorCode::Internal,
        value == 1 ==> bluetooth_reason(value).0 == ErrorCode::BluetoothOff,
        value == 2 ==> bluetooth_reason(value).0 == ErrorCode::Busy,
        value == 3 ==> bluetooth_reason(value).0 == ErrorCode::Disconnected,
        value == 5 || value == 6 || value == 9 ==> bluetooth_reason(value).0 == ErrorCode::Unsupported,
        value == 7 || value == 8 ==> bluetooth_reason(value).0 == ErrorCode::PermissionDenied,
        value != 1 && value != 2 && value != 3 && value != 5 && value != 6 && value != 7 && value
            != 8 && value != 9 ==> bluetooth_reason(value).0 == ErrorCode::Internal,
        value == 1 ==> communication_reason(value).0 == ErrorCode::Disconnected,
        value == 3 ==> communication_reason(value).0 == ErrorCode::PermissionDenied,
        value != 1 && value != 3 ==> communication_reason(value).0 == ErrorCode::Internal,
        att == 0x0D ==> att_code(att) == ErrorCode::PayloadTooLarge,
        att != 0x0D ==> att_code(att) == ErrorCode::Internal,
{
}

/// The reasons given for the `BluetoothError` values and the GATT communication
/// statuses, and what a command that needs the radio gets in each adapter state.
pub proof fn law_failure_reasons(value: i32, state: AdapterState)
    ensures
        value == 1 ==> bluetooth_reason(value).1 == "the Bluetooth radio is not available"@,
        value == 2 ==> bluetooth_reason(value).1 == "the resource is in use"@,
        value == 3 ==> bluetooth_reason(value).1 == "the device is not connected"@,
        value == 5 ==> bluetooth_reason(value).1 == "a policy disables it"@,
        value == 6 || value == 9 ==> bluetooth_reason(value).1 == "the adapter does not support it"@,
        value == 7 || value == 8 ==> bluetooth_reason(value).1 == "the user did not allow it"@,
        value != 1 && value != 2 && value != 3 && value != 5 && value != 6 && value != 7 && value
            != 8 && value != 9 ==> bluetooth_reason(value).1 == "Windows reported an error"@,
        value == 1 ==> communication_reason(value).1 == "the device is unreachable"@,
        value == 3 ==> communication_reason(value).1 == "access is denied"@,
        value != 1 && value != 3 ==> communication_reason(value).1 == "the GATT request failed"@,
        state == AdapterState::PoweredOn <==> readiness(state) is None,
        state == AdapterState::PoweredOff ==> readiness(state) == Some(
            (ErrorCode::BluetoothOff, "Bluetooth is off"@),
        ),
        state == AdapterState::Unauthorized ==> readiness(state) == Some(
            (ErrorCode::PermissionDenied, "the app may not use Bluetooth"@),
        ),
        state == AdapterState::Unavailable ==> readiness(state) == Some(
            (ErrorCode::Unavailable, "this computer has no Bluetooth LE adapter"@),
        ),
        state == AdapterState::Resetting || state == AdapterState::Unknown ==> readiness(state)
            == Some((ErrorCode::Unavailable, "the Bluetooth adapter is not ready"@)),
{
}

/// 16 to the power `n`.
pub open spec fn pow16(n: nat) -> nat
    decreases n,
{
    if n == 0 {
        1
    } else {
        16 * pow16((n - 1) as nat)
    }
}

/// The number that lowercase hexadecimal digits stand for, most significant first.
pub open spec fn hex_value(digits: Seq<char>) -> int
    decreases digits.len(),
{
    if digits.len() == 0 {
        0
    } else {
        hex_value(digits.drop_last()) * 16 + (if digits.last() <= '9' {
            digits.last() as int - '0' as int
        } else {
            digits.last() as int - 'a' as int + 10
        })
    }
}

/// Native codes in hexadecimal read back: the `width` digits of a value are lowercase
/// hexadecimal digits and stand for the value's last `width` digits, so a value below
/// `16` to the power `width` reads back whole.
pub proof fn law_hex_digits_read_back(value: nat, width: nat)
    ensures
        hex_digits(value, width).len() == width,
        forall|i: int| 0 <= i < width ==> {
            let c = #[trigger] hex_digits(value, width)[i];
            ('0' <= c && c <= '9') || ('a' <= c && c <= 'f')
        },
        hex_value(hex_digits(value, width)) == value % pow16(width),
    decreases width,
{
    lemma_hex_digits_len(value, width);
    if width > 0 {
        let w1 = (width - 1) as nat;
        let q = value / 16;
        let r = value % 16;
        law_hex_digits_read_back(q, w1);
        let d = hex_digits(value, width);
        let prev = hex_digits(q, w1);
        assert(d == prev.push(hex_char(r as int)));
        assert(d.drop_last() =~= prev);
        assert(d.last() == hex_char(r as int));
        assert forall|i: int| 0 <= i < width implies {
            let c = #[trigger] hex_digits(value, width)[i];
            ('0' <= c && c <= '9') || ('a' <= c && c <= 'f')
        } by {
            if i < w1 {
                assert(d[i] == prev[i]);
            }
        }
        assert((if d.last() <= '9' {
            d.last() as int - '0' as int
        } else {
            d.last() as int - 'a' as int + 10
        }) == r);
        assert(pow16(w1) > 0) by {
            lemma_pow16_positive(w1);
        }
        vstd::arithmetic::div_mod::lemma_mod_breakdown(value as int, 16, pow16(w1) as int);
        assert(pow16(width) == 16 * pow16(w1));
        assert(hex_value(d) == (q % pow16(w1)) * 16 + r);
        assert(value % (16 * pow16(w1)) == 16 * (q % pow16(w1)) + r);
    } else {
        assert(value % 1 == 0) by (nonlinear_arith);
    }
}

proof fn lemma_pow16_positive(n: nat)
    ensures
        pow16(n) > 0,
    decreases n,
{
    if n > 0 {
        lemma_pow16_positive((n - 1) as nat);
    }
}

/// The default deadlines: a connect waits 15 s unless its options say otherwise, a
/// discovery 10 s, a read, write, subscription change, notification, server creation
/// or advertising start 5 s; every other command has no default.
pub proof fn law_default_deadlines(command: Command)
    ensures
        command matches Command::Connect { options, .. } ==> default_deadline(command) == Some(
            match options.timeout_ms {
                Some(ms) => ms,
                None => 15_000u64,
            },
        ),
        command is DiscoverServices ==> default_deadline(command) == Some(10_000u64),
        command is Read || command is Write || command is Subscribe || command is Unsubscribe
            || command is Notify || command is CreateServer || command is StartAdvertising
            ==> default_deadline(command) == Some(5_000u64),
        !(command is Connect || command is DiscoverServices || command is Read || command is Write
            || command is Subscribe || command is Unsubscribe || command is Notify
            || command is CreateServer || command is StartAdvertising) ==> default_deadline(command)
            is None,
{
}

} // verus!
