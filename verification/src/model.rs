//! The data vocabulary of the plugin: adapter state, capabilities, permissions,
//! discovery results, GATT descriptions and server definitions.

use vstd::prelude::*;

use crate::codec::{decode_base64, standard_base64_decoded};
use crate::error::{BleError, BleResult, ErrorCode};
use crate::ids::{CharacteristicHandle, DeviceId, ScanId, ServiceHandle};
use crate::text::{push_text, text_contains, text_is};
use crate::uuid::{all_hex, is_hex_digit, without_hyphens};

verus! {

#[derive(Clone, Copy, Debug, PartialEq, Eq, Structural)]
pub enum AdapterState {
    Unknown,
    Unavailable,
    Unauthorized,
    PoweredOff,
    Resetting,
    PoweredOn,
}

impl Default for AdapterState {
    fn default() -> (state: Self)
        ensures
            state == AdapterState::Unknown,
    {
        AdapterState::Unknown
    }
}

#[derive(Clone, Copy, Debug, PartialEq, Eq, Structural)]
pub enum SupportLevel {
    Supported,
    Unsupported,
    Unknown,
}

#[derive(Clone, Debug, PartialEq, Eq)]
pub struct Support {
    pub level: SupportLevel,
    pub reason: String,
    pub description: Option<String>,
}

impl Support {
    pub fn supported() -> (support: Self)
        ensures
            support.level == SupportLevel::Supported,
            support.reason@ == "available"@,
            support.description is None,
    {
        Support { level: SupportLevel::Supported, reason: "available".to_owned(), description: None }
    }

    pub fn unsupported(reason: &str) -> (support: Self)
        ensures
            support.level == SupportLevel::Unsupported,
            support.reason@ == reason@,
            support.description is None,
    {
        Support { level: SupportLevel::Unsupported, reason: reason.to_owned(), description: None }
    }

    pub fn unknown(reason: &str) -> (support: Self)
        ensures
            support.level == SupportLevel::Unknown,
            support.reason@ == reason@,
            support.description is None,
    {
        Support { level: SupportLevel::Unknown, reason: reason.to_owned(), description: None }
    }
}

#[derive(Clone, Debug, PartialEq, Eq)]
pub struct Capabilities {
    pub central: Support,
    pub peripheral: Support,
    pub advertising: Support,
    pub targeted_notify: Support,
    pub simultaneous_roles: Support,
    pub background: Support,
    pub max_connections: Option<u32>,
    pub max_advertising_data_length: Option<u32>,
}

/// A `Support` entry of level `level` for `reason`, with no description.
pub open spec fn support_is(support: Support, level: SupportLevel, reason: Seq<char>) -> bool {
    &&& support.level == level
    &&& support.reason@ == reason
    &&& support.description is None
}

/// A support entry of level `Unknown` for the reason "notProbed".
pub open spec fn not_probed(support: Support) -> bool {
    &&& support.level == SupportLevel::Unknown
    &&& support.reason@ == "notProbed"@
    &&& support.description is None
}

impl Capabilities {
    /// Capabilities before any probe: every role unknown, no limits.
    pub fn unknown() -> (capabilities: Self)
        ensures
            not_probed(capabilities.central),
            not_probed(capabilities.peripheral),
            not_probed(capabilities.advertising),
            not_probed(capabilities.targeted_notify),
            not_probed(capabilities.simultaneous_roles),
            not_probed(capabilities.background),
            capabilities.max_connections is None,
            capabilities.max_advertising_data_length is None,
    {
        Capabilities {
            central: Support::unknown("notProbed"),
            peripheral: Support::unknown("notProbed"),
            advertising: Support::unknown("notProbed"),
            targeted_notify: Support::unknown("notProbed"),
            simultaneous_roles: Support::unknown("notProbed"),
            background: Support::unknown("notProbed"),
            max_connections: None,
            max_advertising_data_length: None,
        }
    }
}

#[derive(Clone, Copy, Debug, PartialEq, Eq, Structural)]
pub enum PermissionOutcome {
    Granted,
    Promptable,
    DeniedPermanently,
    Restricted,
    NotRequired,
    Unknown,
}

#[derive(Clone, Debug, PartialEq, Eq, Structural)]
pub struct PermissionState {
    pub scan: PermissionOutcome,
    pub connect: PermissionOutcome,
    pub advertise: PermissionOutcome,
}

#[derive(Clone, Debug, PartialEq, Eq, Structural)]
pub struct PermissionRequest {
    pub scan: bool,
    pub connect: bool,
    pub advertise: bool,
}

#[derive(Clone, Debug, PartialEq, Eq)]
pub struct AdvertisementData {
    pub local_name: Option<String>,
    pub service_data: Vec<ServiceData>,
    pub manufacturer_data: Vec<ManufacturerData>,
    pub connectable: Option<bool>,
}

#[derive(Clone, Debug, PartialEq, Eq)]
pub struct ServiceData {
    pub service_uuid: String,
    pub bytes_base64: String,
}

#[derive(Clone, Debug, PartialEq, Eq)]
pub struct ManufacturerData {
    pub company_id: u16,
    pub bytes_base64: String,
}

#[derive(Clone, Debug, PartialEq, Eq)]
pub struct DiscoveredDevice {
    pub id: DeviceId,
    pub name: Option<String>,
    pub rssi: Option<i16>,
    pub service_uuids: Vec<String>,
    pub advertisement: Option<AdvertisementData>,
    pub observed_at_millis: u64,
    pub scan_id: ScanId,
}

#[derive(Clone, Debug, PartialEq, Eq, Structural)]
pub struct LinkLimits {
    pub write_with_response: Option<u32>,
    pub write_without_response: Option<u32>,
    pub notification: Option<u32>,
    pub att_mtu: Option<u32>,
}

#[derive(Clone, Debug, PartialEq, Eq)]
pub struct ScanOptions {
    pub service_uuids: Vec<String>,
    pub timeout_ms: Option<u64>,
}

#[derive(Clone, Debug, PartialEq, Eq, Structural)]
pub struct ConnectOptions {
    pub timeout_ms: Option<u64>,
}

#[derive(Clone, Copy, Debug, PartialEq, Eq, Structural)]
pub enum WriteType {
    WithResponse,
    WithoutResponse,
}

#[derive(Clone, Debug, PartialEq, Eq)]
pub struct ServiceInstance {
    pub handle: ServiceHandle,
    pub uuid: String,
    pub characteristics: Vec<CharacteristicInstance>,
}

#[derive(Clone, Debug, PartialEq, Eq)]
pub struct CharacteristicInstance {
    pub handle: CharacteristicHandle,
    pub uuid: String,
    pub properties: CharacteristicProperties,
}

#[derive(Clone, Copy, Debug, PartialEq, Eq, Structural)]
pub struct CharacteristicProperties {
    pub read: bool,
    pub write: bool,
    pub write_without_response: bool,
    pub notify: bool,
    pub indicate: bool,
}

impl Default for CharacteristicProperties {
    /// No property.
    fn default() -> (properties: Self)
        ensures
            properties == (CharacteristicProperties {
                read: false,
                write: false,
                write_without_response: false,
                notify: false,
                indicate: false,
            }),
    {
        CharacteristicProperties {
            read: false,
            write: false,
            write_without_response: false,
            notify: false,
            indicate: false,
        }
    }
}

#[derive(Clone, Debug, PartialEq, Eq)]
pub struct ServerDefinition {
    pub services: Vec<LocalService>,
}

#[derive(Clone, Debug, PartialEq, Eq)]
pub struct LocalService {
    pub instance_key: String,
    pub uuid: String,
    pub primary: bool,
    pub characteristics: Vec<LocalCharacteristic>,
}

#[derive(Clone, Debug, PartialEq, Eq)]
pub struct LocalCharacteristic {
    pub instance_key: String,
    pub uuid: String,
    pub properties: CharacteristicProperties,
    pub initial_value_base64: Option<String>,
    pub max_value_length: u32,
}

#[derive(Clone, Debug, PartialEq, Eq)]
pub struct AdvertisingOptions {
    pub service_uuid: String,
    pub local_name: Option<String>,
    pub local_name_optional: bool,
}

#[derive(Clone, Debug, PartialEq, Eq, Structural)]
pub struct AdvertisingReport {
    pub local_name_included: bool,
    pub local_name_truncated: bool,
}

#[derive(Clone, Copy, Debug, PartialEq, Eq, Structural)]
pub enum ScanState {
    Starting,
    Active,
    Stopping,
    Stopped,
    Failed,
}

#[derive(Clone, Copy, Debug, PartialEq, Eq, Structural)]
pub enum ConnectionState {
    Connecting,
    Connected,
    Disconnecting,
    Closed,
    Failed,
}

#[derive(Clone, Copy, Debug, PartialEq, Eq, Structural)]
pub enum ServerState {
    Registering,
    Ready,
    Advertising,
    Closing,
    Closed,
    Failed,
}

#[derive(Clone, Debug, PartialEq, Eq, Structural)]
pub struct ResourceSnapshot {
    pub scans: usize,
    pub connections: usize,
    pub subscriptions: usize,
    pub servers: usize,
}

/// How long an operation may take before it times out, in milliseconds.
#[derive(Clone, Copy, Debug, PartialEq, Eq, Structural)]
pub struct Deadlines {
    pub connect: u64,
    pub discovery: u64,
    pub procedure: u64,
}

impl Default for Deadlines {
    /// Fifteen seconds to connect, ten to discover, five for any other procedure.
    fn default() -> (deadlines: Self)
        ensures
            deadlines == (Deadlines { connect: 15_000, discovery: 10_000, procedure: 5_000 }),
    {
        Deadlines { connect: 15_000, discovery: 10_000, procedure: 5_000 }
    }
}

/// The name that `text` gives an adapter state, if any.
pub open spec fn adapter_state_named(text: Seq<char>) -> Option<AdapterState> {
    if text == "unknown"@ {
        Some(AdapterState::Unknown)
    } else if text == "unavailable"@ {
        Some(AdapterState::Unavailable)
    } else if text == "unauthorized"@ {
        Some(AdapterState::Unauthorized)
    } else if text == "poweredOff"@ {
        Some(AdapterState::PoweredOff)
    } else if text == "resetting"@ {
        Some(AdapterState::Resetting)
    } else if text == "poweredOn"@ {
        Some(AdapterState::PoweredOn)
    } else {
        None
    }
}

impl AdapterState {
    /// Parses the camel-case name of an adapter state.
    pub fn parse(value: &str) -> (state: BleResult<AdapterState>)
        ensures
            match adapter_state_named(value@) {
                Some(named) => state == Ok::<AdapterState, BleError>(named),
                None => state matches Err(e) && e.is_plain(ErrorCode::InvalidArgument) && e.message@
                    == "unknown adapter state"@,
            },
    {
        if text_is(value, "unknown") {
            Ok(AdapterState::Unknown)
        } else if text_is(value, "unavailable") {
            Ok(AdapterState::Unavailable)
        } else if text_is(value, "unauthorized") {
            Ok(AdapterState::Unauthorized)
        } else if text_is(value, "poweredOff") {
            Ok(AdapterState::PoweredOff)
        } else if text_is(value, "resetting") {
            Ok(AdapterState::Resetting)
        } else if text_is(value, "poweredOn") {
            Ok(AdapterState::PoweredOn)
        } else {
            Err(BleError::new(ErrorCode::InvalidArgument, "unknown adapter state"))
        }
    }
}

impl std::str::FromStr for AdapterState {
    type Err = BleError;

    /// The adapter state of its camel-case name, as [`AdapterState::parse`] reads it.
    fn from_str(value: &str) -> (state: Result<Self, Self::Err>)
        ensures
            match adapter_state_named(value@) {
                Some(named) => state == Ok::<AdapterState, BleError>(named),
                None => state matches Err(e) && e.is_plain(ErrorCode::InvalidArgument) && e.message@
                    == "unknown adapter state"@,
            },
    {
        AdapterState::parse(value)
    }
}

/// A 128-bit UUID in hexadecimal, with or without hyphens.
pub open spec fn uuid_is_valid(value: Seq<char>) -> bool {
    &&& without_hyphens(value).len() == 32
    &&& all_hex(without_hyphens(value))
}

fn compact_uuid_is_valid(value: &str) -> (valid: bool)
    ensures
        valid == uuid_is_valid(value@),
{
    let chars = crate::text::chars_of(value);
    let mut count: usize = 0;
    let mut hex = true;
    let mut i: usize = 0;
    while i < chars.len()
        invariant
            chars@ == value@,
            i <= chars@.len(),
            count == without_hyphens(chars@.subrange(0, i as int)).len(),
            count <= i,
            hex == all_hex(without_hyphens(chars@.subrange(0, i as int))),
        decreases chars@.len() - i,
    {
        let ghost prefix = chars@.subrange(0, i + 1);
        let ghost before = without_hyphens(chars@.subrange(0, i as int));
        assert(prefix.drop_last() =~= chars@.subrange(0, i as int));
        let c = chars[i];
        if c != '-' {
            count = count + 1;
            let is_digit = ('0' <= c && c <= '9') || ('a' <= c && c <= 'f') || ('A' <= c && c
                <= 'F');
            proof {
                let after = before.push(c);
                assert(without_hyphens(prefix) == after);
                if hex && is_digit {
                    assert forall|j: int| 0 <= j < after.len() implies is_hex_digit(
                        #[trigger] after[j],
                    ) by {
                        if j < before.len() {
                            assert(after[j] == before[j]);
                        }
                    }
                }
                if !is_digit {
                    assert(!is_hex_digit(after[after.len() - 1]));
                }
                if !hex {
                    let bad = choose|j: int| 0 <= j < before.len() && !is_hex_digit(before[j]);
                    assert(after[bad] == before[bad]);
                }
            }
            hex = hex && is_digit;
        }
        i = i + 1;
    }
    assert(chars@.subrange(0, i as int) =~= chars@);
    count == 32 && hex
}

/// Validates a canonical 128-bit hexadecimal UUID, with or without hyphens.
pub fn validate_uuid(value: &str) -> (valid: BleResult<()>)
    ensures
        valid is Ok <==> uuid_is_valid(value@),
        valid matches Err(e) ==> e.is_plain(ErrorCode::InvalidArgument) && e.message@
            == uuid_message(),
{
    if !compact_uuid_is_valid(value) {
        return Err(
            BleError::new(ErrorCode::InvalidArgument, "UUID must be a 128-bit hexadecimal UUID"),
        );
    }
    Ok(())
}

/// The message of a UUID that is not 128 bits of hexadecimal digits.
pub open spec fn uuid_message() -> Seq<char> {
    "UUID must be a 128-bit hexadecimal UUID"@
}

/// The initial value, if any, is base64 that decodes within the maximum length.
pub open spec fn initial_value_fits(c: LocalCharacteristic) -> bool {
    match c.initial_value_base64 {
        None => true,
        Some(text) => match standard_base64_decoded(text@) {
            Some(bytes) => bytes.len() <= c.max_value_length,
            None => false,
        },
    }
}

pub open spec fn characteristic_is_valid(c: LocalCharacteristic) -> bool {
    &&& uuid_is_valid(c.uuid@)
    &&& !c.instance_key@.contains('/')
    &&& c.max_value_length > 0
    &&& initial_value_fits(c)
}

/// The characteristics of a service before `n` have distinct instance keys.
pub open spec fn keys_distinct_before(s: LocalService, n: int) -> bool {
    forall|a: int, b: int|
        0 <= a < b < n ==> #[trigger] s.characteristics@[a].instance_key@
            != #[trigger] s.characteristics@[b].instance_key@
}

pub open spec fn service_is_valid(s: LocalService) -> bool {
    &&& uuid_is_valid(s.uuid@)
    &&& !s.instance_key@.contains('/')
    &&& forall|k: int|
        0 <= k < s.characteristics@.len() ==> characteristic_is_valid(
            #[trigger] s.characteristics@[k],
        )
    &&& keys_distinct_before(s, s.characteristics@.len() as int)
}

/// Services before `n` are valid and their instance keys distinct.
pub open spec fn services_ok(services: Seq<LocalService>, n: int) -> bool {
    &&& forall|s: int| 0 <= s < n ==> service_is_valid(#[trigger] services[s])
    &&& forall|p: int, s: int|
        0 <= p < s < n ==> #[trigger] services[p].instance_key@ != #[trigger] services[s].instance_key@
}

/// A server definition that a platform may be given: at least one service, every UUID
/// valid, no instance key holding `/`, positive maximum lengths, initial values that
/// decode within them, distinct service keys, and distinct characteristic keys within
/// each service. A characteristic is known on its server by the two keys joined with
/// `/`, which no key holds, so distinct keys within each service keep those distinct.
pub open spec fn definition_is_valid(services: Seq<LocalService>) -> bool {
    &&& services.len() > 0
    &&& services_ok(services, services.len() as int)
}

/// Why characteristic `k` of service `i`, or a later one of that service, makes a
/// definition invalid: the message of the first rule that the first such
/// characteristic breaks, in the order the rules are checked.
pub open spec fn characteristic_problem(services: Seq<LocalService>, i: int, k: int) -> Option<
    Seq<char>,
>
    decreases services[i].characteristics@.len() - k,
{
    if k < 0 || k >= services[i].characteristics@.len() {
        None
    } else {
        let c = services[i].characteristics@[k];
        if !uuid_is_valid(c.uuid@) {
            Some(uuid_message())
        } else if c.instance_key@.contains('/') {
            Some("instance keys must not contain '/'"@)
        } else if c.max_value_length == 0 {
            Some("characteristic max value length must be positive"@)
        } else if exists|b: int|
            0 <= b < k && #[trigger] services[i].characteristics@[b].instance_key@
                == c.instance_key@ {
            Some("duplicate characteristic instance key within service"@)
        } else if c.initial_value_base64 matches Some(text) && standard_base64_decoded(text@) is None {
            Some("characteristic initial value is not valid base64"@)
        } else if !initial_value_fits(c) {
            Some("characteristic initial value exceeds its maximum length"@)
        } else {
            characteristic_problem(services, i, k + 1)
        }
    }
}

/// Why service `i`, or a later one, makes a definition invalid: the message of
/// the first rule broken, in the order the rules are checked.
pub open spec fn service_problem(services: Seq<LocalService>, i: int) -> Option<Seq<char>>
    decreases services.len() - i,
{
    if i < 0 || i >= services.len() {
        None
    } else {
        let s = services[i];
        if !uuid_is_valid(s.uuid@) {
            Some(uuid_message())
        } else if s.instance_key@.contains('/') {
            Some("instance keys must not contain '/'"@)
        } else if exists|p: int| 0 <= p < i && #[trigger] services[p].instance_key@ == s.instance_key@ {
            Some("duplicate service instance key"@)
        } else {
            match characteristic_problem(services, i, 0) {
                Some(message) => Some(message),
                None => service_problem(services, i + 1),
            }
        }
    }
}

/// The message a definition is refused with, or `None` when it is valid.
pub open spec fn definition_problem(services: Seq<LocalService>) -> Option<Seq<char>> {
    if services.len() == 0 {
        Some("at least one service is required"@)
    } else {
        service_problem(services, 0)
    }
}

fn invalid(message: &str) -> (error: BleError)
    ensures
        error.is_plain(ErrorCode::InvalidArgument),
        error.message@ == message@,
{
    BleError::new(ErrorCode::InvalidArgument, message)
}

/// Validates a local GATT server definition before it reaches a platform SDK.
pub fn validate_server_definition(definition: &ServerDefinition) -> (valid: BleResult<()>)
    ensures
        valid is Ok <==> definition_is_valid(definition.services@),
        match valid {
            Ok(_) => definition_problem(definition.services@) is None,
            Err(e) => e.is_plain(ErrorCode::InvalidArgument) && definition_problem(
                definition.services@,
            ) == Some(e.message@),
        },
{
    let services = &definition.services;
    if services.len() == 0 {
        return Err(invalid("at least one service is required"));
    }
    let mut i: usize = 0;
    while i < services.len()
        invariant
            *services == definition.services,
            i <= services@.len(),
            services_ok(services@, i as int),
            service_problem(services@, 0) == service_problem(services@, i as int),
        decreases services@.len() - i,
    {
        let service = &services[i];
        if validate_uuid(service.uuid.as_str()).is_err() {
            return Err(invalid("UUID must be a 128-bit hexadecimal UUID"));
        }
        if text_contains(service.instance_key.as_str(), '/') {
            return Err(invalid("instance keys must not contain '/'"));
        }
        let mut p: usize = 0;
        while p < i
            invariant
                *services == definition.services,
                i < services@.len(),
                p <= i,
                *service == services@[i as int],
                uuid_is_valid(service.uuid@),
                !service.instance_key@.contains('/'),
                service_problem(services@, 0) == service_problem(services@, i as int),
                forall|q: int|
                    0 <= q < p ==> (#[trigger] services@[q]).instance_key@
                        != service.instance_key@,
            decreases i - p,
        {
            if services[p].instance_key == service.instance_key {
                assert(services@[p as int].instance_key@ == services@[i as int].instance_key@);
                return Err(invalid("duplicate service instance key"));
            }
            p = p + 1;
        }
        let characteristics = &service.characteristics;
        let mut k: usize = 0;
        while k < characteristics.len()
            invariant
                *services == definition.services,
                i < services@.len(),
                *service == services@[i as int],
                *characteristics == service.characteristics,
                k <= characteristics@.len(),
                services_ok(services@, i as int),
                uuid_is_valid(service.uuid@),
                !service.instance_key@.contains('/'),
                forall|q: int|
                    0 <= q < i ==> (#[trigger] services@[q]).instance_key@
                        != service.instance_key@,
                forall|b: int| 0 <= b < k ==> characteristic_is_valid(#[trigger] characteristics@[b]),
                keys_distinct_before(*service, k as int),
                service_problem(services@, 0) == service_problem(services@, i as int),
                characteristic_problem(services@, i as int, 0) == characteristic_problem(
                    services@,
                    i as int,
                    k as int,
                ),
            decreases characteristics@.len() - k,
        {
            let c = &characteristics[k];
            if validate_uuid(c.uuid.as_str()).is_err() {
                return Err(invalid("UUID must be a 128-bit hexadecimal UUID"));
            }
            if text_contains(c.instance_key.as_str(), '/') {
                return Err(invalid("instance keys must not contain '/'"));
            }
            if c.max_value_length == 0 {
                return Err(invalid("characteristic max value length must be positive"));
            }
            let mut b: usize = 0;
            while b < k
                invariant
                    *services == definition.services,
                    i < services@.len(),
                    *service == services@[i as int],
                    *characteristics == service.characteristics,
                    k < characteristics@.len(),
                    *c == characteristics@[k as int],
                    b <= k,
                    uuid_is_valid(service.uuid@),
                    !service.instance_key@.contains('/'),
                    uuid_is_valid(c.uuid@),
                    !c.instance_key@.contains('/'),
                    c.max_value_length > 0,
                    forall|q: int|
                        0 <= q < i ==> (#[trigger] services@[q]).instance_key@
                            != service.instance_key@,
                    service_problem(services@, 0) == service_problem(services@, i as int),
                    characteristic_problem(services@, i as int, 0) == characteristic_problem(
                        services@,
                        i as int,
                        k as int,
                    ),
                    forall|q: int|
                        0 <= q < b ==> (#[trigger] characteristics@[q]).instance_key@
                            != c.instance_key@,
                decreases k - b,
            {
                if characteristics[b].instance_key == c.instance_key {
                    assert(characteristics@[b as int].instance_key@ == c.instance_key@);
                    assert(!keys_distinct_before(services@[i as int], characteristics@.len() as int));
                    assert(!service_is_valid(services@[i as int]));
                    return Err(invalid("duplicate characteristic instance key within service"));
                }
                b = b + 1;
            }
            match &c.initial_value_base64 {
                Some(text) => match decode_base64(text.as_str()) {
                    Some(bytes) => {
                        if bytes.len() > c.max_value_length as usize {
                            return Err(
                                invalid("characteristic initial value exceeds its maximum length"),
                            );
                        }
                    },
                    None => {
                        return Err(invalid("characteristic initial value is not valid base64"));
                    },
                },
                None => {},
            }
            k = k + 1;
        }
        proof {
            assert(service_is_valid(services@[i as int]));
        }
        i = i + 1;
    }
    Ok(())
}

} // verus!
