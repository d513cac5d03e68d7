//! The command vocabulary between the plugin and a backend: commands, replies,
//! events and the context an operation runs in.

use vstd::prelude::*;

use crate::ids::{
    CharacteristicHandle, ConnectionId, DeviceId, OperationId, OwnerId, PeerId, ScanId, ServerId,
    SubscriptionId,
};
use crate::model::{
    AdapterState, AdvertisingOptions, AdvertisingReport, Capabilities, ConnectOptions,
    DiscoveredDevice, LinkLimits, PermissionRequest, PermissionState, ResourceSnapshot,
    ScanOptions, ServerDefinition, ServiceInstance, WriteType,
};

verus! {

#[derive(Clone, Debug, PartialEq, Eq)]
pub enum Command {
    GetState,
    GetCapabilities,
    CheckPermissions,
    RequestPermissions(PermissionRequest),
    StartScan(ScanOptions),
    StopScan { scan_id: ScanId },
    Connect { device_id: DeviceId, options: ConnectOptions },
    Disconnect { connection_id: ConnectionId },
    DiscoverServices { connection_id: ConnectionId },
    Read { connection_id: ConnectionId, characteristic: CharacteristicHandle },
    Write {
        connection_id: ConnectionId,
        characteristic: CharacteristicHandle,
        value_base64: String,
        write_type: WriteType,
    },
    Subscribe { connection_id: ConnectionId, characteristic: CharacteristicHandle },
    Unsubscribe { subscription_id: SubscriptionId },
    CreateServer(ServerDefinition),
    CloseServer { server_id: ServerId },
    StartAdvertising { server_id: ServerId, options: AdvertisingOptions },
    StopAdvertising { server_id: ServerId },
    SetValue { server_id: ServerId, characteristic_key: String, value_base64: String },
    Notify {
        server_id: ServerId,
        peer_id: PeerId,
        characteristic_key: String,
        value_base64: String,
    },
    Cancel { operation_id: OperationId },
    CloseOwner,
    DebugResources,
}

#[derive(Clone, Debug, PartialEq, Eq)]
pub enum Reply {
    Empty,
    State(AdapterState),
    Capabilities(Capabilities),
    Permissions(PermissionState),
    ScanStarted { scan_id: ScanId },
    Connected { connection_id: ConnectionId, limits: LinkLimits },
    Services(Vec<ServiceInstance>),
    Bytes { value_base64: String },
    SubscriptionStarted { subscription_id: SubscriptionId },
    ServerCreated { server_id: ServerId },
    AdvertisingStarted(AdvertisingReport),
    Resources(ResourceSnapshot),
}

#[derive(Clone, Debug, PartialEq, Eq)]
pub enum Event {
    AdapterStateChanged { state: AdapterState },
    ScanResult { device: DiscoveredDevice },
    ScanStopped { scan_id: ScanId },
    ConnectionClosed { connection_id: ConnectionId },
    CharacteristicValue { subscription_id: SubscriptionId, value_base64: String },
    ServerWrite {
        server_id: ServerId,
        peer_id: Option<PeerId>,
        characteristic_key: String,
        value_base64: String,
    },
    SubscriptionChanged {
        server_id: ServerId,
        peer_id: PeerId,
        characteristic_key: String,
        subscribed: bool,
        max_value_length: Option<u32>,
    },
    CriticalStateLoss { resource_id: String, reason: String },
}

impl Event {
    /// The name of the event's kind on the wire.
    pub fn kind(&self) -> (kind: &'static str)
        ensures
            kind@ == match self {
                Event::AdapterStateChanged { .. } => "adapterStateChanged"@,
                Event::ScanResult { .. } => "scanResult"@,
                Event::ScanStopped { .. } => "scanStopped"@,
                Event::ConnectionClosed { .. } => "connectionClosed"@,
                Event::CharacteristicValue { .. } => "characteristicValue"@,
                Event::ServerWrite { .. } => "serverWrite"@,
                Event::SubscriptionChanged { .. } => "subscriptionChanged"@,
                Event::CriticalStateLoss { .. } => "criticalStateLoss"@,
            },
    {
        match self {
            Event::AdapterStateChanged { .. } => "adapterStateChanged",
            Event::ScanResult { .. } => "scanResult",
            Event::ScanStopped { .. } => "scanStopped",
            Event::ConnectionClosed { .. } => "connectionClosed",
            Event::CharacteristicValue { .. } => "characteristicValue",
            Event::ServerWrite { .. } => "serverWrite",
            Event::SubscriptionChanged { .. } => "subscriptionChanged",
            Event::CriticalStateLoss { .. } => "criticalStateLoss",
        }
    }
}

/// One event from the native layer, with the owner of its resource.
#[derive(Clone, Debug, PartialEq, Eq)]
pub struct EventEnvelope {
    pub owner_id: OwnerId,
    pub event: Event,
}

#[derive(Clone, Debug, PartialEq, Eq)]
pub struct OperationContext {
    pub operation_id: OperationId,
    pub owner_id: OwnerId,
    pub deadline_millis: Option<u64>,
}

} // verus!
