//! Bluetooth Low Energy contracts of the gattify plugin: the error model, the
//! command vocabulary, the service scope, the peer frame protocol with its
//! sender and receiver, and the platform-neutral rules of the Windows backend.

mod error;
mod ids;
pub mod text;
pub mod uuid;
pub mod model;
pub mod codec;
pub mod command;
pub mod endpoints;
pub mod mock;
pub mod scope;
pub mod events;
pub mod system;
pub mod manager;
pub mod gate;

pub use error::{BleError, BleResult, DeliveryOutcome, ErrorCode};
pub use ids::{
    AdapterId, CharacteristicHandle, ConnectionId, DeviceId, OperationId, OwnerId, PeerId,
    ResourceId, ScanId, ServerId, ServiceHandle, SubscriptionId,
};
pub mod peer;
pub mod winrt;
