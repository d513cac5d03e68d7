//! The rules of the Windows backend that hold no platform type: identifiers, queues,
//! scan results, ATT limits, the advertisement, how a link closes and the error codes.

pub mod advertise;
pub mod status;
pub mod gatt;
pub mod ids;
pub mod queue;
pub mod engine;
pub mod link;
pub mod scan;
