//! Versioned complete-message transport over constrained GATT values.
//!
//! The frame, sender and receiver types perform no radio I/O; the driver module holds
//! the decisions of the driver that runs them over GATT.

pub mod dial;
pub mod driver;
pub mod frame;
pub mod reassembly;
pub mod receiver;
pub mod sender;
pub mod table;
