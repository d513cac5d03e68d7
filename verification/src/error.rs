use vstd::prelude::*;

use crate::ids::{OperationId, ResourceId};

verus! {

/// The contract error codes every backend reports.
#[derive(Clone, Copy, Debug, PartialEq, Eq, Structural)]
pub enum ErrorCode {
    PermissionDenied,
    BluetoothOff,
    Unavailable,
    Unsupported,
    InvalidArgument,
    InvalidHandle,
    Busy,
    Timeout,
    Disconnected,
    PayloadTooLarge,
    QueueFull,
    ProtocolMismatch,
    Cancelled,
    Internal,
}

/// How far a failed send got.
#[derive(Clone, Copy, Debug, PartialEq, Eq, Structural)]
pub enum DeliveryOutcome {
    NotSubmitted,
    Unknown,
    TransportAcknowledged,
}

/// A structured error with its contract code.
#[derive(Clone, Debug, PartialEq, Eq)]
pub struct BleError {
    pub code: ErrorCode,
    pub message: String,
    pub operation_id: Option<OperationId>,
    pub resource_id: Option<ResourceId>,
    pub delivery: Option<DeliveryOutcome>,
    pub native_code: Option<String>,
}

pub type BleResult<T> = Result<T, BleError>;

/// The message of [`BleError::invalid_handle`].
pub open spec fn invalid_handle_message() -> Seq<char> {
    "resource handle is stale, unknown, or belongs to another owner"@
}

impl BleError {
    /// A plain error: a code and a message, nothing attached.
    pub open spec fn is_plain(&self, code: ErrorCode) -> bool {
        &&& self.code == code
        &&& self.operation_id is None
        &&& self.resource_id is None
        &&& self.delivery is None
        &&& self.native_code is None
    }

    pub fn new(code: ErrorCode, message: &str) -> (error: Self)
        ensures
            error.is_plain(code),
            error.message@ == message@,
    {
        BleError {
            code,
            message: message.to_owned(),
            operation_id: None,
            resource_id: None,
            delivery: None,
            native_code: None,
        }
    }

    /// An error with a message built by the caller.
    pub fn with_message(code: ErrorCode, message: String) -> (error: Self)
        ensures
            error.is_plain(code),
            error.message == message,
    {
        BleError {
            code,
            message,
            operation_id: None,
            resource_id: None,
            delivery: None,
            native_code: None,
        }
    }

    pub fn unsupported(reason: &str) -> (error: Self)
        ensures
            error.is_plain(ErrorCode::Unsupported),
            error.message@ == reason@,
    {
        Self::new(ErrorCode::Unsupported, reason)
    }

    pub fn invalid_handle(resource: ResourceId) -> (error: Self)
        ensures
            error.code == ErrorCode::InvalidHandle,
            error.message@ == invalid_handle_message(),
            error.operation_id is None,
            error.resource_id == Some(resource),
            error.delivery is None,
            error.native_code is None,
    {
        let message = "resource handle is stale, unknown, or belongs to another owner";
        proof {
            reveal_strlit("resource handle is stale, unknown, or belongs to another owner");
        }
        BleError {
            code: ErrorCode::InvalidHandle,
            message: message.to_owned(),
            operation_id: None,
            resource_id: Some(resource),
            delivery: None,
            native_code: None,
        }
    }

    /// A copy of the error.
    pub fn duplicate(&self) -> (copy: Self)
        ensures
            copy == *self,
    {
        BleError {
            code: self.code,
            message: self.message.clone(),
            operation_id: match &self.operation_id {
                Some(id) => Some(id.duplicate()),
                None => None,
            },
            resource_id: match &self.resource_id {
                Some(id) => Some(id.duplicate()),
                None => None,
            },
            delivery: self.delivery,
            native_code: match &self.native_code {
                Some(code) => Some(code.clone()),
                None => None,
            },
        }
    }

    pub fn with_operation(self, operation_id: OperationId) -> (error: Self)
        ensures
            error == (BleError { operation_id: Some(operation_id), ..self }),
    {
        let mut error = self;
        error.operation_id = Some(operation_id);
        error
    }
}

} // verus!
