//! The errors the Windows engine reports for its own rules.

use vstd::prelude::*;

use crate::codec::{decode_base64, standard_base64_decoded};
use crate::error::{BleError, BleResult, ErrorCode};

verus! {

pub fn timeout() -> (error: BleError)
    ensures
        error.is_plain(ErrorCode::Timeout),
        error.message@ == "the deadline passed"@,
{
    BleError::new(ErrorCode::Timeout, "the deadline passed")
}

pub fn cancelled() -> (error: BleError)
    ensures
        error.is_plain(ErrorCode::Cancelled),
        error.message@ == "the operation was cancelled"@,
{
    BleError::new(ErrorCode::Cancelled, "the operation was cancelled")
}

pub fn disconnected(message: &str) -> (error: BleError)
    ensures
        error.is_plain(ErrorCode::Disconnected),
        error.message@ == message@,
{
    BleError::new(ErrorCode::Disconnected, message)
}

pub fn invalid_argument(message: &str) -> (error: BleError)
    ensures
        error.is_plain(ErrorCode::InvalidArgument),
        error.message@ == message@,
{
    BleError::new(ErrorCode::InvalidArgument, message)
}

pub fn busy(message: &str) -> (error: BleError)
    ensures
        error.is_plain(ErrorCode::Busy),
        error.message@ == message@,
{
    BleError::new(ErrorCode::Busy, message)
}

/// The bytes of a base64 value from a command.
pub fn decode(value_base64: &str) -> (bytes: BleResult<Vec<u8>>)
    ensures
        match standard_base64_decoded(value_base64@) {
            Some(decoded) => bytes matches Ok(b) && b@ == decoded,
            None => bytes matches Err(e) && e.is_plain(ErrorCode::InvalidArgument) && e.message@
                == "valueBase64 is not valid base64"@,
        },
{
    match decode_base64(value_base64) {
        Some(bytes) => Ok(bytes),
        None => Err(invalid_argument("valueBase64 is not valid base64")),
    }
}

/// The error of a command that reaches a Windows thread that no longer runs.
pub fn stopped() -> (error: BleError)
    ensures
        error.is_plain(ErrorCode::Unavailable),
        error.message@ == "the Windows Bluetooth thread is not running"@,
{
    BleError::new(ErrorCode::Unavailable, "the Windows Bluetooth thread is not running")
}

} // verus!
