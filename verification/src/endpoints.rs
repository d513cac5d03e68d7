//! What the plugin's command endpoints decide before a command runs: which
//! commands each role-specific endpoint passes, and how a peer send is read.

use vstd::prelude::*;

use crate::codec::{decode_base64, standard_base64_decoded};
use crate::command::Command;
use crate::error::{BleError, BleResult, DeliveryOutcome, ErrorCode};

verus! {

/// The role-specific endpoint through which a webview sends a command.
#[derive(Clone, Copy, Debug, PartialEq, Eq, Structural)]
pub enum CommandRole {
    Scan,
    Connect,
    Server,
    Advertise,
}

/// The one endpoint a command belongs to; `None` for the commands that no
/// role-specific endpoint passes (status, permissions, cancel, cleanup).
pub open spec fn role_of(command: Command) -> Option<CommandRole> {
    match command {
        Command::StartScan(_) | Command::StopScan { .. } => Some(CommandRole::Scan),
        Command::Connect { .. }
        | Command::Disconnect { .. }
        | Command::DiscoverServices { .. }
        | Command::Read { .. }
        | Command::Write { .. }
        | Command::Subscribe { .. }
        | Command::Unsubscribe { .. } => Some(CommandRole::Connect),
        Command::CreateServer(_)
        | Command::CloseServer { .. }
        | Command::SetValue { .. }
        | Command::Notify { .. } => Some(CommandRole::Server),
        Command::StartAdvertising { .. } | Command::StopAdvertising { .. } => Some(
            CommandRole::Advertise,
        ),
        _ => None,
    }
}

/// Whether `command` may pass through the endpoint of `role`.
pub fn command_has_role(command: &Command, role: CommandRole) -> (has: bool)
    ensures
        has <==> role_of(*command) == Some(role),
{
    match role {
        CommandRole::Scan => matches!(command, Command::StartScan(_) | Command::StopScan { .. }),
        CommandRole::Connect => matches!(
            command,
            Command::Connect { .. }
            | Command::Disconnect { .. }
            | Command::DiscoverServices { .. }
            | Command::Read { .. }
            | Command::Write { .. }
            | Command::Subscribe { .. }
            | Command::Unsubscribe { .. }
        ),
        CommandRole::Server => matches!(
            command,
            Command::CreateServer(_)
            | Command::CloseServer { .. }
            | Command::SetValue { .. }
            | Command::Notify { .. }
        ),
        CommandRole::Advertise => matches!(
            command,
            Command::StartAdvertising { .. } | Command::StopAdvertising { .. }
        ),
    }
}

/// The message of a command sent through another role's endpoint.
pub open spec fn wrong_role_message() -> Seq<char> {
    "command is not permitted through this role-specific endpoint"@
}

/// The endpoint check: `Ok` exactly when `command` belongs to `role`, else a
/// plain `InvalidArgument` error.
pub fn check_role(command: &Command, role: CommandRole) -> (checked: BleResult<()>)
    ensures
        checked is Ok <==> role_of(*command) == Some(role),
        checked matches Err(error) ==> error.is_plain(ErrorCode::InvalidArgument)
            && error.message@ == wrong_role_message(),
{
    if command_has_role(command, role) {
        Ok(())
    } else {
        Err(BleError::new(
            ErrorCode::InvalidArgument,
            "command is not permitted through this role-specific endpoint",
        ))
    }
}

/// The message of a send whose payload is not base64.
pub open spec fn send_payload_message() -> Seq<char> {
    "valueBase64 is not base64"@
}

/// The bytes of a peer send given as base64 text. Text that does not decode is
/// an `InvalidArgument` error that marks the message as never submitted.
pub fn send_payload(value_base64: &str) -> (bytes: BleResult<Vec<u8>>)
    ensures
        match bytes {
            Ok(bytes) => standard_base64_decoded(value_base64@) == Some(bytes@),
            Err(error) => {
                &&& standard_base64_decoded(value_base64@) is None
                &&& error.code == ErrorCode::InvalidArgument
                &&& error.message@ == send_payload_message()
                &&& error.delivery == Some(DeliveryOutcome::NotSubmitted)
                &&& error.operation_id is None
                &&& error.resource_id is None
                &&& error.native_code is None
            },
        },
{
    match decode_base64(value_base64) {
        Some(bytes) => Ok(bytes),
        None => {
            let mut error = BleError::new(ErrorCode::InvalidArgument, "valueBase64 is not base64");
            error.delivery = Some(DeliveryOutcome::NotSubmitted);
            Err(error)
        },
    }
}

/// The endpoints split the commands: scans go through the scan endpoint, the
/// commands on a connection or a subscription through the connect endpoint, those on
/// a server's definition and values through the server endpoint, advertising through
/// the advertise endpoint; status, permissions, cancel and cleanup through none.
pub proof fn law_each_command_has_its_endpoint(command: Command)
    ensures
        command is StartScan || command is StopScan ==> role_of(command) == Some(CommandRole::Scan),
        command is Connect || command is Disconnect || command is DiscoverServices || command is Read
            || command is Write || command is Subscribe || command is Unsubscribe ==> role_of(command)
            == Some(CommandRole::Connect),
        command is CreateServer || command is CloseServer || command is SetValue || command is Notify
            ==> role_of(command) == Some(CommandRole::Server),
        command is StartAdvertising || command is StopAdvertising ==> role_of(command) == Some(
            CommandRole::Advertise,
        ),
        command is GetState || command is GetCapabilities || command is CheckPermissions
            || command is RequestPermissions || command is Cancel || command is CloseOwner
            || command is DebugResources ==> role_of(command) is None,
{
}

} // verus!
