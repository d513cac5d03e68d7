//! The production backend: until a native backend is wired and verified, capability
//! queries are honest and radio operations fail explicitly.

use vstd::prelude::*;

use crate::command::{Command, OperationContext, Reply};
use crate::error::{BleError, BleResult, ErrorCode};
use crate::model::{
    AdapterState, Capabilities, PermissionOutcome, PermissionState, Support, SupportLevel,
    support_is,
};
use crate::text::push_text;

verus! {

/// The reason a role of `platform` is unknown: `platform:capability:backendNotVerified`.
pub open spec fn not_verified_reason(platform: Seq<char>, capability: Seq<char>) -> Seq<char> {
    platform + ":"@ + capability + ":backendNotVerified"@
}

/// Capabilities where no backend is verified: every role unknown, background
/// unsupported, no limits.
pub open spec fn gate_capabilities(capabilities: Capabilities, platform: Seq<char>) -> bool {
    &&& support_is(capabilities.central, SupportLevel::Unknown, not_verified_reason(platform, "central"@))
    &&& support_is(capabilities.peripheral, SupportLevel::Unknown, not_verified_reason(platform, "peripheral"@))
    &&& support_is(capabilities.advertising, SupportLevel::Unknown, not_verified_reason(platform, "advertising"@))
    &&& support_is(
        capabilities.targeted_notify,
        SupportLevel::Unknown,
        not_verified_reason(platform, "targetedNotify"@),
    )
    &&& support_is(
        capabilities.simultaneous_roles,
        SupportLevel::Unknown,
        not_verified_reason(platform, "simultaneousRoles"@),
    )
    &&& support_is(capabilities.background, SupportLevel::Unsupported, "foregroundOnlyContract"@)
    &&& capabilities.max_connections is None
    &&& capabilities.max_advertising_data_length is None
}

fn not_verified(platform: &str, capability: &str) -> (support: Support)
    ensures
        support_is(support, SupportLevel::Unknown, not_verified_reason(platform@, capability@)),
{
    let mut reason = platform.to_owned();
    push_text(&mut reason, ":");
    push_text(&mut reason, capability);
    push_text(&mut reason, ":backendNotVerified");
    Support { level: SupportLevel::Unknown, reason, description: None }
}

/// The capabilities of a backend that is not verified on `platform`, the name of the
/// operating system.
pub fn unverified_capabilities(platform: &str) -> (capabilities: Capabilities)
    ensures
        gate_capabilities(capabilities, platform@),
{
    Capabilities {
        central: not_verified(platform, "central"),
        peripheral: not_verified(platform, "peripheral"),
        advertising: not_verified(platform, "advertising"),
        targeted_notify: not_verified(platform, "targetedNotify"),
        simultaneous_roles: not_verified(platform, "simultaneousRoles"),
        background: Support::unsupported("foregroundOnlyContract"),
        max_connections: None,
        max_advertising_data_length: None,
    }
}

/// The text of the error every radio command gets.
pub open spec fn not_implemented_message() -> Seq<char> {
    "native backend is not implemented; peer feature is disabled"@
}

/// The backend that stands in until a native backend is wired.
#[derive(Clone, Copy, Debug)]
pub struct SystemBackend;

impl Default for SystemBackend {
    fn default() -> (backend: Self)
        ensures
            backend == SystemBackend,
    {
        SystemBackend
    }
}

impl SystemBackend {
    /// Answers `command` on `platform`: state, capabilities and permissions are unknown,
    /// cleanup succeeds, and everything else is unsupported.
    pub fn execute(&self, _context: OperationContext, command: Command, platform: &str) -> (reply: BleResult<
        Reply,
    >)
        ensures
            match command {
                Command::GetState => reply == Ok::<Reply, BleError>(Reply::State(AdapterState::Unknown)),
                Command::GetCapabilities => reply matches Ok(Reply::Capabilities(c)) && gate_capabilities(
                    c,
                    platform@,
                ),
                Command::CheckPermissions => reply == Ok::<Reply, BleError>(
                    Reply::Permissions(
                        PermissionState {
                            scan: PermissionOutcome::Unknown,
                            connect: PermissionOutcome::Unknown,
                            advertise: PermissionOutcome::Unknown,
                        },
                    ),
                ),
                Command::CloseOwner | Command::Cancel { .. } => reply == Ok::<Reply, BleError>(Reply::Empty),
                _ => reply matches Err(e) && e.is_plain(ErrorCode::Unsupported) && e.message@
                    == not_implemented_message(),
            },
    {
        match command {
            Command::GetState => Ok(Reply::State(AdapterState::Unknown)),
            Command::GetCapabilities => Ok(Reply::Capabilities(unverified_capabilities(platform))),
            Command::CheckPermissions => Ok(
                Reply::Permissions(
                    PermissionState {
                        scan: PermissionOutcome::Unknown,
                        connect: PermissionOutcome::Unknown,
                        advertise: PermissionOutcome::Unknown,
                    },
                ),
            ),
            Command::CloseOwner | Command::Cancel { .. } => Ok(Reply::Empty),
            _ => {
                Err(BleError::unsupported("native backend is not implemented; peer feature is disabled"))
            },
        }
    }
}

/// The text of the error every peer endpoint answers in this build.
pub open spec fn peer_unavailable_message() -> Seq<char> {
    "peer transport is disabled in this Rust build"@
}

/// The answer of every peer endpoint of the plain BLE plugin, which carries no
/// peer transport: a plain `Unsupported` error.
pub fn peer_unavailable() -> (error: BleError)
    ensures
        error.is_plain(ErrorCode::Unsupported),
        error.message@ == peer_unavailable_message(),
{
    BleError::unsupported("peer transport is disabled in this Rust build")
}

} // verus!
