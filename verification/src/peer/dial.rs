//! How a joiner reaches a host and how an endpoint comes up: the command each
//! reply leads to, and what the waits for a HELLO_ACK or a send receipt end in.

use vstd::prelude::*;

use crate::command::{Command, Reply};
use crate::error::{BleError, BleResult, DeliveryOutcome, ErrorCode};
use crate::ids::{CharacteristicHandle, ConnectionId, DeviceId, ServerId};
use crate::model::{AdvertisingOptions, ConnectOptions};
use crate::codec::standard_base64_decoded;
use crate::peer::driver::{
    characteristic_handle, check_version, frame_size, link_closed, peer_characteristics,
    reply_debug, service_index, unexpected, version_message, with_delivery, SendReceipt,
    INFO_CHARACTERISTIC_UUID, RX_CHARACTERISTIC_UUID, TX_CHARACTERISTIC_UUID,
};
use crate::peer::frame::PROTOCOL_MAJOR;
use crate::peer::table::{frame_size_of, Link};

verus! {

/// Where a dial stands: the command whose reply it waits for, and what it learned.
#[derive(Debug)]
pub enum DialStage {
    /// Waits for the reply of `Connect`.
    Connecting,
    /// Waits for the services of the connection.
    Discovering { connection_id: ConnectionId, value_limit: usize },
    /// Waits for the Info value of the host.
    ReadingInfo {
        connection_id: ConnectionId,
        value_limit: usize,
        rx: CharacteristicHandle,
        tx: CharacteristicHandle,
    },
    /// Waits for the subscription to TX.
    Subscribing { connection_id: ConnectionId, value_limit: usize, rx: CharacteristicHandle },
}

/// What a dial does next.
#[derive(Debug)]
pub enum DialStep {
    /// Runs `command` and hands its reply to `next`.
    Run { command: Command, next: DialStage },
    /// The link is ready: the joiner greets the host over it, in frames of `value_limit`.
    Join { link: Link, value_limit: usize },
}

/// The error of a reply of the wrong kind.
pub open spec fn unexpected_error(reply: Reply, error: BleError) -> bool {
    &&& error.is_plain(ErrorCode::Internal)
    &&& error.message@ == "the backend answered with an unexpected reply: "@ + reply_debug(reply)
}

/// The first command of a dial, connecting to `device_id`, and the stage that
/// waits for its reply.
pub fn dial_start(device_id: DeviceId) -> (start: (Command, DialStage))
    ensures
        start == (Command::Connect { device_id, options: ConnectOptions { timeout_ms: None } }, DialStage::Connecting),
{
    (Command::Connect { device_id, options: ConnectOptions { timeout_ms: None } }, DialStage::Connecting)
}

impl DialStep {
    /// The connection that the dial runs over, once it has one.
    pub fn connection(&self) -> (connection: Option<ConnectionId>)
        ensures
            connection == match self {
                DialStep::Run { next, .. } => match next {
                    DialStage::Connecting => None,
                    DialStage::Discovering { connection_id, .. } => Some(*connection_id),
                    DialStage::ReadingInfo { connection_id, .. } => Some(*connection_id),
                    DialStage::Subscribing { connection_id, .. } => Some(*connection_id),
                },
                DialStep::Join { link, .. } => match link {
                    Link::Central { connection_id, .. } => Some(*connection_id),
                    Link::Peripheral { .. } => None,
                },
            },
    {
        match self {
            DialStep::Run { next, .. } => match next {
                DialStage::Connecting => None,
                DialStage::Discovering { connection_id, .. } => Some(connection_id.duplicate()),
                DialStage::ReadingInfo { connection_id, .. } => Some(connection_id.duplicate()),
                DialStage::Subscribing { connection_id, .. } => Some(connection_id.duplicate()),
            },
            DialStep::Join { link, .. } => match link {
                Link::Central { connection_id, .. } => Some(connection_id.duplicate()),
                Link::Peripheral { .. } => None,
            },
        }
    }
}

/// What `reply` leads to in `stage`, for a dial of the endpoint service `service_uuid`.
pub open spec fn dial_follows(
    stage: DialStage,
    reply: Reply,
    service_uuid: Seq<char>,
    step: BleResult<DialStep>,
) -> bool {
    match stage {
        DialStage::Connecting => match reply {
            Reply::Connected { connection_id, limits } => step == Ok::<DialStep, BleError>(
                DialStep::Run {
                    command: Command::DiscoverServices { connection_id },
                    next: DialStage::Discovering {
                        connection_id,
                        value_limit: frame_size_of(limits.write_with_response),
                    },
                },
            ),
            _ => step matches Err(e) && unexpected_error(reply, e),
        },
        DialStage::Discovering { connection_id, value_limit } => match reply {
            Reply::Services(services) => {
                let i = service_index(services@, service_uuid);
                let info = characteristic_handle(services@[i], INFO_CHARACTERISTIC_UUID@);
                let rx = characteristic_handle(services@[i], RX_CHARACTERISTIC_UUID@);
                let tx = characteristic_handle(services@[i], TX_CHARACTERISTIC_UUID@);
                if i >= 0 && info is Some && rx is Some && tx is Some {
                    step matches Ok(
                        DialStep::Run {
                            command: Command::Read { connection_id: c, characteristic },
                            next: DialStage::ReadingInfo { connection_id: n, value_limit: v, rx: r, tx: t },
                        },
                    ) && c == connection_id && n == connection_id && v == value_limit
                        && characteristic@ == info->0 && r@ == rx->0 && t@ == tx->0
                } else {
                    step matches Err(e) && e.is_plain(ErrorCode::ProtocolMismatch) && e.message@ == (
                    if i < 0 {
                        "the device does not offer the endpoint service"@
                    } else {
                        "the endpoint service lacks a peer characteristic"@
                    })
                }
            },
            _ => step matches Err(e) && unexpected_error(reply, e),
        },
        DialStage::ReadingInfo { connection_id, value_limit, rx, tx } => match reply {
            Reply::Bytes { value_base64 } => if standard_base64_decoded(value_base64@) == Some(
                seq![PROTOCOL_MAJOR],
            ) {
                step == Ok::<DialStep, BleError>(
                    DialStep::Run {
                        command: Command::Subscribe { connection_id, characteristic: tx },
                        next: DialStage::Subscribing { connection_id, value_limit, rx },
                    },
                )
            } else {
                step matches Err(e) && e.is_plain(ErrorCode::ProtocolMismatch) && e.message@
                    == version_message(value_base64@)
            },
            _ => step matches Err(e) && unexpected_error(reply, e),
        },
        DialStage::Subscribing { connection_id, value_limit, rx } => match reply {
            Reply::SubscriptionStarted { subscription_id } => step == Ok::<DialStep, BleError>(
                DialStep::Join { link: Link::Central { connection_id, rx, subscription_id }, value_limit },
            ),
            _ => step matches Err(e) && unexpected_error(reply, e),
        },
    }
}

/// The step that `reply` leads to in `stage`: connect, discover the endpoint
/// service, read and check the host's protocol version, subscribe to TX, join.
pub fn dial_next(stage: DialStage, reply: Reply, service_uuid: &str) -> (step: BleResult<DialStep>)
    ensures
        dial_follows(stage, reply, service_uuid@, step),
{
    match stage {
        DialStage::Connecting => match reply {
            Reply::Connected { connection_id, limits } => {
                let value_limit = frame_size(limits.write_with_response);
                Ok(
                    DialStep::Run {
                        command: Command::DiscoverServices { connection_id: connection_id.duplicate() },
                        next: DialStage::Discovering { connection_id, value_limit },
                    },
                )
            },
            _ => Err(unexpected(&reply)),
        },
        DialStage::Discovering { connection_id, value_limit } => match reply {
            Reply::Services(services) => {
                let handles = peer_characteristics(&services, service_uuid);
                match handles {
                    Ok(h) => {
                        let info = h[0].duplicate();
                        let rx = h[1].duplicate();
                        let tx = h[2].duplicate();
                        Ok(
                            DialStep::Run {
                                command: Command::Read {
                                    connection_id: connection_id.duplicate(),
                                    characteristic: info,
                                },
                                next: DialStage::ReadingInfo { connection_id, value_limit, rx, tx },
                            },
                        )
                    },
                    Err(e) => Err(e),
                }
            },
            _ => Err(unexpected(&reply)),
        },
        DialStage::ReadingInfo { connection_id, value_limit, rx, tx } => match reply {
            Reply::Bytes { value_base64 } => match check_version(value_base64.as_str()) {
                Ok(()) => Ok(
                    DialStep::Run {
                        command: Command::Subscribe {
                            connection_id: connection_id.duplicate(),
                            characteristic: tx,
                        },
                        next: DialStage::Subscribing { connection_id, value_limit, rx },
                    },
                ),
                Err(e) => Err(e),
            },
            _ => Err(unexpected(&reply)),
        },
        DialStage::Subscribing { connection_id, value_limit, rx } => match reply {
            Reply::SubscriptionStarted { subscription_id } => Ok(
                DialStep::Join { link: Link::Central { connection_id, rx, subscription_id }, value_limit },
            ),
            _ => Err(unexpected(&reply)),
        },
    }
}

/// How the wait of a joiner for the HELLO_ACK of its host ended.
#[derive(Clone, Copy, Debug, PartialEq, Eq, Structural)]
pub enum HelloWait {
    /// The host acknowledged the HELLO.
    Acknowledged,
    /// The peer closed before an acknowledgement.
    Closed,
    /// No acknowledgement came within the dial timeout.
    TimedOut,
}

/// The outcome of a dial once its HELLO has been written and waited for. An
/// acknowledgement wins over a failed write, since it proves that the HELLO
/// arrived; otherwise the write's error, if any, is the cause.
pub fn hello_result(wait: HelloWait, write_error: Option<BleError>) -> (result: BleResult<()>)
    ensures
        match wait {
            HelloWait::Acknowledged => result is Ok,
            HelloWait::Closed => match write_error {
                Some(e) => result == Err::<(), BleError>(e),
                None => result matches Err(e) && e.is_plain(ErrorCode::Disconnected)
                    && e.message@ == "the link closed"@,
            },
            HelloWait::TimedOut => match write_error {
                Some(e) => result == Err::<(), BleError>(e),
                None => result matches Err(e) && e.is_plain(ErrorCode::Timeout) && e.message@
                    == "the host sent no HELLO_ACK within 10 s"@,
            },
        },
{
    match wait {
        HelloWait::Acknowledged => Ok(()),
        HelloWait::Closed => match write_error {
            Some(e) => Err(e),
            None => Err(link_closed()),
        },
        HelloWait::TimedOut => match write_error {
            Some(e) => Err(e),
            None => Err(BleError::new(ErrorCode::Timeout, "the host sent no HELLO_ACK within 10 s")),
        },
    }
}

/// How the wait of a send for its receipt ended.
#[derive(Debug)]
pub enum SendWait {
    /// The sender answered.
    Answered(BleResult<SendReceipt>),
    /// The peer closed before its sender answered.
    Closed,
    /// The caller's timeout passed first.
    TimedOut,
}

/// What a send reports. When its wait ends without an answer, the message may
/// or may not have arrived: delivery is unknown.
pub fn send_result(wait: SendWait) -> (result: BleResult<SendReceipt>)
    ensures
        match wait {
            SendWait::Answered(answer) => result == answer,
            SendWait::Closed => result matches Err(e) && e.code == ErrorCode::Disconnected
                && e.message@ == "the link closed"@ && e.delivery == Some(DeliveryOutcome::Unknown)
                && e.operation_id is None && e.resource_id is None && e.native_code is None,
            SendWait::TimedOut => result matches Err(e) && e.code == ErrorCode::Timeout && e.message@
                == "no ACK arrived before the send timeout; delivery may have occurred"@
                && e.delivery == Some(DeliveryOutcome::Unknown) && e.operation_id is None
                && e.resource_id is None && e.native_code is None,
        },
{
    match wait {
        SendWait::Answered(answer) => answer,
        SendWait::Closed => Err(with_delivery(link_closed(), DeliveryOutcome::Unknown)),
        SendWait::TimedOut => Err(
            with_delivery(
                BleError::new(
                    ErrorCode::Timeout,
                    "no ACK arrived before the send timeout; delivery may have occurred",
                ),
                DeliveryOutcome::Unknown,
            ),
        ),
    }
}

/// The server that a `CreateServer` reply names.
pub fn created_server(reply: Reply) -> (server: BleResult<ServerId>)
    ensures
        match reply {
            Reply::ServerCreated { server_id } => server == Ok::<ServerId, BleError>(server_id),
            _ => server matches Err(e) && unexpected_error(reply, e),
        },
{
    match reply {
        Reply::ServerCreated { server_id } => Ok(server_id),
        _ => Err(unexpected(&reply)),
    }
}

/// The advertisement of a listening endpoint: its service, and its local name
/// where the platform has room for it.
pub fn endpoint_advertisement(server_id: ServerId, service_uuid: String, local_name: Option<
    String,
>) -> (command: Command)
    ensures
        command == (Command::StartAdvertising {
            server_id,
            options: AdvertisingOptions { service_uuid, local_name, local_name_optional: true },
        }),
{
    Command::StartAdvertising {
        server_id,
        options: AdvertisingOptions { service_uuid, local_name, local_name_optional: true },
    }
}

} // verus!
