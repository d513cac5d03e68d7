//! How a Windows link closes: which waiting requests are refused, whether the owner
//! hears of it, and whether the link is forgotten at once or after a wait.

use vstd::prelude::*;

use crate::error::BleError;
use crate::winrt::engine::disconnected;

verus! {

/// The phase of a link.
#[derive(Clone, Copy, Debug, PartialEq, Eq, Structural)]
pub enum LinkPhase {
    Connecting,
    Connected,
    Closing,
}

/// Why and how a link closes.
pub struct Closing {
    /// Whether the owner hears `connectionClosed`, where the link was connected.
    pub emit: bool,
    /// The error that every waiting request of the link gets.
    pub error: BleError,
    /// How long an active session may take to report the close, in milliseconds.
    pub wait_ms: Option<u64>,
}

impl Closing {
    /// A close that the owner asked for or that ended a connect: no event, no wait.
    pub fn silent(error: BleError) -> (closing: Closing)
        ensures
            !closing.emit,
            closing.error == error,
            closing.wait_ms is None,
    {
        Closing { emit: false, error, wait_ms: None }
    }

    /// A link that Windows lost: the owner hears it, and nothing is waited for.
    pub fn lost(message: &str) -> (closing: Closing)
        ensures
            closing.emit,
            closing.error.is_plain(crate::error::ErrorCode::Disconnected),
            closing.error.message@ == message@,
            closing.wait_ms is None,
    {
        Closing { emit: true, error: disconnected(message), wait_ms: None }
    }
}

/// What happens to the link once it has closed.
#[derive(Clone, Copy, Debug, PartialEq, Eq, Structural)]
pub enum CloseEnd {
    /// It is forgotten now.
    Finish,
    /// It is forgotten when the session reports the close, or after this many
    /// milliseconds.
    Wait(u64),
    /// A close already runs and waits; nothing changes.
    Keep,
}

/// What closing a link decides.
pub struct CloseStep {
    /// The phase the link is left in.
    pub phase: LinkPhase,
    /// The requests refused with the closing error: the connect first, then the
    /// procedures, the one in flight first.
    pub rejected: Vec<u64>,
    /// Whether the link's subscriptions, services, device and handles are released.
    pub release: bool,
    /// Whether the owner hears `connectionClosed`.
    pub emit_closed: bool,
    /// What happens next.
    pub end: CloseEnd,
}

/// The keys of the waiting requests of a link: the connect, then each procedure
/// that has one, in order.
pub open spec fn waiting_keys(connect_key: Option<u64>, procedures: Seq<Option<u64>>) -> Seq<u64>
    decreases procedures.len(),
{
    if procedures.len() == 0 {
        match connect_key {
            Some(key) => seq![key],
            None => Seq::empty(),
        }
    } else {
        let rest = waiting_keys(connect_key, procedures.drop_last());
        match procedures.last() {
            Some(key) => rest.push(key),
            None => rest,
        }
    }
}

/// What closing decides for a link in `phase`, with `connect_key` and the keys of
/// its procedures, when its session is `session_active`.
pub open spec fn close_model(
    phase: LinkPhase,
    connect_key: Option<u64>,
    procedures: Seq<Option<u64>>,
    emit: bool,
    wait_ms: Option<u64>,
    session_active: bool,
) -> (LinkPhase, Seq<u64>, bool, bool, CloseEnd) {
    if phase == LinkPhase::Closing {
        (
            LinkPhase::Closing,
            Seq::empty(),
            false,
            false,
            if wait_ms is None {
                CloseEnd::Finish
            } else {
                CloseEnd::Keep
            },
        )
    } else {
        (
            LinkPhase::Closing,
            waiting_keys(connect_key, procedures),
            true,
            emit && phase == LinkPhase::Connected,
            match wait_ms {
                Some(wait) => if session_active {
                    CloseEnd::Wait(wait)
                } else {
                    CloseEnd::Finish
                },
                None => CloseEnd::Finish,
            },
        )
    }
}

/// Closes a link: a link already closing only finishes, where this close does not
/// wait; any other is left closing, refuses its connect and its procedures, releases
/// what it holds, tells its owner where it was connected and the close asks for it,
/// and then waits for an active session or is forgotten at once.
pub fn close_step(
    phase: LinkPhase,
    connect_key: Option<u64>,
    procedures: &Vec<Option<u64>>,
    closing: &Closing,
    session_active: bool,
) -> (step: CloseStep)
    ensures
        (step.phase, step.rejected@, step.release, step.emit_closed, step.end) == close_model(
            phase,
            connect_key,
            procedures@,
            closing.emit,
            closing.wait_ms,
            session_active,
        ),
{
    if phase == LinkPhase::Closing {
        let end = if closing.wait_ms.is_none() {
            CloseEnd::Finish
        } else {
            CloseEnd::Keep
        };
        return CloseStep {
            phase: LinkPhase::Closing,
            rejected: Vec::new(),
            release: false,
            emit_closed: false,
            end,
        };
    }
    let mut rejected: Vec<u64> = Vec::new();
    if let Some(key) = connect_key {
        rejected.push(key);
    }
    let mut i: usize = 0;
    while i < procedures.len()
        invariant
            i <= procedures.len(),
            rejected@ == waiting_keys(connect_key, procedures@.subrange(0, i as int)),
        decreases procedures.len() - i,
    {
        assert(procedures@.subrange(0, i as int + 1).drop_last() =~= procedures@.subrange(0, i as int));
        if let Some(key) = procedures[i] {
            rejected.push(key);
        }
        i = i + 1;
    }
    assert(procedures@.subrange(0, i as int) =~= procedures@);
    let end = match closing.wait_ms {
        Some(wait) => if session_active {
            CloseEnd::Wait(wait)
        } else {
            CloseEnd::Finish
        },
        None => CloseEnd::Finish,
    };
    CloseStep {
        phase: LinkPhase::Closing,
        rejected,
        release: true,
        emit_closed: closing.emit && phase == LinkPhase::Connected,
        end,
    }
}

} // verus!
