//! The advertisement of a local server: the local name as service data, and the
//! state machine that moves a service provider towards the publication it should have.

use vstd::prelude::*;
use vstd::string::StringSliceAdditionalSpecFns;
use vstd::utf8::is_char_boundary;

use crate::error::{BleError, BleResult, ErrorCode};
use crate::model::AdvertisingReport;

verus! {

broadcast use vstd::utf8::group_utf8_lib;

/// The local name bytes that fit in the service data of a 128-bit service UUID: a
/// legacy packet holds 31 bytes, and the section header and the UUID take 18.
pub const LOCAL_NAME_BUDGET: usize = 13;

/// A local name cut to the budget at a UTF-8 character boundary.
#[derive(Debug, PartialEq, Eq)]
pub struct LocalNameCut {
    pub bytes: Vec<u8>,
    pub truncated: bool,
}

impl LocalNameCut {
    pub fn included(&self) -> (included: bool)
        ensures
            included == (self.bytes@.len() > 0),
    {
        self.bytes.len() > 0
    }
}

/// The largest character boundary of `bytes` at or below `end`.
pub open spec fn boundary_below(bytes: Seq<u8>, end: nat) -> nat
    decreases end,
{
    if end == 0 || is_char_boundary(bytes, end as int) {
        end
    } else {
        boundary_below(bytes, (end - 1) as nat)
    }
}

/// The UTF-8 bytes of an optional name; none for a missing one.
pub open spec fn name_bytes(name: Option<&str>) -> Seq<u8> {
    match name {
        Some(text) => text.spec_bytes(),
        None => Seq::empty(),
    }
}

/// Where a name of `bytes` is cut under `budget`.
pub open spec fn cut_point(bytes: Seq<u8>, budget: nat) -> nat {
    boundary_below(bytes, if budget < bytes.len() { budget } else { bytes.len() })
}

pub fn cut_local_name(name: Option<&str>, budget: usize) -> (cut: LocalNameCut)
    ensures
        cut.bytes@ == name_bytes(name).subrange(0, cut_point(name_bytes(name), budget as nat) as int),
        cut.truncated == (cut_point(name_bytes(name), budget as nat) < name_bytes(name).len()),
{
    let text: &str = match name {
        Some(text) => text,
        None => "",
    };
    proof {
        reveal_strlit("");
    }
    let bytes = text.as_bytes();
    assert(bytes@ == name_bytes(name));
    let len = bytes.len();
    let start = if budget < len {
        budget
    } else {
        len
    };
    let mut end = start;
    proof {
        vstd::utf8::encode_utf8_valid_utf8(text@);
    }
    while !text.is_char_boundary(end)
        invariant
            bytes@ == text.spec_bytes(),
            vstd::utf8::valid_utf8(bytes@),
            end <= start,
            boundary_below(bytes@, start as nat) == boundary_below(bytes@, end as nat),
        decreases end,
    {
        assert(end > 0);
        end = end - 1;
    }
    let mut kept: Vec<u8> = Vec::new();
    let mut i: usize = 0;
    while i < end
        invariant
            end <= start <= len,
            len == bytes@.len(),
            i <= end,
            kept@ == bytes@.subrange(0, i as int),
        decreases end - i,
    {
        kept.push(bytes[i]);
        i = i + 1;
        assert(kept@ =~= bytes@.subrange(0, i as int));
    }
    LocalNameCut { bytes: kept, truncated: end < len }
}

/// The reply of an advertisement that started. Windows leaves the service data out
/// when it does not fit (`all_data` false): the name then counts as cut, and a
/// required name rejects with `PayloadTooLarge`.
pub fn advertising_report(cut: &LocalNameCut, all_data: bool, name_optional: bool) -> (report:
    BleResult<AdvertisingReport>)
    ensures
        ({
            let included = cut.bytes@.len() > 0;
            let dropped = included && !all_data;
            if (cut.truncated || dropped) && !name_optional {
                report matches Err(e) && e.is_plain(ErrorCode::PayloadTooLarge) && e.message@
                    == "the local name does not fit in the advertisement: at most 13 bytes, and only when Windows has room for them"@
            } else {
                report == Ok::<AdvertisingReport, BleError>(
                    AdvertisingReport {
                        local_name_included: included && all_data,
                        local_name_truncated: cut.truncated || dropped,
                    },
                )
            }
        }),
{
    let dropped = cut.included() && !all_data;
    if (cut.truncated || dropped) && !name_optional {
        return Err(
            BleError::new(
                ErrorCode::PayloadTooLarge,
                "the local name does not fit in the advertisement: at most 13 bytes, and only when Windows has room for them",
            ),
        );
    }
    Ok(
        AdvertisingReport {
            local_name_included: cut.included() && all_data,
            local_name_truncated: cut.truncated || dropped,
        },
    )
}

/// How a service provider publishes its service: `Discoverable` lets connected
/// centrals find the service without advertising it, `Advertised` also sends a
/// connectable advertisement, with its own number.
#[derive(Clone, Copy, Debug, PartialEq, Eq, Structural)]
pub enum Publication {
    Discoverable,
    Advertised(u64),
}

/// The advertisement status of a provider, from its event or read from it.
#[derive(Clone, Copy, Debug, PartialEq, Eq, Structural)]
pub enum ProviderStatus {
    /// The provider never published.
    Created,
    Started { all_data: bool },
    Stopped,
    Aborted,
    Other,
}

/// The provider call a publisher asks for.
#[derive(Clone, Copy, Debug, PartialEq, Eq, Structural)]
pub enum PublishStep {
    Start(Publication),
    Stop,
}

/// How a start ended.
#[derive(Clone, Copy, Debug, PartialEq, Eq, Structural)]
pub enum Published {
    Started { publication: Publication, all_data: bool },
    Ended(Publication),
}

#[derive(Clone, Copy, Debug, PartialEq, Eq, Structural)]
pub enum Phase {
    Idle,
    Starting(Publication),
    Started(Publication),
    Stopping,
}

/// Moves one service provider towards the publication it should have. A provider
/// takes a new publication only after the previous one ended, so a change waits for
/// the start, then stops, then starts.
#[derive(Clone, Copy, Debug, PartialEq, Eq, Structural)]
pub struct Publisher {
    pub phase: Phase,
    pub desired: Option<Publication>,
}

impl Default for Publisher {
    /// A provider that never published, with nothing wanted.
    fn default() -> (publisher: Self)
        ensures
            publisher == (Publisher { phase: Phase::Idle, desired: None }),
    {
        Publisher { phase: Phase::Idle, desired: None }
    }
}

/// The call the publisher asks for in its phase, and the publisher after it.
pub open spec fn next_step(p: Publisher) -> (Publisher, Option<PublishStep>) {
    match p.phase {
        Phase::Idle => match p.desired {
            Some(publication) => (
                Publisher { phase: Phase::Starting(publication), ..p },
                Some(PublishStep::Start(publication)),
            ),
            None => (p, None),
        },
        Phase::Started(publication) => if p.desired != Some(publication) {
            (Publisher { phase: Phase::Stopping, ..p }, Some(PublishStep::Stop))
        } else {
            (p, None)
        },
        _ => (p, None),
    }
}

/// What a status read from the provider changes, then the next call.
pub open spec fn observed(p: Publisher, status: ProviderStatus) -> (
    Publisher,
    (Option<Published>, Option<PublishStep>),
) {
    let (q, published) = match (p.phase, status) {
        (Phase::Starting(publication), ProviderStatus::Started { all_data }) => (
            Publisher { phase: Phase::Started(publication), ..p },
            Some(Published::Started { publication, all_data }),
        ),
        (Phase::Starting(publication), ProviderStatus::Stopped)
        | (Phase::Starting(publication), ProviderStatus::Aborted)
        | (Phase::Started(publication), ProviderStatus::Stopped)
        | (Phase::Started(publication), ProviderStatus::Aborted) => (
            Publisher {
                phase: Phase::Idle,
                desired: if p.desired == Some(publication) {
                    None
                } else {
                    p.desired
                },
            },
            Some(Published::Ended(publication)),
        ),
        (Phase::Stopping, ProviderStatus::Stopped) | (Phase::Stopping, ProviderStatus::Aborted) => (
            Publisher { phase: Phase::Idle, ..p },
            None,
        ),
        _ => (p, None),
    };
    let (r, step) = next_step(q);
    (r, (published, step))
}

/// The provider shows no start.
pub open spec fn is_quiet(status: ProviderStatus) -> bool {
    status is Created || status is Stopped
}

/// What a status read after a call (`later` false) or by the watchdog (`later` true)
/// does: right after a call a status without a start means nothing; later, a
/// publication without an advertisement counts as started, and an advertisement
/// that shows no start ends once it is no longer wanted.
pub open spec fn checked(p: Publisher, status: ProviderStatus, later: bool) -> (
    Publisher,
    (Option<Published>, Option<PublishStep>),
) {
    let quiet = is_quiet(status);
    match p.phase {
        Phase::Starting(publication) => if quiet && !later {
            (p, (None, None))
        } else if quiet && publication == Publication::Discoverable {
            observed(p, ProviderStatus::Started { all_data: true })
        } else if quiet && p.desired == Some(publication) {
            (p, (None, None))
        } else if quiet {
            observed(p, ProviderStatus::Stopped)
        } else {
            observed(p, status)
        },
        Phase::Started(Publication::Discoverable) => if quiet {
            (p, (None, None))
        } else {
            observed(p, status)
        },
        _ => if quiet {
            observed(p, ProviderStatus::Stopped)
        } else {
            observed(p, status)
        },
    }
}

/// The publisher waits for the provider to report the outcome of a call.
pub open spec fn settling(p: Publisher) -> bool {
    p.phase is Starting || p.phase is Stopping
}

impl Publisher {
    fn step(&mut self) -> (step: Option<PublishStep>)
        ensures
            (*final(self), step) == next_step(*old(self)),
    {
        match self.phase {
            Phase::Idle => match self.desired {
                Some(publication) => {
                    self.phase = Phase::Starting(publication);
                    Some(PublishStep::Start(publication))
                },
                None => None,
            },
            Phase::Started(publication) => {
                if self.desired != Some(publication) {
                    self.phase = Phase::Stopping;
                    Some(PublishStep::Stop)
                } else {
                    None
                }
            },
            _ => None,
        }
    }

    /// Sets the publication the provider should have and asks for the next call.
    pub fn want(&mut self, desired: Option<Publication>) -> (step: Option<PublishStep>)
        ensures
            (*final(self), step) == next_step(Publisher { desired, ..*old(self) }),
    {
        self.desired = desired;
        self.step()
    }

    /// Takes a status read from the provider.
    pub fn observe(&mut self, status: ProviderStatus) -> (outcome: (
        Option<Published>,
        Option<PublishStep>,
    ))
        ensures
            (*final(self), outcome) == observed(*old(self), status),
    {
        let published = match (self.phase, status) {
            (Phase::Starting(publication), ProviderStatus::Started { all_data }) => {
                self.phase = Phase::Started(publication);
                Some(Published::Started { publication, all_data })
            },
            (Phase::Starting(publication), ProviderStatus::Stopped)
            | (Phase::Starting(publication), ProviderStatus::Aborted)
            | (Phase::Started(publication), ProviderStatus::Stopped)
            | (Phase::Started(publication), ProviderStatus::Aborted) => {
                self.phase = Phase::Idle;
                if self.desired == Some(publication) {
                    self.desired = None;
                }
                Some(Published::Ended(publication))
            },
            (Phase::Stopping, ProviderStatus::Stopped)
            | (Phase::Stopping, ProviderStatus::Aborted) => {
                self.phase = Phase::Idle;
                None
            },
            _ => None,
        };
        (published, self.step())
    }

    /// Takes the status read from the provider after a call or an event (`later`
    /// false), or by the watchdog (`later` true).
    pub fn check(&mut self, status: ProviderStatus, later: bool) -> (outcome: (
        Option<Published>,
        Option<PublishStep>,
    ))
        ensures
            (*final(self), outcome) == checked(*old(self), status, later),
    {
        let quiet = match status {
            ProviderStatus::Created | ProviderStatus::Stopped => true,
            _ => false,
        };
        match self.phase {
            Phase::Starting(publication) => {
                if quiet && !later {
                    (None, None)
                } else if quiet && publication == Publication::Discoverable {
                    self.observe(ProviderStatus::Started { all_data: true })
                } else if quiet && self.desired == Some(publication) {
                    (None, None)
                } else if quiet {
                    self.observe(ProviderStatus::Stopped)
                } else {
                    self.observe(status)
                }
            },
            Phase::Started(Publication::Discoverable) => {
                if quiet {
                    (None, None)
                } else {
                    self.observe(status)
                }
            },
            _ => {
                if quiet {
                    self.observe(ProviderStatus::Stopped)
                } else {
                    self.observe(status)
                }
            },
        }
    }

    /// Whether a call waits for the provider to report its outcome.
    pub fn is_settling(&self) -> (waiting: bool)
        ensures
            waiting == settling(*self),
    {
        match self.phase {
            Phase::Starting(_) | Phase::Stopping => true,
            _ => false,
        }
    }

    /// The provider refused a start at once.
    pub fn start_failed(&mut self)
        ensures
            *final(self) == (Publisher { phase: Phase::Idle, desired: None }),
    {
        self.phase = Phase::Idle;
        self.desired = None;
    }

    /// The provider refused a stop at once, so it publishes nothing.
    pub fn stop_failed(&mut self) -> (step: Option<PublishStep>)
        ensures
            (*final(self), step) == next_step(Publisher { phase: Phase::Idle, ..*old(self) }),
    {
        self.phase = Phase::Idle;
        self.step()
    }
}

/// Every call a publisher asks for leaves it waiting for the provider's report.
pub proof fn law_a_call_waits_for_its_outcome(p: Publisher, status: ProviderStatus, later: bool, desired: Option<Publication>)
    ensures
        next_step(p).1 is Some ==> settling(next_step(p).0),
        observed(p, status).1.1 is Some ==> settling(observed(p, status).0),
        checked(p, status, later).1.1 is Some ==> settling(checked(p, status, later).0),
{
}

/// While a call waits for its outcome, a new wish asks for no other call: a change
/// waits for the start, then stops, then starts.
pub proof fn law_no_call_while_settling(p: Publisher, desired: Option<Publication>)
    requires
        settling(p),
    ensures
        next_step(Publisher { desired, ..p }) == (Publisher { desired, ..p }, None::<PublishStep>),
{
}

/// A start that Windows refuses, or a publication it ends on its own, is reported and
/// not retried.
pub proof fn law_an_ended_publication_is_not_retried(p: Publisher, publication: Publication, status: ProviderStatus)
    requires
        p.phase == Phase::Starting(publication) || p.phase == Phase::Started(publication),
        p.desired == Some(publication),
        status is Stopped || status is Aborted,
    ensures
        observed(p, status) == (
            Publisher { phase: Phase::Idle, desired: None },
            (Some(Published::Ended(publication)), None::<PublishStep>),
        ),
{
}

} // verus!
