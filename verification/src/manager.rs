//! The operations a manager correlates: each gets an ID, at most one runs under an ID,
//! and only its owner may cancel it.

use vstd::prelude::*;

use crate::command::Command;
use crate::error::{BleError, BleResult, ErrorCode};
use crate::ids::{OperationId, OwnerId, ResourceId};
use crate::peer::table::{distinct, entry, keys_of, lemma_position, lemma_put, lemma_without, position, put, without};
use crate::text::{decimal, push_decimal, push_text};
use vstd::string::StringSliceAdditionalSpecFns;
use vstd::utf8::encode_utf8;

verus! {

/// The active operations, each with its owner, by text.
pub open spec fn operation_entries(entries: Seq<(OperationId, OwnerId)>) -> Seq<(Seq<char>, Seq<char>)> {
    entries.map_values(|e: (OperationId, OwnerId)| (e.0@, e.1@))
}

/// The active operations of a manager, and the counter of its operation IDs.
pub struct Operations {
    next_operation: u64,
    active: Vec<(OperationId, OwnerId)>,
}

pub struct OperationsView {
    pub next_operation: u64,
    pub active: Seq<(Seq<char>, Seq<char>)>,
}

impl View for Operations {
    type V = OperationsView;

    closed spec fn view(&self) -> OperationsView {
        OperationsView { next_operation: self.next_operation, active: operation_entries(self.active@) }
    }
}

/// What the manager does with a command under an operation ID.
#[derive(Debug, PartialEq, Eq)]
pub enum Admission {
    /// The command runs under its ID, which is now active.
    Run,
    /// The command cancels another operation; its own ID is not registered.
    Cancel(OperationId),
}

/// What a cancel request leads to.
#[derive(Debug, PartialEq, Eq)]
pub enum CancelCheck {
    /// The operation is not active: nothing to cancel.
    Finished,
    /// The owner's operation is active: the backend cancels it.
    Allowed,
}

/// Whether an operation ID holds 1 to 128 bytes.
pub open spec fn id_length_ok(id: Seq<char>) -> bool {
    1 <= encode_utf8(id).len() <= 128
}

/// The text `op-<n>`.
pub open spec fn operation_text(n: u64) -> Seq<char> {
    "op-"@ + decimal(n as nat)
}

/// What running `command` under `operation_id` for `owner` does to the active
/// operations, and the admission or the code of the refusal.
pub open spec fn admitted(
    v: OperationsView,
    owner: Seq<char>,
    operation_id: Seq<char>,
    command: Command,
) -> (OperationsView, Result<Option<Seq<char>>, ErrorCode>) {
    if !id_length_ok(operation_id) {
        (v, Err(ErrorCode::InvalidArgument))
    } else {
        match command {
            Command::Cancel { operation_id: target } => (v, Ok(Some(target@))),
            _ => if entry(v.active, operation_id) is Some {
                (v, Err(ErrorCode::Busy))
            } else {
                (OperationsView { active: put(v.active, operation_id, owner), ..v }, Ok(None))
            },
        }
    }
}

/// The message of a refused operation, by its code.
pub open spec fn refusal_message(code: ErrorCode) -> Seq<char> {
    if code == ErrorCode::InvalidArgument {
        "operation ID must contain 1 to 128 bytes"@
    } else {
        "operation ID is already active"@
    }
}

/// The IDs of the operations of `owner`, in order.
pub open spec fn owned_by(active: Seq<(Seq<char>, Seq<char>)>, owner: Seq<char>) -> Seq<Seq<char>>
    decreases active.len(),
{
    if active.len() == 0 {
        Seq::empty()
    } else if active.last().1 == owner {
        owned_by(active.drop_last(), owner).push(active.last().0)
    } else {
        owned_by(active.drop_last(), owner)
    }
}

impl Operations {
    pub closed spec fn well_formed(&self) -> bool {
        distinct(keys_of(self@.active))
    }

    /// No active operation; IDs count from 1.
    pub fn new() -> (operations: Self)
        ensures
            operations.well_formed(),
            operations@ == (OperationsView { next_operation: 1, active: Seq::empty() }),
    {
        let operations = Operations { next_operation: 1, active: Vec::new() };
        assert(operations@.active =~= Seq::<(Seq<char>, Seq<char>)>::empty());
        operations
    }

    /// A new operation ID `op-<n>`; the counter wraps as an atomic counter does.
    pub fn allocate(&mut self) -> (id: OperationId)
        requires
            old(self).well_formed(),
        ensures
            final(self).well_formed(),
            id@ == operation_text(old(self)@.next_operation),
            final(self)@ == (OperationsView {
                next_operation: if old(self)@.next_operation == u64::MAX {
                    0
                } else {
                    (old(self)@.next_operation + 1) as u64
                },
                ..old(self)@
            }),
    {
        let mut text = "op-".to_owned();
        push_decimal(&mut text, self.next_operation);
        self.next_operation = self.next_operation.wrapping_add(1);
        OperationId::from_string(text)
    }

    fn find(&self, operation_id: &OperationId) -> (index: Option<usize>)
        ensures
            match index {
                Some(i) => i as int == position(keys_of(self@.active), operation_id@) && i < self.active@.len(),
                None => position(keys_of(self@.active), operation_id@) == -1,
            },
    {
        let ghost keys = keys_of(self@.active);
        let mut i = self.active.len();
        assert(keys.subrange(0, i as int) =~= keys);
        while i > 0
            invariant
                keys == keys_of(self@.active),
                i <= self.active@.len(),
                position(keys, operation_id@) == position(keys.subrange(0, i as int), operation_id@),
            decreases i,
        {
            let ghost part = keys.subrange(0, i as int);
            assert(part.drop_last() =~= keys.subrange(0, i - 1));
            if self.active[i - 1].0.0 == operation_id.0 {
                return Some(i - 1);
            }
            i = i - 1;
        }
        None
    }

    /// Registers `command` of `owner` under `operation_id`. A cancel request runs
    /// under no registered ID; it names its target.
    pub fn begin(&mut self, owner: &OwnerId, operation_id: &OperationId, command: &Command) -> (admission:
        BleResult<Admission>)
        requires
            old(self).well_formed(),
        ensures
            final(self).well_formed(),
            ({
                let (next, outcome) = admitted(old(self)@, owner@, operation_id@, *command);
                &&& final(self)@ == next
                &&& match outcome {
                    Ok(None) => admission == Ok::<Admission, BleError>(Admission::Run),
                    Ok(Some(target)) => admission matches Ok(Admission::Cancel(t)) && t@ == target,
                    Err(code) => admission matches Err(e) && e.is_plain(code) && e.message@
                        == refusal_message(code),
                }
            }),
    {
        let length = operation_id.as_str().as_bytes().len();
        if length == 0 || length > 128 {
            return Err(BleError::new(ErrorCode::InvalidArgument, "operation ID must contain 1 to 128 bytes"));
        }
        match command {
            Command::Cancel { operation_id: target } => {
                return Ok(Admission::Cancel(target.duplicate()));
            },
            _ => {},
        }
        if self.find(operation_id).is_some() {
            proof {
                lemma_position(keys_of(self@.active), operation_id@);
            }
            return Err(BleError::new(ErrorCode::Busy, "operation ID is already active"));
        }
        proof {
            lemma_position(keys_of(self@.active), operation_id@);
            lemma_put(self@.active, operation_id@, owner@);
        }
        let ghost v = self@;
        self.active.push((operation_id.duplicate(), owner.duplicate()));
        assert(self@.active =~= put(v.active, operation_id@, owner@));
        Ok(Admission::Run)
    }

    /// Forgets the operation `operation_id` once it completed.
    pub fn finish(&mut self, operation_id: &OperationId)
        requires
            old(self).well_formed(),
        ensures
            final(self).well_formed(),
            final(self)@ == (OperationsView { active: without(old(self)@.active, operation_id@), ..old(self)@ }),
    {
        proof {
            lemma_position(keys_of(self@.active), operation_id@);
            lemma_without(self@.active, operation_id@);
        }
        let ghost v = self@;
        match self.find(operation_id) {
            Some(i) => {
                let _ = self.active.remove(i);
                assert(self@.active =~= without(v.active, operation_id@));
            },
            None => {},
        }
    }

    /// The active operations of `owner`, in the order they began.
    pub fn active_of(&self, owner: &OwnerId) -> (ids: Vec<OperationId>)
        ensures
            ids@.map_values(|id: OperationId| id@) == owned_by(self@.active, owner@),
    {
        let mut ids: Vec<OperationId> = Vec::new();
        let mut i: usize = 0;
        while i < self.active.len()
            invariant
                i <= self.active@.len(),
                ids@.map_values(|id: OperationId| id@) == owned_by(
                    self@.active.subrange(0, i as int),
                    owner@,
                ),
            decreases self.active@.len() - i,
        {
            let ghost before = ids@;
            assert(self@.active.subrange(0, i + 1).drop_last() =~= self@.active.subrange(0, i as int));
            assert(self@.active[i as int] == (self.active@[i as int].0@, self.active@[i as int].1@));
            if self.active[i].1.0 == owner.0 {
                ids.push(self.active[i].0.duplicate());
                assert(ids@.map_values(|id: OperationId| id@) =~= before.map_values(
                    |id: OperationId| id@,
                ).push(self.active@[i as int].0@));
            }
            i = i + 1;
        }
        assert(self@.active.subrange(0, i as int) =~= self@.active);
        ids
    }

    /// Whether `owner` may cancel `target`: an operation no longer active needs no
    /// cancel, and only its owner cancels an active one.
    pub fn check_cancel(&self, owner: &OwnerId, target: &OperationId) -> (check: BleResult<CancelCheck>)
        requires
            self.well_formed(),
        ensures
            match entry(self@.active, target@) {
                None => check == Ok::<CancelCheck, BleError>(CancelCheck::Finished),
                Some(o) => if o == owner@ {
                    check == Ok::<CancelCheck, BleError>(CancelCheck::Allowed)
                } else {
                    check matches Err(e) && crate::peer::table::invalid_handle_of(e, target@)
                },
            },
    {
        match self.find(target) {
            None => Ok(CancelCheck::Finished),
            Some(i) => {
                proof {
                    lemma_position(keys_of(self@.active), target@);
                }
                if self.active[i].1.0 == owner.0 {
                    Ok(CancelCheck::Allowed)
                } else {
                    Err(BleError::invalid_handle(ResourceId::new(target.as_str())))
                }
            },
        }
    }
}

/// An operation ID is used by one operation at a time: once an operation begins under
/// it, any other command under the same ID is refused as busy, whoever sends it, until
/// that operation finishes; then the ID may be used again. Other IDs are untouched.
pub proof fn law_an_operation_id_runs_one_operation_at_a_time(
    v: OperationsView,
    owner: Seq<char>,
    other: Seq<char>,
    id: Seq<char>,
    unrelated: Seq<char>,
    first: Command,
    second: Command,
)
    requires
        distinct(keys_of(v.active)),
        entry(v.active, id) is None,
        id_length_ok(id),
        !(first is Cancel),
        !(second is Cancel),
        unrelated != id,
    ensures
        ({
            let (begun, outcome) = admitted(v, owner, id, first);
            let finished = OperationsView { active: without(begun.active, id), ..begun };
            &&& outcome == Ok::<Option<Seq<char>>, ErrorCode>(None)
            &&& entry(begun.active, id) == Some(owner)
            &&& entry(begun.active, unrelated) == entry(v.active, unrelated)
            &&& admitted(begun, other, id, second) == (begun, Err::<Option<Seq<char>>, ErrorCode>(
                ErrorCode::Busy,
            ))
            &&& admitted(finished, other, id, second).1 == Ok::<Option<Seq<char>>, ErrorCode>(None)
        }),
{
    lemma_put(v.active, id, owner);
    let begun = admitted(v, owner, id, first).0;
    lemma_without(begun.active, id);
}

} // verus!
