//! Bounded reassembly of received frames into complete messages.
//!
//! Every byte the receiver holds counts against one buffer budget: the metadata
//! reserved for each partial message, the fragments received so far, the complete
//! messages waiting to be popped, and the recent messages kept to recognise a
//! retransmitted duplicate.

use std::collections::VecDeque;
use std::time::{Duration, Instant};

use vstd::layout::size_of;
use vstd::prelude::*;

use crate::error::{BleError, BleResult, ErrorCode};
use crate::peer::frame::{ack_model, decode_message, decode_model, Frame, FrameKind, FrameModel};

verus! {

#[verifier::external_type_specification]
#[verifier::external_body]
pub struct ExInstant(Instant);

/// `Instant::now`: a reading of the monotonic clock; nothing is promised of its value.
#[verifier::external_body]
fn instant_now() -> (now: Instant) {
    Instant::now()
}

/// `Instant::elapsed`: the time since `start`; nothing is promised of its value.
#[verifier::external_body]
fn instant_elapsed(start: &Instant) -> (elapsed: Duration) {
    start.elapsed()
}

/// `Duration::as_millis`: whole milliseconds; nothing is stated of their number.
#[verifier::external_body]
fn duration_millis(duration: &Duration) -> (millis: u128) {
    duration.as_millis()
}

#[derive(Clone, Copy, Debug, PartialEq, Eq, Structural)]
pub struct ReceiverLimits {
    pub max_logical_size: usize,
    pub max_buffered_bytes: usize,
    pub max_partial_messages: usize,
    pub max_complete_messages: usize,
    pub max_complete_queue_bytes: usize,
    pub recent_message_ids: usize,
    pub reassembly_deadline_ms: u64,
}

impl ReceiverLimits {
    /// The v1 defaults.
    pub open spec fn defaults() -> ReceiverLimits {
        ReceiverLimits {
            max_logical_size: 16384,
            max_buffered_bytes: 1048576,
            max_partial_messages: 64,
            max_complete_messages: 64,
            max_complete_queue_bytes: 65536,
            recent_message_ids: 32,
            reassembly_deadline_ms: 30000,
        }
    }
}

impl Default for ReceiverLimits {
    fn default() -> (limits: Self)
        ensures
            limits == ReceiverLimits::defaults(),
    {
        ReceiverLimits {
            max_logical_size: 16 * 1024,
            max_buffered_bytes: 1024 * 1024,
            max_partial_messages: 64,
            max_complete_messages: 64,
            max_complete_queue_bytes: 64 * 1024,
            recent_message_ids: 32,
            reassembly_deadline_ms: 30_000,
        }
    }
}

#[derive(Clone, Debug, PartialEq, Eq)]
pub enum ReceiveAction {
    Nothing,
    Control { kind: FrameKind, payload: Vec<u8> },
    Message { message_id: u32, payload: Vec<u8>, ack: Vec<u8> },
    DuplicateAck { message_id: u32, ack: Vec<u8> },
    Ack { message_id: u32 },
}

/// What a receive hands back.
pub enum ActionView {
    Nothing,
    Control { kind: FrameKind, payload: Seq<u8> },
    Message { message_id: u32, payload: Seq<u8>, ack: Seq<u8> },
    DuplicateAck { message_id: u32, ack: Seq<u8> },
    Ack { message_id: u32 },
}

impl View for ReceiveAction {
    type V = ActionView;

    open spec fn view(&self) -> ActionView {
        match self {
            ReceiveAction::Nothing => ActionView::Nothing,
            ReceiveAction::Control { kind, payload } => ActionView::Control {
                kind: *kind,
                payload: payload@,
            },
            ReceiveAction::Message { message_id, payload, ack } => ActionView::Message {
                message_id: *message_id,
                payload: payload@,
                ack: ack@,
            },
            ReceiveAction::DuplicateAck { message_id, ack } => ActionView::DuplicateAck {
                message_id: *message_id,
                ack: ack@,
            },
            ReceiveAction::Ack { message_id } => ActionView::Ack { message_id: *message_id },
        }
    }
}

/// One message under reassembly.
pub struct PartialView {
    pub kind: FrameKind,
    pub message_id: u32,
    pub total_length: int,
    pub fragments: Seq<Option<Seq<u8>>>,
    pub received_bytes: int,
    pub reserved_bytes: int,
    pub started_ms: u64,
}

/// The state of a receiver.
pub struct ReceiverView {
    pub limits: ReceiverLimits,
    pub partials: Seq<PartialView>,
    pub buffered_bytes: int,
    pub completed: Seq<(u32, Seq<u8>)>,
    pub complete_queue_bytes: int,
    pub recent: Seq<(u32, Seq<u8>)>,
    pub recent_bytes: int,
}

/// `value`, capped at `usize::MAX`.
pub open spec fn cap(value: int) -> int {
    if value > usize::MAX {
        usize::MAX as int
    } else {
        value
    }
}

/// `a - b`, floored at zero.
pub open spec fn floor_sub(a: int, b: int) -> int {
    if a >= b {
        a - b
    } else {
        0
    }
}

/// The time from `then` to `now`, zero when `now` is earlier.
pub open spec fn since(now: u64, then: u64) -> int {
    if now >= then {
        now - then
    } else {
        0
    }
}

/// The metadata bytes reserved for a partial message of `count` fragments.
pub open spec fn reservation(count: int) -> int {
    count * size_of::<Option<Vec<u8>>>() + size_of::<Partial>() + size_of::<(FrameKind, u32)>()
}

/// The total length of a list of byte strings.
pub open spec fn total_len(items: Seq<(u32, Seq<u8>)>) -> int
    decreases items.len(),
{
    if items.len() == 0 {
        0
    } else {
        total_len(items.drop_last()) + items.last().1.len()
    }
}

/// The bytes held by partial messages: their reservations and fragments.
pub open spec fn partial_bytes(partials: Seq<PartialView>) -> int
    decreases partials.len(),
{
    if partials.len() == 0 {
        0
    } else {
        partial_bytes(partials.drop_last()) + partials.last().reserved_bytes
            + partials.last().received_bytes
    }
}

/// The fragments of a partial message, joined in order.
pub open spec fn joined_fragments(fragments: Seq<Option<Seq<u8>>>) -> Seq<u8>
    decreases fragments.len(),
{
    if fragments.len() == 0 {
        Seq::empty()
    } else {
        joined_fragments(fragments.drop_last()) + match fragments.last() {
            Some(bytes) => bytes,
            None => Seq::empty(),
        }
    }
}

/// The index of the first partial message with this key, or -1.
pub open spec fn find_partial(partials: Seq<PartialView>, kind: FrameKind, message_id: u32) -> int
    decreases partials.len(),
{
    if partials.len() == 0 {
        -1
    } else {
        let found = find_partial(partials.drop_last(), kind, message_id);
        if found >= 0 {
            found
        } else if partials.last().kind == kind && partials.last().message_id == message_id {
            partials.len() - 1
        } else {
            -1
        }
    }
}

/// The index of the first recent message with this ID, or -1.
pub open spec fn find_recent(recent: Seq<(u32, Seq<u8>)>, message_id: u32) -> int
    decreases recent.len(),
{
    if recent.len() == 0 {
        -1
    } else {
        let found = find_recent(recent.drop_last(), message_id);
        if found >= 0 {
            found
        } else if recent.last().0 == message_id {
            recent.len() - 1
        } else {
            -1
        }
    }
}

/// The partial messages that outlive the deadline at `now`, in order, and the buffer
/// count once the others are released.
pub open spec fn expire(partials: Seq<PartialView>, buffered: int, now: u64, deadline: u64) -> (
    Seq<PartialView>,
    int,
)
    decreases partials.len(),
{
    if partials.len() == 0 {
        (Seq::empty(), buffered)
    } else {
        let (kept, rest) = expire(partials.drop_last(), buffered, now, deadline);
        let p = partials.last();
        if since(now, p.started_ms) >= deadline {
            (kept, floor_sub(rest, p.reserved_bytes + p.received_bytes))
        } else {
            (kept.push(p), rest)
        }
    }
}

/// Drops recent messages from the front until at most `limit` stay.
pub open spec fn trim_recent(recent: Seq<(u32, Seq<u8>)>, limit: int) -> Seq<(u32, Seq<u8>)>
    decreases recent.len(),
{
    if recent.len() > limit && recent.len() > 0 {
        trim_recent(recent.subrange(1, recent.len() as int), limit)
    } else {
        recent
    }
}

impl ReceiverView {
    /// Every byte the receiver holds, capped at `usize::MAX`.
    pub open spec fn total_buffered(self) -> int {
        cap(cap(self.buffered_bytes + self.complete_queue_bytes) + self.recent_bytes)
    }

    /// The receiver after the partial messages past their deadline leave.
    pub open spec fn expired_at(self, now: u64) -> ReceiverView {
        let (kept, buffered) = expire(
            self.partials,
            self.buffered_bytes,
            now,
            self.limits.reassembly_deadline_ms,
        );
        ReceiverView { partials: kept, buffered_bytes: buffered, ..self }
    }

    /// The counters match what is held, and the bounds hold.
    pub open spec fn wf(self) -> bool {
        &&& self.buffered_bytes == partial_bytes(self.partials)
        &&& self.complete_queue_bytes == total_len(self.completed)
        &&& self.recent_bytes == total_len(self.recent)
        &&& self.buffered_bytes + self.complete_queue_bytes + self.recent_bytes
            <= self.limits.max_buffered_bytes
        &&& self.partials.len() <= self.limits.max_partial_messages
        &&& self.completed.len() <= self.limits.max_complete_messages
        &&& self.complete_queue_bytes <= self.limits.max_complete_queue_bytes
        &&& forall|i: int|
            0 <= i < self.partials.len() ==> {
                let p = #[trigger] self.partials[i];
                &&& p.received_bytes >= 0
                &&& p.reserved_bytes >= 0
                &&& p.fragments.len() <= u16::MAX
            }
    }
}

/// The step of a frame that opens a new partial message or continues one:
/// the receiver with the partial message in place and its index, or the error.
pub open spec fn open_partial(v: ReceiverView, frame: FrameModel, now: u64) -> Result<
    (ReceiverView, int),
    (ErrorCode, Seq<char>),
> {
    let found = find_partial(v.partials, frame.kind, frame.message_id);
    if found >= 0 {
        Ok((v, found))
    } else if v.partials.len() >= v.limits.max_partial_messages {
        Err((ErrorCode::QueueFull, "partial-message limit reached"@))
    } else {
        let reserved = reservation(frame.fragment_count as int);
        if reserved > usize::MAX {
            Err((ErrorCode::PayloadTooLarge, "fragment metadata size overflow"@))
        } else if v.total_buffered() + reserved > v.limits.max_buffered_bytes {
            Err((ErrorCode::QueueFull, "fragment metadata exceeds the protocol buffer budget"@))
        } else {
            let partial = PartialView {
                kind: frame.kind,
                message_id: frame.message_id,
                total_length: frame.total_length as int,
                fragments: Seq::new(frame.fragment_count as nat, |i: int| None),
                received_bytes: 0,
                reserved_bytes: reserved,
                started_ms: now,
            };
            Ok(
                (
                    ReceiverView {
                        partials: v.partials.push(partial),
                        buffered_bytes: v.buffered_bytes + reserved,
                        ..v
                    },
                    v.partials.len() as int,
                ),
            )
        }
    }
}

/// The step of a complete DATA message: deliver it, acknowledge a duplicate again,
/// or refuse it.
pub open spec fn admit_message(v: ReceiverView, message_id: u32, payload: Seq<u8>) -> (
    ReceiverView,
    Result<ActionView, (ErrorCode, Seq<char>)>,
) {
    let ack = ack_model(message_id).bytes();
    let seen = find_recent(v.recent, message_id);
    if seen >= 0 {
        if v.recent[seen].1 == payload {
            (v, Ok(ActionView::DuplicateAck { message_id, ack }))
        } else {
            (v, Err((ErrorCode::ProtocolMismatch, "message ID was reused with different content"@)))
        }
    } else if v.completed.len() >= v.limits.max_complete_messages || v.complete_queue_bytes
        + payload.len() > v.limits.max_complete_queue_bytes {
        (v, Err((ErrorCode::QueueFull, "complete-message queue cannot accept the message"@)))
    } else {
        let evicted = if v.recent.len() >= v.limits.recent_message_ids && v.recent.len() > 0 {
            v.recent[0].1.len() as int
        } else {
            0
        };
        let doubled = v.total_buffered() + 2 * payload.len();
        if doubled > usize::MAX || floor_sub(doubled, evicted) > v.limits.max_buffered_bytes {
            (
                v,
                Err((ErrorCode::QueueFull, "complete message exceeds the total protocol buffer budget"@)),
            )
        } else {
            let recent = trim_recent(
                v.recent.push((message_id, payload)),
                v.limits.recent_message_ids as int,
            );
            (
                ReceiverView {
                    completed: v.completed.push((message_id, payload)),
                    complete_queue_bytes: v.complete_queue_bytes + payload.len(),
                    recent,
                    recent_bytes: total_len(recent),
                    ..v
                },
                Ok(ActionView::Message { message_id, payload, ack }),
            )
        }
    }
}

/// The step of a partial message whose fragments have all arrived, once it has left
/// the receiver: check its length, then hand over a control payload or admit a DATA
/// message.
pub open spec fn settle(done: ReceiverView, filled: PartialView, kind: FrameKind, message_id: u32) -> (
    ReceiverView,
    Result<ActionView, (ErrorCode, Seq<char>)>,
) {
    if filled.received_bytes != filled.total_length {
        (done, Err((ErrorCode::ProtocolMismatch, "reassembled length does not match declared total"@)))
    } else {
        let payload = joined_fragments(filled.fragments);
        if kind != FrameKind::Data {
            (done, Ok(ActionView::Control { kind, payload }))
        } else {
            admit_message(done, message_id, payload)
        }
    }
}

/// The step of one fragment of a non-ACK frame into the partial message at `index`.
pub open spec fn place_fragment(v: ReceiverView, index: int, frame: FrameModel) -> (
    ReceiverView,
    Result<ActionView, (ErrorCode, Seq<char>)>,
) {
    let p = v.partials[index];
    if p.total_length != frame.total_length || p.fragments.len() != frame.fragment_count {
        (v, Err((ErrorCode::ProtocolMismatch, "fragment metadata changed during reassembly"@)))
    } else {
        match p.fragments[frame.fragment_index as int] {
            Some(existing) => if existing == frame.payload {
                (v, Ok(ActionView::Nothing))
            } else {
                (v, Err((ErrorCode::ProtocolMismatch, "duplicate fragment has different content"@)))
            },
            None => if v.total_buffered() + frame.payload.len() > v.limits.max_buffered_bytes {
                (v, Err((ErrorCode::QueueFull, "adapter protocol buffer budget exhausted"@)))
            } else {
                let filled = PartialView {
                    fragments: p.fragments.update(
                        frame.fragment_index as int,
                        Some(frame.payload),
                    ),
                    received_bytes: p.received_bytes + frame.payload.len(),
                    ..p
                };
                let buffered = v.buffered_bytes + frame.payload.len();
                if exists|i: int| 0 <= i < filled.fragments.len() && filled.fragments[i] is None {
                    (
                        ReceiverView {
                            partials: v.partials.update(index, filled),
                            buffered_bytes: buffered,
                            ..v
                        },
                        Ok(ActionView::Nothing),
                    )
                } else {
                    let done = ReceiverView {
                        partials: v.partials.remove(index),
                        buffered_bytes: floor_sub(
                            buffered,
                            filled.reserved_bytes + filled.received_bytes,
                        ),
                        ..v
                    };
                    settle(done, filled, frame.kind, frame.message_id)
                }
            },
        }
    }
}

/// One receive of `bytes` at `now`: the receiver after it and the action or error.
pub open spec fn receive_step(v: ReceiverView, bytes: Seq<u8>, now: u64) -> (
    ReceiverView,
    Result<ActionView, (ErrorCode, Seq<char>)>,
) {
    let v1 = v.expired_at(now);
    match decode_model(bytes, v.limits.max_logical_size as int) {
        Err(code) => (v1, Err((code, decode_message(bytes, v.limits.max_logical_size as int)))),
        Ok(frame) => if frame.kind == FrameKind::Ack {
            (v1, Ok(ActionView::Ack { message_id: frame.message_id }))
        } else {
            match open_partial(v1, frame, now) {
                Err(refused) => (v1, Err(refused)),
                Ok((v2, index)) => place_fragment(v2, index, frame),
            }
        },
    }
}

pub struct Partial {
    kind: FrameKind,
    message_id: u32,
    total_length: usize,
    fragments: Vec<Option<Vec<u8>>>,
    received_bytes: usize,
    reserved_bytes: usize,
    started_ms: u64,
}

/// The byte strings of a list of optional fragments.
pub open spec fn fragments_view(fragments: Seq<Option<Vec<u8>>>) -> Seq<Option<Seq<u8>>> {
    fragments.map_values(
        |f: Option<Vec<u8>>|
            match f {
                Some(bytes) => Some(bytes@),
                None => None,
            },
    )
}

impl Partial {
    pub closed spec fn model(&self) -> PartialView {
        PartialView {
            kind: self.kind,
            message_id: self.message_id,
            total_length: self.total_length as int,
            fragments: fragments_view(self.fragments@),
            received_bytes: self.received_bytes as int,
            reserved_bytes: self.reserved_bytes as int,
            started_ms: self.started_ms,
        }
    }
}

/// The byte strings of a queue of messages.
pub open spec fn messages_view(messages: Seq<(u32, Vec<u8>)>) -> Seq<(u32, Seq<u8>)> {
    messages.map_values(|m: (u32, Vec<u8>)| (m.0, m.1@))
}

pub open spec fn partials_view(partials: Seq<Partial>) -> Seq<PartialView> {
    partials.map_values(|p: Partial| p.model())
}

pub struct Receiver {
    limits: ReceiverLimits,
    partials: Vec<Partial>,
    buffered_bytes: usize,
    completed: VecDeque<(u32, Vec<u8>)>,
    complete_queue_bytes: usize,
    recent: VecDeque<(u32, Vec<u8>)>,
    recent_bytes: usize,
    started_at: Instant,
}

impl View for Receiver {
    type V = ReceiverView;

    closed spec fn view(&self) -> ReceiverView {
        ReceiverView {
            limits: self.limits,
            partials: partials_view(self.partials@),
            buffered_bytes: self.buffered_bytes as int,
            completed: messages_view(self.completed@),
            complete_queue_bytes: self.complete_queue_bytes as int,
            recent: messages_view(self.recent@),
            recent_bytes: self.recent_bytes as int,
        }
    }
}

/// An error of a receive carries no operation, resource, delivery or native code.
pub open spec fn fails_plainly(result: BleResult<ReceiveAction>) -> bool {
    result matches Err(e) ==> e.operation_id is None && e.resource_id is None && e.delivery is None
        && e.native_code is None
}

/// What a receive hands back, by view, error code and message.
pub open spec fn result_view(result: BleResult<ReceiveAction>) -> Result<ActionView, (ErrorCode, Seq<char>)> {
    match result {
        Ok(action) => Ok(action@),
        Err(error) => Err((error.code, error.message@)),
    }
}

proof fn lemma_total_len_push(items: Seq<(u32, Seq<u8>)>, item: (u32, Seq<u8>))
    ensures
        total_len(items.push(item)) == total_len(items) + item.1.len(),
{
    assert(items.push(item).drop_last() =~= items);
}

pub proof fn lemma_total_len_nonneg(items: Seq<(u32, Seq<u8>)>)
    ensures
        total_len(items) >= 0,
    decreases items.len(),
{
    if items.len() > 0 {
        lemma_total_len_nonneg(items.drop_last());
    }
}

proof fn lemma_total_len_drop_first(items: Seq<(u32, Seq<u8>)>)
    requires
        items.len() > 0,
    ensures
        total_len(items) == items[0].1.len() + total_len(items.subrange(1, items.len() as int)),
    decreases items.len(),
{
    if items.len() == 1 {
        assert(items.drop_last() =~= Seq::<(u32, Seq<u8>)>::empty());
        assert(items.subrange(1, 1) =~= Seq::<(u32, Seq<u8>)>::empty());
    } else {
        lemma_total_len_drop_first(items.drop_last());
        assert(items.drop_last().subrange(1, items.len() - 1) =~= items.subrange(
            1,
            items.len() as int,
        ).drop_last());
    }
}

proof fn lemma_trim_bound(items: Seq<(u32, Seq<u8>)>, limit: int)
    requires
        limit >= 0,
    ensures
        total_len(trim_recent(items, limit)) <= total_len(items),
        items.len() > limit && items.len() > 0 ==> total_len(trim_recent(items, limit))
            <= total_len(items) - items[0].1.len(),
        items.len() <= limit ==> trim_recent(items, limit) == items,
    decreases items.len(),
{
    if items.len() > limit && items.len() > 0 {
        let rest = items.subrange(1, items.len() as int);
        lemma_trim_bound(rest, limit);
        lemma_total_len_drop_first(items);
        lemma_total_len_nonneg(items.subrange(0, 1));
    }
}

proof fn lemma_partial_bytes_push(partials: Seq<PartialView>, p: PartialView)
    ensures
        partial_bytes(partials.push(p)) == partial_bytes(partials) + p.reserved_bytes
            + p.received_bytes,
{
    assert(partials.push(p).drop_last() =~= partials);
}

proof fn lemma_partial_bytes_update(partials: Seq<PartialView>, i: int, p: PartialView)
    requires
        0 <= i < partials.len(),
    ensures
        partial_bytes(partials.update(i, p)) == partial_bytes(partials) - partials[i].reserved_bytes
            - partials[i].received_bytes + p.reserved_bytes + p.received_bytes,
    decreases partials.len(),
{
    if i == partials.len() - 1 {
        assert(partials.update(i, p).drop_last() =~= partials.drop_last());
    } else {
        lemma_partial_bytes_update(partials.drop_last(), i, p);
        assert(partials.update(i, p).drop_last() =~= partials.drop_last().update(i, p));
    }
}

proof fn lemma_partial_bytes_remove(partials: Seq<PartialView>, i: int)
    requires
        0 <= i < partials.len(),
    ensures
        partial_bytes(partials.remove(i)) == partial_bytes(partials) - partials[i].reserved_bytes
            - partials[i].received_bytes,
    decreases partials.len(),
{
    if i == partials.len() - 1 {
        assert(partials.remove(i) =~= partials.drop_last());
    } else {
        lemma_partial_bytes_remove(partials.drop_last(), i);
        assert(partials.remove(i).drop_last() =~= partials.drop_last().remove(i));
    }
}

proof fn lemma_partial_bytes_bounds(partials: Seq<PartialView>, i: int)
    requires
        forall|j: int|
            0 <= j < partials.len() ==> (#[trigger] partials[j]).received_bytes >= 0
                && partials[j].reserved_bytes >= 0,
        0 <= i < partials.len(),
    ensures
        partials[i].reserved_bytes + partials[i].received_bytes <= partial_bytes(partials),
        partial_bytes(partials) >= 0,
    decreases partials.len(),
{
    lemma_partial_bytes_nonneg(partials.drop_last());
    if i < partials.len() - 1 {
        lemma_partial_bytes_bounds(partials.drop_last(), i);
    }
}

proof fn lemma_partial_bytes_nonneg(partials: Seq<PartialView>)
    requires
        forall|j: int|
            0 <= j < partials.len() ==> (#[trigger] partials[j]).received_bytes >= 0
                && partials[j].reserved_bytes >= 0,
    ensures
        partial_bytes(partials) >= 0,
    decreases partials.len(),
{
    if partials.len() > 0 {
        lemma_partial_bytes_nonneg(partials.drop_last());
    }
}

proof fn lemma_expire_exact(partials: Seq<PartialView>, extra: int, now: u64, deadline: u64)
    requires
        extra >= 0,
        forall|j: int|
            0 <= j < partials.len() ==> (#[trigger] partials[j]).received_bytes >= 0
                && partials[j].reserved_bytes >= 0,
    ensures
        expire(partials, partial_bytes(partials) + extra, now, deadline).1 == partial_bytes(
            expire(partials, partial_bytes(partials) + extra, now, deadline).0,
        ) + extra,
        expire(partials, partial_bytes(partials) + extra, now, deadline).0.len()
            <= partials.len(),
        expire(partials, partial_bytes(partials) + extra, now, deadline).1 <= partial_bytes(
            partials,
        ) + extra,
        forall|j: int|
            0 <= j < expire(partials, partial_bytes(partials) + extra, now, deadline).0.len()
                ==> exists|k: int|
                0 <= k < partials.len() && #[trigger] expire(
                    partials,
                    partial_bytes(partials) + extra,
                    now,
                    deadline,
                ).0[j] == partials[k],
    decreases partials.len(),
{
    if partials.len() > 0 {
        let last = partials.last();
        let prefix = partials.drop_last();
        let extra2 = extra + last.reserved_bytes + last.received_bytes;
        assert(partial_bytes(partials) + extra == partial_bytes(prefix) + extra2);
        lemma_expire_exact(prefix, extra2, now, deadline);
        let (kept, rest) = expire(prefix, partial_bytes(prefix) + extra2, now, deadline);
        lemma_partial_bytes_push(kept, last);
        assert forall|j: int| 0 <= j < kept.len() implies (#[trigger] kept[j]).received_bytes >= 0
            && kept[j].reserved_bytes >= 0 by {
            let k = choose|k: int| 0 <= k < prefix.len() && #[trigger] kept[j] == prefix[k];
            assert(prefix[k] == partials[k]);
        }
        lemma_partial_bytes_nonneg(kept);
        let result = expire(partials, partial_bytes(partials) + extra, now, deadline).0;
        assert forall|j: int| 0 <= j < result.len() implies exists|k: int|
            0 <= k < partials.len() && #[trigger] result[j] == partials[k] by {
            if j < kept.len() {
                let k = choose|k: int| 0 <= k < prefix.len() && #[trigger] kept[j] == prefix[k];
                assert(result[j] == partials[k]);
            } else {
                assert(result[j] == partials[partials.len() - 1]);
            }
        }
    }
}

fn bytes_equal(a: &Vec<u8>, b: &Vec<u8>) -> (equal: bool)
    ensures
        equal == (a@ == b@),
{
    if a.len() != b.len() {
        return false;
    }
    let mut i: usize = 0;
    while i < a.len()
        invariant
            a@.len() == b@.len(),
            i <= a@.len(),
            forall|j: int| 0 <= j < i ==> a@[j] == b@[j],
        decreases a@.len() - i,
    {
        if a[i] != b[i] {
            return false;
        }
        i = i + 1;
    }
    assert(a@ =~= b@);
    true
}

fn copy_bytes(bytes: &Vec<u8>) -> (copy: Vec<u8>)
    ensures
        copy@ == bytes@,
{
    let copy = bytes.clone();
    assert(copy@ =~= bytes@);
    copy
}

proof fn lemma_find_partial_prefix(partials: Seq<PartialView>, k: int, kind: FrameKind, message_id: u32)
    requires
        0 <= k <= partials.len(),
        find_partial(partials.subrange(0, k), kind, message_id) >= 0,
    ensures
        find_partial(partials, kind, message_id) == find_partial(
            partials.subrange(0, k),
            kind,
            message_id,
        ),
    decreases partials.len() - k,
{
    if k < partials.len() {
        assert(partials.drop_last().subrange(0, k) =~= partials.subrange(0, k));
        lemma_find_partial_prefix(partials.drop_last(), k, kind, message_id);
    } else {
        assert(partials.subrange(0, k) =~= partials);
    }
}

proof fn lemma_find_partial_range(partials: Seq<PartialView>, kind: FrameKind, message_id: u32)
    ensures
        -1 <= find_partial(partials, kind, message_id) < partials.len(),
        find_partial(partials, kind, message_id) >= 0 ==> partials[find_partial(
            partials,
            kind,
            message_id,
        )].kind == kind && partials[find_partial(partials, kind, message_id)].message_id
            == message_id,
    decreases partials.len(),
{
    if partials.len() > 0 {
        lemma_find_partial_range(partials.drop_last(), kind, message_id);
    }
}

proof fn lemma_find_recent_prefix(recent: Seq<(u32, Seq<u8>)>, k: int, message_id: u32)
    requires
        0 <= k <= recent.len(),
        find_recent(recent.subrange(0, k), message_id) >= 0,
    ensures
        find_recent(recent, message_id) == find_recent(recent.subrange(0, k), message_id),
    decreases recent.len() - k,
{
    if k < recent.len() {
        assert(recent.drop_last().subrange(0, k) =~= recent.subrange(0, k));
        lemma_find_recent_prefix(recent.drop_last(), k, message_id);
    } else {
        assert(recent.subrange(0, k) =~= recent);
    }
}

proof fn lemma_find_recent_range(recent: Seq<(u32, Seq<u8>)>, message_id: u32)
    ensures
        -1 <= find_recent(recent, message_id) < recent.len(),
    decreases recent.len(),
{
    if recent.len() > 0 {
        lemma_find_recent_range(recent.drop_last(), message_id);
    }
}

proof fn lemma_find_recent_absent(recent: Seq<(u32, Seq<u8>)>, message_id: u32)
    requires
        forall|j: int| 0 <= j < recent.len() ==> (#[trigger] recent[j]).0 != message_id,
    ensures
        find_recent(recent, message_id) == -1,
    decreases recent.len(),
{
    if recent.len() > 0 {
        lemma_find_recent_absent(recent.drop_last(), message_id);
    }
}

proof fn lemma_find_recent_present(recent: Seq<(u32, Seq<u8>)>, message_id: u32)
    requires
        find_recent(recent, message_id) == -1,
    ensures
        forall|j: int| 0 <= j < recent.len() ==> (#[trigger] recent[j]).0 != message_id,
    decreases recent.len(),
{
    if recent.len() > 0 {
        lemma_find_recent_range(recent.drop_last(), message_id);
        lemma_find_recent_present(recent.drop_last(), message_id);
        assert forall|j: int| 0 <= j < recent.len() implies (#[trigger] recent[j]).0
            != message_id by {
            if j < recent.len() - 1 {
                assert(recent.drop_last()[j] == recent[j]);
            }
        }
    }
}

proof fn lemma_trim_suffix(items: Seq<(u32, Seq<u8>)>, limit: int)
    requires
        limit >= 1,
        items.len() >= 1,
    ensures
        1 <= trim_recent(items, limit).len() <= items.len(),
        forall|j: int|
            0 <= j < trim_recent(items, limit).len() ==> #[trigger] trim_recent(items, limit)[j]
                == items[j + items.len() - trim_recent(items, limit).len()],
    decreases items.len(),
{
    if items.len() > limit && items.len() > 0 {
        let rest = items.subrange(1, items.len() as int);
        lemma_trim_suffix(rest, limit);
    }
}

/// A DATA message, once delivered, is acknowledged again when it arrives a second time,
/// and it is not queued twice: the second admission leaves the receiver as it was and
/// answers with a duplicate acknowledgement of the same message ID.
pub proof fn law_delivered_message_is_reacked(v: ReceiverView, message_id: u32, payload: Seq<u8>)
    requires
        v.limits.recent_message_ids >= 1,
        admit_message(v, message_id, payload).1 matches Ok(ActionView::Message { .. }),
    ensures
        ({
            let delivered = admit_message(v, message_id, payload).0;
            admit_message(delivered, message_id, payload) == (
                delivered,
                Ok::<ActionView, (ErrorCode, Seq<char>)>(
                    ActionView::DuplicateAck { message_id, ack: ack_model(message_id).bytes() },
                ),
            )
        }),
{
    let delivered = admit_message(v, message_id, payload).0;
    let pushed = v.recent.push((message_id, payload));
    let limit = v.limits.recent_message_ids as int;
    let t = trim_recent(pushed, limit);
    assert(delivered.recent == t);
    lemma_find_recent_present(v.recent, message_id);
    lemma_trim_suffix(pushed, limit);
    assert(t.last() == pushed.last());
    assert forall|j: int| 0 <= j < t.drop_last().len() implies (#[trigger] t.drop_last()[j]).0
        != message_id by {
        assert(t.drop_last()[j] == t[j]);
        assert(t[j] == pushed[j + pushed.len() - t.len()]);
        assert(pushed[j + pushed.len() - t.len()] == v.recent[j + pushed.len() - t.len()]);
    }
    lemma_find_recent_absent(t.drop_last(), message_id);
    assert(find_recent(t, message_id) == t.len() - 1);
}

fn find_partial_index(partials: &Vec<Partial>, kind: FrameKind, message_id: u32) -> (index:
    Option<usize>)
    ensures
        match index {
            Some(i) => i as int == find_partial(partials_view(partials@), kind, message_id),
            None => find_partial(partials_view(partials@), kind, message_id) == -1,
        },
{
    let ghost all = partials_view(partials@);
    let mut i: usize = 0;
    while i < partials.len()
        invariant
            all == partials_view(partials@),
            i <= partials@.len(),
            find_partial(all.subrange(0, i as int), kind, message_id) == -1,
        decreases partials@.len() - i,
    {
        assert(all.subrange(0, i + 1).drop_last() =~= all.subrange(0, i as int));
        if partials[i].kind == kind && partials[i].message_id == message_id {
            proof {
                lemma_find_partial_prefix(all, i + 1, kind, message_id);
            }
            return Some(i);
        }
        i = i + 1;
    }
    assert(all.subrange(0, i as int) =~= all);
    None
}

fn find_recent_index(recent: &VecDeque<(u32, Vec<u8>)>, message_id: u32) -> (index: Option<
    usize,
>)
    ensures
        match index {
            Some(i) => i as int == find_recent(messages_view(recent@), message_id),
            None => find_recent(messages_view(recent@), message_id) == -1,
        },
{
    let ghost all = messages_view(recent@);
    let mut i: usize = 0;
    while i < recent.len()
        invariant
            all == messages_view(recent@),
            i <= recent@.len(),
            find_recent(all.subrange(0, i as int), message_id) == -1,
        decreases recent@.len() - i,
    {
        assert(all.subrange(0, i + 1).drop_last() =~= all.subrange(0, i as int));
        if recent[i].0 == message_id {
            proof {
                lemma_find_recent_prefix(all, i + 1, message_id);
            }
            return Some(i);
        }
        i = i + 1;
    }
    assert(all.subrange(0, i as int) =~= all);
    None
}

fn all_filled(fragments: &Vec<Option<Vec<u8>>>) -> (filled: bool)
    ensures
        filled == !(exists|i: int|
            0 <= i < fragments_view(fragments@).len() && fragments_view(fragments@)[i] is None),
{
    let mut i: usize = 0;
    while i < fragments.len()
        invariant
            i <= fragments@.len(),
            forall|j: int| 0 <= j < i ==> fragments@[j] is Some,
        decreases fragments@.len() - i,
    {
        if fragments[i].is_none() {
            assert(fragments_view(fragments@)[i as int] is None);
            return false;
        }
        i = i + 1;
    }
    proof {
        assert forall|j: int| 0 <= j < fragments_view(fragments@).len() implies !(
        #[trigger] fragments_view(fragments@)[j] is None) by {
            assert(fragments@[j] is Some);
        }
    }
    true
}

fn join_fragments(fragments: &Vec<Option<Vec<u8>>>) -> (payload: Vec<u8>)
    ensures
        payload@ == joined_fragments(fragments_view(fragments@)),
{
    let ghost all = fragments_view(fragments@);
    let mut payload: Vec<u8> = Vec::new();
    let mut i: usize = 0;
    assert(all.subrange(0, 0) =~= Seq::<Option<Seq<u8>>>::empty());
    while i < fragments.len()
        invariant
            all == fragments_view(fragments@),
            i <= fragments@.len(),
            payload@ == joined_fragments(all.subrange(0, i as int)),
        decreases fragments@.len() - i,
    {
        assert(all.subrange(0, i + 1).drop_last() =~= all.subrange(0, i as int));
        let ghost before = payload@;
        match &fragments[i] {
            Some(bytes) => {
                payload.extend_from_slice(bytes.as_slice());
                assert(payload@ =~= before + bytes@);
            },
            None => {
                assert(payload@ =~= before + Seq::<u8>::empty());
            },
        }
        i = i + 1;
    }
    assert(all.subrange(0, i as int) =~= all);
    payload
}

impl Default for Receiver {
    fn default() -> (receiver: Self)
        ensures
            receiver.well_formed(),
            receiver@ == (ReceiverView {
                limits: ReceiverLimits::defaults(),
                partials: Seq::empty(),
                buffered_bytes: 0,
                completed: Seq::empty(),
                complete_queue_bytes: 0,
                recent: Seq::empty(),
                recent_bytes: 0,
            }),
    {
        Receiver::new(ReceiverLimits::default())
    }
}

impl Receiver {
    pub closed spec fn well_formed(&self) -> bool {
        &&& self@.wf()
        &&& forall|i: int|
            0 <= i < self.partials@.len() ==> (#[trigger] self.partials@[i]).model()
                == self@.partials[i]
    }

    /// Every operation keeps a receiver well formed, so after any sequence of calls
    /// it holds at most its partial-message limit of incomplete messages, at most its
    /// complete-message limit of queued messages within the queue's byte limit, and
    /// no more bytes in all than its buffer budget.
    pub proof fn law_a_receiver_stays_within_its_limits(&self)
        requires
            self.well_formed(),
        ensures
            self@.partials.len() <= self@.limits.max_partial_messages,
            self@.completed.len() <= self@.limits.max_complete_messages,
            total_len(self@.completed) <= self@.limits.max_complete_queue_bytes,
            partial_bytes(self@.partials) + total_len(self@.completed) + total_len(self@.recent)
                <= self@.limits.max_buffered_bytes,
    {
    }

    pub fn new(limits: ReceiverLimits) -> (receiver: Self)
        ensures
            receiver.well_formed(),
            receiver@ == (ReceiverView {
                limits,
                partials: Seq::empty(),
                buffered_bytes: 0,
                completed: Seq::empty(),
                complete_queue_bytes: 0,
                recent: Seq::empty(),
                recent_bytes: 0,
            }),
    {
        let receiver = Receiver {
            limits,
            partials: Vec::new(),
            buffered_bytes: 0,
            completed: VecDeque::new(),
            complete_queue_bytes: 0,
            recent: VecDeque::new(),
            recent_bytes: 0,
            started_at: instant_now(),
        };
        assert(receiver@.partials =~= Seq::<PartialView>::empty());
        assert(receiver@.completed =~= Seq::<(u32, Seq<u8>)>::empty());
        assert(receiver@.recent =~= Seq::<(u32, Seq<u8>)>::empty());
        receiver
    }

    /// Every byte the receiver holds, saturating at `usize::MAX`.
    pub fn total_buffered_bytes(&self) -> (total: usize)
        ensures
            total == self@.total_buffered(),
    {
        self.buffered_bytes.saturating_add(self.complete_queue_bytes).saturating_add(
            self.recent_bytes,
        )
    }

    /// Releases the partial messages whose reassembly deadline has passed.
    fn expire_partials(&mut self, now_ms: u64)
        requires
            old(self).well_formed(),
        ensures
            final(self).well_formed(),
            final(self)@ == old(self)@.expired_at(now_ms),
            final(self).limits == old(self).limits,
    {
        let ghost start = self@;
        let deadline = self.limits.reassembly_deadline_ms;
        let mut rest: Vec<Partial> = Vec::new();
        std::mem::swap(&mut rest, &mut self.partials);
        let mut kept: Vec<Partial> = Vec::new();
        let mut buffered = self.buffered_bytes;
        let ghost mut i: int = 0;
        proof {
            assert(start.partials.subrange(0, 0) =~= Seq::<PartialView>::empty());
            assert(partials_view(kept@) =~= Seq::<PartialView>::empty());
        }
        while rest.len() > 0
            invariant
                start.wf(),
                start.buffered_bytes <= usize::MAX,
                0 <= i <= start.partials.len(),
                rest@.len() == start.partials.len() - i,
                forall|j: int|
                    0 <= j < rest@.len() ==> (#[trigger] rest@[j]).model() == start.partials[i
                        + j],
                (partials_view(kept@), buffered as int) == expire(
                    start.partials.subrange(0, i),
                    start.buffered_bytes,
                    now_ms,
                    deadline,
                ),
            decreases rest@.len(),
        {
            let ghost prefix = start.partials.subrange(0, i);
            assert(start.partials.subrange(0, i + 1).drop_last() =~= prefix);
            let p = rest.remove(0);
            assert(p.model() == start.partials[i]);
            proof {
                lemma_partial_bytes_bounds(start.partials, i);
            }
            assert(start.partials.subrange(0, i + 1).last() == start.partials[i]);
            if now_ms.saturating_sub(p.started_ms) >= deadline {
                buffered = buffered.saturating_sub(p.reserved_bytes + p.received_bytes);
            } else {
                let ghost before = kept@;
                kept.push(p);
                assert(partials_view(kept@) =~= partials_view(before).push(p.model()));
            }
            proof {
                i = i + 1;
            }
        }
        assert(start.partials.subrange(0, i) =~= start.partials);
        self.partials = kept;
        self.buffered_bytes = buffered;
        proof {
            lemma_expire_exact(start.partials, 0, now_ms, deadline);
        }
    }

    /// Delivers a complete DATA message, acknowledges a duplicate again, or refuses it.
    fn accept_message(&mut self, message_id: u32, payload: Vec<u8>) -> (action: BleResult<ReceiveAction>)
        requires
            old(self).well_formed(),
            message_id != 0,
        ensures
            final(self).well_formed(),
            fails_plainly(action),
            (final(self)@, result_view(action)) == admit_message(
                old(self)@,
                message_id,
                payload@,
            ),
    {
        let ghost v = self@;
        let max_logical = self.limits.max_logical_size;
        match find_recent_index(&self.recent, message_id) {
            Some(i) => {
                proof {
                    lemma_find_recent_range(v.recent, message_id);
                }
                if bytes_equal(&self.recent[i].1, &payload) {
                    let ack = Frame::ack(message_id).encode(max_logical)?;
                    return Ok(ReceiveAction::DuplicateAck { message_id, ack });
                } else {
                    return Err(
                        BleError::new(
                            ErrorCode::ProtocolMismatch,
                            "message ID was reused with different content",
                        ),
                    );
                }
            },
            None => {},
        }
        let len = payload.len();
        let max_queue = self.limits.max_complete_queue_bytes;
        if self.completed.len() >= self.limits.max_complete_messages || len > max_queue
            || self.complete_queue_bytes > max_queue - len {
            return Err(
                BleError::new(
                    ErrorCode::QueueFull,
                    "complete-message queue cannot accept the message",
                ),
            );
        }
        let limit = self.limits.recent_message_ids;
        let evicted: usize = if self.recent.len() >= limit && self.recent.len() > 0 {
            self.recent[0].1.len()
        } else {
            0
        };
        let total = self.total_buffered_bytes();
        let refused = match len.checked_mul(2) {
            None => true,
            Some(doubled) => match total.checked_add(doubled) {
                None => true,
                Some(sum) => sum.saturating_sub(evicted) > self.limits.max_buffered_bytes,
            },
        };
        if refused {
            return Err(
                BleError::new(
                    ErrorCode::QueueFull,
                    "complete message exceeds the total protocol buffer budget",
                ),
            );
        }
        let ack = Frame::ack(message_id).encode(max_logical)?;
        proof {
            lemma_total_len_push(v.completed, (message_id, payload@));
            lemma_total_len_push(v.recent, (message_id, payload@));
        }
        self.complete_queue_bytes = self.complete_queue_bytes + len;
        let ghost completed_before = self.completed@;
        self.completed.push_back((message_id, copy_bytes(&payload)));
        assert(messages_view(self.completed@) =~= messages_view(completed_before).push(
            (message_id, payload@),
        ));
        self.recent_bytes = self.recent_bytes + len;
        let ghost recent_before = self.recent@;
        self.recent.push_back((message_id, copy_bytes(&payload)));
        let ghost pushed = v.recent.push((message_id, payload@));
        assert(messages_view(self.recent@) =~= pushed);
        let ghost partials_now = self.partials@;
        let ghost completed_now = self.completed@;
        while self.recent.len() > limit
            invariant
                self.limits == v.limits,
                self.partials@ == partials_now,
                self.completed@ == completed_now,
                self.buffered_bytes == v.buffered_bytes,
                self.complete_queue_bytes == v.complete_queue_bytes + len,
                limit == v.limits.recent_message_ids,
                trim_recent(messages_view(self.recent@), limit as int) == trim_recent(
                    pushed,
                    limit as int,
                ),
                self.recent_bytes as int == total_len(messages_view(self.recent@)),
            decreases self.recent@.len(),
        {
            let ghost before = messages_view(self.recent@);
            proof {
                lemma_total_len_drop_first(before);
                lemma_total_len_nonneg(before.subrange(1, before.len() as int));
            }
            let (_, gone) = self.recent.pop_front().unwrap();
            assert(messages_view(self.recent@) =~= before.subrange(1, before.len() as int));
            self.recent_bytes = self.recent_bytes - gone.len();
        }
        proof {
            lemma_trim_bound(messages_view(self.recent@), limit as int);
            lemma_trim_bound(pushed, limit as int);
            if v.recent.len() >= limit && v.recent.len() > 0 {
                assert(pushed[0] == v.recent[0]);
            }
            lemma_total_len_nonneg(v.recent);
        }
        Ok(ReceiveAction::Message { message_id, payload, ack })
    }


    /// Finds the partial message of the frame's key, or opens one within the limits.
    fn open_partial_for(&mut self, frame: &Frame, now_ms: u64) -> (index: Result<usize, BleError>)
        requires
            old(self).well_formed(),
        ensures
            final(self).well_formed(),
            match open_partial(old(self)@, frame@, now_ms) {
                Ok((v, i)) => index matches Ok(j) && j as int == i && final(self)@ == v,
                Err((code, message)) => index matches Err(e) && e.code == code && e.message@ == message
                    && e.operation_id is None && e.resource_id is None && e.delivery is None
                    && e.native_code is None
                    && final(self)@ == old(self)@,
            },
    {
        let ghost v1 = self@;
        let ghost f = frame@;
        let found = find_partial_index(&self.partials, frame.kind, frame.message_id);
        proof {
            lemma_find_partial_range(v1.partials, f.kind, f.message_id);
        }
        match found {
            Some(i) => {
                return Ok(i);
            },
            None => {},
        }
        if self.partials.len() >= self.limits.max_partial_messages {
            return Err(BleError::new(ErrorCode::QueueFull, "partial-message limit reached"));
        }
        let count = frame.fragment_count as usize;
        let slot = std::mem::size_of::<Option<Vec<u8>>>();
        let record = std::mem::size_of::<Partial>();
        let key = std::mem::size_of::<(FrameKind, u32)>();
        let reserved = match count.checked_mul(slot) {
            None => None,
            Some(slots) => match slots.checked_add(record) {
                None => None,
                Some(sum) => sum.checked_add(key),
            },
        };
        let reserved = match reserved {
            Some(reserved) => reserved,
            None => {
                return Err(
                    BleError::new(ErrorCode::PayloadTooLarge, "fragment metadata size overflow"),
                );
            },
        };
        let total = self.total_buffered_bytes();
        if total > self.limits.max_buffered_bytes || reserved > self.limits.max_buffered_bytes
            - total {
            return Err(
                BleError::new(
                    ErrorCode::QueueFull,
                    "fragment metadata exceeds the protocol buffer budget",
                ),
            );
        }
        self.buffered_bytes = self.buffered_bytes + reserved;
        let mut fragments: Vec<Option<Vec<u8>>> = Vec::new();
        let mut k: usize = 0;
        while k < count
            invariant
                k <= count,
                fragments@.len() == k,
                forall|j: int| 0 <= j < k ==> fragments@[j] is None,
            decreases count - k,
        {
            fragments.push(None);
            k = k + 1;
        }
        let partial = Partial {
            kind: frame.kind,
            message_id: frame.message_id,
            total_length: frame.total_length as usize,
            fragments,
            received_bytes: 0,
            reserved_bytes: reserved,
            started_ms: now_ms,
        };
        assert(fragments_view(partial.fragments@) =~= Seq::new(
            f.fragment_count as nat,
            |i: int| None,
        ));
        proof {
            lemma_partial_bytes_push(v1.partials, partial.model());
        }
        let ghost before = self.partials@;
        self.partials.push(partial);
        assert(partials_view(self.partials@) =~= partials_view(before).push(partial.model()));
        Ok(self.partials.len() - 1)
    }

    /// Places one fragment into the partial message at `index`.
    fn place_at(&mut self, index: usize, frame: Frame) -> (action: BleResult<ReceiveAction>)
        requires
            old(self).well_formed(),
            index < old(self)@.partials.len(),
            frame@.validation_error(old(self).limits.max_logical_size as int) is None,
            frame@.kind != FrameKind::Ack,
        ensures
            final(self).well_formed(),
            fails_plainly(action),
            (final(self)@, result_view(action)) == place_fragment(old(self)@, index as int, frame@),
    {
        let ghost v2 = self@;
        let ghost f = frame@;
        let len = frame.payload.len();
        let fi = frame.fragment_index as usize;
        if self.partials[index].total_length != frame.total_length as usize
            || self.partials[index].fragments.len() != frame.fragment_count as usize {
            return Err(
                BleError::new(
                    ErrorCode::ProtocolMismatch,
                    "fragment metadata changed during reassembly",
                ),
            );
        }
        assert(v2.partials[index as int].fragments[fi as int] == match self.partials@[index as int].fragments@[fi as int] {
            Some(b) => Some(b@),
            None => None::<Seq<u8>>,
        });
        match &self.partials[index].fragments[fi] {
            Some(existing) => {
                if bytes_equal(existing, &frame.payload) {
                    return Ok(ReceiveAction::Nothing);
                }
                return Err(
                    BleError::new(
                        ErrorCode::ProtocolMismatch,
                        "duplicate fragment has different content",
                    ),
                );
            },
            None => {},
        }
        let total = self.total_buffered_bytes();
        if total > self.limits.max_buffered_bytes || len > self.limits.max_buffered_bytes - total {
            return Err(
                BleError::new(ErrorCode::QueueFull, "adapter protocol buffer budget exhausted"),
            );
        }
        proof {
            lemma_partial_bytes_bounds(v2.partials, index as int);
        }
        let mut partial = self.partials.remove(index);
        let ghost old_model = partial.model();
        partial.received_bytes = partial.received_bytes + len;
        let payload_bytes = frame.payload;
        partial.fragments.set(fi, Some(payload_bytes));
        self.buffered_bytes = self.buffered_bytes + len;
        let ghost filled = PartialView {
            fragments: old_model.fragments.update(fi as int, Some(f.payload)),
            received_bytes: old_model.received_bytes + f.payload.len(),
            ..old_model
        };
        assert(fragments_view(partial.fragments@) =~= filled.fragments);
        assert(partial.model() == filled);
        proof {
            lemma_partial_bytes_update(v2.partials, index as int, filled);
            lemma_partial_bytes_remove(v2.partials.update(index as int, filled), index as int);
            assert(v2.partials.update(index as int, filled).remove(index as int)
                =~= v2.partials.remove(index as int));
        }
        if !all_filled(&partial.fragments) {
            self.partials.insert(index, partial);
            assert(partials_view(self.partials@) =~= v2.partials.update(index as int, filled));
            return Ok(ReceiveAction::Nothing);
        }
        assert(partials_view(self.partials@) =~= v2.partials.remove(index as int));
        self.buffered_bytes = self.buffered_bytes.saturating_sub(
            partial.reserved_bytes + partial.received_bytes,
        );
        assert(forall|j: int|
            0 <= j < self.partials@.len() ==> (#[trigger] self.partials@[j]).model()
                == self@.partials[j]);
        self.settle_partial(partial, frame.kind, frame.message_id)
    }

    /// Checks a partial message whose fragments have all arrived and hands it on.
    fn settle_partial(&mut self, partial: Partial, kind: FrameKind, message_id: u32) -> (action:
        BleResult<ReceiveAction>)
        requires
            old(self).well_formed(),
            kind != FrameKind::Ack,
            kind == FrameKind::Data ==> message_id != 0,
        ensures
            final(self).well_formed(),
            fails_plainly(action),
            (final(self)@, result_view(action)) == settle(
                old(self)@,
                partial.model(),
                kind,
                message_id,
            ),
    {
        if partial.received_bytes != partial.total_length {
            return Err(
                BleError::new(
                    ErrorCode::ProtocolMismatch,
                    "reassembled length does not match declared total",
                ),
            );
        }
        let payload = join_fragments(&partial.fragments);
        if kind != FrameKind::Data {
            return Ok(ReceiveAction::Control { kind, payload });
        }
        self.accept_message(message_id, payload)
    }

    /// Receives one frame using a caller-provided monotonic timestamp.
    pub fn receive_at(&mut self, bytes: &[u8], now_ms: u64) -> (action: BleResult<ReceiveAction>)
        requires
            old(self).well_formed(),
        ensures
            final(self).well_formed(),
            fails_plainly(action),
            (final(self)@, result_view(action)) == receive_step(old(self)@, bytes@, now_ms),
    {
        self.expire_partials(now_ms);
        let frame = Frame::decode(bytes, self.limits.max_logical_size)?;
        if frame.kind == FrameKind::Ack {
            return Ok(ReceiveAction::Ack { message_id: frame.message_id });
        }
        let index = match self.open_partial_for(&frame, now_ms) {
            Ok(index) => index,
            Err(error) => {
                return Err(error);
            },
        };
        proof {
            lemma_find_partial_range(self@.partials, frame@.kind, frame@.message_id);
        }
        self.place_at(index, frame)
    }

    /// Validates and admits one frame, timed by the receiver's own monotonic clock.
    pub fn receive(&mut self, bytes: &[u8]) -> (action: BleResult<ReceiveAction>)
        requires
            old(self).well_formed(),
        ensures
            final(self).well_formed(),
            fails_plainly(action),
            exists|now: u64|
                (final(self)@, result_view(action)) == #[trigger] receive_step(
                    old(self)@,
                    bytes@,
                    now,
                ),
    {
        let elapsed = instant_elapsed(&self.started_at);
        let millis = duration_millis(&elapsed);
        let now_ms: u64 = if millis > 18446744073709551615 {
            18446744073709551615
        } else {
            millis as u64
        };
        self.receive_at(bytes, now_ms)
    }

    /// Takes the oldest complete message.
    pub fn pop_message(&mut self) -> (message: Option<(u32, Vec<u8>)>)
        requires
            old(self).well_formed(),
        ensures
            final(self).well_formed(),
            old(self)@.completed.len() == 0 ==> message is None && final(self)@ == old(self)@,
            old(self)@.completed.len() > 0 ==> (message matches Some(m) && (m.0, m.1@)
                == old(self)@.completed[0] && final(self)@ == (ReceiverView {
                completed: old(self)@.completed.subrange(1, old(self)@.completed.len() as int),
                complete_queue_bytes: old(self)@.complete_queue_bytes - m.1@.len(),
                ..old(self)@
            })),
    {
        let ghost before = self@.completed;
        let message = self.completed.pop_front();
        match message {
            Some(m) => {
                proof {
                    lemma_total_len_drop_first(before);
                    lemma_total_len_nonneg(before.subrange(1, before.len() as int));
                }
                assert(messages_view(self.completed@) =~= before.subrange(
                    1,
                    before.len() as int,
                ));
                self.complete_queue_bytes = self.complete_queue_bytes - m.1.len();
                Some(m)
            },
            None => None,
        }
    }

    /// Drops every partial message.
    pub fn disconnect(&mut self)
        requires
            old(self).well_formed(),
        ensures
            final(self).well_formed(),
            final(self)@ == (ReceiverView {
                partials: Seq::empty(),
                buffered_bytes: 0,
                ..old(self)@
            }),
    {
        self.partials = Vec::new();
        self.buffered_bytes = 0;
        assert(self@.partials =~= Seq::<PartialView>::empty());
    }

}

} // verus!
