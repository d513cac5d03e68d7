//! Stop-and-wait delivery of complete messages: one message in flight, retransmitted
//! on an ACK deadline, failed on the retry budget or the absolute deadline.

use std::collections::VecDeque;

use vstd::prelude::*;

use crate::error::{BleError, BleResult, DeliveryOutcome, ErrorCode};
use crate::peer::table::{sender_step, SenderCall};
use crate::peer::frame::{fragment, fragment_count_of, fragment_error, fragment_message, fragment_model, FrameKind};

verus! {

#[derive(Clone, Copy, Debug, PartialEq, Eq, Structural)]
pub struct SendLimits {
    pub max_logical_size: usize,
    pub max_outbound_queue_bytes: usize,
    pub value_limit: usize,
    pub ack_deadline_ms: u64,
    pub absolute_deadline_ms: u64,
    pub retransmissions: u8,
}

impl SendLimits {
    /// The v1 defaults: 16 KiB messages, a 64 KiB queue, 20-byte values, a 5 s ACK
    /// deadline, a 30 s absolute deadline and two retransmissions.
    pub open spec fn defaults() -> SendLimits {
        SendLimits {
            max_logical_size: 16384,
            max_outbound_queue_bytes: 65536,
            value_limit: 20,
            ack_deadline_ms: 5000,
            absolute_deadline_ms: 30000,
            retransmissions: 2,
        }
    }
}

impl Default for SendLimits {
    fn default() -> (limits: Self)
        ensures
            limits == SendLimits::defaults(),
    {
        SendLimits {
            max_logical_size: 16 * 1024,
            max_outbound_queue_bytes: 64 * 1024,
            value_limit: 20,
            ack_deadline_ms: 5_000,
            absolute_deadline_ms: 30_000,
            retransmissions: 2,
        }
    }
}

#[derive(Clone, Debug, PartialEq, Eq)]
pub struct QueuedMessage {
    pub message_id: u32,
    pub payload: Vec<u8>,
}

impl View for QueuedMessage {
    type V = (u32, Seq<u8>);

    open spec fn view(&self) -> (u32, Seq<u8>) {
        (self.message_id, self.payload@)
    }
}

#[derive(Clone, Debug, PartialEq, Eq)]
pub enum SendAction {
    Idle,
    Submit { message_id: u32, frames: Vec<Vec<u8>>, retransmission: bool },
    Acknowledged { message_id: u32 },
    Failed { message_id: u32, error: BleError },
}

/// The byte strings of a list of frames.
pub open spec fn frames_view(frames: Seq<Vec<u8>>) -> Seq<Seq<u8>> {
    frames.map_values(|frame: Vec<u8>| frame@)
}

/// The message in flight.
pub struct PendingView {
    pub message: (u32, Seq<u8>),
    pub frames: Seq<Seq<u8>>,
    pub first_submitted_ms: u64,
    pub last_submitted_ms: u64,
    pub retransmissions: u8,
}

/// The state of a sender.
pub struct SenderView {
    pub limits: SendLimits,
    pub next_message_id: u32,
    pub queue: Seq<(u32, Seq<u8>)>,
    pub pending: Option<PendingView>,
}

/// The total payload length of a queue.
pub open spec fn queue_len(queue: Seq<(u32, Seq<u8>)>) -> nat
    decreases queue.len(),
{
    if queue.len() == 0 {
        0
    } else {
        queue_len(queue.drop_last()) + queue.last().1.len()
    }
}

/// The frames `fragment` makes of a queued message under `limits`.
pub open spec fn message_frames(limits: SendLimits, message: (u32, Seq<u8>)) -> Seq<Seq<u8>> {
    Seq::new(
        fragment_count_of(message.1.len() as int, limits.value_limit - 14) as nat,
        |i: int|
            fragment_model(
                FrameKind::Data,
                message.0,
                message.1,
                limits.value_limit - 14,
                i,
            ).bytes(),
    )
}

/// The time from `then` to `now`, zero when `now` is earlier.
pub open spec fn elapsed(now: u64, then: u64) -> int {
    if now >= then {
        now - then
    } else {
        0
    }
}

/// The error a timed-out message fails with: delivery may have happened.
pub open spec fn is_timeout(error: BleError) -> bool {
    &&& error.code == ErrorCode::Timeout
    &&& error.delivery == Some(DeliveryOutcome::Unknown)
    &&& error.operation_id is None
    &&& error.resource_id is None
    &&& error.native_code is None
}

impl SenderView {
    /// The bytes waiting or in flight.
    pub open spec fn queued_bytes(self) -> nat {
        queue_len(self.queue) + match self.pending {
            Some(p) => p.message.1.len(),
            None => 0,
        }
    }

    /// Message IDs are handed out in increasing order and never repeat: the one in
    /// flight is older than every waiting one, each waiting one older than the next,
    /// and all older than the next ID unless the ID space is used up.
    pub open spec fn ids_ordered(self) -> bool {
        &&& forall|i: int, j: int|
            0 <= i < j < self.queue.len() ==> #[trigger] self.queue[i].0 < #[trigger] self.queue[j].0
        &&& forall|i: int|
            0 <= i < self.queue.len() ==> (self.next_message_id == 0 || #[trigger] self.queue[i].0
                < self.next_message_id) && self.queue[i].0 >= 1
        &&& self.pending matches Some(p) ==> {
            &&& p.message.0 >= 1
            &&& (self.next_message_id == 0 || p.message.0 < self.next_message_id)
            &&& forall|i: int| 0 <= i < self.queue.len() ==> p.message.0 < #[trigger] self.queue[i].0
        }
    }

    /// The message in flight was fragmented under the limits and has not used more
    /// retransmissions than they allow.
    pub open spec fn pending_ok(self) -> bool {
        self.pending matches Some(p) ==> {
            &&& p.frames == message_frames(self.limits, p.message)
            &&& p.retransmissions <= self.limits.retransmissions
        }
    }

    pub open spec fn wf(self) -> bool {
        &&& self.ids_ordered()
        &&& self.pending_ok()
        &&& self.queued_bytes() <= self.limits.max_outbound_queue_bytes
    }
}

struct Pending {
    message: QueuedMessage,
    frames: Vec<Vec<u8>>,
    first_submitted_ms: u64,
    last_submitted_ms: u64,
    retransmissions: u8,
}

impl Pending {
    spec fn view(&self) -> PendingView {
        PendingView {
            message: self.message@,
            frames: frames_view(self.frames@),
            first_submitted_ms: self.first_submitted_ms,
            last_submitted_ms: self.last_submitted_ms,
            retransmissions: self.retransmissions,
        }
    }
}

pub struct Sender {
    limits: SendLimits,
    next_message_id: u32,
    queue: VecDeque<QueuedMessage>,
    queue_bytes: usize,
    pending: Option<Pending>,
}

impl View for Sender {
    type V = SenderView;

    closed spec fn view(&self) -> SenderView {
        SenderView {
            limits: self.limits,
            next_message_id: self.next_message_id,
            queue: self.queue@.map_values(|m: QueuedMessage| m@),
            pending: match self.pending {
                Some(p) => Some(p.view()),
                None => None,
            },
        }
    }
}

fn copy_bytes(bytes: &Vec<u8>) -> (copy: Vec<u8>)
    ensures
        copy@ == bytes@,
{
    let copy = bytes.clone();
    assert(copy@ =~= bytes@);
    copy
}

fn copy_frames(frames: &Vec<Vec<u8>>) -> (copy: Vec<Vec<u8>>)
    ensures
        frames_view(copy@) == frames_view(frames@),
{
    let mut copy: Vec<Vec<u8>> = Vec::new();
    let mut i: usize = 0;
    while i < frames.len()
        invariant
            i <= frames@.len(),
            copy@.len() == i,
            forall|j: int| 0 <= j < i ==> #[trigger] copy@[j]@ == frames@[j]@,
        decreases frames@.len() - i,
    {
        copy.push(copy_bytes(&frames[i]));
        i = i + 1;
    }
    assert(frames_view(copy@) =~= frames_view(frames@));
    copy
}

pub proof fn lemma_queue_len_push(queue: Seq<(u32, Seq<u8>)>, message: (u32, Seq<u8>))
    ensures
        queue_len(queue.push(message)) == queue_len(queue) + message.1.len(),
{
    assert(queue.push(message).drop_last() =~= queue);
}

pub proof fn lemma_queue_len_drop_first(queue: Seq<(u32, Seq<u8>)>)
    requires
        queue.len() > 0,
    ensures
        queue_len(queue) == queue[0].1.len() + queue_len(queue.subrange(1, queue.len() as int)),
    decreases queue.len(),
{
    if queue.len() == 1 {
        assert(queue.drop_last() =~= Seq::<(u32, Seq<u8>)>::empty());
        assert(queue.subrange(1, 1) =~= Seq::<(u32, Seq<u8>)>::empty());
    } else {
        lemma_queue_len_drop_first(queue.drop_last());
        assert(queue.drop_last().subrange(1, queue.len() - 1) =~= queue.subrange(
            1,
            queue.len() as int,
        ).drop_last());
    }
}

fn timeout_error(message: &str) -> (error: BleError)
    ensures
        is_timeout(error),
        error.message@ == message@,
{
    BleError {
        code: ErrorCode::Timeout,
        message: message.to_owned(),
        operation_id: None,
        resource_id: None,
        delivery: Some(DeliveryOutcome::Unknown),
        native_code: None,
    }
}

/// What one poll does: a message in flight fails on a deadline or goes out again on
/// its ACK deadline, and otherwise the next queued message goes out.
pub open spec fn polled(before: SenderView, now_ms: u64, after: SenderView, action: BleResult<SendAction>) -> bool {
    &&& after.limits == before.limits
    &&& after.next_message_id == before.next_message_id
    &&& match before.pending {
        Some(p) => {
            &&& after.queue == before.queue
            &&& if elapsed(now_ms, p.first_submitted_ms) >= before.limits.absolute_deadline_ms
                || (elapsed(now_ms, p.last_submitted_ms) >= before.limits.ack_deadline_ms
                && p.retransmissions >= before.limits.retransmissions) {
                &&& action matches Ok(SendAction::Failed { message_id, error })
                &&& message_id == p.message.0
                &&& is_timeout(error)
                &&& error.message@ == if elapsed(now_ms, p.first_submitted_ms)
                    >= before.limits.absolute_deadline_ms {
                    "absolute send deadline elapsed; delivery may have occurred"@
                } else {
                    "transport ACK deadline exhausted"@
                }
                &&& after.pending is None
            } else if elapsed(now_ms, p.last_submitted_ms) >= before.limits.ack_deadline_ms {
                &&& action matches Ok(
                    SendAction::Submit { message_id, frames, retransmission },
                )
                &&& message_id == p.message.0
                &&& frames_view(frames@) == p.frames
                &&& retransmission
                &&& after.pending == Some(
                    PendingView {
                        retransmissions: (p.retransmissions + 1) as u8,
                        last_submitted_ms: now_ms,
                        ..p
                    },
                )
            } else {
                &&& action == Ok::<SendAction, BleError>(SendAction::Idle)
                &&& after.pending == before.pending
            }
        },
        None => if before.queue.len() == 0 {
            &&& action == Ok::<SendAction, BleError>(SendAction::Idle)
            &&& after == before
        } else {
            let m = before.queue[0];
            let err = fragment_error(
                FrameKind::Data,
                m.0,
                m.1.len() as int,
                before.limits.value_limit as int,
                before.limits.max_logical_size as int,
            );
            &&& after.queue == before.queue.subrange(
                1,
                before.queue.len() as int,
            )
            &&& err is Some ==> {
                &&& action matches Err(e)
                &&& Some(e.code) == err
                &&& e.message@ == fragment_message(
                    FrameKind::Data,
                    m.0,
                    m.1.len() as int,
                    before.limits.value_limit as int,
                    before.limits.max_logical_size as int,
                )
                &&& e.operation_id is None && e.resource_id is None && e.delivery is None
                    && e.native_code is None
                &&& after.pending is None
            }
            &&& err is None ==> {
                &&& action matches Ok(
                    SendAction::Submit { message_id, frames, retransmission },
                )
                &&& message_id == m.0
                &&& frames_view(frames@) == message_frames(before.limits, m)
                &&& !retransmission
                &&& after.pending == Some(
                    PendingView {
                        message: m,
                        frames: message_frames(before.limits, m),
                        first_submitted_ms: now_ms,
                        last_submitted_ms: now_ms,
                        retransmissions: 0,
                    },
                )
            }
        },
    }
}

/// The message of a refused send, by its code.
pub open spec fn refusal_message(code: ErrorCode) -> Seq<char> {
    if code == ErrorCode::PayloadTooLarge {
        "logical payload exceeds configured maximum"@
    } else if code == ErrorCode::QueueFull {
        "per-peer outbound queue is full"@
    } else {
        "message ID space exhausted; renew the logical session"@
    }
}

impl Sender {
    spec fn inv(&self) -> bool {
        &&& self@.wf()
        &&& self.queue_bytes == queue_len(self@.queue)
    }

    /// The sender is in a state its operations reach.
    pub closed spec fn well_formed(&self) -> bool {
        self.inv()
    }

    pub fn new(limits: SendLimits) -> (sender: Self)
        ensures
            sender.well_formed(),
            sender@ == (SenderView {
                limits,
                next_message_id: 1,
                queue: Seq::empty(),
                pending: None,
            }),
    {
        let sender = Sender {
            limits,
            next_message_id: 1,
            queue: VecDeque::new(),
            queue_bytes: 0,
            pending: None,
        };
        assert(sender@.queue =~= Seq::<(u32, Seq<u8>)>::empty());
        sender
    }

    /// Adds one logical payload to the bounded outbound queue.
    pub fn enqueue(&mut self, payload: Vec<u8>) -> (id: BleResult<u32>)
        requires
            old(self).well_formed(),
        ensures
            final(self).well_formed(),
            payload@.len() > old(self)@.limits.max_logical_size ==> (id matches Err(e) && e.is_plain(
                ErrorCode::PayloadTooLarge,
            ) && e.message@ == "logical payload exceeds configured maximum"@),
            payload@.len() <= old(self)@.limits.max_logical_size && old(self)@.queued_bytes()
                + payload@.len() > old(self)@.limits.max_outbound_queue_bytes ==> (id matches Err(e)
                && e.is_plain(ErrorCode::QueueFull) && e.message@ == "per-peer outbound queue is full"@),
            payload@.len() <= old(self)@.limits.max_logical_size && old(self)@.queued_bytes()
                + payload@.len() <= old(self)@.limits.max_outbound_queue_bytes
                && old(self)@.next_message_id == 0 ==> (id matches Err(e) && e.is_plain(
                ErrorCode::Busy,
            ) && e.message@ == "message ID space exhausted; renew the logical session"@),
            payload@.len() <= old(self)@.limits.max_logical_size && old(self)@.queued_bytes()
                + payload@.len() <= old(self)@.limits.max_outbound_queue_bytes
                && old(self)@.next_message_id != 0 ==> id is Ok,
            id is Err ==> final(self)@ == old(self)@,
            sender_step(old(self)@, SenderCall::Enqueue(payload@), final(self)@),
            id matches Err(e) ==> e.message@ == refusal_message(e.code),
            id matches Ok(i) ==> {
                &&& payload@.len() <= old(self)@.limits.max_logical_size
                &&& old(self)@.queued_bytes() + payload@.len()
                    <= old(self)@.limits.max_outbound_queue_bytes
                &&& old(self)@.next_message_id != 0
                &&& i == old(self)@.next_message_id
                &&& final(self)@ == (SenderView {
                    next_message_id: if i == u32::MAX {
                        0
                    } else {
                        (i + 1) as u32
                    },
                    queue: old(self)@.queue.push((i, payload@)),
                    ..old(self)@
                })
            },
    {
        let len = payload.len();
        if len > self.limits.max_logical_size {
            return Err(
                BleError::new(
                    ErrorCode::PayloadTooLarge,
                    "logical payload exceeds configured maximum",
                ),
            );
        }
        let queued = self.queued_bytes();
        if queued > self.limits.max_outbound_queue_bytes || len > self.limits.max_outbound_queue_bytes
            - queued {
            return Err(BleError::new(ErrorCode::QueueFull, "per-peer outbound queue is full"));
        }
        if self.next_message_id == 0 {
            return Err(
                BleError::new(
                    ErrorCode::Busy,
                    "message ID space exhausted; renew the logical session",
                ),
            );
        }
        let message_id = self.next_message_id;
        self.next_message_id = self.next_message_id.wrapping_add(1);
        proof {
            lemma_queue_len_push(self@.queue, (message_id, payload@));
        }
        self.queue_bytes = self.queue_bytes + len;
        let ghost before = self.queue@;
        self.queue.push_back(QueuedMessage { message_id, payload });
        assert(self.queue@.map_values(|m: QueuedMessage| m@) =~= before.map_values(
            |m: QueuedMessage| m@,
        ).push((message_id, payload@)));
        Ok(message_id)
    }

    /// Advances stop-and-wait delivery using the supplied monotonic time.
    pub fn poll(&mut self, now_ms: u64) -> (action: BleResult<SendAction>)
        requires
            old(self).well_formed(),
        ensures
            final(self).well_formed(),
            polled(old(self)@, now_ms, final(self)@, action),
            sender_step(old(self)@, SenderCall::Poll(now_ms, action), final(self)@),
    {
        let limits = self.limits;
        if self.pending.is_some() {
            let pending = self.pending.take().unwrap();
            let since_first = now_ms.saturating_sub(pending.first_submitted_ms);
            if since_first >= limits.absolute_deadline_ms {
                let message_id = pending.message.message_id;
                return Ok(
                    SendAction::Failed {
                        message_id,
                        error: timeout_error(
                            "absolute send deadline elapsed; delivery may have occurred",
                        ),
                    },
                );
            }
            let since_last = now_ms.saturating_sub(pending.last_submitted_ms);
            if since_last >= limits.ack_deadline_ms {
                if pending.retransmissions >= limits.retransmissions {
                    let message_id = pending.message.message_id;
                    return Ok(
                        SendAction::Failed {
                            message_id,
                            error: timeout_error("transport ACK deadline exhausted"),
                        },
                    );
                }
                let mut pending = pending;
                pending.retransmissions = pending.retransmissions + 1;
                pending.last_submitted_ms = now_ms;
                let message_id = pending.message.message_id;
                let frames = copy_frames(&pending.frames);
                self.pending = Some(pending);
                return Ok(SendAction::Submit { message_id, frames, retransmission: true });
            }
            self.pending = Some(pending);
            return Ok(SendAction::Idle);
        }
        let ghost queue_before = self@.queue;
        let message = match self.queue.pop_front() {
            Some(message) => message,
            None => {
                return Ok(SendAction::Idle);
            },
        };
        proof {
            lemma_queue_len_drop_first(queue_before);
            assert(self@.queue =~= queue_before.subrange(1, queue_before.len() as int));
        }
        self.queue_bytes = self.queue_bytes - message.payload.len();
        let frames = fragment(
            FrameKind::Data,
            message.message_id,
            message.payload.as_slice(),
            limits.value_limit,
            limits.max_logical_size,
        )?;
        let message_id = message.message_id;
        let ghost m = message@;
        assert(frames_view(frames@) =~= message_frames(limits, m));
        let copy = copy_frames(&frames);
        self.pending = Some(
            Pending {
                message,
                frames: copy,
                first_submitted_ms: now_ms,
                last_submitted_ms: now_ms,
                retransmissions: 0,
            },
        );
        Ok(SendAction::Submit { message_id, frames, retransmission: false })
    }

    /// Applies an acknowledgement to the current in-flight message.
    pub fn acknowledge(&mut self, message_id: u32) -> (action: BleResult<SendAction>)
        requires
            old(self).well_formed(),
        ensures
            final(self).well_formed(),
            sender_step(old(self)@, SenderCall::Acknowledge(message_id), final(self)@),
            match old(self)@.pending {
                Some(p) => if p.message.0 == message_id {
                    &&& action == Ok::<SendAction, BleError>(
                        SendAction::Acknowledged { message_id },
                    )
                    &&& final(self)@ == (SenderView { pending: None, ..old(self)@ })
                } else {
                    &&& action matches Err(e)
                    &&& e.is_plain(ErrorCode::ProtocolMismatch)
                    &&& e.message@ == "ACK does not match the unacknowledged message"@
                    &&& final(self)@ == old(self)@
                },
                None => {
                    &&& action == Ok::<SendAction, BleError>(SendAction::Idle)
                    &&& final(self)@ == old(self)@
                },
            },
    {
        let matches_pending = match &self.pending {
            Some(pending) => pending.message.message_id == message_id,
            None => {
                return Ok(SendAction::Idle);
            },
        };
        if matches_pending {
            self.pending = None;
            Ok(SendAction::Acknowledged { message_id })
        } else {
            Err(
                BleError::new(
                    ErrorCode::ProtocolMismatch,
                    "ACK does not match the unacknowledged message",
                ),
            )
        }
    }

    /// Drops every message: the one in flight first, then the waiting ones in order.
    pub fn disconnect(&mut self) -> (failed: Vec<QueuedMessage>)
        requires
            old(self).well_formed(),
        ensures
            final(self).well_formed(),
            final(self)@ == (SenderView { queue: Seq::empty(), pending: None, ..old(self)@ }),
            sender_step(old(self)@, SenderCall::Disconnect, final(self)@),
            failed@.map_values(|m: QueuedMessage| m@) == match old(self)@.pending {
                Some(p) => seq![p.message] + old(self)@.queue,
                None => old(self)@.queue,
            },
    {
        let mut failed: Vec<QueuedMessage> = Vec::new();
        if let Some(pending) = self.pending.take() {
            failed.push(pending.message);
        }
        let ghost start = failed@.map_values(|m: QueuedMessage| m@);
        let ghost queue = self@.queue;
        let ghost mut k: int = 0;
        while self.queue.len() > 0
            invariant
                self.pending is None,
                self.limits == old(self).limits,
                self.next_message_id == old(self).next_message_id,
                queue == old(self)@.queue,
                0 <= k <= queue.len(),
                failed@.len() == start.len() + k,
                failed@.map_values(|m: QueuedMessage| m@) == start + queue.subrange(0, k),
                self.queue@.map_values(|m: QueuedMessage| m@) == queue.subrange(
                    k,
                    queue.len() as int,
                ),
            decreases self.queue@.len(),
        {
            let ghost rest = self.queue@;
            let message = self.queue.pop_front().unwrap();
            proof {
                assert(rest.map_values(|m: QueuedMessage| m@).len() == rest.len());
                assert(queue.subrange(k, queue.len() as int).len() > 0);
                assert(k < queue.len());
                assert(rest.map_values(|m: QueuedMessage| m@)[0] == message@);
                assert(queue.subrange(k, queue.len() as int)[0] == queue[k]);
                assert(message@ == queue[k]);
                assert(self.queue@ =~= rest.subrange(1, rest.len() as int));
            }
            let ghost before = failed@;
            failed.push(message);
            proof {
                assert(failed@.map_values(|m: QueuedMessage| m@) =~= before.map_values(
                    |m: QueuedMessage| m@,
                ).push(queue[k]));
                assert(queue.subrange(0, k + 1) =~= queue.subrange(0, k).push(queue[k]));
                assert forall|i: int| 0 <= i < self.queue@.len() implies #[trigger] self.queue@[i]@
                    == queue[k + 1 + i] by {
                    assert(self.queue@[i] == rest[i + 1]);
                    assert(rest.map_values(|m: QueuedMessage| m@)[i + 1] == rest[i + 1]@);
                    assert(queue.subrange(k, queue.len() as int)[i + 1] == queue[k + 1 + i]);
                }
                assert(self.queue@.map_values(|m: QueuedMessage| m@) =~= queue.subrange(
                    k + 1,
                    queue.len() as int,
                ));
                k = k + 1;
            }
        }
        self.queue_bytes = 0;
        assert(queue.subrange(0, queue.len() as int) =~= queue);
        assert(self@.queue =~= Seq::<(u32, Seq<u8>)>::empty());
        assert(start == match old(self)@.pending {
            Some(p) => seq![p.message],
            None => Seq::<(u32, Seq<u8>)>::empty(),
        });
        assert(failed@.map_values(|m: QueuedMessage| m@) =~= match old(self)@.pending {
            Some(p) => seq![p.message] + old(self)@.queue,
            None => old(self)@.queue,
        });
        failed
    }

    /// Whether a message waits for its ACK or to be sent.
    pub fn has_work(&self) -> (busy: bool)
        ensures
            busy == (self@.pending is Some || self@.queue.len() > 0),
    {
        self.pending.is_some() || self.queue.len() > 0
    }

    /// The ID of the message awaiting its acknowledgement.
    pub fn in_flight(&self) -> (message_id: Option<u32>)
        ensures
            message_id == match self@.pending {
                Some(p) => Some(p.message.0),
                None => None::<u32>,
            },
    {
        match &self.pending {
            Some(p) => Some(p.message.message_id),
            None => None,
        }
    }

    pub fn queued_bytes(&self) -> (bytes: usize)
        requires
            self.well_formed(),
        ensures
            bytes == self@.queued_bytes(),
    {
        match &self.pending {
            Some(pending) => self.queue_bytes + pending.message.payload.len(),
            None => self.queue_bytes,
        }
    }
}

impl Default for Sender {
    fn default() -> (sender: Self)
        ensures
            sender.well_formed(),
            sender@ == (SenderView {
                limits: SendLimits::defaults(),
                next_message_id: 1,
                queue: Seq::empty(),
                pending: None,
            }),
    {
        Self::new(SendLimits::default())
    }
}

} // verus!
