//! What a receiver makes of the fragments of one message: whatever their order,
//! every fragment but the last leaves nothing to hand over, and the last one
//! hands over the complete message with its acknowledgement.

use vstd::prelude::*;

use crate::error::ErrorCode;
use crate::peer::driver::taken;
use crate::peer::frame::{
    ack_model, decode_model, fragment_count_of, fragment_error, fragment_model, fragment_payloads, joined,
    law_fragments_reassemble, FrameKind, FrameModel,
};
use crate::peer::receiver::{
    admit_message, expire, find_partial, find_recent, joined_fragments, lemma_total_len_nonneg,
    open_partial,
    place_fragment, receive_step, reservation, settle, since, ActionView, PartialView,
    ReceiverView,
};

verus! {

/// The receiver and what each receive handed back, after `frames` were received in
/// order, frame `k` at `times[k]`.
pub open spec fn receive_run(v: ReceiverView, frames: Seq<Seq<u8>>, times: Seq<u64>) -> (
    ReceiverView,
    Seq<Result<ActionView, (ErrorCode, Seq<char>)>>,
)
    decreases frames.len(),
{
    if frames.len() == 0 {
        (v, Seq::empty())
    } else {
        let (before, outs) = receive_run(v, frames.drop_last(), times);
        let (after, out) = receive_step(before, frames.last(), times[frames.len() - 1]);
        (after, outs.push(out))
    }
}

/// `order` lists each of `0..n` exactly once.
pub open spec fn is_order(order: Seq<int>, n: int) -> bool {
    &&& order.len() == n
    &&& forall|i: int| 0 <= i < n ==> 0 <= #[trigger] order[i] < n
    &&& forall|i: int, j: int| 0 <= i < j < n ==> #[trigger] order[i] != #[trigger] order[j]
    &&& forall|f: int| 0 <= f < n ==> #[trigger] arrived(order, n, f)
}

/// The wire frames of a DATA message cut into `chunk`-byte pieces, in `order`.
pub open spec fn frames_in_order(message_id: u32, payload: Seq<u8>, chunk: int, order: Seq<int>) -> Seq<
    Seq<u8>,
> {
    Seq::new(
        order.len(),
        |k: int| fragment_model(FrameKind::Data, message_id, payload, chunk, order[k]).bytes(),
    )
}

/// Piece `f` of the payload, cut into `chunk`-byte pieces.
pub open spec fn piece(message_id: u32, payload: Seq<u8>, chunk: int, f: int) -> Seq<u8> {
    fragment_model(FrameKind::Data, message_id, payload, chunk, f).payload
}

/// Fragment `f` arrived among the first `k` of `order`.
pub open spec fn arrived(order: Seq<int>, k: int, f: int) -> bool {
    exists|i: int| 0 <= i < k && #[trigger] order[i] == f
}

/// The fragments held after the first `k` of `order` arrived.
pub open spec fn held(message_id: u32, payload: Seq<u8>, chunk: int, order: Seq<int>, n: int, k: int) -> Seq<
    Option<Seq<u8>>,
> {
    Seq::new(
        n as nat,
        |f: int|
            if arrived(order, k, f) {
                Some(piece(message_id, payload, chunk, f))
            } else {
                None
            },
    )
}

/// The receiver while the message is under reassembly, after `k` fragments.
pub open spec fn reassembling(
    v: ReceiverView,
    message_id: u32,
    payload: Seq<u8>,
    chunk: int,
    order: Seq<int>,
    start: u64,
    k: int,
) -> ReceiverView {
    let n = fragment_count_of(payload.len() as int, chunk);
    let fragments = held(message_id, payload, chunk, order, n, k);
    let received = joined_fragments(fragments).len() as int;
    ReceiverView {
        partials: seq![
            PartialView {
                kind: FrameKind::Data,
                message_id,
                total_length: payload.len() as int,
                fragments,
                received_bytes: received,
                reserved_bytes: reservation(n),
                started_ms: start,
            },
        ],
        buffered_bytes: v.buffered_bytes + reservation(n) + received,
        ..v
    }
}

proof fn lemma_joined_update(fragments: Seq<Option<Seq<u8>>>, j: int, bytes: Seq<u8>)
    requires
        0 <= j < fragments.len(),
        fragments[j] is None,
    ensures
        joined_fragments(fragments.update(j, Some(bytes))).len() == joined_fragments(fragments).len()
            + bytes.len(),
    decreases fragments.len(),
{
    let updated = fragments.update(j, Some(bytes));
    if j == fragments.len() - 1 {
        assert(updated.drop_last() =~= fragments.drop_last());
    } else {
        assert(updated.drop_last() =~= fragments.drop_last().update(j, Some(bytes)));
        lemma_joined_update(fragments.drop_last(), j, bytes);
    }
}

proof fn lemma_joined_within(some: Seq<Option<Seq<u8>>>, all: Seq<Option<Seq<u8>>>)
    requires
        some.len() == all.len(),
        forall|i: int| 0 <= i < some.len() ==> #[trigger] some[i] is None || some[i] == all[i],
    ensures
        joined_fragments(some).len() <= joined_fragments(all).len(),
    decreases some.len(),
{
    if some.len() > 0 {
        lemma_joined_within(some.drop_last(), all.drop_last());
    }
}

proof fn lemma_joined_pieces(pieces: Seq<Seq<u8>>)
    ensures
        joined_fragments(Seq::new(pieces.len(), |f: int| Some(pieces[f]))) == joined(pieces),
    decreases pieces.len(),
{
    if pieces.len() > 0 {
        let wrapped = Seq::new(pieces.len(), |f: int| Some(pieces[f]));
        let shorter = pieces.drop_last();
        assert(wrapped.drop_last() =~= Seq::new(shorter.len(), |f: int| Some(shorter[f])));
        lemma_joined_pieces(shorter);
    }
}


proof fn lemma_joined_none(n: nat)
    ensures
        joined_fragments(Seq::new(n, |f: int| None::<Seq<u8>>)).len() == 0,
    decreases n,
{
    if n > 0 {
        let none = Seq::new(n, |f: int| None::<Seq<u8>>);
        assert(none.drop_last() =~= Seq::new((n - 1) as nat, |f: int| None::<Seq<u8>>));
        lemma_joined_none((n - 1) as nat);
    }
}

/// What a receiver needs to take in a whole message of `payload` under `message_id`,
/// cut for a characteristic value limit `value_limit`, received at `times`: a fresh
/// reassembly, frames its limits accept, no expiry before the last frame, room for
/// the reservation and the fragments, an ID it did not just deliver, and room in the
/// complete-message queue.
pub open spec fn admits_message(
    v: ReceiverView,
    message_id: u32,
    payload: Seq<u8>,
    value_limit: int,
    times: Seq<u64>,
) -> bool {
    let n = fragment_count_of(payload.len() as int, value_limit - 14);
    &&& v.wf()
    &&& v.partials.len() == 0
    &&& fragment_error(FrameKind::Data, message_id, payload.len() as int, value_limit, v.limits.max_logical_size as int) is None
    &&& v.limits.max_partial_messages > 0
    &&& times.len() == n
    &&& forall|k: int| 0 <= k < n ==> #[trigger] since(times[k], times[0]) < v.limits.reassembly_deadline_ms
    &&& v.total_buffered() + reservation(n) + payload.len() <= v.limits.max_buffered_bytes
    &&& v.total_buffered() + 2 * payload.len() <= v.limits.max_buffered_bytes
    &&& find_recent(v.recent, message_id) < 0
    &&& v.completed.len() < v.limits.max_complete_messages
    &&& v.complete_queue_bytes + payload.len() <= v.limits.max_complete_queue_bytes
}

/// The message that the last fragment hands over.
pub open spec fn delivered(message_id: u32, payload: Seq<u8>) -> Result<ActionView, (ErrorCode, Seq<char>)> {
    Ok(ActionView::Message { message_id, payload, ack: ack_model(message_id).bytes() })
}

proof fn lemma_admitted(v: ReceiverView, message_id: u32, payload: Seq<u8>, value_limit: int, times: Seq<u64>)
    requires
        admits_message(v, message_id, payload, value_limit, times),
    ensures
        admit_message(v, message_id, payload).1 == delivered(message_id, payload),
        admit_message(v, message_id, payload).0.completed == v.completed.push((message_id, payload)),
        admit_message(v, message_id, payload).0.partials == v.partials,
{
}


/// The receiver before frame `k` of the message arrives.
pub open spec fn before_frame(
    v: ReceiverView,
    message_id: u32,
    payload: Seq<u8>,
    chunk: int,
    order: Seq<int>,
    start: u64,
    k: int,
) -> ReceiverView {
    if k == 0 {
        v
    } else {
        reassembling(v, message_id, payload, chunk, order, start, k)
    }
}

proof fn lemma_decodes(v: ReceiverView, message_id: u32, payload: Seq<u8>, value_limit: int, times: Seq<u64>, f: int)
    requires
        admits_message(v, message_id, payload, value_limit, times),
        0 <= f < fragment_count_of(payload.len() as int, value_limit - 14),
    ensures
        ({
            let model = fragment_model(FrameKind::Data, message_id, payload, value_limit - 14, f);
            &&& decode_model(model.bytes(), v.limits.max_logical_size as int) == Ok::<FrameModel, ErrorCode>(model)
            &&& model.kind == FrameKind::Data
            &&& model.message_id == message_id
            &&& model.fragment_index == f
            &&& model.fragment_count == fragment_count_of(payload.len() as int, value_limit - 14)
            &&& model.total_length == payload.len()
        }),
{
    law_fragments_reassemble(FrameKind::Data, message_id, payload, value_limit, v.limits.max_logical_size as int);
    let model = fragment_model(FrameKind::Data, message_id, payload, value_limit - 14, f);
    assert(decode_model(model.bytes(), v.limits.max_logical_size as int) == Ok::<FrameModel, ErrorCode>(model));
}

proof fn lemma_joined_whole(message_id: u32, payload: Seq<u8>, value_limit: int, max: int)
    requires
        fragment_error(FrameKind::Data, message_id, payload.len() as int, value_limit, max) is None,
    ensures
        ({
            let chunk = value_limit - 14;
            let n = fragment_count_of(payload.len() as int, chunk);
            let pieces = fragment_payloads(FrameKind::Data, message_id, payload, chunk, n);
            &&& pieces.len() == n
            &&& joined_fragments(Seq::new(pieces.len(), |g: int| Some(pieces[g]))) == payload
        }),
{
    law_fragments_reassemble(FrameKind::Data, message_id, payload, value_limit, max);
    let chunk = value_limit - 14;
    let n = fragment_count_of(payload.len() as int, chunk);
    lemma_joined_pieces(fragment_payloads(FrameKind::Data, message_id, payload, chunk, n));
}

/// What the arrival of frame `k` of `order` changes in which fragments arrived.
proof fn lemma_arrivals(order: Seq<int>, n: int, k: int)
    requires
        is_order(order, n),
        0 <= k < n,
    ensures
        !arrived(order, k, order[k]),
        forall|g: int| #[trigger] arrived(order, k + 1, g) == (arrived(order, k, g) || g == order[k]),
        k + 1 < n ==> !arrived(order, k + 1, order[n - 1]),
        k + 1 == n ==> forall|g: int| 0 <= g < n ==> #[trigger] arrived(order, k + 1, g),
{
    assert(!arrived(order, k, order[k])) by {
        if arrived(order, k, order[k]) {
            let i = choose|i: int| 0 <= i < k && #[trigger] order[i] == order[k];
            assert(order[i] != order[k]);
        }
    }
    assert forall|g: int| #[trigger] arrived(order, k + 1, g) == (arrived(order, k, g) || g == order[k]) by {
        if arrived(order, k + 1, g) {
            let i = choose|i: int| 0 <= i < k + 1 && #[trigger] order[i] == g;
            if i < k {
                assert(arrived(order, k, g));
            }
        }
        if arrived(order, k, g) {
            let i = choose|i: int| 0 <= i < k && #[trigger] order[i] == g;
            assert(0 <= i < k + 1 && order[i] == g);
        }
        if g == order[k] {
            assert(0 <= k < k + 1 && order[k] == g);
        }
    }
    if k + 1 < n {
        assert(!arrived(order, k + 1, order[n - 1])) by {
            if arrived(order, k + 1, order[n - 1]) {
                let i = choose|i: int| 0 <= i < k + 1 && #[trigger] order[i] == order[n - 1];
                assert(order[i] != order[n - 1]);
            }
        }
    } else {
        assert forall|g: int| 0 <= g < n implies #[trigger] arrived(order, k + 1, g) by {
            assert(arrived(order, n, g));
        }
    }
}

/// Frame `k` finds the partial message in place: a new one for the first frame,
/// the one under reassembly for the others.
#[verifier::spinoff_prover]
proof fn lemma_opened(
    v: ReceiverView,
    message_id: u32,
    payload: Seq<u8>,
    value_limit: int,
    order: Seq<int>,
    times: Seq<u64>,
    k: int,
)
    requires
        admits_message(v, message_id, payload, value_limit, times),
        0 <= k < fragment_count_of(payload.len() as int, value_limit - 14),
        0 <= order[k] < fragment_count_of(payload.len() as int, value_limit - 14),
    ensures
        ({
            let chunk = value_limit - 14;
            let state = before_frame(v, message_id, payload, chunk, order, times[0], k);
            let model = fragment_model(FrameKind::Data, message_id, payload, chunk, order[k]);
            &&& state.expired_at(times[k]) == state
            &&& open_partial(state, model, times[k]) == Ok::<(ReceiverView, int), (ErrorCode, Seq<char>)>(
                (reassembling(v, message_id, payload, chunk, order, times[0], k), 0),
            )
        }),
{
    let chunk = value_limit - 14;
    let n = fragment_count_of(payload.len() as int, chunk);
    let start = times[0];
    let now = times[k];
    let model = fragment_model(FrameKind::Data, message_id, payload, chunk, order[k]);
    lemma_decodes(v, message_id, payload, value_limit, times, order[k]);
    lemma_total_len_nonneg(v.completed);
    lemma_total_len_nonneg(v.recent);
    assert(since(now, start) < v.limits.reassembly_deadline_ms);
    assert(v.buffered_bytes == 0);
    let state = before_frame(v, message_id, payload, chunk, order, start, k);
    reveal_with_fuel(expire, 2);
    reveal_with_fuel(find_partial, 2);
    if k == 0 {
        assert(v.partials =~= Seq::<PartialView>::empty());
        assert(state.expired_at(now) == state);
        let held_0 = held(message_id, payload, chunk, order, n, 0);
        assert(held_0 =~= Seq::new(model.fragment_count as nat, |i: int| None::<Seq<u8>>));
        lemma_joined_none(n as nat);
        let opened = reassembling(v, message_id, payload, chunk, order, start, 0);
        assert(find_partial(state.partials, model.kind, model.message_id) == -1);
        assert(reservation(model.fragment_count as int) == reservation(n));
        assert(reservation(n) <= usize::MAX);
        assert(state.total_buffered() + reservation(n) <= v.limits.max_buffered_bytes);
        assert(open_partial(state, model, now) is Ok);
        assert(open_partial(state, model, now)->Ok_0.1 == 0);
        assert(open_partial(state, model, now)->Ok_0.0.partials =~= opened.partials);
    } else {
        assert(state.expired_at(now).partials =~= state.partials);
        assert(state.expired_at(now) == state);
    }
}

/// Frame `k`, placed into the partial message, leaves it waiting for more, or, as
/// the last, completes it and hands the message to the admission step.
#[verifier::spinoff_prover]
proof fn lemma_placed(
    v: ReceiverView,
    message_id: u32,
    payload: Seq<u8>,
    value_limit: int,
    order: Seq<int>,
    times: Seq<u64>,
    k: int,
)
    requires
        admits_message(v, message_id, payload, value_limit, times),
        is_order(order, fragment_count_of(payload.len() as int, value_limit - 14)),
        0 <= k < fragment_count_of(payload.len() as int, value_limit - 14),
    ensures
        ({
            let chunk = value_limit - 14;
            let n = fragment_count_of(payload.len() as int, chunk);
            let model = fragment_model(FrameKind::Data, message_id, payload, chunk, order[k]);
            let placed = place_fragment(
                reassembling(v, message_id, payload, chunk, order, times[0], k),
                0,
                model,
            );
            if k + 1 < n {
                &&& placed.0 == reassembling(v, message_id, payload, chunk, order, times[0], k + 1)
                &&& placed.1 == Ok::<ActionView, (ErrorCode, Seq<char>)>(ActionView::Nothing)
            } else {
                placed == admit_message(v, message_id, payload)
            }
        }),
{
    let chunk = value_limit - 14;
    let len = payload.len() as int;
    let n = fragment_count_of(len, chunk);
    let start = times[0];
    let f = order[k];
    let model = fragment_model(FrameKind::Data, message_id, payload, chunk, f);
    lemma_decodes(v, message_id, payload, value_limit, times, f);
    lemma_total_len_nonneg(v.completed);
    lemma_total_len_nonneg(v.recent);
    lemma_arrivals(order, n, k);
    lemma_joined_whole(message_id, payload, value_limit, v.limits.max_logical_size as int);
    assert(v.buffered_bytes == 0);
    let v2 = reassembling(v, message_id, payload, chunk, order, start, k);
    let held_k = held(message_id, payload, chunk, order, n, k);
    let held_next = held(message_id, payload, chunk, order, n, k + 1);
    assert(held_k[f] is None);
    assert(held_next =~= held_k.update(f, Some(model.payload)));
    lemma_joined_update(held_k, f, model.payload);
    let pieces = fragment_payloads(FrameKind::Data, message_id, payload, chunk, n);
    let all = Seq::new(pieces.len(), |g: int| Some(pieces[g]));
    assert forall|g: int| 0 <= g < held_next.len() implies #[trigger] held_next[g] is None
        || held_next[g] == all[g] by {
    }
    lemma_joined_within(held_next, all);
    if k + 1 < n {
        let last = order[n - 1];
        assert(held_next[last] is None);
        let next = reassembling(v, message_id, payload, chunk, order, start, k + 1);
        let placed = place_fragment(v2, 0, model);
        assert(placed.0.partials =~= next.partials);
    } else {
        assert forall|g: int| 0 <= g < n implies #[trigger] held_next[g] == all[g] by {
            assert(arrived(order, k + 1, g));
        }
        assert(held_next =~= all);
        let filled = PartialView {
            fragments: held_next,
            received_bytes: joined_fragments(held_next).len() as int,
            ..v2.partials[0]
        };
        let done = ReceiverView { partials: v2.partials.remove(0), buffered_bytes: 0, ..v2 };
        assert(done.partials =~= v.partials);
        assert(done == v);
        assert(!(exists|i: int| 0 <= i < filled.fragments.len() && filled.fragments[i] is None));
        assert(place_fragment(v2, 0, model) == settle(done, filled, FrameKind::Data, message_id));
    }
}


proof fn lemma_step(
    v: ReceiverView,
    message_id: u32,
    payload: Seq<u8>,
    value_limit: int,
    order: Seq<int>,
    times: Seq<u64>,
    k: int,
)
    requires
        admits_message(v, message_id, payload, value_limit, times),
        is_order(order, fragment_count_of(payload.len() as int, value_limit - 14)),
        0 <= k < fragment_count_of(payload.len() as int, value_limit - 14),
    ensures
        ({
            let chunk = value_limit - 14;
            let n = fragment_count_of(payload.len() as int, chunk);
            let state = before_frame(v, message_id, payload, chunk, order, times[0], k);
            let frame = fragment_model(FrameKind::Data, message_id, payload, chunk, order[k]).bytes();
            let (after, out) = receive_step(state, frame, times[k]);
            if k + 1 < n {
                &&& after == reassembling(v, message_id, payload, chunk, order, times[0], k + 1)
                &&& out == Ok::<ActionView, (ErrorCode, Seq<char>)>(ActionView::Nothing)
            } else {
                (after, out) == admit_message(v, message_id, payload)
            }
        }),
{
    let chunk = value_limit - 14;
    lemma_decodes(v, message_id, payload, value_limit, times, order[k]);
    lemma_opened(v, message_id, payload, value_limit, order, times, k);
    lemma_placed(v, message_id, payload, value_limit, order, times, k);
    let state = before_frame(v, message_id, payload, chunk, order, times[0], k);
    assert(state.limits == v.limits);
}

proof fn lemma_run(
    v: ReceiverView,
    message_id: u32,
    payload: Seq<u8>,
    value_limit: int,
    order: Seq<int>,
    times: Seq<u64>,
    k: int,
)
    requires
        admits_message(v, message_id, payload, value_limit, times),
        is_order(order, fragment_count_of(payload.len() as int, value_limit - 14)),
        1 <= k <= fragment_count_of(payload.len() as int, value_limit - 14),
    ensures
        ({
            let chunk = value_limit - 14;
            let n = fragment_count_of(payload.len() as int, chunk);
            let frames = frames_in_order(message_id, payload, chunk, order);
            let (after, outs) = receive_run(v, frames.subrange(0, k), times);
            &&& outs.len() == k
            &&& forall|i: int| 0 <= i < k && i < n - 1 ==> #[trigger] outs[i]
                == Ok::<ActionView, (ErrorCode, Seq<char>)>(ActionView::Nothing)
            &&& k < n ==> after == reassembling(v, message_id, payload, chunk, order, times[0], k)
            &&& k == n ==> after == admit_message(v, message_id, payload).0 && outs[k - 1]
                == admit_message(v, message_id, payload).1
        }),
    decreases k,
{
    let chunk = value_limit - 14;
    let frames = frames_in_order(message_id, payload, chunk, order);
    let prefix = frames.subrange(0, k);
    assert(prefix.drop_last() =~= frames.subrange(0, k - 1));
    assert(prefix.last() == fragment_model(FrameKind::Data, message_id, payload, chunk, order[k - 1]).bytes());
    lemma_step(v, message_id, payload, value_limit, order, times, k - 1);
    if k > 1 {
        lemma_run(v, message_id, payload, value_limit, order, times, k - 1);
    } else {
        assert(frames.subrange(0, 0) =~= Seq::<Seq<u8>>::empty());
    }
    let (before, outs) = receive_run(v, frames.subrange(0, k - 1), times);
    assert(before == before_frame(v, message_id, payload, chunk, order, times[0], k - 1));
    assert(prefix.len() == k);
    let (after, out) = receive_step(before, prefix.last(), times[k - 1]);
    assert(receive_run(v, prefix, times) == (after, outs.push(out)));
}

/// The fragments of one DATA message, received in any order, each within the
/// reassembly deadline of the first, by a receiver with room for them: every
/// fragment but the last hands over nothing, and the last one hands over the
/// complete message with its acknowledgement, which then waits in the queue.
pub proof fn law_fragments_in_any_order_give_the_message(
    v: ReceiverView,
    message_id: u32,
    payload: Seq<u8>,
    value_limit: int,
    order: Seq<int>,
    times: Seq<u64>,
)
    requires
        admits_message(v, message_id, payload, value_limit, times),
        is_order(order, fragment_count_of(payload.len() as int, value_limit - 14)),
    ensures
        ({
            let n = fragment_count_of(payload.len() as int, value_limit - 14);
            let frames = frames_in_order(message_id, payload, value_limit - 14, order);
            let (after, outs) = receive_run(v, frames, times);
            &&& outs.len() == n
            &&& forall|i: int| 0 <= i < n - 1 ==> #[trigger] outs[i]
                == Ok::<ActionView, (ErrorCode, Seq<char>)>(ActionView::Nothing)
            &&& outs[n - 1] == delivered(message_id, payload)
            &&& after.partials.len() == 0
            &&& after.completed == v.completed.push((message_id, payload))
        }),
{
    let chunk = value_limit - 14;
    let n = fragment_count_of(payload.len() as int, chunk);
    let frames = frames_in_order(message_id, payload, chunk, order);
    let len = payload.len() as int;
    if len > 0 {
        assert(chunk >= 1);
        vstd::arithmetic::div_mod::lemma_fundamental_div_mod(len, chunk);
        if len / chunk == 0 {
            assert(len % chunk == len);
        }
    }
    assert(n >= 1);
    assert(frames.subrange(0, n) =~= frames);
    lemma_run(v, message_id, payload, value_limit, order, times, n);
    lemma_admitted(v, message_id, payload, value_limit, times);
}


/// A receive adds to the queue of complete messages exactly the message it hands
/// over, at the back, and otherwise leaves the queue as it was.
pub proof fn law_a_receive_queues_only_what_it_hands_over(v: ReceiverView, bytes: Seq<u8>, now: u64)
    ensures
        ({
            let (after, out) = receive_step(v, bytes, now);
            match out {
                Ok(ActionView::Message { message_id, payload, .. }) => after.completed
                    == v.completed.push((message_id, payload)),
                _ => after.completed == v.completed,
            }
        }),
{
}


/// One call on a receiver.
pub enum ReceiverCall {
    /// `receive_at` of `bytes` at `now`.
    Receive { bytes: Seq<u8>, now: u64 },
    /// `pop_message`.
    Pop,
    /// `disconnect`.
    Disconnect,
}

/// A receiver after `calls`, the messages its receives handed over, and the
/// messages its pops returned, each in order.
pub open spec fn call_run(v: ReceiverView, calls: Seq<ReceiverCall>) -> (
    ReceiverView,
    Seq<(u32, Seq<u8>)>,
    Seq<(u32, Seq<u8>)>,
)
    decreases calls.len(),
{
    if calls.len() == 0 {
        (v, Seq::empty(), Seq::empty())
    } else {
        let (w, handed, popped) = call_run(v, calls.drop_last());
        match calls.last() {
            ReceiverCall::Receive { bytes, now } => {
                let (after, out) = receive_step(w, bytes, now);
                match out {
                    Ok(ActionView::Message { message_id, payload, .. }) => (
                        after,
                        handed.push((message_id, payload)),
                        popped,
                    ),
                    _ => (after, handed, popped),
                }
            },
            ReceiverCall::Pop => if w.completed.len() == 0 {
                (w, handed, popped)
            } else {
                (taken(w), handed, popped.push(w.completed[0]))
            },
            ReceiverCall::Disconnect => (
                ReceiverView { partials: Seq::empty(), buffered_bytes: 0, ..w },
                handed,
                popped,
            ),
        }
    }
}

/// Complete messages leave a receiver in the order it handed them over: after any
/// calls, what was queued before and what the receives handed over, in order, is
/// what the pops returned followed by what still waits. No other call adds to or
/// takes from the queue.
pub proof fn law_messages_leave_in_the_order_they_arrived(v: ReceiverView, calls: Seq<ReceiverCall>)
    ensures
        ({
            let (after, handed, popped) = call_run(v, calls);
            v.completed + handed == popped + after.completed
        }),
    decreases calls.len(),
{
    if calls.len() > 0 {
        law_messages_leave_in_the_order_they_arrived(v, calls.drop_last());
        let (w, handed, popped) = call_run(v, calls.drop_last());
        match calls.last() {
            ReceiverCall::Receive { bytes, now } => {
                law_a_receive_queues_only_what_it_hands_over(w, bytes, now);
                let (after, out) = receive_step(w, bytes, now);
                match out {
                    Ok(ActionView::Message { message_id, payload, .. }) => {
                        let m = (message_id, payload);
                        assert(v.completed + handed == popped + w.completed);
                        assert(v.completed + handed.push(m) =~= (v.completed + handed).push(m));
                        assert(popped + w.completed.push(m) =~= (popped + w.completed).push(m));
                    },
                    _ => {},
                }
            },
            ReceiverCall::Pop => if w.completed.len() > 0 {
                assert(popped.push(w.completed[0]) + taken(w).completed =~= popped + w.completed);
            },
            ReceiverCall::Disconnect => {},
        }
    }
}

} // verus!
