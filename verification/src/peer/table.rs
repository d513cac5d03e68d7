//! The state of the peer driver: its endpoints and peers, and what each backend event,
//! received frame and close does to them. An operation returns the work it leaves to
//! its caller, in order: peers to start, frames to write, writers to finish, senders to
//! wake, handshakes that completed, receipts and events to hand out.

use vstd::prelude::*;

use crate::codec::{base64_fits, decode_base64, encode_base64, standard_base64_decoded, standard_base64_encoded};
use crate::command::{Command, Event};
use crate::error::{invalid_handle_message, BleError, BleResult, DeliveryOutcome, ErrorCode};
use crate::ids::{CharacteristicHandle, ConnectionId, OwnerId, PeerId, ResourceId, ServerId, SubscriptionId};
use crate::model::WriteType;
use crate::peer::driver::{frame_step, on_peer_frame, CloseReason, EffectView, FrameEffect, PeerEvent, SendReceipt, TX_KEY};
use crate::peer::frame::{decode_model, Frame, FrameKind};
use crate::peer::driver::{control_frame, control_model, frame_size, peer_label, with_delivery, ATTRIBUTE_VALUE_MAX, DEFAULT_VALUE_LIMIT, PEER_OWNER_PREFIX, RX_KEY};
use crate::peer::receiver::ReceiverLimits;
use crate::peer::sender::{refusal_message, SendLimits};
use crate::text::{decimal, push_decimal, push_text, stripped};
use crate::peer::receiver::{Receiver, ReceiverView};
use crate::peer::sender::{polled, SendAction, Sender, SenderView};

verus! {

/// The index of the last of `keys` equal to `key`, or -1.
pub open spec fn position(keys: Seq<Seq<char>>, key: Seq<char>) -> int
    decreases keys.len(),
{
    if keys.len() == 0 {
        -1
    } else if keys.last() == key {
        keys.len() - 1
    } else {
        position(keys.drop_last(), key)
    }
}

/// No key occurs twice.
pub open spec fn distinct(keys: Seq<Seq<char>>) -> bool {
    forall|i: int, j: int| 0 <= i < keys.len() && 0 <= j < keys.len() && i != j ==> keys[i] != keys[j]
}

pub proof fn lemma_position(keys: Seq<Seq<char>>, key: Seq<char>)
    ensures
        -1 <= position(keys, key) < keys.len(),
        position(keys, key) >= 0 ==> keys[position(keys, key)] == key,
        position(keys, key) == -1 ==> forall|i: int| 0 <= i < keys.len() ==> keys[i] != key,
    decreases keys.len(),
{
    if keys.len() > 0 {
        lemma_position(keys.drop_last(), key);
        if keys.last() != key {
            assert forall|i: int| 0 <= i < keys.len() - 1 implies keys[i] == keys.drop_last()[i] by {}
        }
    }
}

pub proof fn lemma_position_distinct(keys: Seq<Seq<char>>, key: Seq<char>, i: int)
    requires
        distinct(keys),
        0 <= i < keys.len(),
        keys[i] == key,
    ensures
        position(keys, key) == i,
{
    lemma_position(keys, key);
}

/// The keys of keyed entries.
pub open spec fn keys_of<V>(entries: Seq<(Seq<char>, V)>) -> Seq<Seq<char>> {
    entries.map_values(|e: (Seq<char>, V)| e.0)
}

/// The value stored under `key`.
pub open spec fn entry<V>(entries: Seq<(Seq<char>, V)>, key: Seq<char>) -> Option<V> {
    let i = position(keys_of(entries), key);
    if i >= 0 {
        Some(entries[i].1)
    } else {
        None
    }
}

/// The entries with `value` stored under `key`, in place of an earlier value.
pub open spec fn put<V>(entries: Seq<(Seq<char>, V)>, key: Seq<char>, value: V) -> Seq<(Seq<char>, V)> {
    let i = position(keys_of(entries), key);
    if i >= 0 {
        entries.update(i, (key, value))
    } else {
        entries.push((key, value))
    }
}

/// The entries without the one of `key`.
pub open spec fn without<V>(entries: Seq<(Seq<char>, V)>, key: Seq<char>) -> Seq<(Seq<char>, V)> {
    let i = position(keys_of(entries), key);
    if i >= 0 {
        entries.remove(i)
    } else {
        entries
    }
}

pub proof fn lemma_put<V>(entries: Seq<(Seq<char>, V)>, key: Seq<char>, value: V)
    requires
        distinct(keys_of(entries)),
    ensures
        distinct(keys_of(put(entries, key, value))),
        entry(put(entries, key, value), key) == Some(value),
        forall|other: Seq<char>| other != key ==> #[trigger] entry(put(entries, key, value), other)
            == entry(entries, other),
{
    let keys = keys_of(entries);
    let next = put(entries, key, value);
    lemma_position(keys, key);
    assert(keys_of(next).len() == next.len());
    if position(keys, key) >= 0 {
        assert(keys_of(next) =~= keys);
    } else {
        assert(keys_of(next) =~= keys.push(key));
    }
    if position(keys, key) < 0 {
        assert(keys_of(next)[next.len() - 1] == key);
        lemma_position_distinct(keys_of(next), key, next.len() - 1);
    } else {
        lemma_position_distinct(keys_of(next), key, position(keys, key));
    }
    assert forall|other: Seq<char>| other != key implies #[trigger] entry(next, other) == entry(entries, other) by {
        lemma_position(keys, other);
        lemma_position(keys_of(next), other);
        if position(keys, other) >= 0 {
            lemma_position_distinct(keys_of(next), other, position(keys, other));
        }
    }
}

pub proof fn lemma_without<V>(entries: Seq<(Seq<char>, V)>, key: Seq<char>)
    requires
        distinct(keys_of(entries)),
    ensures
        distinct(keys_of(without(entries, key))),
        entry(without(entries, key), key) is None,
        forall|other: Seq<char>| other != key ==> #[trigger] entry(without(entries, key), other)
            == entry(entries, other),
{
    let keys = keys_of(entries);
    let next = without(entries, key);
    lemma_position(keys, key);
    let p = position(keys, key);
    if p >= 0 {
        assert(keys_of(next) =~= keys.remove(p));
    } else {
        assert(keys_of(next) =~= keys);
    }
    lemma_position(keys_of(next), key);
    assert forall|other: Seq<char>| other != key implies #[trigger] entry(next, other) == entry(entries, other) by {
        lemma_position(keys, other);
        lemma_position(keys_of(next), other);
        let q = position(keys, other);
        if q >= 0 {
            if p >= 0 && q > p {
                lemma_position_distinct(keys_of(next), other, q - 1);
            } else {
                lemma_position_distinct(keys_of(next), other, q);
            }
        } else {
            let r = position(keys_of(next), other);
            if r >= 0 {
                if p >= 0 && r >= p {
                    assert(keys[r + 1] == other);
                } else {
                    assert(keys[r] == other);
                }
            }
        }
    }
}

/// The text keys of entries keyed by an ID.
pub open spec fn id_keys<X>(entries: Seq<(PeerId, X)>) -> Seq<Seq<char>> {
    entries.map_values(|e: (PeerId, X)| e.0@)
}

/// The text keys of entries keyed by text.
pub open spec fn text_keys<X>(entries: Seq<(String, X)>) -> Seq<Seq<char>> {
    entries.map_values(|e: (String, X)| e.0@)
}

/// Where `key` is among entries keyed by a peer ID.
fn find_id<X>(entries: &Vec<(PeerId, X)>, key: &PeerId) -> (index: Option<usize>)
    ensures
        match index {
            Some(i) => i as int == position(id_keys(entries@), key@) && i < entries@.len(),
            None => position(id_keys(entries@), key@) == -1,
        },
{
    let ghost keys = id_keys(entries@);
    let mut i = entries.len();
    assert(keys.subrange(0, i as int) =~= keys);
    while i > 0
        invariant
            keys == id_keys(entries@),
            i <= entries@.len(),
            position(keys, key@) == position(keys.subrange(0, i as int), key@),
        decreases i,
    {
        let ghost part = keys.subrange(0, i as int);
        assert(part.drop_last() =~= keys.subrange(0, i - 1));
        if entries[i - 1].0.0 == key.0 {
            return Some(i - 1);
        }
        i = i - 1;
    }
    None
}

/// Where `key` is among entries keyed by text.
fn find_text<X>(entries: &Vec<(String, X)>, key: &str) -> (index: Option<usize>)
    ensures
        match index {
            Some(i) => i as int == position(text_keys(entries@), key@) && i < entries@.len(),
            None => position(text_keys(entries@), key@) == -1,
        },
{
    let ghost keys = text_keys(entries@);
    let mut i = entries.len();
    assert(keys.subrange(0, i as int) =~= keys);
    while i > 0
        invariant
            keys == text_keys(entries@),
            i <= entries@.len(),
            position(keys, key@) == position(keys.subrange(0, i as int), key@),
        decreases i,
    {
        let ghost part = keys.subrange(0, i as int);
        assert(part.drop_last() =~= keys.subrange(0, i - 1));
        if crate::text::text_is(entries[i - 1].0.as_str(), key) {
            return Some(i - 1);
        }
        i = i - 1;
    }
    None
}

/// How a peer reaches the other side.
#[derive(Clone, Debug, PartialEq, Eq)]
pub enum Link {
    /// A joiner writes frames to the RX characteristic of the host.
    Central { connection_id: ConnectionId, rx: CharacteristicHandle, subscription_id: SubscriptionId },
    /// A host notifies frames on TX to one central.
    Peripheral { server_id: ServerId, central: PeerId },
}

/// A link, by text.
pub enum LinkView {
    Central { connection_id: Seq<char>, rx: Seq<char>, subscription_id: Seq<char> },
    Peripheral { server_id: Seq<char>, central: Seq<char> },
}

impl View for Link {
    type V = LinkView;

    open spec fn view(&self) -> LinkView {
        match self {
            Link::Central { connection_id, rx, subscription_id } => LinkView::Central {
                connection_id: connection_id@,
                rx: rx@,
                subscription_id: subscription_id@,
            },
            Link::Peripheral { server_id, central } => LinkView::Peripheral {
                server_id: server_id@,
                central: central@,
            },
        }
    }
}

/// The command that carries `frame` over a link: a write of RX with response for a
/// joiner, a notification of TX for a host.
pub open spec fn frame_command_of(link: LinkView, frame: Seq<u8>, command: Command) -> bool {
    match link {
        LinkView::Central { connection_id, rx, .. } => command matches Command::Write {
            connection_id: c,
            characteristic: h,
            value_base64: v,
            write_type: WriteType::WithResponse,
        } && c@ == connection_id && h@ == rx && v@ == standard_base64_encoded(frame),
        LinkView::Peripheral { server_id, central } => command matches Command::Notify {
            server_id: s,
            peer_id: p,
            characteristic_key: k,
            value_base64: v,
        } && s@ == server_id && p@ == central && k@ == TX_KEY@ && v@ == standard_base64_encoded(frame),
    }
}

impl Link {
    /// A copy of the link.
    pub fn duplicate(&self) -> (copy: Link)
        ensures
            copy == *self,
    {
        match self {
            Link::Central { connection_id, rx, subscription_id } => Link::Central {
                connection_id: connection_id.duplicate(),
                rx: rx.duplicate(),
                subscription_id: subscription_id.duplicate(),
            },
            Link::Peripheral { server_id, central } => Link::Peripheral {
                server_id: server_id.duplicate(),
                central: central.duplicate(),
            },
        }
    }

    /// The command that carries `frame` to the other side.
    pub fn frame_command(&self, frame: &[u8]) -> (command: Command)
        requires
            base64_fits(frame@.len()),
        ensures
            frame_command_of(self@, frame@, command),
    {
        let value_base64 = encode_base64(frame);
        match self {
            Link::Central { connection_id, rx, .. } => Command::Write {
                connection_id: connection_id.duplicate(),
                characteristic: rx.duplicate(),
                value_base64,
                write_type: WriteType::WithResponse,
            },
            Link::Peripheral { server_id, central } => Command::Notify {
                server_id: server_id.duplicate(),
                peer_id: central.duplicate(),
                characteristic_key: TX_KEY.to_owned(),
                value_base64,
            },
        }
    }
}

/// What an endpoint knows of one size or central, by text.
pub open spec fn size_entries(entries: Seq<(PeerId, usize)>) -> Seq<(Seq<char>, usize)> {
    entries.map_values(|e: (PeerId, usize)| (e.0@, e.1))
}

pub open spec fn central_entries(entries: Seq<(PeerId, PeerId)>) -> Seq<(Seq<char>, Seq<char>)> {
    entries.map_values(|e: (PeerId, PeerId)| (e.0@, e.1@))
}

/// A registered endpoint.
pub struct Endpoint {
    pub label: String,
    pub service_uuid: String,
    pub max_logical_payload: usize,
    pub server_id: Option<ServerId>,
    /// The notification size of each subscribed central.
    pub notification_sizes: Vec<(PeerId, usize)>,
    /// The peer of each central that sent HELLO.
    pub centrals: Vec<(PeerId, PeerId)>,
}

pub struct EndpointView {
    pub label: Seq<char>,
    pub service_uuid: Seq<char>,
    pub max_logical_payload: usize,
    pub server_id: Option<Seq<char>>,
    pub notification_sizes: Seq<(Seq<char>, usize)>,
    pub centrals: Seq<(Seq<char>, Seq<char>)>,
}

impl EndpointView {
    /// No central occurs twice.
    pub open spec fn wf(self) -> bool {
        &&& distinct(keys_of(self.notification_sizes))
        &&& distinct(keys_of(self.centrals))
    }
}

impl View for Endpoint {
    type V = EndpointView;

    open spec fn view(&self) -> EndpointView {
        EndpointView {
            label: self.label@,
            service_uuid: self.service_uuid@,
            max_logical_payload: self.max_logical_payload,
            server_id: match self.server_id {
                Some(s) => Some(s@),
                None => None,
            },
            notification_sizes: size_entries(self.notification_sizes@),
            centrals: central_entries(self.centrals@),
        }
    }
}

/// A peer: one link to the other side, with its sender and receiver.
pub struct Peer {
    pub label: String,
    pub endpoint_id: String,
    pub link: Link,
    pub max_logical_payload: usize,
    /// A joiner peer is ready after `HELLO_ACK`. A host peer is ready at once.
    pub ready: bool,
    pub sender: Sender,
    pub receiver: Receiver,
    /// The messages whose sends wait for a receipt.
    pub waiters: Vec<u32>,
}

pub struct PeerView {
    pub label: Seq<char>,
    pub endpoint_id: Seq<char>,
    pub link: LinkView,
    pub max_logical_payload: usize,
    pub ready: bool,
    pub sender: SenderView,
    pub receiver: ReceiverView,
    pub waiters: Seq<u32>,
}

impl View for Peer {
    type V = PeerView;

    open spec fn view(&self) -> PeerView {
        PeerView {
            label: self.label@,
            endpoint_id: self.endpoint_id@,
            link: self.link@,
            max_logical_payload: self.max_logical_payload,
            ready: self.ready,
            sender: self.sender@,
            receiver: self.receiver@,
            waiters: self.waiters@,
        }
    }
}

impl Peer {
    pub open spec fn well_formed(&self) -> bool {
        &&& self.sender.well_formed()
        &&& self.receiver.well_formed()
    }
}

pub open spec fn endpoint_entries(entries: Seq<(String, Endpoint)>) -> Seq<(Seq<char>, EndpointView)> {
    entries.map_values(|e: (String, Endpoint)| (e.0@, e.1@))
}

pub open spec fn peer_entries(entries: Seq<(PeerId, Peer)>) -> Seq<(Seq<char>, PeerView)> {
    entries.map_values(|e: (PeerId, Peer)| (e.0@, e.1@))
}

/// The endpoints and peers of every webview.
pub struct PeerState {
    next_id: u64,
    endpoints: Vec<(String, Endpoint)>,
    peers: Vec<(PeerId, Peer)>,
}

pub struct StateView {
    pub next_id: u64,
    pub endpoints: Seq<(Seq<char>, EndpointView)>,
    pub peers: Seq<(Seq<char>, PeerView)>,
}

impl StateView {
    /// Keys are unique, and every endpoint is well formed.
    pub open spec fn wf(self) -> bool {
        &&& distinct(keys_of(self.endpoints))
        &&& distinct(keys_of(self.peers))
        &&& forall|i: int| 0 <= i < self.endpoints.len() ==> (#[trigger] self.endpoints[i]).1.wf()
    }
}

impl View for PeerState {
    type V = StateView;

    closed spec fn view(&self) -> StateView {
        StateView {
            next_id: self.next_id,
            endpoints: endpoint_entries(self.endpoints@),
            peers: peer_entries(self.peers@),
        }
    }
}

impl PeerState {
    pub closed spec fn well_formed(&self) -> bool {
        &&& self@.wf()
        &&& forall|i: int| 0 <= i < self.peers@.len() ==> (#[trigger] self.peers@[i]).1.well_formed()
    }

    /// No endpoint and no peer; IDs count from 1.
    pub fn new() -> (state: Self)
        ensures
            state.well_formed(),
            state@ == (StateView { next_id: 1, endpoints: Seq::empty(), peers: Seq::empty() }),
    {
        let state = PeerState { next_id: 1, endpoints: Vec::new(), peers: Vec::new() };
        assert(state@.endpoints =~= Seq::<(Seq<char>, EndpointView)>::empty());
        assert(state@.peers =~= Seq::<(Seq<char>, PeerView)>::empty());
        state
    }
}

/// The work an operation leaves to the driver.
#[derive(Debug, PartialEq, Eq)]
pub enum DriverEffect {
    /// A new peer: its writer and its sender loop start.
    Start { peer_id: PeerId, label: String, link: Link },
    /// A frame for the writer of a peer.
    Frame { peer_id: PeerId, bytes: Vec<u8> },
    /// The HELLO frame of a joiner, whose write result the dialer awaits.
    Hello { peer_id: PeerId, bytes: Vec<u8> },
    /// The writer of a removed peer ends, after a CLOSE frame or a disconnect where asked.
    Finish { peer_id: PeerId, send_close: bool, disconnect: bool },
    /// The sender loop of a peer runs again.
    Wake { peer_id: PeerId },
    /// A joiner's handshake completed.
    HelloAcked { peer_id: PeerId },
    /// A send was acknowledged by the other side.
    Acknowledged { peer_id: PeerId, message_id: u32 },
    /// A send ended with its peer; the message may have arrived when it was in flight.
    PeerClosed { peer_id: PeerId, message_id: u32, delivery: DeliveryOutcome },
    /// A send failed.
    SendFailed { peer_id: PeerId, message_id: u32, error: BleError },
    /// An event for the webview `label`.
    Emit { label: String, event: PeerEvent },
}

/// A peer event, by text.
pub enum PeerEventView {
    Ready { endpoint_id: Seq<char>, peer_id: Seq<char>, dialed: bool },
    Message { peer_id: Seq<char>, bytes: Seq<u8> },
    Closed { peer_id: Seq<char>, reason: CloseReason },
}

pub open spec fn event_view(event: PeerEvent) -> PeerEventView {
    match event {
        PeerEvent::Ready { endpoint_id, peer_id, dialed } => PeerEventView::Ready {
            endpoint_id: endpoint_id@,
            peer_id: peer_id@,
            dialed,
        },
        PeerEvent::Message { peer_id, bytes } => PeerEventView::Message { peer_id: peer_id@, bytes: bytes@ },
        PeerEvent::Closed { peer_id, reason } => PeerEventView::Closed { peer_id: peer_id@, reason },
    }
}

/// A driver effect, by text.
pub enum Work {
    Start { peer_id: Seq<char>, label: Seq<char>, link: LinkView },
    Frame { peer_id: Seq<char>, bytes: Seq<u8> },
    Hello { peer_id: Seq<char>, bytes: Seq<u8> },
    Finish { peer_id: Seq<char>, send_close: bool, disconnect: bool },
    Wake { peer_id: Seq<char> },
    HelloAcked { peer_id: Seq<char> },
    Acknowledged { peer_id: Seq<char>, message_id: u32 },
    PeerClosed { peer_id: Seq<char>, message_id: u32, delivery: DeliveryOutcome },
    SendFailed { peer_id: Seq<char>, message_id: u32, error: BleError },
    Emit { label: Seq<char>, event: PeerEventView },
}

impl View for DriverEffect {
    type V = Work;

    open spec fn view(&self) -> Work {
        match self {
            DriverEffect::Start { peer_id, label, link } => Work::Start {
                peer_id: peer_id@,
                label: label@,
                link: link@,
            },
            DriverEffect::Frame { peer_id, bytes } => Work::Frame { peer_id: peer_id@, bytes: bytes@ },
            DriverEffect::Hello { peer_id, bytes } => Work::Hello { peer_id: peer_id@, bytes: bytes@ },
            DriverEffect::Finish { peer_id, send_close, disconnect } => Work::Finish {
                peer_id: peer_id@,
                send_close: *send_close,
                disconnect: *disconnect,
            },
            DriverEffect::Wake { peer_id } => Work::Wake { peer_id: peer_id@ },
            DriverEffect::HelloAcked { peer_id } => Work::HelloAcked { peer_id: peer_id@ },
            DriverEffect::Acknowledged { peer_id, message_id } => Work::Acknowledged {
                peer_id: peer_id@,
                message_id: *message_id,
            },
            DriverEffect::PeerClosed { peer_id, message_id, delivery } => Work::PeerClosed {
                peer_id: peer_id@,
                message_id: *message_id,
                delivery: *delivery,
            },
            DriverEffect::SendFailed { peer_id, message_id, error } => Work::SendFailed {
                peer_id: peer_id@,
                message_id: *message_id,
                error: *error,
            },
            DriverEffect::Emit { label, event } => Work::Emit { label: label@, event: event_view(*event) },
        }
    }
}

pub open spec fn works(effects: Seq<DriverEffect>) -> Seq<Work> {
    effects.map_values(|e: DriverEffect| e@)
}

/// How a peer goes: the reason it reports, whether its writer sends CLOSE or
/// disconnects first, and whether its webview learns of it.
#[derive(Clone, Copy, Debug, PartialEq, Eq, Structural)]
pub struct Closing {
    pub reason: CloseReason,
    pub send_close: bool,
    pub disconnect: bool,
    pub announce: bool,
}

/// How the peer of a failed dial goes: lost, disconnecting, announced.
pub open spec fn dial_failure() -> Closing {
    Closing { reason: CloseReason::Lost, send_close: false, disconnect: true, announce: true }
}

/// The message in flight of a sender.
pub open spec fn in_flight_of(sender: SenderView) -> Option<u32> {
    match sender.pending {
        Some(p) => Some(p.message.0),
        None => None,
    }
}

/// The receipts of the waiting sends of a closed peer: a message in flight may have
/// arrived, the others were never sent.
pub open spec fn closed_receipts(peer_id: Seq<char>, waiters: Seq<u32>, in_flight: Option<u32>) -> Seq<Work> {
    waiters.map_values(
        |m: u32|
            Work::PeerClosed {
                peer_id,
                message_id: m,
                delivery: if in_flight == Some(m) {
                    DeliveryOutcome::Unknown
                } else {
                    DeliveryOutcome::NotSubmitted
                },
            },
    )
}

/// The endpoints once a host peer no longer answers for its central.
pub open spec fn release_central(endpoints: Seq<(Seq<char>, EndpointView)>, peer_id: Seq<char>, peer: PeerView) -> Seq<
    (Seq<char>, EndpointView),
> {
    match peer.link {
        LinkView::Peripheral { central, .. } => match entry(endpoints, peer.endpoint_id) {
            Some(e) => if entry(e.centrals, central) == Some(peer_id) {
                put(endpoints, peer.endpoint_id, EndpointView { centrals: without(e.centrals, central), ..e })
            } else {
                endpoints
            },
            None => endpoints,
        },
        _ => endpoints,
    }
}

/// The state and work after the peer `peer_id` goes.
pub open spec fn removed(v: StateView, peer_id: Seq<char>, close: Closing) -> (StateView, Seq<Work>) {
    match entry(v.peers, peer_id) {
        None => (v, Seq::empty()),
        Some(p) => (
            StateView {
                endpoints: release_central(v.endpoints, peer_id, p),
                peers: without(v.peers, peer_id),
                ..v
            },
            seq![
                Work::Finish { peer_id, send_close: close.send_close, disconnect: close.disconnect },
                Work::Wake { peer_id },
            ] + closed_receipts(peer_id, p.waiters, in_flight_of(p.sender)) + if close.announce && p.ready {
                seq![Work::Emit { label: p.label, event: PeerEventView::Closed { peer_id, reason: close.reason } }]
            } else {
                Seq::empty()
            },
        ),
    }
}

impl PeerState {
    proof fn lemma_keys(&self)
        ensures
            keys_of(self@.endpoints) == text_keys(self.endpoints@),
            keys_of(self@.peers) == id_keys(self.peers@),
    {
        assert(keys_of(self@.endpoints) =~= text_keys(self.endpoints@));
        assert(keys_of(self@.peers) =~= id_keys(self.peers@));
    }

    /// Removes the central of a host peer from its endpoint, where it still names
    /// the peer.
    fn release(&mut self, peer_id: &PeerId, peer: &Peer)
        requires
            old(self)@.wf(),
        ensures
            final(self)@ == (StateView {
                endpoints: release_central(old(self)@.endpoints, peer_id@, peer@),
                ..old(self)@
            }),
            final(self)@.wf(),
            final(self).peers == old(self).peers,
    {
        proof {
            self.lemma_keys();
        }
        let central = match &peer.link {
            Link::Peripheral { central, .. } => central,
            Link::Central { .. } => {
                return ;
            },
        };
        let e = match find_text(&self.endpoints, peer.endpoint_id.as_str()) {
            Some(e) => e,
            None => {
                return ;
            },
        };
        let ghost endpoint = self@.endpoints[e as int].1;
        assert(endpoint.centrals == central_entries(self.endpoints@[e as int].1.centrals@));
        let c = match find_id(&self.endpoints[e].1.centrals, central) {
            Some(c) => c,
            None => {
                assert(keys_of(endpoint.centrals) =~= id_keys(self.endpoints@[e as int].1.centrals@));
                return ;
            },
        };
        assert(keys_of(endpoint.centrals) =~= id_keys(self.endpoints@[e as int].1.centrals@));
        if self.endpoints[e].1.centrals[c].1.0 != peer_id.0 {
            return ;
        }
        let ghost before = self@.endpoints;
        let ghost raw = self.endpoints@;
        proof {
            lemma_position(keys_of(before), peer.endpoint_id@);
        }
        let (key, mut changed) = self.endpoints.remove(e);
        assert(key@ == peer.endpoint_id@);
        let ghost old_centrals = changed.centrals@;
        changed.centrals.remove(c);
        assert(central_entries(changed.centrals@) =~= without(endpoint.centrals, central@));
        let ghost entry_now = (key, changed);
        self.endpoints.insert(e, (key, changed));
        assert(self.endpoints@ =~= raw.update(e as int, entry_now));
        proof {
            let next = put(before, peer.endpoint_id@, EndpointView { centrals: without(endpoint.centrals, central@), ..endpoint });
            assert(self@.endpoints =~= next);
            lemma_without(endpoint.centrals, central@);
            assert(keys_of(next) =~= keys_of(before));
            assert forall|i: int| 0 <= i < next.len() implies (#[trigger] next[i]).1.wf() by {
                if i != e {
                    assert(next[i] == before[i]);
                }
            }
        }
    }
}

impl PeerState {
    /// Removes a peer: its writer finishes, its sender loop wakes to end, its waiting
    /// sends fail, and its webview learns of the close where `close` asks for it.
    pub fn remove_peer(&mut self, peer_id: &PeerId, close: Closing, effects: &mut Vec<DriverEffect>)
        requires
            old(self).well_formed(),
        ensures
            final(self).well_formed(),
            final(self)@ == removed(old(self)@, peer_id@, close).0,
            works(final(effects)@) == works(old(effects)@) + removed(old(self)@, peer_id@, close).1,
    {
        proof {
            self.lemma_keys();
        }
        let index = match find_id(&self.peers, peer_id) {
            Some(i) => i,
            None => {
                assert(works(effects@) =~= works(old(effects)@) + Seq::<Work>::empty());
                return ;
            },
        };
        let ghost v = self@;
        let ghost raw = self.peers@;
        proof {
            lemma_position(keys_of(v.peers), peer_id@);
            lemma_without(v.peers, peer_id@);
        }
        let (_, peer) = self.peers.remove(index);
        assert(self@.peers =~= without(v.peers, peer_id@));
        assert(peer@ == v.peers[index as int].1);
        self.release(peer_id, &peer);
        proof {
            assert forall|i: int| 0 <= i < self.peers@.len() implies (#[trigger] self.peers@[i]).1.well_formed() by {
                if i < index {
                    assert(self.peers@[i] == raw[i]);
                } else {
                    assert(self.peers@[i] == raw[i + 1]);
                }
            }
        }
        let ghost start = works(effects@);
        effects.push(DriverEffect::Finish {
            peer_id: peer_id.duplicate(),
            send_close: close.send_close,
            disconnect: close.disconnect,
        });
        effects.push(DriverEffect::Wake { peer_id: peer_id.duplicate() });
        let ghost head = seq![
            Work::Finish { peer_id: peer_id@, send_close: close.send_close, disconnect: close.disconnect },
            Work::Wake { peer_id: peer_id@ },
        ];
        assert(works(effects@) =~= start + head);
        let in_flight = peer.sender.in_flight();
        let ghost receipts = closed_receipts(peer_id@, peer.waiters@, in_flight_of(peer.sender@));
        let mut i: usize = 0;
        while i < peer.waiters.len()
            invariant
                i <= peer.waiters@.len(),
                receipts == closed_receipts(peer_id@, peer.waiters@, in_flight_of(peer.sender@)),
                in_flight == in_flight_of(peer.sender@),
                works(effects@) == start + head + receipts.subrange(0, i as int),
            decreases peer.waiters@.len() - i,
        {
            let message_id = peer.waiters[i];
            let delivery = if in_flight == Some(message_id) {
                DeliveryOutcome::Unknown
            } else {
                DeliveryOutcome::NotSubmitted
            };
            let ghost before = works(effects@);
            effects.push(DriverEffect::PeerClosed { peer_id: peer_id.duplicate(), message_id, delivery });
            assert(works(effects@) =~= before.push(receipts[i as int]));
            i = i + 1;
            assert(works(effects@) =~= start + head + receipts.subrange(0, i as int));
        }
        assert(receipts.subrange(0, i as int) =~= receipts);
        if close.announce && peer.ready {
            let ghost before = works(effects@);
            effects.push(DriverEffect::Emit {
                label: peer.label,
                event: PeerEvent::Closed { peer_id: peer_id.duplicate(), reason: close.reason },
            });
            assert(works(effects@) =~= before.push(
                Work::Emit { label: peer@.label, event: PeerEventView::Closed { peer_id: peer_id@, reason: close.reason } },
            ));
        }
    }
}

/// How a peer goes when its link is lost: announced, with nothing left to send.
pub open spec fn lost() -> Closing {
    Closing { reason: CloseReason::Lost, send_close: false, disconnect: false, announce: true }
}

/// The index of the endpoint of `label` registered as the server `server_id`, or -1.
pub open spec fn server_endpoint(endpoints: Seq<(Seq<char>, EndpointView)>, label: Seq<char>, server_id: Seq<char>) -> int
    decreases endpoints.len(),
{
    if endpoints.len() == 0 {
        -1
    } else if endpoints.last().1.label == label && endpoints.last().1.server_id == Some(server_id) {
        endpoints.len() - 1
    } else {
        server_endpoint(endpoints.drop_last(), label, server_id)
    }
}

pub proof fn lemma_server_endpoint(endpoints: Seq<(Seq<char>, EndpointView)>, label: Seq<char>, server_id: Seq<char>)
    ensures
        -1 <= server_endpoint(endpoints, label, server_id) < endpoints.len(),
        server_endpoint(endpoints, label, server_id) >= 0 ==> ({
            let e = endpoints[server_endpoint(endpoints, label, server_id)].1;
            e.label == label && e.server_id == Some(server_id)
        }),
    decreases endpoints.len(),
{
    if endpoints.len() > 0 {
        lemma_server_endpoint(endpoints.drop_last(), label, server_id);
    }
}

/// The state and work after the central `central` of the server `server_id` of
/// `label` subscribed to TX with frames of `size` bytes, or unsubscribed (`None`): an
/// unsubscribed central loses its peer.
pub open spec fn subscription_changed(
    v: StateView,
    label: Seq<char>,
    server_id: Seq<char>,
    central: Seq<char>,
    size: Option<usize>,
) -> (StateView, Seq<Work>) {
    let i = server_endpoint(v.endpoints, label, server_id);
    if i < 0 {
        (v, Seq::empty())
    } else {
        let (key, e) = v.endpoints[i];
        match size {
            Some(n) => (
                StateView {
                    endpoints: v.endpoints.update(
                        i,
                        (key, EndpointView { notification_sizes: put(e.notification_sizes, central, n), ..e }),
                    ),
                    ..v
                },
                Seq::empty(),
            ),
            None => {
                let next = StateView {
                    endpoints: v.endpoints.update(
                        i,
                        (
                            key,
                            EndpointView {
                                notification_sizes: without(e.notification_sizes, central),
                                centrals: without(e.centrals, central),
                                ..e
                            },
                        ),
                    ),
                    ..v
                };
                match entry(e.centrals, central) {
                    Some(peer_id) => removed(next, peer_id, lost()),
                    None => (next, Seq::empty()),
                }
            },
        }
    }
}

/// Takes out the entry of `key`, keeping the others in order.
fn take_id<X>(entries: &mut Vec<(PeerId, X)>, key: &PeerId) -> (taken: Option<(PeerId, X)>)
    ensures
        ({
            let i = position(id_keys(old(entries)@), key@);
            if i >= 0 {
                &&& final(entries)@ == old(entries)@.remove(i)
                &&& taken == Some(old(entries)@[i])
            } else {
                &&& final(entries)@ == old(entries)@
                &&& taken is None
            }
        }),
{
    match find_id(entries, key) {
        Some(i) => Some(entries.remove(i)),
        None => None,
    }
}

impl PeerState {
    /// Finds the endpoint of `label` registered as the server `server_id`.
    fn find_server_endpoint(&self, label: &str, server_id: &ServerId) -> (index: Option<usize>)
        ensures
            match index {
                Some(i) => i as int == server_endpoint(self@.endpoints, label@, server_id@),
                None => server_endpoint(self@.endpoints, label@, server_id@) == -1,
            },
    {
        let ghost all = self@.endpoints;
        let mut i = self.endpoints.len();
        assert(all.subrange(0, i as int) =~= all);
        while i > 0
            invariant
                all == self@.endpoints,
                i <= self.endpoints@.len(),
                server_endpoint(all, label@, server_id@) == server_endpoint(all.subrange(0, i as int), label@, server_id@),
            decreases i,
        {
            let ghost part = all.subrange(0, i as int);
            assert(part.drop_last() =~= all.subrange(0, i - 1));
            let endpoint = &self.endpoints[i - 1].1;
            assert(part.last().1 == endpoint@);
            if crate::text::text_is(endpoint.label.as_str(), label) {
                match &endpoint.server_id {
                    Some(s) => if s.0 == server_id.0 {
                        return Some(i - 1);
                    },
                    None => {},
                }
            }
            i = i - 1;
        }
        None
    }

    /// Records the notification size of a central of a host, or loses its peer when it
    /// unsubscribes. `size` is `None` for an unsubscription.
    pub fn on_subscription(
        &mut self,
        label: &str,
        server_id: &ServerId,
        central: &PeerId,
        size: Option<usize>,
        effects: &mut Vec<DriverEffect>,
    )
        requires
            old(self).well_formed(),
        ensures
            final(self).well_formed(),
            final(self)@ == subscription_changed(old(self)@, label@, server_id@, central@, size).0,
            works(final(effects)@) == works(old(effects)@) + subscription_changed(
                old(self)@,
                label@,
                server_id@,
                central@,
                size,
            ).1,
    {
        let i = match self.find_server_endpoint(label, server_id) {
            Some(i) => i,
            None => {
                assert(works(effects@) =~= works(old(effects)@) + Seq::<Work>::empty());
                return ;
            },
        };
        let ghost v = self@;
        let ghost raw = self.endpoints@;
        let ghost e = v.endpoints[i as int].1;
        proof {
            lemma_server_endpoint(v.endpoints, label@, server_id@);
            assert(v.endpoints[i as int].1.wf());
            lemma_without(e.notification_sizes, central@);
            lemma_without(e.centrals, central@);
            lemma_put(e.notification_sizes, central@, 0);
        }
        let (key, mut endpoint) = self.endpoints.remove(i);
        assert(keys_of(e.notification_sizes) =~= id_keys(endpoint.notification_sizes@));
        assert(keys_of(e.centrals) =~= id_keys(endpoint.centrals@));
        match size {
            Some(n) => {
                match find_id(&endpoint.notification_sizes, central) {
                    Some(k) => {
                        endpoint.notification_sizes.set(k, (central.duplicate(), n));
                    },
                    None => {
                        endpoint.notification_sizes.push((central.duplicate(), n));
                    },
                }
                proof {
                    lemma_put(e.notification_sizes, central@, n);
                }
                assert(size_entries(endpoint.notification_sizes@) =~= put(e.notification_sizes, central@, n));
                let ghost entry_now = (key, endpoint);
                self.endpoints.insert(i, (key, endpoint));
                assert(self.endpoints@ =~= raw.update(i as int, entry_now));
                proof {
                    let next = v.endpoints.update(
                        i as int,
                        (v.endpoints[i as int].0, EndpointView { notification_sizes: put(e.notification_sizes, central@, n), ..e }),
                    );
                    assert(self@.endpoints =~= next);
                    assert(keys_of(next) =~= keys_of(v.endpoints));
                    assert forall|j: int| 0 <= j < next.len() implies (#[trigger] next[j]).1.wf() by {
                        if j != i {
                            assert(next[j] == v.endpoints[j]);
                        }
                    }
                }
                assert(works(effects@) =~= works(old(effects)@) + Seq::<Work>::empty());
            },
            None => {
                let ghost sizes_raw = endpoint.notification_sizes@;
                let ghost centrals_raw = endpoint.centrals@;
                assert(e.notification_sizes == size_entries(sizes_raw));
                assert(e.centrals == central_entries(centrals_raw));
                let _ = take_id(&mut endpoint.notification_sizes, central);
                proof {
                    let p = position(keys_of(e.notification_sizes), central@);
                    lemma_position(keys_of(e.notification_sizes), central@);
                    assert(id_keys(sizes_raw) == keys_of(e.notification_sizes));
                    if p >= 0 {
                        assert(size_entries(endpoint.notification_sizes@) =~= size_entries(sizes_raw).remove(p));
                    } else {
                        assert(size_entries(endpoint.notification_sizes@) =~= size_entries(sizes_raw));
                    }
                }
                let peer = take_id(&mut endpoint.centrals, central);
                proof {
                    let p = position(keys_of(e.centrals), central@);
                    lemma_position(keys_of(e.centrals), central@);
                    assert(id_keys(centrals_raw) == keys_of(e.centrals));
                    if p >= 0 {
                        assert(central_entries(endpoint.centrals@) =~= central_entries(centrals_raw).remove(p));
                    } else {
                        assert(central_entries(endpoint.centrals@) =~= central_entries(centrals_raw));
                    }
                }
                let ghost entry_now = (key, endpoint);
                self.endpoints.insert(i, (key, endpoint));
                assert(self.endpoints@ =~= raw.update(i as int, entry_now));
                proof {
                    let next = v.endpoints.update(
                        i as int,
                        (
                            v.endpoints[i as int].0,
                            EndpointView {
                                notification_sizes: without(e.notification_sizes, central@),
                                centrals: without(e.centrals, central@),
                                ..e
                            },
                        ),
                    );
                    assert(self@.endpoints =~= next);
                    assert(keys_of(next) =~= keys_of(v.endpoints));
                    assert forall|j: int| 0 <= j < next.len() implies (#[trigger] next[j]).1.wf() by {
                        if j != i {
                            assert(next[j] == v.endpoints[j]);
                        }
                    }
                    lemma_position(keys_of(e.centrals), central@);
                }
                match peer {
                    Some((_, peer_id)) => {
                        self.remove_peer(
                            &peer_id,
                            Closing {
                                reason: CloseReason::Lost,
                                send_close: false,
                                disconnect: false,
                                announce: true,
                            },
                            effects,
                        );
                    },
                    None => {
                        assert(works(effects@) =~= works(old(effects)@) + Seq::<Work>::empty());
                    },
                }
            },
        }
    }
}

/// The waiting sends without `message_id`.
pub open spec fn without_waiter(waiters: Seq<u32>, message_id: u32) -> Seq<u32>
    decreases waiters.len(),
{
    if waiters.len() == 0 {
        waiters
    } else if waiters.last() == message_id {
        without_waiter(waiters.drop_last(), message_id)
    } else {
        without_waiter(waiters.drop_last(), message_id).push(waiters.last())
    }
}

/// How a peer goes when the other side sent CLOSE: a joiner also disconnects.
pub open spec fn remote_close(link: LinkView) -> Closing {
    Closing {
        reason: CloseReason::Remote,
        send_close: false,
        disconnect: link is Central,
        announce: true,
    }
}

/// The state and work after the ready peer `peer_id` took a frame of `kind`: a
/// complete message goes to its webview and its ACK goes out, a duplicate is
/// acknowledged again, an ACK settles a send and wakes the sender loop, and CLOSE
/// removes the peer.
pub open spec fn peer_framed(
    v: StateView,
    peer_id: Seq<char>,
    kind: FrameKind,
    message_id: u32,
    bytes: Seq<u8>,
    now: u64,
) -> (StateView, Seq<Work>) {
    match entry(v.peers, peer_id) {
        None => (v, Seq::empty()),
        Some(p) => {
            let (receiver, sender, effect) = frame_step(p.receiver, p.sender, kind, message_id, bytes, now);
            let i = position(keys_of(v.peers), peer_id);
            let stepped = PeerView { receiver, sender, ..p };
            let with_peer = |q: PeerView| StateView { peers: v.peers.update(i, (peer_id, q)), ..v };
            match effect {
                EffectView::Deliver { payload, ack } => (
                    with_peer(stepped),
                    seq![
                        Work::Frame { peer_id, bytes: ack },
                        Work::Emit { label: p.label, event: PeerEventView::Message { peer_id, bytes: payload } },
                    ],
                ),
                EffectView::Reack { ack } => (with_peer(stepped), seq![Work::Frame { peer_id, bytes: ack }]),
                EffectView::Acknowledged { message_id: m } => (
                    with_peer(PeerView { waiters: without_waiter(p.waiters, m), ..stepped }),
                    if p.waiters.contains(m) {
                        seq![Work::Acknowledged { peer_id, message_id: m }, Work::Wake { peer_id }]
                    } else {
                        seq![Work::Wake { peer_id }]
                    },
                ),
                EffectView::Closed => removed(v, peer_id, remote_close(p.link)),
                EffectView::Nothing => (with_peer(stepped), Seq::empty()),
            }
        },
    }
}

fn waiter_removed(waiters: &Vec<u32>, message_id: u32) -> (result: (bool, Vec<u32>))
    ensures
        result.0 == waiters@.contains(message_id),
        result.1@ == without_waiter(waiters@, message_id),
{
    let mut kept: Vec<u32> = Vec::new();
    let mut found = false;
    let mut i: usize = 0;
    while i < waiters.len()
        invariant
            i <= waiters@.len(),
            kept@ == without_waiter(waiters@.subrange(0, i as int), message_id),
            found == waiters@.subrange(0, i as int).contains(message_id),
        decreases waiters@.len() - i,
    {
        let ghost part = waiters@.subrange(0, i + 1);
        assert(part.drop_last() =~= waiters@.subrange(0, i as int));
        if waiters[i] == message_id {
            found = true;
            assert(part[i as int] == message_id);
        } else {
            kept.push(waiters[i]);
            assert(part.contains(message_id) ==> waiters@.subrange(0, i as int).contains(message_id)) by {
                if part.contains(message_id) {
                    let k = choose|k: int| 0 <= k < part.len() && part[k] == message_id;
                    assert(k != i);
                    assert(waiters@.subrange(0, i as int)[k] == message_id);
                }
            }
        }
        if found {
            assert(part.contains(message_id)) by {
                if waiters[i as int] != message_id {
                    let k = choose|k: int| 0 <= k < i && waiters@.subrange(0, i as int)[k] == message_id;
                    assert(part[k] == message_id);
                }
            }
        }
        i = i + 1;
    }
    assert(waiters@.subrange(0, i as int) =~= waiters@);
    (found, kept)
}

impl PeerState {
    /// Applies a DATA, ACK or CLOSE frame to the ready peer `peer_id`.
    pub fn on_peer_frame(
        &mut self,
        peer_id: &PeerId,
        kind: FrameKind,
        message_id: u32,
        bytes: &[u8],
        now_ms: u64,
        effects: &mut Vec<DriverEffect>,
    )
        requires
            old(self).well_formed(),
        ensures
            final(self).well_formed(),
            final(self)@ == peer_framed(old(self)@, peer_id@, kind, message_id, bytes@, now_ms).0,
            works(final(effects)@) == works(old(effects)@) + peer_framed(
                old(self)@,
                peer_id@,
                kind,
                message_id,
                bytes@,
                now_ms,
            ).1,
    {
        proof {
            self.lemma_keys();
        }
        let i = match find_id(&self.peers, peer_id) {
            Some(i) => i,
            None => {
                assert(works(effects@) =~= works(old(effects)@) + Seq::<Work>::empty());
                return ;
            },
        };
        let ghost v = self@;
        let ghost raw = self.peers@;
        proof {
            lemma_position(keys_of(v.peers), peer_id@);
        }
        let (key, mut peer) = self.peers.remove(i);
        assert(raw[i as int].1.well_formed());
        let ghost p = peer@;
        assert(p == v.peers[i as int].1);
        let effect = on_peer_frame(kind, message_id, bytes, now_ms, &mut peer.receiver, &mut peer.sender);
        let ghost start = works(effects@);
        let mut closed = false;
        match effect {
            FrameEffect::Deliver { payload, ack } => {
                effects.push(DriverEffect::Frame { peer_id: peer_id.duplicate(), bytes: ack });
                effects.push(DriverEffect::Emit {
                    label: peer.label.clone(),
                    event: PeerEvent::Message { peer_id: peer_id.duplicate(), bytes: payload },
                });
            },
            FrameEffect::Reack { ack } => {
                effects.push(DriverEffect::Frame { peer_id: peer_id.duplicate(), bytes: ack });
            },
            FrameEffect::Acknowledged { message_id } => {
                let (found, kept) = waiter_removed(&peer.waiters, message_id);
                if found {
                    effects.push(DriverEffect::Acknowledged { peer_id: peer_id.duplicate(), message_id });
                }
                peer.waiters = kept;
                effects.push(DriverEffect::Wake { peer_id: peer_id.duplicate() });
            },
            FrameEffect::Closed => {
                closed = true;
            },
            FrameEffect::Nothing => {},
        }
        let disconnect = match &peer.link {
            Link::Central { .. } => true,
            Link::Peripheral { .. } => false,
        };
        let ghost q = peer@;
        let ghost entry_now = (key, peer);
        self.peers.insert(i, (key, peer));
        assert(self.peers@ =~= raw.update(i as int, entry_now));
        proof {
            assert(key@ == peer_id@);
            assert(self@.peers =~= v.peers.update(i as int, (peer_id@, q)));
            assert(keys_of(self@.peers) =~= keys_of(v.peers));
            assert forall|j: int| 0 <= j < self.peers@.len() implies (#[trigger] self.peers@[j]).1.well_formed() by {
                if j != i {
                    assert(self.peers@[j] == raw[j]);
                }
            }
        }
        if closed {
            proof {
                assert(kind == FrameKind::Close);
                assert(q.receiver == p.receiver && q.sender == p.sender);
                assert(q == p);
                assert(v.peers[i as int] == (peer_id@, p));
                assert(v.peers.update(i as int, (peer_id@, q)) =~= v.peers);
            }
            assert(self@ == v);
            self.remove_peer(
                peer_id,
                Closing { reason: CloseReason::Remote, send_close: false, disconnect, announce: true },
                effects,
            );
        } else {
            assert(works(effects@) =~= works(old(effects)@) + peer_framed(v, peer_id@, kind, message_id, bytes@, now_ms).1);
        }
    }
}

/// The ID `<prefix>-<n>`.
pub open spec fn numbered(prefix: Seq<char>, n: u64) -> Seq<char> {
    prefix + "-"@ + decimal(n as nat)
}

/// The counter after one ID; it wraps as an atomic counter does.
pub open spec fn bumped(n: u64) -> u64 {
    if n == u64::MAX {
        0
    } else {
        (n + 1) as u64
    }
}

/// A new peer of `label` on `endpoint_id` over `link`, with frames of `value_limit`
/// bytes and messages of at most `max_logical_payload` bytes.
pub open spec fn fresh_peer(
    label: Seq<char>,
    endpoint_id: Seq<char>,
    link: LinkView,
    value_limit: usize,
    max_logical_payload: usize,
    ready: bool,
) -> PeerView {
    PeerView {
        label,
        endpoint_id,
        link,
        max_logical_payload,
        ready,
        sender: SenderView {
            limits: SendLimits { max_logical_size: max_logical_payload, value_limit, ..SendLimits::defaults() },
            next_message_id: 1,
            queue: Seq::empty(),
            pending: None,
        },
        receiver: ReceiverView {
            limits: ReceiverLimits { max_logical_size: max_logical_payload, ..ReceiverLimits::defaults() },
            partials: Seq::empty(),
            buffered_bytes: 0,
            completed: Seq::empty(),
            complete_queue_bytes: 0,
            recent: Seq::empty(),
            recent_bytes: 0,
        },
        waiters: Seq::empty(),
    }
}

/// A new peer.
fn new_peer(
    label: &str,
    endpoint_id: &str,
    link: Link,
    value_limit: usize,
    max_logical_payload: usize,
    ready: bool,
) -> (peer: Peer)
    ensures
        peer.well_formed(),
        peer@ == fresh_peer(label@, endpoint_id@, link@, value_limit, max_logical_payload, ready),
{
    let defaults = SendLimits::default();
    let sender = Sender::new(SendLimits { max_logical_size: max_logical_payload, value_limit, ..defaults });
    let receive_defaults = ReceiverLimits::default();
    let receiver = Receiver::new(ReceiverLimits { max_logical_size: max_logical_payload, ..receive_defaults });
    let peer = Peer {
        label: label.to_owned(),
        endpoint_id: endpoint_id.to_owned(),
        link,
        max_logical_payload,
        ready,
        sender,
        receiver,
        waiters: Vec::new(),
    };
    assert(peer@.waiters =~= Seq::<u32>::empty());
    peer
}

impl PeerState {
    /// A new ID `<prefix>-<n>` from the counter shared by endpoints and peers.
    pub fn allocate(&mut self, prefix: &str) -> (id: String)
        requires
            old(self).well_formed(),
        ensures
            final(self).well_formed(),
            id@ == numbered(prefix@, old(self)@.next_id),
            final(self)@ == (StateView { next_id: bumped(old(self)@.next_id), ..old(self)@ }),
    {
        let mut id = prefix.to_owned();
        push_text(&mut id, "-");
        push_decimal(&mut id, self.next_id);
        self.next_id = self.next_id.wrapping_add(1);
        id
    }

    /// Stores `peer` under `peer_id`, in place of an earlier peer of that ID.
    fn put_peer(&mut self, peer_id: PeerId, peer: Peer)
        requires
            old(self).well_formed(),
            peer.well_formed(),
        ensures
            final(self).well_formed(),
            final(self)@ == (StateView { peers: put(old(self)@.peers, peer_id@, peer@), ..old(self)@ }),
    {
        proof {
            self.lemma_keys();
            lemma_position(keys_of(self@.peers), peer_id@);
            lemma_put(self@.peers, peer_id@, peer@);
        }
        let ghost v = self@;
        let ghost raw = self.peers@;
        let ghost entry_now = (peer_id, peer);
        match find_id(&self.peers, &peer_id) {
            Some(i) => {
                self.peers.set(i, (peer_id, peer));
                assert(self.peers@ =~= raw.update(i as int, entry_now));
                assert(self@.peers =~= put(v.peers, entry_now.0@, entry_now.1@));
                assert forall|j: int| 0 <= j < self.peers@.len() implies (#[trigger] self.peers@[j]).1.well_formed() by {
                    if j != i {
                        assert(self.peers@[j] == raw[j]);
                    }
                }
            },
            None => {
                self.peers.push((peer_id, peer));
                assert(self.peers@ =~= raw.push(entry_now));
                assert(self@.peers =~= put(v.peers, entry_now.0@, entry_now.1@));
                assert forall|j: int| 0 <= j < self.peers@.len() implies (#[trigger] self.peers@[j]).1.well_formed() by {
                    if j < raw.len() {
                        assert(self.peers@[j] == raw[j]);
                    }
                }
            },
        }
    }
}

/// The endpoints with the centrals of endpoint `i` changed to `centrals`.
pub open spec fn with_centrals(
    endpoints: Seq<(Seq<char>, EndpointView)>,
    i: int,
    centrals: Seq<(Seq<char>, Seq<char>)>,
) -> Seq<(Seq<char>, EndpointView)> {
    endpoints.update(i, (endpoints[i].0, EndpointView { centrals, ..endpoints[i].1 }))
}

impl PeerState {
    /// Makes `peer_id` the peer of `central` on endpoint `i`.
    fn put_central(&mut self, i: usize, central: &PeerId, peer_id: &PeerId)
        requires
            old(self).well_formed(),
            i < old(self)@.endpoints.len(),
        ensures
            final(self).well_formed(),
            final(self)@ == (StateView {
                endpoints: with_centrals(
                    old(self)@.endpoints,
                    i as int,
                    put(old(self)@.endpoints[i as int].1.centrals, central@, peer_id@),
                ),
                ..old(self)@
            }),
    {
        let ghost v = self@;
        let ghost raw = self.endpoints@;
        let ghost e = v.endpoints[i as int].1;
        proof {
            assert(e.wf());
            lemma_put(e.centrals, central@, peer_id@);
            lemma_position(keys_of(e.centrals), central@);
        }
        let (key, mut endpoint) = self.endpoints.remove(i);
        let ghost centrals_raw = endpoint.centrals@;
        assert(keys_of(e.centrals) =~= id_keys(centrals_raw));
        match find_id(&endpoint.centrals, central) {
            Some(k) => {
                endpoint.centrals.set(k, (central.duplicate(), peer_id.duplicate()));
            },
            None => {
                endpoint.centrals.push((central.duplicate(), peer_id.duplicate()));
            },
        }
        assert(central_entries(endpoint.centrals@) =~= put(e.centrals, central@, peer_id@));
        let ghost entry_now = (key, endpoint);
        self.endpoints.insert(i, (key, endpoint));
        assert(self.endpoints@ =~= raw.update(i as int, entry_now));
        proof {
            let next = with_centrals(v.endpoints, i as int, put(e.centrals, central@, peer_id@));
            assert(self@.endpoints =~= next);
            assert(keys_of(next) =~= keys_of(v.endpoints));
            assert forall|j: int| 0 <= j < next.len() implies (#[trigger] next[j]).1.wf() by {
                if j != i {
                    assert(next[j] == v.endpoints[j]);
                }
            }
        }
    }

    /// Takes out the peer of `central` on endpoint `i`.
    fn take_central(&mut self, i: usize, central: &PeerId) -> (previous: Option<PeerId>)
        requires
            old(self).well_formed(),
            i < old(self)@.endpoints.len(),
        ensures
            final(self).well_formed(),
            final(self)@ == (StateView {
                endpoints: with_centrals(
                    old(self)@.endpoints,
                    i as int,
                    without(old(self)@.endpoints[i as int].1.centrals, central@),
                ),
                ..old(self)@
            }),
            match previous {
                Some(p) => entry(old(self)@.endpoints[i as int].1.centrals, central@) == Some(p@),
                None => entry(old(self)@.endpoints[i as int].1.centrals, central@) is None,
            },
    {
        let ghost v = self@;
        let ghost raw = self.endpoints@;
        let ghost e = v.endpoints[i as int].1;
        proof {
            assert(e.wf());
            lemma_without(e.centrals, central@);
            lemma_position(keys_of(e.centrals), central@);
        }
        let (key, mut endpoint) = self.endpoints.remove(i);
        let ghost centrals_raw = endpoint.centrals@;
        assert(keys_of(e.centrals) =~= id_keys(centrals_raw));
        let taken = take_id(&mut endpoint.centrals, central);
        proof {
            let p = position(keys_of(e.centrals), central@);
            if p >= 0 {
                assert(central_entries(endpoint.centrals@) =~= central_entries(centrals_raw).remove(p));
            } else {
                assert(central_entries(endpoint.centrals@) =~= central_entries(centrals_raw));
            }
        }
        let ghost entry_now = (key, endpoint);
        self.endpoints.insert(i, (key, endpoint));
        assert(self.endpoints@ =~= raw.update(i as int, entry_now));
        proof {
            let next = with_centrals(v.endpoints, i as int, without(e.centrals, central@));
            assert(self@.endpoints =~= next);
            assert(keys_of(next) =~= keys_of(v.endpoints));
            assert forall|j: int| 0 <= j < next.len() implies (#[trigger] next[j]).1.wf() by {
                if j != i {
                    assert(next[j] == v.endpoints[j]);
                }
            }
        }
        match taken {
            Some((_, peer_id)) => Some(peer_id),
            None => None,
        }
    }
}

/// Removing a peer changes no endpoint key, and at most the centrals of one endpoint.
pub proof fn lemma_removed_endpoints(v: StateView, peer_id: Seq<char>, close: Closing)
    ensures
        removed(v, peer_id, close).0.endpoints.len() == v.endpoints.len(),
        forall|j: int| 0 <= j < v.endpoints.len() ==> (#[trigger] removed(v, peer_id, close).0.endpoints[j]).0
            == v.endpoints[j].0,
        forall|j: int| 0 <= j < v.endpoints.len() ==> {
            &&& (#[trigger] removed(v, peer_id, close).0.endpoints[j]).1.label == v.endpoints[j].1.label
            &&& removed(v, peer_id, close).0.endpoints[j].1.max_logical_payload
                == v.endpoints[j].1.max_logical_payload
            &&& removed(v, peer_id, close).0.endpoints[j].1.server_id == v.endpoints[j].1.server_id
        },
{
    match entry(v.peers, peer_id) {
        None => {},
        Some(p) => {
            match p.link {
                LinkView::Peripheral { central, .. } => {
                    lemma_position(keys_of(v.endpoints), p.endpoint_id);
                },
                _ => {},
            }
        },
    }
}

/// The state and work after the central `central` of endpoint `i` sent HELLO: a peer
/// it had before is lost, and a new ready peer answers with `HELLO_ACK`.
pub open spec fn host_hello(
    v: StateView,
    i: int,
    label: Seq<char>,
    server_id: Seq<char>,
    central: Seq<char>,
) -> (StateView, Seq<Work>) {
    let (endpoint_id, e) = v.endpoints[i];
    let value_limit = match entry(e.notification_sizes, central) {
        Some(n) => n,
        None => DEFAULT_VALUE_LIMIT as usize,
    };
    let v1 = StateView { endpoints: with_centrals(v.endpoints, i, without(e.centrals, central)), ..v };
    let (v2, w2) = match entry(e.centrals, central) {
        Some(previous) => removed(v1, previous, lost()),
        None => (v1, Seq::empty()),
    };
    let peer_id = numbered("peer"@, v2.next_id);
    let link = LinkView::Peripheral { server_id, central };
    (
        StateView {
            next_id: bumped(v2.next_id),
            endpoints: with_centrals(v2.endpoints, i, put(v2.endpoints[i].1.centrals, central, peer_id)),
            peers: put(
                v2.peers,
                peer_id,
                fresh_peer(label, endpoint_id, link, value_limit, e.max_logical_payload, true),
            ),
        },
        w2 + seq![
            Work::Start { peer_id, label, link },
            Work::Frame { peer_id, bytes: control_model(FrameKind::HelloAck).bytes() },
            Work::Emit { label, event: PeerEventView::Ready { endpoint_id, peer_id, dialed: false } },
        ],
    )
}

/// The state and work after the central `central` wrote `bytes` to RX of the server
/// `server_id` of `label`: HELLO makes a new peer, other frames go to its peer, and
/// what does not decode is dropped.
pub open spec fn host_framed(
    v: StateView,
    label: Seq<char>,
    server_id: Seq<char>,
    central: Seq<char>,
    bytes: Seq<u8>,
    now: u64,
) -> (StateView, Seq<Work>) {
    let i = server_endpoint(v.endpoints, label, server_id);
    if i < 0 {
        (v, Seq::empty())
    } else {
        let e = v.endpoints[i].1;
        match decode_model(bytes, e.max_logical_payload as int) {
            Err(_) => (v, Seq::empty()),
            Ok(frame) => if frame.kind != FrameKind::Hello {
                match entry(e.centrals, central) {
                    Some(peer_id) => peer_framed(v, peer_id, frame.kind, frame.message_id, bytes, now),
                    None => (v, Seq::empty()),
                }
            } else {
                host_hello(v, i, label, server_id, central)
            },
        }
    }
}

impl PeerState {
    /// Handles a frame that a central wrote to RX of a host endpoint.
    pub fn on_host_frame(
        &mut self,
        label: &str,
        server_id: &ServerId,
        central: &PeerId,
        bytes: &[u8],
        now_ms: u64,
        effects: &mut Vec<DriverEffect>,
    )
        requires
            old(self).well_formed(),
        ensures
            final(self).well_formed(),
            final(self)@ == host_framed(old(self)@, label@, server_id@, central@, bytes@, now_ms).0,
            works(final(effects)@) == works(old(effects)@) + host_framed(
                old(self)@,
                label@,
                server_id@,
                central@,
                bytes@,
                now_ms,
            ).1,
    {
        let i = match self.find_server_endpoint(label, server_id) {
            Some(i) => i,
            None => {
                assert(works(effects@) =~= works(old(effects)@) + Seq::<Work>::empty());
                return ;
            },
        };
        let ghost v = self@;
        proof {
            lemma_server_endpoint(v.endpoints, label@, server_id@);
        }
        let ghost e = v.endpoints[i as int].1;
        let max = self.endpoints[i].1.max_logical_payload;
        let frame = match Frame::decode(bytes, max) {
            Ok(f) => f,
            Err(_) => {
                assert(works(effects@) =~= works(old(effects)@) + Seq::<Work>::empty());
                return ;
            },
        };
        assert(keys_of(e.centrals) =~= id_keys(self.endpoints@[i as int].1.centrals@));
        assert(keys_of(e.notification_sizes) =~= id_keys(self.endpoints@[i as int].1.notification_sizes@));
        if frame.kind != FrameKind::Hello {
            match find_id(&self.endpoints[i].1.centrals, central) {
                Some(c) => {
                    let peer_id = self.endpoints[i].1.centrals[c].1.duplicate();
                    proof {
                        lemma_position(keys_of(e.centrals), central@);
                    }
                    self.on_peer_frame(&peer_id, frame.kind, frame.message_id, bytes, now_ms, effects);
                },
                None => {
                    assert(works(effects@) =~= works(old(effects)@) + Seq::<Work>::empty());
                },
            }
            return ;
        }
        let value_limit = match find_id(&self.endpoints[i].1.notification_sizes, central) {
            Some(k) => self.endpoints[i].1.notification_sizes[k].1,
            None => frame_size(None),
        };
        proof {
            lemma_position(keys_of(e.notification_sizes), central@);
        }
        assert(value_limit == match entry(e.notification_sizes, central@) {
            Some(n) => n,
            None => DEFAULT_VALUE_LIMIT as usize,
        });
        let endpoint_id = self.endpoints[i].0.clone();
        assert(endpoint_id@ == v.endpoints[i as int].0);
        let previous = self.take_central(i, central);
        let ghost v1 = self@;
        match previous {
            Some(prev) => {
                proof {
                    lemma_removed_endpoints(v1, prev@, lost());
                }
                self.remove_peer(
                    &prev,
                    Closing { reason: CloseReason::Lost, send_close: false, disconnect: false, announce: true },
                    effects,
                );
            },
            None => {},
        }
        let ghost v2 = self@;
        let ghost w2 = works(effects@);
        let peer_id = PeerId::from_string(self.allocate("peer"));
        let link = Link::Peripheral { server_id: server_id.duplicate(), central: central.duplicate() };
        let peer = new_peer(label, endpoint_id.as_str(), link.duplicate(), value_limit, max, true);
        self.put_peer(peer_id.duplicate(), peer);
        effects.push(DriverEffect::Start { peer_id: peer_id.duplicate(), label: label.to_owned(), link });
        effects.push(DriverEffect::Frame { peer_id: peer_id.duplicate(), bytes: control_frame(FrameKind::HelloAck) });
        self.put_central(i, central, &peer_id);
        effects.push(DriverEffect::Emit {
            label: label.to_owned(),
            event: PeerEvent::Ready { endpoint_id, peer_id: peer_id.duplicate(), dialed: false },
        });
        proof {
            let spec_v1 = StateView { endpoints: with_centrals(v.endpoints, i as int, without(e.centrals, central@)), ..v };
            assert(v1 == spec_v1);
            let (sv2, sw2) = match entry(e.centrals, central@) {
                Some(p) => removed(spec_v1, p, lost()),
                None => (spec_v1, Seq::empty()),
            };
            assert(v2 == sv2);
            assert(peer_id@ == numbered("peer"@, v2.next_id));
            assert(self@.next_id == bumped(v2.next_id));
            assert(self@.peers == put(
                v2.peers,
                peer_id@,
                fresh_peer(label@, v.endpoints[i as int].0, LinkView::Peripheral { server_id: server_id@, central: central@ }, value_limit, e.max_logical_payload, true),
            ));
            assert(self@.endpoints == with_centrals(v2.endpoints, i as int, put(v2.endpoints[i as int].1.centrals, central@, peer_id@)));
            assert(works(effects@) =~= w2 + seq![
                Work::Start { peer_id: peer_id@, label: label@, link: LinkView::Peripheral { server_id: server_id@, central: central@ } },
                Work::Frame { peer_id: peer_id@, bytes: control_model(FrameKind::HelloAck).bytes() },
                Work::Emit {
                    label: label@,
                    event: PeerEventView::Ready { endpoint_id: v.endpoints[i as int].0, peer_id: peer_id@, dialed: false },
                },
            ]);
        }
    }
}

/// Whether `link` is the joiner link with the TX subscription `subscription_id`.
pub open spec fn subscribed_by(link: LinkView, subscription_id: Seq<char>) -> bool {
    link matches LinkView::Central { subscription_id: s, .. } && s == subscription_id
}

/// The index of the joiner peer of `label` whose TX subscription is `subscription_id`,
/// or -1.
pub open spec fn joiner_peer(peers: Seq<(Seq<char>, PeerView)>, label: Seq<char>, subscription_id: Seq<char>) -> int
    decreases peers.len(),
{
    if peers.len() == 0 {
        -1
    } else if peers.last().1.label == label && subscribed_by(peers.last().1.link, subscription_id) {
        peers.len() - 1
    } else {
        joiner_peer(peers.drop_last(), label, subscription_id)
    }
}

pub proof fn lemma_joiner_peer(peers: Seq<(Seq<char>, PeerView)>, label: Seq<char>, subscription_id: Seq<char>)
    ensures
        -1 <= joiner_peer(peers, label, subscription_id) < peers.len(),
        joiner_peer(peers, label, subscription_id) >= 0 ==> ({
            let p = peers[joiner_peer(peers, label, subscription_id)].1;
            p.label == label && subscribed_by(p.link, subscription_id)
        }),
    decreases peers.len(),
{
    if peers.len() > 0 {
        lemma_joiner_peer(peers.drop_last(), label, subscription_id);
    }
}

/// The state and work after a notification of TX reached the joiner with the
/// subscription `subscription_id`: `HELLO_ACK` makes the peer ready, and once ready
/// other frames go to it.
pub open spec fn joiner_framed(
    v: StateView,
    label: Seq<char>,
    subscription_id: Seq<char>,
    bytes: Seq<u8>,
    now: u64,
) -> (StateView, Seq<Work>) {
    let i = joiner_peer(v.peers, label, subscription_id);
    if i < 0 {
        (v, Seq::empty())
    } else {
        let (peer_id, p) = v.peers[i];
        match decode_model(bytes, p.max_logical_payload as int) {
            Err(_) => (v, Seq::empty()),
            Ok(frame) => match frame.kind {
                FrameKind::HelloAck => if !p.ready {
                    (
                        StateView { peers: v.peers.update(i, (peer_id, PeerView { ready: true, ..p })), ..v },
                        seq![
                            Work::HelloAcked { peer_id },
                            Work::Wake { peer_id },
                            Work::Emit {
                                label: p.label,
                                event: PeerEventView::Ready { endpoint_id: p.endpoint_id, peer_id, dialed: true },
                            },
                        ],
                    )
                } else {
                    (v, Seq::empty())
                },
                FrameKind::Hello => (v, Seq::empty()),
                _ => if p.ready {
                    peer_framed(v, peer_id, frame.kind, frame.message_id, bytes, now)
                } else {
                    (v, Seq::empty())
                },
            },
        }
    }
}

impl PeerState {
    fn find_joiner(&self, label: &str, subscription_id: &SubscriptionId) -> (index: Option<usize>)
        ensures
            match index {
                Some(i) => i as int == joiner_peer(self@.peers, label@, subscription_id@),
                None => joiner_peer(self@.peers, label@, subscription_id@) == -1,
            },
    {
        let ghost all = self@.peers;
        let mut i = self.peers.len();
        assert(all.subrange(0, i as int) =~= all);
        while i > 0
            invariant
                all == self@.peers,
                i <= self.peers@.len(),
                joiner_peer(all, label@, subscription_id@) == joiner_peer(all.subrange(0, i as int), label@, subscription_id@),
            decreases i,
        {
            let ghost part = all.subrange(0, i as int);
            assert(part.drop_last() =~= all.subrange(0, i - 1));
            let peer = &self.peers[i - 1].1;
            assert(part.last().1 == peer@);
            if crate::text::text_is(peer.label.as_str(), label) {
                match &peer.link {
                    Link::Central { subscription_id: s, .. } => if s.0 == subscription_id.0 {
                        return Some(i - 1);
                    },
                    Link::Peripheral { .. } => {},
                }
            }
            i = i - 1;
        }
        None
    }

    /// Handles a notification of TX that reached a joiner.
    pub fn on_joiner_frame(
        &mut self,
        label: &str,
        subscription_id: &SubscriptionId,
        bytes: &[u8],
        now_ms: u64,
        effects: &mut Vec<DriverEffect>,
    )
        requires
            old(self).well_formed(),
        ensures
            final(self).well_formed(),
            final(self)@ == joiner_framed(old(self)@, label@, subscription_id@, bytes@, now_ms).0,
            works(final(effects)@) == works(old(effects)@) + joiner_framed(
                old(self)@,
                label@,
                subscription_id@,
                bytes@,
                now_ms,
            ).1,
    {
        let i = match self.find_joiner(label, subscription_id) {
            Some(i) => i,
            None => {
                assert(works(effects@) =~= works(old(effects)@) + Seq::<Work>::empty());
                return ;
            },
        };
        let ghost v = self@;
        let ghost raw = self.peers@;
        proof {
            lemma_joiner_peer(v.peers, label@, subscription_id@);
            self.lemma_keys();
            lemma_position_distinct(keys_of(v.peers), v.peers[i as int].0, i as int);
        }
        let frame = match Frame::decode(bytes, self.peers[i].1.max_logical_payload) {
            Ok(f) => f,
            Err(_) => {
                assert(works(effects@) =~= works(old(effects)@) + Seq::<Work>::empty());
                return ;
            },
        };
        let peer_id = self.peers[i].0.duplicate();
        match frame.kind {
            FrameKind::HelloAck => {
                if self.peers[i].1.ready {
                    assert(works(effects@) =~= works(old(effects)@) + Seq::<Work>::empty());
                    return ;
                }
                let (key, mut peer) = self.peers.remove(i);
                assert(raw[i as int].1.well_formed());
                peer.ready = true;
                let label_text = peer.label.clone();
                let endpoint_id = peer.endpoint_id.clone();
                let ghost q = peer@;
                let ghost entry_now = (key, peer);
                self.peers.insert(i, (key, peer));
                assert(self.peers@ =~= raw.update(i as int, entry_now));
                proof {
                    assert(self@.peers =~= v.peers.update(i as int, (peer_id@, q)));
                    assert(keys_of(self@.peers) =~= keys_of(v.peers));
                    assert forall|j: int| 0 <= j < self.peers@.len() implies (#[trigger] self.peers@[j]).1.well_formed() by {
                        if j != i {
                            assert(self.peers@[j] == raw[j]);
                        }
                    }
                }
                effects.push(DriverEffect::HelloAcked { peer_id: peer_id.duplicate() });
                effects.push(DriverEffect::Wake { peer_id: peer_id.duplicate() });
                effects.push(DriverEffect::Emit {
                    label: label_text,
                    event: PeerEvent::Ready { endpoint_id, peer_id: peer_id.duplicate(), dialed: true },
                });
                assert(works(effects@) =~= works(old(effects)@) + joiner_framed(v, label@, subscription_id@, bytes@, now_ms).1);
            },
            FrameKind::Hello => {
                assert(works(effects@) =~= works(old(effects)@) + Seq::<Work>::empty());
            },
            _ => {
                if self.peers[i].1.ready {
                    self.on_peer_frame(&peer_id, frame.kind, frame.message_id, bytes, now_ms, effects);
                } else {
                    assert(works(effects@) =~= works(old(effects)@) + Seq::<Work>::empty());
                }
            },
        }
    }
}

/// The peers and closes of a removal, in order.
pub open spec fn removed_all(v: StateView, doomed: Seq<(Seq<char>, Closing)>) -> (StateView, Seq<Work>)
    decreases doomed.len(),
{
    if doomed.len() == 0 {
        (v, Seq::empty())
    } else {
        let (v1, w1) = removed_all(v, doomed.drop_last());
        let (v2, w2) = removed(v1, doomed.last().0, doomed.last().1);
        (v2, w1 + w2)
    }
}

/// A lost link: a connection that closed, or a resource whose state was lost.
pub enum LinkLoss {
    Connection(ConnectionId),
    Resource(String),
}

/// Which peers a removal takes.
pub enum Selection {
    /// The peers of `label` over a lost link.
    Lost { label: String, loss: LinkLoss },
    /// Every peer of `label`.
    Forgotten { label: String },
    /// Every peer of an endpoint.
    OfEndpoint { endpoint_id: String },
}

/// A lost link, by text.
pub enum LossView {
    Connection(Seq<char>),
    Resource(Seq<char>),
}

impl View for LinkLoss {
    type V = LossView;

    open spec fn view(&self) -> LossView {
        match self {
            LinkLoss::Connection(c) => LossView::Connection(c@),
            LinkLoss::Resource(r) => LossView::Resource(r@),
        }
    }
}

/// A selection, by text.
pub enum SelectionView {
    Lost { label: Seq<char>, loss: LossView },
    Forgotten { label: Seq<char> },
    OfEndpoint { endpoint_id: Seq<char> },
}

impl View for Selection {
    type V = SelectionView;

    open spec fn view(&self) -> SelectionView {
        match self {
            Selection::Lost { label, loss } => SelectionView::Lost { label: label@, loss: loss@ },
            Selection::Forgotten { label } => SelectionView::Forgotten { label: label@ },
            Selection::OfEndpoint { endpoint_id } => SelectionView::OfEndpoint { endpoint_id: endpoint_id@ },
        }
    }
}

/// Whether a link went with `loss`.
pub open spec fn link_lost(link: LinkView, loss: LossView) -> bool {
    match loss {
        LossView::Connection(c) => link matches LinkView::Central { connection_id, .. } && connection_id == c,
        LossView::Resource(r) => match link {
            LinkView::Central { connection_id, .. } => connection_id == r,
            LinkView::Peripheral { server_id, .. } => server_id == r,
        },
    }
}

/// Whether `selection` takes the peer `p`.
pub open spec fn selects(selection: SelectionView, p: PeerView) -> bool {
    match selection {
        SelectionView::Lost { label, loss } => p.label == label && link_lost(p.link, loss),
        SelectionView::Forgotten { label } => p.label == label,
        SelectionView::OfEndpoint { endpoint_id } => p.endpoint_id == endpoint_id,
    }
}

/// How a peer goes when its webview is gone: silently.
pub open spec fn forgotten() -> Closing {
    Closing { reason: CloseReason::Lost, send_close: false, disconnect: false, announce: false }
}

/// How a selected peer goes: a lost link is announced; a forgotten webview hears
/// nothing; a closed endpoint sends CLOSE on its ready peers, and its joiners
/// disconnect.
pub open spec fn closing_for(selection: SelectionView, p: PeerView) -> Closing {
    match selection {
        SelectionView::Lost { .. } => lost(),
        SelectionView::Forgotten { .. } => forgotten(),
        SelectionView::OfEndpoint { .. } => Closing {
            reason: CloseReason::Local,
            send_close: p.ready,
            disconnect: p.link is Central,
            announce: true,
        },
    }
}

/// The peers that `selection` takes, in order, each with how it goes.
pub open spec fn doomed(peers: Seq<(Seq<char>, PeerView)>, selection: SelectionView) -> Seq<(Seq<char>, Closing)>
    decreases peers.len(),
{
    if peers.len() == 0 {
        Seq::empty()
    } else if selects(selection, peers.last().1) {
        doomed(peers.drop_last(), selection).push((peers.last().0, closing_for(selection, peers.last().1)))
    } else {
        doomed(peers.drop_last(), selection)
    }
}

/// The pairs of IDs and closes, by text.
pub open spec fn doomed_view(items: Seq<(PeerId, Closing)>) -> Seq<(Seq<char>, Closing)> {
    items.map_values(|e: (PeerId, Closing)| (e.0@, e.1))
}

impl PeerState {
    fn select(&self, selection: &Selection) -> (items: Vec<(PeerId, Closing)>)
        ensures
            doomed_view(items@) == doomed(self@.peers, selection@),
    {
        let ghost all = self@.peers;
        let mut items: Vec<(PeerId, Closing)> = Vec::new();
        let mut i: usize = 0;
        assert(doomed_view(items@) =~= doomed(all.subrange(0, 0), selection@));
        while i < self.peers.len()
            invariant
                all == self@.peers,
                i <= self.peers@.len(),
                doomed_view(items@) == doomed(all.subrange(0, i as int), selection@),
            decreases self.peers@.len() - i,
        {
            let ghost part = all.subrange(0, i + 1);
            assert(part.drop_last() =~= all.subrange(0, i as int));
            let peer = &self.peers[i].1;
            assert(part.last().1 == peer@);
            let chosen = match selection {
                Selection::Lost { label, loss } => crate::text::text_is(peer.label.as_str(), label.as_str())
                    && match loss {
                    LinkLoss::Connection(c) => match &peer.link {
                        Link::Central { connection_id, .. } => connection_id.0 == c.0,
                        Link::Peripheral { .. } => false,
                    },
                    LinkLoss::Resource(r) => match &peer.link {
                        Link::Central { connection_id, .. } => crate::text::text_is(connection_id.0.as_str(), r.as_str()),
                        Link::Peripheral { server_id, .. } => crate::text::text_is(server_id.0.as_str(), r.as_str()),
                    },
                },
                Selection::Forgotten { label } => crate::text::text_is(peer.label.as_str(), label.as_str()),
                Selection::OfEndpoint { endpoint_id } => crate::text::text_is(peer.endpoint_id.as_str(), endpoint_id.as_str()),
            };
            if chosen {
                let closing = match selection {
                    Selection::Lost { .. } => Closing {
                        reason: CloseReason::Lost,
                        send_close: false,
                        disconnect: false,
                        announce: true,
                    },
                    Selection::Forgotten { .. } => Closing {
                        reason: CloseReason::Lost,
                        send_close: false,
                        disconnect: false,
                        announce: false,
                    },
                    Selection::OfEndpoint { .. } => Closing {
                        reason: CloseReason::Local,
                        send_close: peer.ready,
                        disconnect: match &peer.link {
                            Link::Central { .. } => true,
                            Link::Peripheral { .. } => false,
                        },
                        announce: true,
                    },
                };
                let ghost before = doomed_view(items@);
                items.push((self.peers[i].0.duplicate(), closing));
                assert(doomed_view(items@) =~= before.push((part.last().0, closing)));
            }
            i = i + 1;
        }
        assert(all.subrange(0, i as int) =~= all);
        items
    }

    /// Removes each of `items`, in order.
    fn remove_all(&mut self, items: &Vec<(PeerId, Closing)>, effects: &mut Vec<DriverEffect>)
        requires
            old(self).well_formed(),
        ensures
            final(self).well_formed(),
            final(self)@ == removed_all(old(self)@, doomed_view(items@)).0,
            works(final(effects)@) == works(old(effects)@) + removed_all(old(self)@, doomed_view(items@)).1,
    {
        let ghost v = self@;
        let ghost start = works(effects@);
        let ghost all = doomed_view(items@);
        let mut k: usize = 0;
        assert(all.subrange(0, 0) =~= Seq::<(Seq<char>, Closing)>::empty());
        assert(works(effects@) =~= start + Seq::<Work>::empty());
        while k < items.len()
            invariant
                self.well_formed(),
                all == doomed_view(items@),
                k <= items@.len(),
                self@ == removed_all(v, all.subrange(0, k as int)).0,
                works(effects@) == start + removed_all(v, all.subrange(0, k as int)).1,
            decreases items@.len() - k,
        {
            let ghost part = all.subrange(0, k + 1);
            assert(part.drop_last() =~= all.subrange(0, k as int));
            assert(part.last() == (items@[k as int].0@, items@[k as int].1));
            let ghost before = works(effects@);
            self.remove_peer(&items[k].0, items[k].1, effects);
            assert(works(effects@) =~= start + removed_all(v, part).1);
            k = k + 1;
        }
        assert(all.subrange(0, k as int) =~= all);
    }

    /// Loses the peers of `label` whose link went with `loss`.
    pub fn lose_peers(&mut self, label: &str, loss: LinkLoss, effects: &mut Vec<DriverEffect>)
        requires
            old(self).well_formed(),
        ensures
            final(self).well_formed(),
            final(self)@ == removed_all(
                old(self)@,
                doomed(old(self)@.peers, SelectionView::Lost { label: label@, loss: loss@ }),
            ).0,
            works(final(effects)@) == works(old(effects)@) + removed_all(
                old(self)@,
                doomed(old(self)@.peers, SelectionView::Lost { label: label@, loss: loss@ }),
            ).1,
    {
        let selection = Selection::Lost { label: label.to_owned(), loss };
        let items = self.select(&selection);
        self.remove_all(&items, effects);
    }

    /// Forgets every endpoint and peer of a webview that reloaded or closed, emitting
    /// nothing: the page that owned them is gone.
    pub fn forget_label(&mut self, label: &str, effects: &mut Vec<DriverEffect>)
        requires
            old(self).well_formed(),
        ensures
            final(self).well_formed(),
            ({
                let (v, w) = removed_all(old(self)@, doomed(old(self)@.peers, SelectionView::Forgotten { label: label@ }));
                &&& final(self)@ == (StateView { endpoints: endpoints_not_of(v.endpoints, label@), ..v })
                &&& works(final(effects)@) == works(old(effects)@) + w
            }),
    {
        let selection = Selection::Forgotten { label: label.to_owned() };
        let items = self.select(&selection);
        self.remove_all(&items, effects);
        self.drop_endpoints_of(label);
    }
}

/// The endpoints of labels other than `label`, in order.
pub open spec fn endpoints_not_of(endpoints: Seq<(Seq<char>, EndpointView)>, label: Seq<char>) -> Seq<
    (Seq<char>, EndpointView),
>
    decreases endpoints.len(),
{
    if endpoints.len() == 0 {
        endpoints
    } else if endpoints.last().1.label == label {
        endpoints_not_of(endpoints.drop_last(), label)
    } else {
        endpoints_not_of(endpoints.drop_last(), label).push(endpoints.last())
    }
}

pub proof fn lemma_endpoints_not_of(endpoints: Seq<(Seq<char>, EndpointView)>, label: Seq<char>)
    requires
        distinct(keys_of(endpoints)),
    ensures
        distinct(keys_of(endpoints_not_of(endpoints, label))),
        forall|x: (Seq<char>, EndpointView)| endpoints_not_of(endpoints, label).contains(x) ==> endpoints.contains(x),
    decreases endpoints.len(),
{
    if endpoints.len() > 0 {
        let rest = endpoints.drop_last();
        assert(keys_of(rest) =~= keys_of(endpoints).drop_last());
        lemma_endpoints_not_of(rest, label);
        let kept = endpoints_not_of(rest, label);
        assert forall|x: (Seq<char>, EndpointView)| endpoints_not_of(endpoints, label).contains(x) implies endpoints.contains(x) by {
            if kept.contains(x) {
                assert(rest.contains(x));
                let k = choose|k: int| 0 <= k < rest.len() && rest[k] == x;
                assert(endpoints[k] == x);
            } else {
                assert(x == endpoints.last());
                assert(endpoints[endpoints.len() - 1] == x);
            }
        }
        if endpoints.last().1.label != label {
            let next = kept.push(endpoints.last());
            assert forall|i: int, j: int| 0 <= i < next.len() && 0 <= j < next.len() && i != j implies keys_of(next)[i] != keys_of(next)[j] by {
                if i < kept.len() && j < kept.len() {
                    assert(keys_of(kept)[i] != keys_of(kept)[j]);
                } else if i < kept.len() {
                    assert(kept.contains(kept[i]));
                    assert(rest.contains(kept[i]));
                    let k = choose|k: int| 0 <= k < rest.len() && rest[k] == kept[i];
                    assert(keys_of(endpoints)[k] != keys_of(endpoints)[endpoints.len() - 1]);
                } else if j < kept.len() {
                    assert(kept.contains(kept[j]));
                    assert(rest.contains(kept[j]));
                    let k = choose|k: int| 0 <= k < rest.len() && rest[k] == kept[j];
                    assert(keys_of(endpoints)[k] != keys_of(endpoints)[endpoints.len() - 1]);
                }
            }
        }
    }
}

impl PeerState {
    /// Drops the endpoints of `label`, keeping the others in order.
    fn drop_endpoints_of(&mut self, label: &str)
        requires
            old(self).well_formed(),
        ensures
            final(self).well_formed(),
            final(self)@ == (StateView { endpoints: endpoints_not_of(old(self)@.endpoints, label@), ..old(self)@ }),
    {
        let ghost all = self@.endpoints;
        proof {
            lemma_endpoints_not_of(all, label@);
        }
        let mut rest: Vec<(String, Endpoint)> = Vec::new();
        std::mem::swap(&mut rest, &mut self.endpoints);
        let mut kept: Vec<(String, Endpoint)> = Vec::new();
        let ghost mut done: int = 0;
        assert(all.subrange(0, 0) =~= Seq::<(Seq<char>, EndpointView)>::empty());
        assert(endpoint_entries(kept@) =~= Seq::<(Seq<char>, EndpointView)>::empty());
        while rest.len() > 0
            invariant
                0 <= done <= all.len(),
                done + rest@.len() == all.len(),
                endpoint_entries(rest@) == all.subrange(done, all.len() as int),
                endpoint_entries(kept@) == endpoints_not_of(all.subrange(0, done), label@),
            decreases rest@.len(),
        {
            let ghost prefix = all.subrange(0, done + 1);
            assert(prefix.drop_last() =~= all.subrange(0, done));
            let ghost rest_view = endpoint_entries(rest@);
            assert(rest_view[0] == all[done]);
            let ghost old_rest = rest@;
            let entry = rest.remove(0);
            assert(prefix.last() == (entry.0@, entry.1@));
            if !crate::text::text_is(entry.1.label.as_str(), label) {
                let ghost before = endpoint_entries(kept@);
                let ghost entry_view = (entry.0@, entry.1@);
                kept.push(entry);
                assert(endpoint_entries(kept@) =~= before.push(entry_view));
            }
            proof {
                done = done + 1;
                assert forall|j: int| 0 <= j < rest@.len() implies endpoint_entries(rest@)[j] == all[done + j] by {
                    assert(rest@[j] == old_rest[j + 1]);
                    assert(rest_view[j + 1] == all[done + j]);
                }
            }
            assert(endpoint_entries(rest@) =~= all.subrange(done, all.len() as int));
        }
        assert(all.subrange(0, done) =~= all);
        self.endpoints = kept;
        proof {
            let next = endpoints_not_of(all, label@);
            assert forall|i: int| 0 <= i < next.len() implies (#[trigger] next[i]).1.wf() by {
                assert(next.contains(next[i]));
                assert(all.contains(next[i]));
                let k = choose|k: int| 0 <= k < all.len() && all[k] == next[i];
                assert(all[k].1.wf());
            }
        }
    }
}

/// The frame size for a reported value length.
pub open spec fn frame_size_of(reported: Option<u32>) -> usize {
    match reported {
        Some(length) => if length < ATTRIBUTE_VALUE_MAX {
            length as usize
        } else {
            ATTRIBUTE_VALUE_MAX as usize
        },
        None => DEFAULT_VALUE_LIMIT as usize,
    }
}

/// The state and work after a backend event for `owner`. Only events of a peer
/// driver owner count: TX subscriptions, RX writes to a host, TX notifications to a
/// joiner, and lost links.
pub open spec fn event_handled(v: StateView, owner: Seq<char>, event: Event, now: u64) -> (StateView, Seq<Work>) {
    match stripped(owner, PEER_OWNER_PREFIX@) {
        None => (v, Seq::empty()),
        Some(label) => match event {
            Event::SubscriptionChanged { server_id, peer_id, characteristic_key, subscribed, max_value_length } => {
                if characteristic_key@ == TX_KEY@ {
                    subscription_changed(
                        v,
                        label,
                        server_id@,
                        peer_id@,
                        if subscribed {
                            Some(frame_size_of(max_value_length))
                        } else {
                            None
                        },
                    )
                } else {
                    (v, Seq::empty())
                }
            },
            Event::ServerWrite { server_id, peer_id, characteristic_key, value_base64 } => match peer_id {
                Some(central) => if characteristic_key@ == RX_KEY@ {
                    match standard_base64_decoded(value_base64@) {
                        Some(bytes) => host_framed(v, label, server_id@, central@, bytes, now),
                        None => (v, Seq::empty()),
                    }
                } else {
                    (v, Seq::empty())
                },
                None => (v, Seq::empty()),
            },
            Event::CharacteristicValue { subscription_id, value_base64 } => match standard_base64_decoded(
                value_base64@,
            ) {
                Some(bytes) => joiner_framed(v, label, subscription_id@, bytes, now),
                None => (v, Seq::empty()),
            },
            Event::ConnectionClosed { connection_id } => removed_all(
                v,
                doomed(v.peers, SelectionView::Lost { label, loss: LossView::Connection(connection_id@) }),
            ),
            Event::CriticalStateLoss { resource_id, .. } => removed_all(
                v,
                doomed(v.peers, SelectionView::Lost { label, loss: LossView::Resource(resource_id@) }),
            ),
            _ => (v, Seq::empty()),
        },
    }
}

impl PeerState {
    /// Applies one backend event of a peer driver owner at `now_ms`.
    pub fn handle_event(&mut self, owner: &OwnerId, event: Event, now_ms: u64, effects: &mut Vec<DriverEffect>)
        requires
            old(self).well_formed(),
        ensures
            final(self).well_formed(),
            final(self)@ == event_handled(old(self)@, owner@, event, now_ms).0,
            works(final(effects)@) == works(old(effects)@) + event_handled(old(self)@, owner@, event, now_ms).1,
    {
        let label = match peer_label(owner) {
            Some(label) => label,
            None => {
                assert(works(effects@) =~= works(old(effects)@) + Seq::<Work>::empty());
                return ;
            },
        };
        match event {
            Event::SubscriptionChanged { server_id, peer_id, characteristic_key, subscribed, max_value_length } => {
                if crate::text::text_is(characteristic_key.as_str(), TX_KEY) {
                    let size = if subscribed {
                        Some(frame_size(max_value_length))
                    } else {
                        None
                    };
                    self.on_subscription(label, &server_id, &peer_id, size, effects);
                } else {
                    assert(works(effects@) =~= works(old(effects)@) + Seq::<Work>::empty());
                }
            },
            Event::ServerWrite { server_id, peer_id, characteristic_key, value_base64 } => {
                match peer_id {
                    Some(central) => {
                        if crate::text::text_is(characteristic_key.as_str(), RX_KEY) {
                            match decode_base64(value_base64.as_str()) {
                                Some(bytes) => {
                                    self.on_host_frame(label, &server_id, &central, &bytes, now_ms, effects);
                                },
                                None => {
                                    assert(works(effects@) =~= works(old(effects)@) + Seq::<Work>::empty());
                                },
                            }
                        } else {
                            assert(works(effects@) =~= works(old(effects)@) + Seq::<Work>::empty());
                        }
                    },
                    None => {
                        assert(works(effects@) =~= works(old(effects)@) + Seq::<Work>::empty());
                    },
                }
            },
            Event::CharacteristicValue { subscription_id, value_base64 } => {
                match decode_base64(value_base64.as_str()) {
                    Some(bytes) => {
                        self.on_joiner_frame(label, &subscription_id, &bytes, now_ms, effects);
                    },
                    None => {
                        assert(works(effects@) =~= works(old(effects)@) + Seq::<Work>::empty());
                    },
                }
            },
            Event::ConnectionClosed { connection_id } => {
                self.lose_peers(label, LinkLoss::Connection(connection_id), effects);
            },
            Event::CriticalStateLoss { resource_id, .. } => {
                self.lose_peers(label, LinkLoss::Resource(resource_id), effects);
            },
            _ => {
                assert(works(effects@) =~= works(old(effects)@) + Seq::<Work>::empty());
            },
        }
    }
}

/// Whether `label` may close the peer `peer_id`: its own peer, once ready.
pub open spec fn closable(v: StateView, label: Seq<char>, peer_id: Seq<char>) -> bool {
    entry(v.peers, peer_id) matches Some(p) && p.label == label && p.ready
}

/// How a peer goes when its webview closes it: CLOSE goes out, and a joiner then
/// disconnects.
pub open spec fn local_close(link: LinkView) -> Closing {
    Closing { reason: CloseReason::Local, send_close: true, disconnect: link is Central, announce: true }
}

/// An invalid-handle error for the resource `id`.
pub open spec fn invalid_handle_of(error: BleError, id: Seq<char>) -> bool {
    &&& error.code == ErrorCode::InvalidHandle
    &&& error.message@ == invalid_handle_message()
    &&& error.resource_id matches Some(r) && r@ == id
    &&& error.operation_id is None
    &&& error.delivery is None
    &&& error.native_code is None
}

/// What enqueueing `payload` on a sender gives: the message ID and the sender, or the
/// code of the refusal.
pub open spec fn enqueued(s: SenderView, payload: Seq<u8>) -> Result<(u32, SenderView), ErrorCode> {
    if payload.len() > s.limits.max_logical_size {
        Err(ErrorCode::PayloadTooLarge)
    } else if s.queued_bytes() + payload.len() > s.limits.max_outbound_queue_bytes {
        Err(ErrorCode::QueueFull)
    } else if s.next_message_id == 0 {
        Err(ErrorCode::Busy)
    } else {
        let i = s.next_message_id;
        Ok(
            (
                i,
                SenderView {
                    next_message_id: if i == u32::MAX {
                        0
                    } else {
                        (i + 1) as u32
                    },
                    queue: s.queue.push((i, payload)),
                    ..s
                },
            ),
        )
    }
}

/// A sender after `payloads` were offered to it in order, and what each offer gave.
pub open spec fn enqueue_run(s: SenderView, payloads: Seq<Seq<u8>>) -> (SenderView, Seq<
    Result<u32, ErrorCode>,
>)
    decreases payloads.len(),
{
    if payloads.len() == 0 {
        (s, Seq::empty())
    } else {
        let (t, outs) = enqueue_run(s, payloads.drop_last());
        match enqueued(t, payloads.last()) {
            Ok((id, u)) => (u, outs.push(Ok(id))),
            Err(code) => (t, outs.push(Err(code))),
        }
    }
}

/// How many offers were accepted.
pub open spec fn accepted(outs: Seq<Result<u32, ErrorCode>>) -> int
    decreases outs.len(),
{
    if outs.len() == 0 {
        0
    } else {
        accepted(outs.drop_last()) + if outs.last() is Ok {
            1int
        } else {
            0int
        }
    }
}

/// The next message ID of a sender that started at `first` and accepted
/// `accepted` messages: IDs count up, and once `u32::MAX` was issued none is left.
pub open spec fn next_id_after(first: u32, accepted: int) -> u32 {
    if first == 0 || first + accepted > u32::MAX {
        0
    } else {
        (first + accepted) as u32
    }
}

/// Message IDs count up: each accepted message gets the ID after those accepted
/// before it, counting from the sender's next ID (1 for a new sender), never 0 and
/// never twice. A refused offer leaves the sender as it was. Once `u32::MAX` was
/// issued, every later offer is refused, with `Busy` where the payload and the
/// queue would have allowed it.
pub proof fn law_message_ids_count_up(s: SenderView, payloads: Seq<Seq<u8>>)
    ensures
        ({
            let (after, outs) = enqueue_run(s, payloads);
            &&& outs.len() == payloads.len()
            &&& forall|k: int|
                0 <= k < outs.len() ==> (#[trigger] outs[k] matches Ok(id) ==> id != 0 && id
                    == s.next_message_id + accepted(outs.subrange(0, k)))
            &&& forall|k: int|
                0 <= k < outs.len() && #[trigger] next_id_after(
                    s.next_message_id,
                    accepted(outs.subrange(0, k)),
                ) == 0 ==> outs[k] == Err::<u32, ErrorCode>(
                    if payloads[k].len() > s.limits.max_logical_size {
                        ErrorCode::PayloadTooLarge
                    } else if enqueue_run(s, payloads.subrange(0, k)).0.queued_bytes()
                        + payloads[k].len() > s.limits.max_outbound_queue_bytes {
                        ErrorCode::QueueFull
                    } else {
                        ErrorCode::Busy
                    },
                )
            &&& after.next_message_id == next_id_after(s.next_message_id, accepted(outs))
            &&& after.limits == s.limits
            &&& after.pending == s.pending
        }),
    decreases payloads.len(),
{
    if payloads.len() > 0 {
        let shorter = payloads.drop_last();
        law_message_ids_count_up(s, shorter);
        let (t, outs) = enqueue_run(s, shorter);
        let (after, all) = enqueue_run(s, payloads);
        lemma_accepted_bound(outs);
        assert(all.drop_last() =~= outs);
        assert(payloads.subrange(0, shorter.len() as int) =~= shorter);
        assert forall|k: int| 0 <= k < all.len() implies (#[trigger] all[k] matches Ok(id) ==> id != 0
            && id == s.next_message_id + accepted(all.subrange(0, k))) by {
            if k < outs.len() {
                assert(all.subrange(0, k) =~= outs.subrange(0, k));
                assert(all[k] == outs[k]);
            } else {
                assert(all.subrange(0, k) =~= outs);
            }
        }
        assert forall|k: int|
            0 <= k < all.len() && #[trigger] next_id_after(
                s.next_message_id,
                accepted(all.subrange(0, k)),
            ) == 0 implies all[k] == Err::<u32, ErrorCode>(
                if payloads[k].len() > s.limits.max_logical_size {
                    ErrorCode::PayloadTooLarge
                } else if enqueue_run(s, payloads.subrange(0, k)).0.queued_bytes()
                    + payloads[k].len() > s.limits.max_outbound_queue_bytes {
                    ErrorCode::QueueFull
                } else {
                    ErrorCode::Busy
                },
            ) by {
            if k < outs.len() {
                assert(all.subrange(0, k) =~= outs.subrange(0, k));
                assert(all[k] == outs[k]);
                assert(payloads[k] == shorter[k]);
                assert(payloads.subrange(0, k) =~= shorter.subrange(0, k));
            } else {
                assert(all.subrange(0, k) =~= outs);
            }
        }
        let total = accepted(outs);
        match enqueued(t, payloads.last()) {
            Ok((id, u)) => {
                assert(all.last() == Ok::<u32, ErrorCode>(id));
                assert(accepted(all) == total + 1);
            },
            Err(code) => {
                assert(accepted(all) == total);
            },
        }
    }
}

proof fn lemma_accepted_bound(outs: Seq<Result<u32, ErrorCode>>)
    ensures
        0 <= accepted(outs) <= outs.len(),
    decreases outs.len(),
{
    if outs.len() > 0 {
        lemma_accepted_bound(outs.drop_last());
    }
}

/// One call on a sender; a poll with its time and what it returned.
pub enum SenderCall {
    Enqueue(Seq<u8>),
    Poll(u64, BleResult<SendAction>),
    Acknowledge(u32),
    Disconnect,
}

/// `after` is what the call leaves of `before`, as each operation's contract says.
pub open spec fn sender_step(before: SenderView, call: SenderCall, after: SenderView) -> bool {
    match call {
        SenderCall::Enqueue(payload) => after == match enqueued(before, payload) {
            Ok((_, next)) => next,
            Err(_) => before,
        },
        SenderCall::Poll(now, action) => polled(before, now, after, action),
        SenderCall::Acknowledge(id) => after == match before.pending {
            Some(p) => if p.message.0 == id {
                SenderView { pending: None, ..before }
            } else {
                before
            },
            None => before,
        },
        SenderCall::Disconnect => after == SenderView { queue: Seq::empty(), pending: None, ..before },
    }
}

/// The payload bytes a call accepts: those of a message it enqueues.
pub open spec fn accepted_bytes(before: SenderView, call: SenderCall) -> int {
    match call {
        SenderCall::Enqueue(payload) => if enqueued(before, payload) is Ok {
            payload.len() as int
        } else {
            0
        },
        _ => 0,
    }
}

/// The payload bytes a call finishes: a message acknowledged, failed or dropped by a
/// poll, or everything that a disconnect returns.
pub open spec fn finished_bytes(before: SenderView, call: SenderCall, after: SenderView) -> int {
    match call {
        SenderCall::Enqueue(_) => 0,
        SenderCall::Disconnect => before.queued_bytes() as int,
        SenderCall::Acknowledge(_) => if before.pending is Some && after.pending is None {
            before.pending->0.message.1.len() as int
        } else {
            0
        },
        SenderCall::Poll(_, _) => if before.pending is Some && after.pending is None {
            before.pending->0.message.1.len() as int
        } else if before.pending is None && before.queue.len() > 0 && after.pending is None {
            before.queue[0].1.len() as int
        } else {
            0
        },
    }
}

/// The bytes the first `n` calls of a run accepted, and those they finished.
pub open spec fn run_bytes(states: Seq<SenderView>, calls: Seq<SenderCall>, n: int) -> (int, int)
    decreases n,
{
    if n <= 0 {
        (0, 0)
    } else {
        let (a, f) = run_bytes(states, calls, n - 1);
        (
            a + accepted_bytes(states[n - 1], calls[n - 1]),
            f + finished_bytes(states[n - 1], calls[n - 1], states[n]),
        )
    }
}

#[verifier::spinoff_prover]
proof fn lemma_sender_step_bytes(before: SenderView, call: SenderCall, after: SenderView)
    requires
        sender_step(before, call, after),
    ensures
        after.queued_bytes() + finished_bytes(before, call, after) == before.queued_bytes()
            + accepted_bytes(before, call),
{
    match call {
        SenderCall::Enqueue(payload) => {
            assert(call == SenderCall::Enqueue(payload));
            match enqueued(before, payload) {
                Ok((id, next)) => {
                    crate::peer::sender::lemma_queue_len_push(before.queue, (id, payload));
                    assert(after == next);
                    assert(next.queue == before.queue.push((id, payload)));
                    assert(next.pending == before.pending);
                    assert(accepted_bytes(before, call) == payload.len());
                    assert(finished_bytes(before, call, after) == 0);
                    assert(after.queued_bytes() == before.queued_bytes() + payload.len());
                },
                Err(_) => {
                    assert(after == before);
                    assert(accepted_bytes(before, call) == 0);
                },
            }
        },
        SenderCall::Poll(_, _) => {
            if before.pending is None && before.queue.len() > 0 {
                crate::peer::sender::lemma_queue_len_drop_first(before.queue);
            }
            assert(after.queued_bytes() + finished_bytes(before, call, after) == before.queued_bytes()
                + accepted_bytes(before, call));
        },
        SenderCall::Acknowledge(id) => {
            assert(after.queued_bytes() + finished_bytes(before, call, after) == before.queued_bytes()
                + accepted_bytes(before, call));
        },
        SenderCall::Disconnect => {
            assert(after.queue =~= Seq::<(u32, Seq<u8>)>::empty());
            assert(after.queued_bytes() + finished_bytes(before, call, after) == before.queued_bytes()
                + accepted_bytes(before, call));
        },
    }
}

/// The bytes a sender holds are the running sum of its calls: what the enqueues
/// accepted, less what acknowledgements, failures, dropped messages and disconnects
/// finished. A new sender holds none, so it holds exactly the accepted messages not
/// yet finished.
pub proof fn law_queued_bytes_is_the_running_sum(states: Seq<SenderView>, calls: Seq<SenderCall>)
    requires
        states.len() == calls.len() + 1,
        forall|i: int| 0 <= i < calls.len() ==> sender_step(#[trigger] states[i], calls[i], states[i + 1]),
    ensures
        states.last().queued_bytes() + run_bytes(states, calls, calls.len() as int).1 == states[0].queued_bytes()
            + run_bytes(states, calls, calls.len() as int).0,
    decreases calls.len(),
{
    let n = calls.len() as int;
    if n > 0 {
        law_queued_bytes_is_the_running_sum(states.drop_last(), calls.drop_last());
        lemma_sender_step_bytes(states[n - 1], calls[n - 1], states[n]);
        lemma_run_bytes_prefix(states, calls, n - 1);
    }
}

proof fn lemma_run_bytes_prefix(states: Seq<SenderView>, calls: Seq<SenderCall>, k: int)
    requires
        0 <= k < calls.len(),
        states.len() == calls.len() + 1,
    ensures
        run_bytes(states.drop_last(), calls.drop_last(), k) == run_bytes(states, calls, k),
    decreases k,
{
    if k > 0 {
        lemma_run_bytes_prefix(states, calls, k - 1);
    }
}

/// How many of the first `n` calls of a run were offers that the sender accepted.
pub open spec fn accepted_offers(states: Seq<SenderView>, calls: Seq<SenderCall>, n: int) -> int
    decreases n,
{
    if n <= 0 {
        0
    } else {
        accepted_offers(states, calls, n - 1) + match calls[n - 1] {
            SenderCall::Enqueue(payload) => if enqueued(states[n - 1], payload) is Ok {
                1int
            } else {
                0int
            },
            _ => 0int,
        }
    }
}

/// Message IDs count up over any run of calls, polls, acknowledgements and
/// disconnects among the offers: before each call the sender's next ID is the one
/// after those it accepted so far, counting from its first (1 for a new sender); an
/// accepted offer gets that ID, never 0; and once `u32::MAX` was issued, every later
/// offer is refused, with `Busy` where the payload and the queue would have allowed it.
#[verifier::spinoff_prover]
pub proof fn law_message_ids_count_up_in_any_run(states: Seq<SenderView>, calls: Seq<SenderCall>)
    requires
        states.len() == calls.len() + 1,
        forall|i: int| 0 <= i < calls.len() ==> sender_step(states[i], #[trigger] calls[i], states[i + 1]),
    ensures
        forall|i: int|
            0 <= i <= calls.len() ==> (#[trigger] states[i]).next_message_id == next_id_after(
                states[0].next_message_id,
                accepted_offers(states, calls, i),
            ),
        forall|i: int|
            0 <= i < calls.len() ==> (#[trigger] calls[i] matches SenderCall::Enqueue(payload) ==> {
                &&& enqueued(states[i], payload) matches Ok((id, _)) ==> id != 0 && id
                    == states[0].next_message_id + accepted_offers(states, calls, i)
                &&& next_id_after(states[0].next_message_id, accepted_offers(states, calls, i)) == 0
                    ==> enqueued(states[i], payload) is Err
                &&& next_id_after(states[0].next_message_id, accepted_offers(states, calls, i)) == 0
                    && payload.len() <= states[i].limits.max_logical_size && states[i].queued_bytes()
                    + payload.len() <= states[i].limits.max_outbound_queue_bytes ==> enqueued(
                    states[i],
                    payload,
                ) == Err::<(u32, SenderView), ErrorCode>(ErrorCode::Busy)
            }),
{
    assert forall|i: int| 0 <= i < calls.len() implies #[trigger] next_id_step(states[i], calls[i])
        == states[i + 1].next_message_id by {
        lemma_sender_step_next_id(states[i], calls[i], states[i + 1]);
    }
    assert forall|i: int| 0 <= i <= calls.len() implies (#[trigger] states[i]).next_message_id
        == next_id_after(states[0].next_message_id, accepted_offers(states, calls, i)) by {
        lemma_next_ids_in_run(states, calls, i);
    }
    assert forall|i: int| 0 <= i < calls.len() implies (#[trigger] calls[i] matches SenderCall::Enqueue(
        payload,
    ) ==> {
        &&& enqueued(states[i], payload) matches Ok((id, _)) ==> id != 0 && id
            == states[0].next_message_id + accepted_offers(states, calls, i)
        &&& next_id_after(states[0].next_message_id, accepted_offers(states, calls, i)) == 0
            ==> enqueued(states[i], payload) is Err
        &&& next_id_after(states[0].next_message_id, accepted_offers(states, calls, i)) == 0
            && payload.len() <= states[i].limits.max_logical_size && states[i].queued_bytes()
            + payload.len() <= states[i].limits.max_outbound_queue_bytes ==> enqueued(
            states[i],
            payload,
        ) == Err::<(u32, SenderView), ErrorCode>(ErrorCode::Busy)
    }) by {
        lemma_next_ids_in_run(states, calls, i);
        lemma_accepted_offers_nonneg(states, calls, i);
    }
}

/// Before the call at `n` of a run, the next ID is the one after the accepted offers.
#[verifier::spinoff_prover]
proof fn lemma_next_ids_in_run(states: Seq<SenderView>, calls: Seq<SenderCall>, n: int)
    requires
        states.len() == calls.len() + 1,
        0 <= n <= calls.len(),
        forall|i: int| 0 <= i < calls.len() ==> #[trigger] next_id_step(states[i], calls[i])
            == states[i + 1].next_message_id,
    ensures
        states[n].next_message_id == next_id_after(
            states[0].next_message_id,
            accepted_offers(states, calls, n),
        ),
    decreases n,
{
    if n > 0 {
        lemma_next_ids_in_run(states, calls, n - 1);
        let before = states[n - 1];
        let start = states[0].next_message_id;
        let a = accepted_offers(states, calls, n - 1);
        assert(states[n].next_message_id == next_id_step(before, calls[n - 1]));
        assert(a >= 0) by {
            lemma_accepted_offers_nonneg(states, calls, n - 1);
        }
        match calls[n - 1] {
            SenderCall::Enqueue(payload) => {
                if enqueued(before, payload) is Ok {
                    assert(before.next_message_id != 0);
                    assert(accepted_offers(states, calls, n) == a + 1);
                } else {
                    assert(accepted_offers(states, calls, n) == a);
                }
            },
            _ => {
                assert(accepted_offers(states, calls, n) == a);
            },
        }
    }
}

/// The next message ID after one call: an accepted offer moves it on.
pub open spec fn next_id_step(before: SenderView, call: SenderCall) -> u32 {
    match call {
        SenderCall::Enqueue(payload) => if enqueued(before, payload) is Ok {
            if before.next_message_id == u32::MAX {
                0u32
            } else {
                (before.next_message_id + 1) as u32
            }
        } else {
            before.next_message_id
        },
        _ => before.next_message_id,
    }
}

proof fn lemma_sender_step_next_id(before: SenderView, call: SenderCall, after: SenderView)
    requires
        sender_step(before, call, after),
    ensures
        after.next_message_id == next_id_step(before, call),
{
}

proof fn lemma_accepted_offers_nonneg(states: Seq<SenderView>, calls: Seq<SenderCall>, n: int)
    ensures
        accepted_offers(states, calls, n) >= 0,
    decreases n,
{
    if n > 0 {
        lemma_accepted_offers_nonneg(states, calls, n - 1);
    }
}

/// Whether `label` may send on the peer `peer_id`: its own peer, once ready.
pub open spec fn sendable(v: StateView, label: Seq<char>, peer_id: Seq<char>) -> bool {
    closable(v, label, peer_id)
}

/// The peers with the peer `peer_id` replaced by `peer`.
pub open spec fn with_peer(v: StateView, peer_id: Seq<char>, peer: PeerView) -> StateView {
    StateView { peers: v.peers.update(position(keys_of(v.peers), peer_id), (peer_id, peer)), ..v }
}

/// A new endpoint, with no subscribed central and no peer.
pub open spec fn fresh_endpoint(
    label: Seq<char>,
    service_uuid: Seq<char>,
    max_logical_payload: usize,
    server_id: Option<Seq<char>>,
) -> EndpointView {
    EndpointView {
        label,
        service_uuid,
        max_logical_payload,
        server_id,
        notification_sizes: Seq::empty(),
        centrals: Seq::empty(),
    }
}

/// A server ID, by text.
pub open spec fn server_view(server_id: Option<ServerId>) -> Option<Seq<char>> {
    match server_id {
        Some(s) => Some(s@),
        None => None,
    }
}

/// One pass of the sender loop of a peer.
#[derive(Debug, PartialEq, Eq)]
pub enum PumpStep {
    /// The peer is gone; the loop ends.
    Gone,
    /// The peer waits for its handshake.
    Waiting,
    /// The sender was polled; `busy` tells whether a message still waits.
    Polled { action: BleResult<SendAction>, busy: bool },
}

impl PeerState {
    /// Whether the peer `peer_id` exists.
    /// Ends the peer of a dial that failed: it goes as lost, disconnects, and
    /// announces its end if it was registered. Returns whether it was; the
    /// connection of an unregistered dial is left to the caller.
    pub fn abandon_dial(&mut self, peer_id: &PeerId, effects: &mut Vec<DriverEffect>) -> (registered: bool)
        requires
            old(self).well_formed(),
        ensures
            final(self).well_formed(),
            registered == (entry(old(self)@.peers, peer_id@) is Some),
            final(self)@ == removed(old(self)@, peer_id@, dial_failure()).0,
            works(final(effects)@) == works(old(effects)@) + removed(old(self)@, peer_id@, dial_failure()).1,
    {
        let registered = self.has_peer(peer_id);
        self.remove_peer(
            peer_id,
            Closing { reason: CloseReason::Lost, send_close: false, disconnect: true, announce: true },
            effects,
        );
        registered
    }

    pub fn has_peer(&self, peer_id: &PeerId) -> (found: bool)
        ensures
            found == (entry(self@.peers, peer_id@) is Some),
    {
        proof {
            self.lemma_keys();
        }
        find_id(&self.peers, peer_id).is_some()
    }

    /// Sends CLOSE without waiting for it, and forgets the peer; a joiner then
    /// disconnects.
    pub fn close_peer(&mut self, label: &str, peer_id: &PeerId, effects: &mut Vec<DriverEffect>) -> (closed: BleResult<()>)
        requires
            old(self).well_formed(),
        ensures
            final(self).well_formed(),
            closable(old(self)@, label@, peer_id@) ==> {
                let p = entry(old(self)@.peers, peer_id@)->0;
                &&& closed is Ok
                &&& final(self)@ == removed(old(self)@, peer_id@, local_close(p.link)).0
                &&& works(final(effects)@) == works(old(effects)@) + removed(
                    old(self)@,
                    peer_id@,
                    local_close(p.link),
                ).1
            },
            !closable(old(self)@, label@, peer_id@) ==> {
                &&& closed matches Err(e) && invalid_handle_of(e, peer_id@)
                &&& final(self)@ == old(self)@
                &&& final(effects)@ == old(effects)@
            },
    {
        proof {
            self.lemma_keys();
        }
        let i = match find_id(&self.peers, peer_id) {
            Some(i) => i,
            None => {
                return Err(BleError::invalid_handle(ResourceId::new(peer_id.as_str())));
            },
        };
        let peer = &self.peers[i].1;
        if !(crate::text::text_is(peer.label.as_str(), label) && peer.ready) {
            return Err(BleError::invalid_handle(ResourceId::new(peer_id.as_str())));
        }
        let disconnect = match &peer.link {
            Link::Central { .. } => true,
            Link::Peripheral { .. } => false,
        };
        self.remove_peer(
            peer_id,
            Closing { reason: CloseReason::Local, send_close: true, disconnect, announce: true },
            effects,
        );
        Ok(())
    }

    /// Registers an endpoint under `endpoint_id`.
    pub fn add_endpoint(
        &mut self,
        endpoint_id: &str,
        label: &str,
        service_uuid: &str,
        max_logical_payload: usize,
        server_id: Option<ServerId>,
    )
        requires
            old(self).well_formed(),
        ensures
            final(self).well_formed(),
            final(self)@ == (StateView {
                endpoints: put(
                    old(self)@.endpoints,
                    endpoint_id@,
                    fresh_endpoint(
                        label@,
                        service_uuid@,
                        max_logical_payload,
                        server_view(server_id),
                    ),
                ),
                ..old(self)@
            }),
    {
        proof {
            self.lemma_keys();
            lemma_position(keys_of(self@.endpoints), endpoint_id@);
            lemma_put(
                self@.endpoints,
                endpoint_id@,
                fresh_endpoint(
                    label@,
                    service_uuid@,
                    max_logical_payload,
                    server_view(server_id),
                ),
            );
        }
        let ghost v = self@;
        let ghost raw = self.endpoints@;
        let endpoint = Endpoint {
            label: label.to_owned(),
            service_uuid: service_uuid.to_owned(),
            max_logical_payload,
            server_id,
            notification_sizes: Vec::new(),
            centrals: Vec::new(),
        };
        assert(endpoint@.notification_sizes =~= Seq::<(Seq<char>, usize)>::empty());
        assert(endpoint@.centrals =~= Seq::<(Seq<char>, Seq<char>)>::empty());
        match find_text(&self.endpoints, endpoint_id) {
            Some(i) => {
                self.endpoints.set(i, (endpoint_id.to_owned(), endpoint));
                assert(self@.endpoints =~= put(v.endpoints, endpoint_id@, endpoint@));
            },
            None => {
                self.endpoints.push((endpoint_id.to_owned(), endpoint));
                assert(self@.endpoints =~= put(v.endpoints, endpoint_id@, endpoint@));
            },
        }
        proof {
            let next = self@.endpoints;
            assert forall|j: int| 0 <= j < next.len() implies (#[trigger] next[j]).1.wf() by {
                if j < v.endpoints.len() && next[j] != v.endpoints[j] {
                    assert(next[j].1 == endpoint@);
                } else if j >= v.endpoints.len() {
                    assert(next[j].1 == endpoint@);
                }
            }
        }
    }

    /// Forgets the endpoint `endpoint_id`.
    /// Undoes a listening endpoint whose advertisement failed: the endpoint goes,
    /// and the command that closes its server is returned.
    pub fn abandon_endpoint(&mut self, endpoint_id: &str, server_id: ServerId) -> (close: Command)
        requires
            old(self).well_formed(),
        ensures
            final(self).well_formed(),
            final(self)@ == (StateView { endpoints: without(old(self)@.endpoints, endpoint_id@), ..old(self)@ }),
            close == (Command::CloseServer { server_id }),
    {
        self.remove_endpoint(endpoint_id);
        Command::CloseServer { server_id }
    }

    pub fn remove_endpoint(&mut self, endpoint_id: &str)
        requires
            old(self).well_formed(),
        ensures
            final(self).well_formed(),
            final(self)@ == (StateView { endpoints: without(old(self)@.endpoints, endpoint_id@), ..old(self)@ }),
    {
        proof {
            self.lemma_keys();
            lemma_position(keys_of(self@.endpoints), endpoint_id@);
            lemma_without(self@.endpoints, endpoint_id@);
        }
        let ghost v = self@;
        match find_text(&self.endpoints, endpoint_id) {
            Some(i) => {
                let _ = self.endpoints.remove(i);
                assert(self@.endpoints =~= without(v.endpoints, endpoint_id@));
                proof {
                    let next = self@.endpoints;
                    assert forall|j: int| 0 <= j < next.len() implies (#[trigger] next[j]).1.wf() by {
                        if j < i {
                            assert(next[j] == v.endpoints[j]);
                        } else {
                            assert(next[j] == v.endpoints[j + 1]);
                        }
                    }
                }
            },
            None => {},
        }
    }

    /// The service UUID and the message limit of the endpoint `endpoint_id` of
    /// `label`, for a dial.
    pub fn dial_target(&self, label: &str, endpoint_id: &str) -> (target: BleResult<(String, usize)>)
        ensures
            match entry(self@.endpoints, endpoint_id@) {
                Some(e) if e.label == label@ => target matches Ok((uuid, max)) && uuid@ == e.service_uuid
                    && max == e.max_logical_payload,
                _ => target matches Err(e) && invalid_handle_of(e, endpoint_id@),
            },
    {
        proof {
            self.lemma_keys();
        }
        match find_text(&self.endpoints, endpoint_id) {
            Some(i) => {
                let endpoint = &self.endpoints[i].1;
                if crate::text::text_is(endpoint.label.as_str(), label) {
                    Ok((endpoint.service_uuid.clone(), endpoint.max_logical_payload))
                } else {
                    Err(BleError::invalid_handle(ResourceId::new(endpoint_id)))
                }
            },
            None => Err(BleError::invalid_handle(ResourceId::new(endpoint_id))),
        }
    }
}

/// The error a failed send reports: the sender's, marked as never submitted when it
/// says nothing of its delivery.
pub open spec fn failed_error(error: BleError) -> BleError {
    if error.delivery is Some {
        error
    } else {
        BleError { delivery: Some(DeliveryOutcome::NotSubmitted), ..error }
    }
}

/// The waiting sends after a poll: a failed message no longer waits.
pub open spec fn waiters_after(waiters: Seq<u32>, action: BleResult<SendAction>) -> Seq<u32> {
    match action {
        Ok(SendAction::Failed { message_id, .. }) => without_waiter(waiters, message_id),
        _ => waiters,
    }
}

/// The receipts of a poll: a failed message that a send waits for.
pub open spec fn poll_receipts(peer_id: Seq<char>, waiters: Seq<u32>, action: BleResult<SendAction>) -> Seq<Work> {
    match action {
        Ok(SendAction::Failed { message_id, error }) => if waiters.contains(message_id) {
            seq![Work::SendFailed { peer_id, message_id, error: failed_error(error) }]
        } else {
            Seq::empty()
        },
        _ => Seq::empty(),
    }
}

impl PeerState {
    /// Closes every peer of the endpoint, then forgets it; returns its server, which the
    /// caller stops advertising and closes once the CLOSE frames left.
    pub fn close_endpoint(&mut self, label: &str, endpoint_id: &str, effects: &mut Vec<DriverEffect>) -> (closed:
        BleResult<Option<ServerId>>)
        requires
            old(self).well_formed(),
        ensures
            final(self).well_formed(),
            match entry(old(self)@.endpoints, endpoint_id@) {
                Some(e) if e.label == label@ => {
                    let (v, w) = removed_all(
                        old(self)@,
                        doomed(old(self)@.peers, SelectionView::OfEndpoint { endpoint_id: endpoint_id@ }),
                    );
                    &&& closed matches Ok(server) && server_view(server) == e.server_id
                    &&& final(self)@ == (StateView { endpoints: without(v.endpoints, endpoint_id@), ..v })
                    &&& works(final(effects)@) == works(old(effects)@) + w
                },
                _ => {
                    &&& closed matches Err(e) && invalid_handle_of(e, endpoint_id@)
                    &&& final(self)@ == old(self)@
                    &&& final(effects)@ == old(effects)@
                },
            },
    {
        proof {
            self.lemma_keys();
        }
        let i = match find_text(&self.endpoints, endpoint_id) {
            Some(i) => i,
            None => {
                return Err(BleError::invalid_handle(ResourceId::new(endpoint_id)));
            },
        };
        if !crate::text::text_is(self.endpoints[i].1.label.as_str(), label) {
            return Err(BleError::invalid_handle(ResourceId::new(endpoint_id)));
        }
        let server = match &self.endpoints[i].1.server_id {
            Some(s) => Some(s.duplicate()),
            None => None,
        };
        let selection = Selection::OfEndpoint { endpoint_id: endpoint_id.to_owned() };
        let items = self.select(&selection);
        self.remove_all(&items, effects);
        self.remove_endpoint(endpoint_id);
        Ok(server)
    }

    /// Registers the joiner peer `peer_id` of a dial over `link`, not ready until
    /// `HELLO_ACK`, and sends its HELLO.
    pub fn add_joiner(
        &mut self,
        label: &str,
        endpoint_id: &str,
        peer_id: &PeerId,
        link: Link,
        value_limit: usize,
        max_logical_payload: usize,
        effects: &mut Vec<DriverEffect>,
    ) -> (added: BleResult<()>)
        requires
            old(self).well_formed(),
        ensures
            final(self).well_formed(),
            entry(old(self)@.endpoints, endpoint_id@) is Some ==> {
                &&& added is Ok
                &&& final(self)@ == (StateView {
                    peers: put(
                        old(self)@.peers,
                        peer_id@,
                        fresh_peer(label@, endpoint_id@, link@, value_limit, max_logical_payload, false),
                    ),
                    ..old(self)@
                })
                &&& works(final(effects)@) == works(old(effects)@) + seq![
                    Work::Start { peer_id: peer_id@, label: label@, link: link@ },
                    Work::Hello { peer_id: peer_id@, bytes: control_model(FrameKind::Hello).bytes() },
                ]
            },
            entry(old(self)@.endpoints, endpoint_id@) is None ==> {
                &&& added matches Err(e) && invalid_handle_of(e, endpoint_id@)
                &&& final(self)@ == old(self)@
                &&& final(effects)@ == old(effects)@
            },
    {
        proof {
            self.lemma_keys();
        }
        if find_text(&self.endpoints, endpoint_id).is_none() {
            return Err(BleError::invalid_handle(ResourceId::new(endpoint_id)));
        }
        let peer = new_peer(label, endpoint_id, link.duplicate(), value_limit, max_logical_payload, false);
        self.put_peer(peer_id.duplicate(), peer);
        let ghost start = works(effects@);
        effects.push(DriverEffect::Start { peer_id: peer_id.duplicate(), label: label.to_owned(), link });
        effects.push(DriverEffect::Hello { peer_id: peer_id.duplicate(), bytes: control_frame(FrameKind::Hello) });
        assert(works(effects@) =~= start + seq![
            Work::Start { peer_id: peer_id@, label: label@, link: link@ },
            Work::Hello { peer_id: peer_id@, bytes: control_model(FrameKind::Hello).bytes() },
        ]);
        Ok(())
    }

    /// Queues one message of `label` on the ready peer `peer_id`; the send waits for
    /// its receipt.
    pub fn enqueue(&mut self, label: &str, peer_id: &PeerId, payload: Vec<u8>, effects: &mut Vec<DriverEffect>) -> (id:
        BleResult<u32>)
        requires
            old(self).well_formed(),
        ensures
            final(self).well_formed(),
            !sendable(old(self)@, label@, peer_id@) ==> {
                &&& id matches Err(e) && invalid_handle_of(e, peer_id@)
                &&& final(self)@ == old(self)@
                &&& final(effects)@ == old(effects)@
            },
            sendable(old(self)@, label@, peer_id@) ==> {
                let p = entry(old(self)@.peers, peer_id@)->0;
                match enqueued(p.sender, payload@) {
                    Err(code) => {
                        &&& id matches Err(e) && e.code == code && e.delivery == Some(DeliveryOutcome::NotSubmitted)
                            && e.message@ == refusal_message(code)
                        &&& final(self)@ == old(self)@
                        &&& final(effects)@ == old(effects)@
                    },
                    Ok((m, s)) => {
                        &&& id == Ok::<u32, BleError>(m)
                        &&& final(self)@ == with_peer(
                            old(self)@,
                            peer_id@,
                            PeerView { sender: s, waiters: p.waiters.push(m), ..p },
                        )
                        &&& works(final(effects)@) == works(old(effects)@) + seq![Work::Wake { peer_id: peer_id@ }]
                    },
                }
            },
    {
        proof {
            self.lemma_keys();
        }
        let i = match find_id(&self.peers, peer_id) {
            Some(i) => i,
            None => {
                return Err(BleError::invalid_handle(ResourceId::new(peer_id.as_str())));
            },
        };
        if !(crate::text::text_is(self.peers[i].1.label.as_str(), label) && self.peers[i].1.ready) {
            return Err(BleError::invalid_handle(ResourceId::new(peer_id.as_str())));
        }
        let ghost v = self@;
        let ghost raw = self.peers@;
        proof {
            lemma_position(keys_of(v.peers), peer_id@);
        }
        let (key, mut peer) = self.peers.remove(i);
        assert(raw[i as int].1.well_formed());
        let ghost p = peer@;
        let queued = peer.sender.enqueue(payload);
        let message_id = match queued {
            Ok(m) => m,
            Err(error) => {
                let ghost entry_now = (key, peer);
                self.peers.insert(i, (key, peer));
                assert(self.peers@ =~= raw.update(i as int, entry_now));
                proof {
                    assert(entry_now.1@ == p);
                    assert(self@.peers =~= v.peers);
                    assert forall|j: int| 0 <= j < self.peers@.len() implies (#[trigger] self.peers@[j]).1.well_formed() by {
                        if j != i {
                            assert(self.peers@[j] == raw[j]);
                        }
                    }
                }
                return Err(with_delivery(error, DeliveryOutcome::NotSubmitted));
            },
        };
        peer.waiters.push(message_id);
        let ghost q = peer@;
        let ghost entry_now = (key, peer);
        self.peers.insert(i, (key, peer));
        assert(self.peers@ =~= raw.update(i as int, entry_now));
        proof {
            assert(self@.peers =~= v.peers.update(i as int, (peer_id@, q)));
            assert(keys_of(self@.peers) =~= keys_of(v.peers));
            assert forall|j: int| 0 <= j < self.peers@.len() implies (#[trigger] self.peers@[j]).1.well_formed() by {
                if j != i {
                    assert(self.peers@[j] == raw[j]);
                }
            }
        }
        let ghost start = works(effects@);
        effects.push(DriverEffect::Wake { peer_id: peer_id.duplicate() });
        assert(works(effects@) =~= start + seq![Work::Wake { peer_id: peer_id@ }]);
        Ok(message_id)
    }

    /// One pass of the sender loop of `peer_id`: a ready peer's sender is polled at
    /// `now_ms`, and a send whose message failed gets its receipt.
    pub fn pump(&mut self, peer_id: &PeerId, now_ms: u64, effects: &mut Vec<DriverEffect>) -> (step: PumpStep)
        requires
            old(self).well_formed(),
        ensures
            final(self).well_formed(),
            match entry(old(self)@.peers, peer_id@) {
                None => step is Gone && final(self)@ == old(self)@ && final(effects)@ == old(effects)@,
                Some(p) => if !p.ready {
                    step is Waiting && final(self)@ == old(self)@ && final(effects)@ == old(effects)@
                } else {
                    let i = position(keys_of(old(self)@.peers), peer_id@);
                    let sender = final(self)@.peers[i].1.sender;
                    &&& step matches PumpStep::Polled { action, busy } && {
                        &&& polled(p.sender, now_ms, sender, action)
                        &&& busy == (sender.pending is Some || sender.queue.len() > 0)
                        &&& final(self)@ == with_peer(
                            old(self)@,
                            peer_id@,
                            PeerView { sender, waiters: waiters_after(p.waiters, action), ..p },
                        )
                        &&& works(final(effects)@) == works(old(effects)@) + poll_receipts(
                            peer_id@,
                            p.waiters,
                            action,
                        )
                    }
                },
            },
    {
        proof {
            self.lemma_keys();
        }
        let i = match find_id(&self.peers, peer_id) {
            Some(i) => i,
            None => {
                return PumpStep::Gone;
            },
        };
        if !self.peers[i].1.ready {
            return PumpStep::Waiting;
        }
        let ghost v = self@;
        let ghost raw = self.peers@;
        proof {
            lemma_position(keys_of(v.peers), peer_id@);
        }
        let (key, mut peer) = self.peers.remove(i);
        assert(raw[i as int].1.well_formed());
        let ghost p = peer@;
        let action = peer.sender.poll(now_ms);
        let ghost start = works(effects@);
        match &action {
            Ok(SendAction::Failed { message_id, error }) => {
                let (found, kept) = waiter_removed(&peer.waiters, *message_id);
                peer.waiters = kept;
                if found {
                    let reported = if error.delivery.is_some() {
                        error.duplicate()
                    } else {
                        with_delivery(error.duplicate(), DeliveryOutcome::NotSubmitted)
                    };
                    effects.push(DriverEffect::SendFailed {
                        peer_id: peer_id.duplicate(),
                        message_id: *message_id,
                        error: reported,
                    });
                }
            },
            _ => {},
        }
        assert(works(effects@) =~= start + poll_receipts(peer_id@, p.waiters, action));
        let busy = peer.sender.has_work();
        let ghost q = peer@;
        let ghost entry_now = (key, peer);
        self.peers.insert(i, (key, peer));
        assert(self.peers@ =~= raw.update(i as int, entry_now));
        proof {
            assert(self@.peers =~= v.peers.update(i as int, (peer_id@, q)));
            assert(keys_of(self@.peers) =~= keys_of(v.peers));
            assert forall|j: int| 0 <= j < self.peers@.len() implies (#[trigger] self.peers@[j]).1.well_formed() by {
                if j != i {
                    assert(self.peers@[j] == raw[j]);
                }
            }
        }
        PumpStep::Polled { action, busy }
    }
}

/// Whether `works` holds an event for a webview.
pub open spec fn emits(works: Seq<Work>) -> bool {
    exists|i: int| 0 <= i < works.len() && works[i] is Emit
}

proof fn lemma_silent_removals(v: StateView, doomed: Seq<(Seq<char>, Closing)>)
    requires
        forall|i: int| 0 <= i < doomed.len() ==> !(#[trigger] doomed[i]).1.announce,
    ensures
        !emits(removed_all(v, doomed).1),
    decreases doomed.len(),
{
    if doomed.len() > 0 {
        let rest = doomed.drop_last();
        assert forall|i: int| 0 <= i < rest.len() implies !(#[trigger] rest[i]).1.announce by {
            assert(rest[i] == doomed[i]);
        }
        lemma_silent_removals(v, rest);
        let (v1, w1) = removed_all(v, rest);
        let (v2, w2) = removed(v1, doomed.last().0, doomed.last().1);
        assert(!doomed[doomed.len() - 1].1.announce);
        match entry(v1.peers, doomed.last().0) {
            None => {
                assert(w1 + w2 =~= w1);
            },
            Some(p) => {
                let receipts = closed_receipts(doomed.last().0, p.waiters, in_flight_of(p.sender));
                assert(w2 =~= seq![
                    Work::Finish {
                        peer_id: doomed.last().0,
                        send_close: doomed.last().1.send_close,
                        disconnect: doomed.last().1.disconnect,
                    },
                    Work::Wake { peer_id: doomed.last().0 },
                ] + receipts);
                assert forall|i: int| 0 <= i < (w1 + w2).len() implies !((w1 + w2)[i] is Emit) by {
                    if i >= w1.len() + 2 {
                        assert((w1 + w2)[i] == receipts[i - w1.len() - 2]);
                    }
                }
            },
        }
    }
}

proof fn lemma_forgotten_closings(peers: Seq<(Seq<char>, PeerView)>, label: Seq<char>)
    ensures
        forall|i: int| 0 <= i < doomed(peers, SelectionView::Forgotten { label }).len() ==> !(#[trigger] doomed(
            peers,
            SelectionView::Forgotten { label },
        )[i]).1.announce,
    decreases peers.len(),
{
    if peers.len() > 0 {
        lemma_forgotten_closings(peers.drop_last(), label);
    }
}

/// A webview that reloaded or closed hears nothing of the peers it forgets.
pub proof fn law_a_forgotten_webview_hears_nothing(v: StateView, label: Seq<char>)
    ensures
        !emits(removed_all(v, doomed(v.peers, SelectionView::Forgotten { label })).1),
{
    lemma_forgotten_closings(v.peers, label);
    lemma_silent_removals(v, doomed(v.peers, SelectionView::Forgotten { label }));
}

pub proof fn lemma_removed_wf(v: StateView, peer_id: Seq<char>, close: Closing)
    requires
        v.wf(),
    ensures
        removed(v, peer_id, close).0.wf(),
{
    match entry(v.peers, peer_id) {
        None => {},
        Some(p) => {
            lemma_without(v.peers, peer_id);
            match p.link {
                LinkView::Peripheral { central, .. } => {
                    match entry(v.endpoints, p.endpoint_id) {
                        Some(e) => {
                            if entry(e.centrals, central) == Some(peer_id) {
                                let j = position(keys_of(v.endpoints), p.endpoint_id);
                                lemma_position(keys_of(v.endpoints), p.endpoint_id);
                                assert(v.endpoints[j].1.wf());
                                lemma_without(e.centrals, central);
                                let e2 = EndpointView { centrals: without(e.centrals, central), ..e };
                                lemma_put(v.endpoints, p.endpoint_id, e2);
                                let next = put(v.endpoints, p.endpoint_id, e2);
                                assert forall|k: int| 0 <= k < next.len() implies (#[trigger] next[k]).1.wf() by {
                                    if k != j {
                                        assert(next[k] == v.endpoints[k]);
                                    }
                                }
                            }
                        },
                        None => {},
                    }
                },
                _ => {},
            }
        },
    }
}

/// A second HELLO from one central replaces its peer: the peer it had is gone, and
/// the central now answers for a new peer, which exists. Where the old peer was
/// ready, its webview hears it close as lost, and then hears the new peer ready.
#[verifier::spinoff_prover]
#[verifier::rlimit(40)]
pub proof fn law_a_second_hello_replaces_the_peer(
    v: StateView,
    i: int,
    label: Seq<char>,
    server_id: Seq<char>,
    central: Seq<char>,
    previous: Seq<char>,
)
    requires
        v.wf(),
        0 <= i < v.endpoints.len(),
        entry(v.endpoints[i].1.centrals, central) == Some(previous),
        previous != numbered("peer"@, v.next_id),
    ensures
        entry(host_hello(v, i, label, server_id, central).0.peers, previous) is None,
        entry(host_hello(v, i, label, server_id, central).0.endpoints[i].1.centrals, central) == Some(
            numbered("peer"@, v.next_id),
        ),
        entry(host_hello(v, i, label, server_id, central).0.peers, numbered("peer"@, v.next_id)) is Some,
        entry(v.peers, previous) is Some && entry(v.peers, previous)->0.ready ==> {
            let p = entry(v.peers, previous)->0;
            let w = host_hello(v, i, label, server_id, central).1;
            &&& w.len() >= 4
            &&& w[w.len() - 4] == Work::Emit {
                label: p.label,
                event: PeerEventView::Closed { peer_id: previous, reason: CloseReason::Lost },
            }
            &&& w[w.len() - 1] == Work::Emit {
                label,
                event: PeerEventView::Ready {
                    endpoint_id: v.endpoints[i].0,
                    peer_id: numbered("peer"@, v.next_id),
                    dialed: false,
                },
            }
        },
{
    let e = v.endpoints[i].1;
    assert(e.wf());
    lemma_without(e.centrals, central);
    let v1 = StateView { endpoints: with_centrals(v.endpoints, i, without(e.centrals, central)), ..v };
    assert(keys_of(v1.endpoints) =~= keys_of(v.endpoints));
    assert forall|k: int| 0 <= k < v1.endpoints.len() implies (#[trigger] v1.endpoints[k]).1.wf() by {
        if k != i {
            assert(v1.endpoints[k] == v.endpoints[k]);
        }
    }
    assert(v1.wf());
    lemma_removed_wf(v1, previous, lost());
    lemma_removed_endpoints(v1, previous, lost());
    let v2 = removed(v1, previous, lost()).0;
    assert(v2.next_id == v.next_id);
    let peer_id = numbered("peer"@, v.next_id);
    match entry(v1.peers, previous) {
        Some(_) => {
            lemma_without(v1.peers, previous);
        },
        None => {},
    }
    assert(entry(v2.peers, previous) is None);
    let value_limit = match entry(e.notification_sizes, central) {
        Some(n) => n,
        None => DEFAULT_VALUE_LIMIT as usize,
    };
    let fresh = fresh_peer(label, v.endpoints[i].0, LinkView::Peripheral { server_id, central }, value_limit, e.max_logical_payload, true);
    lemma_put(v2.peers, peer_id, fresh);
    assert(v2.endpoints[i].1.wf());
    lemma_put(v2.endpoints[i].1.centrals, central, peer_id);
}

} // verus!
