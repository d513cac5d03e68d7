//! The decisions of the peer driver: owners and labels, the peer service, frame
//! sizes, and what a peer does with a frame it receives.

use vstd::prelude::*;

use crate::codec::{base64_fits, decode_base64, encode_base64, standard_base64_decoded, standard_base64_encoded};
use crate::command::Reply;
use crate::error::{BleError, BleResult, DeliveryOutcome, ErrorCode};
use crate::ids::{CharacteristicHandle, OwnerId, PeerId};
use crate::model::{
    CharacteristicInstance, CharacteristicProperties, LocalCharacteristic, LocalService,
    ServerDefinition, ServiceInstance,
};
use crate::peer::frame::{Frame, FrameKind, FrameModel, PROTOCOL_MAJOR};
use crate::peer::receiver::{receive_step, ActionView, ReceiveAction, Receiver, ReceiverView};
use crate::peer::sender::{SendAction, Sender, SenderView};
use crate::text::{decimal, push_decimal, push_text, strip_prefix, stripped};
use crate::uuid::{normalize_uuid, normalized_uuid};

verus! {

/// UUIDs of the v1 profile characteristics.
pub const INFO_CHARACTERISTIC_UUID: &'static str = "b1e10f10-6a2c-4a62-8e9e-2c938fa30101";

pub const RX_CHARACTERISTIC_UUID: &'static str = "b1e10f10-6a2c-4a62-8e9e-2c938fa30102";

pub const TX_CHARACTERISTIC_UUID: &'static str = "b1e10f10-6a2c-4a62-8e9e-2c938fa30103";

/// The frame size when the native layer reports none: the ATT minimum.
pub const DEFAULT_VALUE_LIMIT: u32 = 20;

/// The largest logical message the v1 defaults allow.
pub const MAX_LOGICAL_PAYLOAD: usize = 16384;

/// The longest value one ATT attribute holds.
pub const ATTRIBUTE_VALUE_MAX: u32 = 512;

/// The owner prefix of the commands the driver runs for a webview.
pub const PEER_OWNER_PREFIX: &'static str = "gattify-peer:";

pub const SERVICE_KEY: &'static str = "peer";

pub const RX_KEY: &'static str = "peer/rx";

pub const TX_KEY: &'static str = "peer/tx";

/// Options of an endpoint, as the TypeScript API sends them.
#[derive(Clone, Debug, PartialEq, Eq)]
pub struct EndpointOptions {
    pub service_uuid: String,
    pub local_name: Option<String>,
    pub max_logical_payload: usize,
    /// A host listens: it registers the service and advertises it.
    pub listen: bool,
}

pub fn default_max_logical_payload() -> (size: usize)
    ensures
        size == MAX_LOGICAL_PAYLOAD,
{
    MAX_LOGICAL_PAYLOAD
}

#[derive(Clone, Copy, Debug, PartialEq, Eq, Structural)]
pub enum CloseReason {
    /// This side closed the peer.
    Local,
    /// The other side sent CLOSE.
    Remote,
    /// The link went away without CLOSE.
    Lost,
}

/// An event for the webview that owns a peer.
#[derive(Clone, Debug, PartialEq, Eq)]
pub enum PeerEvent {
    /// A peer can move messages; `dialed` is true for a peer this side dialed.
    Ready { endpoint_id: String, peer_id: PeerId, dialed: bool },
    Message { peer_id: PeerId, bytes: Vec<u8> },
    Closed { peer_id: PeerId, reason: CloseReason },
}

impl PeerEvent {
    /// The event name after the `gattify://` prefix.
    pub fn name(&self) -> (name: &'static str)
        ensures
            name@ == match self {
                PeerEvent::Ready { .. } => "peer-ready"@,
                PeerEvent::Message { .. } => "peer-message"@,
                PeerEvent::Closed { .. } => "peer-closed"@,
            },
    {
        match self {
            PeerEvent::Ready { .. } => "peer-ready",
            PeerEvent::Message { .. } => "peer-message",
            PeerEvent::Closed { .. } => "peer-closed",
        }
    }

    /// The bytes of a message event in standard base64, as its payload carries them.
    pub fn value_base64(&self) -> (value: Option<String>)
        requires
            self matches PeerEvent::Message { bytes, .. } ==> base64_fits(bytes@.len()),
        ensures
            match self {
                PeerEvent::Message { bytes, .. } => value matches Some(text) && text@
                    == standard_base64_encoded(bytes@),
                _ => value is None,
            },
    {
        match self {
            PeerEvent::Message { bytes, .. } => Some(encode_base64(bytes.as_slice())),
            _ => None,
        }
    }
}

#[derive(Clone, Debug, PartialEq, Eq)]
pub struct SendReceipt {
    pub message_id: u32,
    pub delivery: DeliveryOutcome,
}

/// The normalized service UUID of an endpoint's options, once they are valid: a
/// message limit between 1 byte and [`MAX_LOGICAL_PAYLOAD`], and a UUID.
pub fn endpoint_service(options: &EndpointOptions) -> (service: BleResult<String>)
    ensures
        options.max_logical_payload == 0 || options.max_logical_payload > MAX_LOGICAL_PAYLOAD ==> (
        service matches Err(e) && e.is_plain(ErrorCode::InvalidArgument) && e.message@
            == "maxLogicalPayload must be between 1 and 16384 bytes"@),
        1 <= options.max_logical_payload <= MAX_LOGICAL_PAYLOAD ==> match normalized_uuid(
            options.service_uuid@,
        ) {
            Some(n) => service matches Ok(s) && s@ == n,
            None => service matches Err(e) && e.is_plain(ErrorCode::InvalidArgument) && e.message@
                == "serviceUuid is not a UUID"@,
        },
{
    if options.max_logical_payload == 0 || options.max_logical_payload > MAX_LOGICAL_PAYLOAD {
        return Err(BleError::new(ErrorCode::InvalidArgument, "maxLogicalPayload must be between 1 and 16384 bytes"));
    }
    match normalize_uuid(options.service_uuid.as_str()) {
        Some(n) => Ok(n),
        None => Err(BleError::new(ErrorCode::InvalidArgument, "serviceUuid is not a UUID")),
    }
}

/// The owner under which the driver acts for the webview `label`.
pub fn peer_owner(label: &str) -> (owner: OwnerId)
    ensures
        owner@ == PEER_OWNER_PREFIX@ + label@,
{
    let mut text = PEER_OWNER_PREFIX.to_owned();
    push_text(&mut text, label);
    OwnerId::from_string(text)
}

/// The webview label of a peer driver owner.
pub fn peer_label(owner: &OwnerId) -> (label: Option<&str>)
    ensures
        match label {
            Some(l) => stripped(owner@, PEER_OWNER_PREFIX@) == Some(l@),
            None => stripped(owner@, PEER_OWNER_PREFIX@) is None,
        },
{
    strip_prefix(owner.as_str(), PEER_OWNER_PREFIX)
}

/// The frame size for a reported value length: 20 bytes when unknown, and never more
/// than one attribute holds.
pub fn frame_size(reported: Option<u32>) -> (size: usize)
    ensures
        size == match reported {
            Some(length) => if length < ATTRIBUTE_VALUE_MAX {
                length
            } else {
                ATTRIBUTE_VALUE_MAX
            },
            None => DEFAULT_VALUE_LIMIT,
        },
{
    let length = match reported {
        Some(length) => length,
        None => DEFAULT_VALUE_LIMIT,
    };
    if length < ATTRIBUTE_VALUE_MAX {
        length as usize
    } else {
        ATTRIBUTE_VALUE_MAX as usize
    }
}

/// The header-only frame of a control kind.
pub open spec fn control_model(kind: FrameKind) -> FrameModel {
    FrameModel {
        kind,
        message_id: 0,
        fragment_index: 0,
        fragment_count: 1,
        total_length: 0,
        payload: Seq::empty(),
    }
}

/// A header-only HELLO, HELLO_ACK or CLOSE frame.
pub fn control_frame(kind: FrameKind) -> (bytes: Vec<u8>)
    requires
        kind == FrameKind::Hello || kind == FrameKind::HelloAck || kind == FrameKind::Close,
    ensures
        bytes@ == control_model(kind).bytes(),
{
    let frame = Frame {
        kind,
        message_id: 0,
        fragment_index: 0,
        fragment_count: 1,
        total_length: 0,
        payload: Vec::new(),
    };
    assert(frame@ =~= control_model(kind));
    match frame.encode(0) {
        Ok(bytes) => bytes,
        Err(_) => {
            assert(false);
            Vec::new()
        },
    }
}

/// A protocol mismatch with `message`.
pub fn mismatch(message: &str) -> (error: BleError)
    ensures
        error.is_plain(ErrorCode::ProtocolMismatch),
        error.message@ == message@,
{
    BleError::new(ErrorCode::ProtocolMismatch, message)
}

pub fn link_closed() -> (error: BleError)
    ensures
        error.is_plain(ErrorCode::Disconnected),
        error.message@ == "the link closed"@,
{
    BleError::new(ErrorCode::Disconnected, "the link closed")
}

/// The error of a send whose peer closed before its ACK, with how far the
/// message got.
pub fn peer_closed(delivery: DeliveryOutcome) -> (error: BleError)
    ensures
        error.code == ErrorCode::Disconnected,
        error.message@ == "the peer closed"@,
        error.delivery == Some(delivery),
        error.operation_id is None,
        error.resource_id is None,
        error.native_code is None,
{
    with_delivery(BleError::new(ErrorCode::Disconnected, "the peer closed"), delivery)
}

/// The text that the derived `Debug` of [`Reply`] writes for `reply`.
pub uninterp spec fn reply_debug(reply: Reply) -> Seq<char>;

/// `format!` with `{:?}`: the `Debug` text of a reply. The contract claims only
/// that the text is a function of the reply, named [`reply_debug`]; the layout is
/// the one `derive(Debug)` writes.
#[verifier::external_body]
fn reply_debug_text(reply: &Reply) -> (text: String)
    ensures
        text@ == reply_debug(*reply),
{
    format!("{reply:?}")
}

/// An internal error for a reply the driver did not expect; the message ends with the
/// reply's `Debug` text.
pub fn unexpected(reply: &Reply) -> (error: BleError)
    ensures
        error.is_plain(ErrorCode::Internal),
        error.message@ == "the backend answered with an unexpected reply: "@ + reply_debug(*reply),
{
    let mut message = "the backend answered with an unexpected reply: ".to_owned();
    push_text(&mut message, reply_debug_text(reply).as_str());
    BleError::with_message(ErrorCode::Internal, message)
}

pub fn with_delivery(error: BleError, delivery: DeliveryOutcome) -> (result: BleError)
    ensures
        result == (BleError { delivery: Some(delivery), ..error }),
{
    let mut result = error;
    result.delivery = Some(delivery);
    result
}

/// The index of the first service whose UUID normalizes to `uuid`.
pub open spec fn service_index(services: Seq<ServiceInstance>, uuid: Seq<char>) -> int
    decreases services.len(),
{
    if services.len() == 0 {
        -1
    } else {
        let found = service_index(services.drop_last(), uuid);
        if found >= 0 {
            found
        } else if normalized_uuid(services.last().uuid@) == Some(uuid) {
            services.len() - 1
        } else {
            -1
        }
    }
}

/// The index of the first characteristic whose UUID normalizes to `uuid`.
pub open spec fn characteristic_index(list: Seq<CharacteristicInstance>, uuid: Seq<char>) -> int
    decreases list.len(),
{
    if list.len() == 0 {
        -1
    } else {
        let found = characteristic_index(list.drop_last(), uuid);
        if found >= 0 {
            found
        } else if normalized_uuid(list.last().uuid@) == Some(uuid) {
            list.len() - 1
        } else {
            -1
        }
    }
}

/// The handle of the first characteristic whose UUID normalizes to `uuid`.
pub open spec fn characteristic_handle(service: ServiceInstance, uuid: Seq<char>) -> Option<
    Seq<char>,
> {
    let k = characteristic_index(service.characteristics@, uuid);
    if k >= 0 {
        Some(service.characteristics@[k].handle@)
    } else {
        None
    }
}

proof fn lemma_characteristic_index_prefix(list: Seq<CharacteristicInstance>, k: int, uuid: Seq<char>)
    requires
        0 <= k <= list.len(),
        characteristic_index(list.subrange(0, k), uuid) >= 0,
    ensures
        characteristic_index(list, uuid) == characteristic_index(list.subrange(0, k), uuid),
    decreases list.len() - k,
{
    if k < list.len() {
        assert(list.drop_last().subrange(0, k) =~= list.subrange(0, k));
        lemma_characteristic_index_prefix(list.drop_last(), k, uuid);
    } else {
        assert(list.subrange(0, k) =~= list);
    }
}

proof fn lemma_service_index_range(services: Seq<ServiceInstance>, uuid: Seq<char>)
    ensures
        -1 <= service_index(services, uuid) < services.len(),
        service_index(services, uuid) >= 0 ==> normalized_uuid(
            services[service_index(services, uuid)].uuid@,
        ) == Some(uuid),
    decreases services.len(),
{
    if services.len() > 0 {
        lemma_service_index_range(services.drop_last(), uuid);
    }
}

proof fn lemma_service_index_prefix(services: Seq<ServiceInstance>, k: int, uuid: Seq<char>)
    requires
        0 <= k <= services.len(),
        service_index(services.subrange(0, k), uuid) >= 0,
    ensures
        service_index(services, uuid) == service_index(services.subrange(0, k), uuid),
    decreases services.len() - k,
{
    if k < services.len() {
        assert(services.drop_last().subrange(0, k) =~= services.subrange(0, k));
        lemma_service_index_prefix(services.drop_last(), k, uuid);
    } else {
        assert(services.subrange(0, k) =~= services);
    }
}

fn uuid_is(candidate: &String, uuid: &str) -> (same: bool)
    ensures
        same == (normalized_uuid(candidate@) == Some(uuid@)),
{
    match normalize_uuid(candidate.as_str()) {
        Some(n) => crate::text::text_is(n.as_str(), uuid),
        None => false,
    }
}

fn find_service(services: &Vec<ServiceInstance>, uuid: &str) -> (index: Option<usize>)
    ensures
        match index {
            Some(i) => i as int == service_index(services@, uuid@),
            None => service_index(services@, uuid@) == -1,
        },
{
    let mut i: usize = 0;
    assert(services@.subrange(0, 0) =~= Seq::<ServiceInstance>::empty());
    while i < services.len()
        invariant
            i <= services@.len(),
            service_index(services@.subrange(0, i as int), uuid@) == -1,
        decreases services@.len() - i,
    {
        assert(services@.subrange(0, i + 1).drop_last() =~= services@.subrange(0, i as int));
        if uuid_is(&services[i].uuid, uuid) {
            proof {
                lemma_service_index_prefix(services@, i + 1, uuid@);
            }
            return Some(i);
        }
        i = i + 1;
    }
    assert(services@.subrange(0, i as int) =~= services@);
    None
}

fn find_characteristic(service: &ServiceInstance, uuid: &str) -> (handle: BleResult<
    CharacteristicHandle,
>)
    ensures
        match characteristic_handle(*service, uuid@) {
            Some(h) => handle matches Ok(found) && found@ == h,
            None => handle matches Err(e) && e.is_plain(ErrorCode::ProtocolMismatch) && e.message@
                == "the endpoint service lacks a peer characteristic"@,
        },
{
    let list = &service.characteristics;
    let mut k: usize = 0;
    assert(list@.subrange(0, 0) =~= Seq::<CharacteristicInstance>::empty());
    while k < list.len()
        invariant
            *list == service.characteristics,
            k <= list@.len(),
            characteristic_index(list@.subrange(0, k as int), uuid@) == -1,
        decreases list@.len() - k,
    {
        assert(list@.subrange(0, k + 1).drop_last() =~= list@.subrange(0, k as int));
        if uuid_is(&list[k].uuid, uuid) {
            proof {
                lemma_characteristic_index_prefix(list@, k + 1, uuid@);
            }
            return Ok(list[k].handle.duplicate());
        }
        k = k + 1;
    }
    assert(list@.subrange(0, k as int) =~= list@);
    Err(mismatch("the endpoint service lacks a peer characteristic"))
}

/// The Info, RX and TX handles of the endpoint service `service_uuid`.
pub fn peer_characteristics(services: &Vec<ServiceInstance>, service_uuid: &str) -> (handles:
    BleResult<[CharacteristicHandle; 3]>)
    ensures
        service_index(services@, service_uuid@) == -1 ==> (handles matches Err(e) && e.is_plain(
            ErrorCode::ProtocolMismatch,
        ) && e.message@ == "the device does not offer the endpoint service"@),
        service_index(services@, service_uuid@) >= 0 ==> ({
            let service = services@[service_index(services@, service_uuid@)];
            let info = characteristic_handle(service, INFO_CHARACTERISTIC_UUID@);
            let rx = characteristic_handle(service, RX_CHARACTERISTIC_UUID@);
            let tx = characteristic_handle(service, TX_CHARACTERISTIC_UUID@);
            if info is Some && rx is Some && tx is Some {
                handles matches Ok(h) && h[0]@ == info->0 && h[1]@ == rx->0 && h[2]@ == tx->0
            } else {
                handles matches Err(e) && e.is_plain(ErrorCode::ProtocolMismatch) && e.message@
                    == "the endpoint service lacks a peer characteristic"@
            }
        }),
{
    let index = match find_service(services, service_uuid) {
        Some(i) => i,
        None => {
            return Err(mismatch("the device does not offer the endpoint service"));
        },
    };
    proof {
        lemma_service_index_range(services@, service_uuid@);
    }
    let service = &services[index];
    let info = match find_characteristic(service, INFO_CHARACTERISTIC_UUID) {
        Ok(h) => h,
        Err(e) => {
            return Err(e);
        },
    };
    let rx = match find_characteristic(service, RX_CHARACTERISTIC_UUID) {
        Ok(h) => h,
        Err(e) => {
            return Err(e);
        },
    };
    let tx = match find_characteristic(service, TX_CHARACTERISTIC_UUID) {
        Ok(h) => h,
        Err(e) => {
            return Err(e);
        },
    };
    Ok([info, rx, tx])
}

/// The bytes written as decimals separated by `, `.
pub open spec fn byte_list(bytes: Seq<u8>) -> Seq<char>
    decreases bytes.len(),
{
    if bytes.len() == 0 {
        Seq::empty()
    } else if bytes.len() == 1 {
        decimal(bytes[0] as nat)
    } else {
        byte_list(bytes.drop_last()) + ", "@ + decimal(bytes.last() as nat)
    }
}

fn push_byte_list(out: &mut String, bytes: &Vec<u8>)
    ensures
        final(out)@ == old(out)@ + byte_list(bytes@),
{
    let mut i: usize = 0;
    assert(bytes@.subrange(0, 0) =~= Seq::<u8>::empty());
    assert(out@ =~= old(out)@ + byte_list(bytes@.subrange(0, 0)));
    while i < bytes.len()
        invariant
            i <= bytes@.len(),
            out@ == old(out)@ + byte_list(bytes@.subrange(0, i as int)),
        decreases bytes@.len() - i,
    {
        let ghost prefix = bytes@.subrange(0, i + 1);
        assert(prefix.drop_last() =~= bytes@.subrange(0, i as int));
        if i > 0 {
            push_text(out, ", ");
        }
        push_decimal(out, bytes[i] as u64);
        i = i + 1;
        assert(out@ =~= old(out)@ + byte_list(bytes@.subrange(0, i as int)));
    }
    assert(bytes@.subrange(0, i as int) =~= bytes@);
}

/// The message of an Info value that is not the v1 protocol version.
pub open spec fn version_message(value_base64: Seq<char>) -> Seq<char> {
    match standard_base64_decoded(value_base64) {
        Some(version) => "the host speaks protocol version ["@ + byte_list(version) + "], not 1"@,
        None => "the Info value is not base64"@,
    }
}

/// Requires the Info value of a v1 host: the protocol major version.
pub fn check_version(value_base64: &str) -> (checked: BleResult<()>)
    ensures
        checked is Ok <==> standard_base64_decoded(value_base64@) == Some(seq![PROTOCOL_MAJOR]),
        checked matches Err(e) ==> e.is_plain(ErrorCode::ProtocolMismatch) && e.message@
            == version_message(value_base64@),
        standard_base64_decoded(value_base64@) is None ==> (checked matches Err(e) && e.message@
            == "the Info value is not base64"@),
        (standard_base64_decoded(value_base64@) matches Some(version) && version != seq![
            PROTOCOL_MAJOR,
        ]) ==> (checked matches Err(e) && e.message@ == "the host speaks protocol version ["@
            + byte_list(standard_base64_decoded(value_base64@)->0) + "], not 1"@),
{
    let version = match decode_base64(value_base64) {
        Some(bytes) => bytes,
        None => {
            return Err(mismatch("the Info value is not base64"));
        },
    };
    if version.len() == 1 && version[0] == PROTOCOL_MAJOR {
        assert(version@ =~= seq![PROTOCOL_MAJOR]);
        Ok(())
    } else {
        let mut message = "the host speaks protocol version [".to_owned();
        push_byte_list(&mut message, &version);
        push_text(&mut message, "], not 1");
        Err(BleError::with_message(ErrorCode::ProtocolMismatch, message))
    }
}

fn local_characteristic(
    key: &str,
    uuid: &str,
    properties: CharacteristicProperties,
    initial: Option<String>,
    max: u32,
) -> (c: LocalCharacteristic)
    ensures
        c.instance_key@ == key@,
        c.uuid@ == uuid@,
        c.properties == properties,
        c.initial_value_base64 == initial,
        c.max_value_length == max,
{
    LocalCharacteristic {
        instance_key: key.to_owned(),
        uuid: uuid.to_owned(),
        properties,
        initial_value_base64: initial,
        max_value_length: max,
    }
}

/// No property set.
pub open spec fn no_properties() -> CharacteristicProperties {
    CharacteristicProperties {
        read: false,
        write: false,
        write_without_response: false,
        notify: false,
        indicate: false,
    }
}

/// The peer service a host registers: a readable Info value holding the protocol
/// version, a writable RX and a notifying TX.
pub fn server_definition(service_uuid: &str) -> (definition: ServerDefinition)
    ensures
        definition.services@.len() == 1,
        ({
            let s = definition.services@[0];
            &&& s.instance_key@ == SERVICE_KEY@
            &&& s.uuid@ == service_uuid@
            &&& s.primary
            &&& s.characteristics@.len() == 3
            &&& s.characteristics@[0].instance_key@ == "info"@
            &&& s.characteristics@[0].uuid@ == INFO_CHARACTERISTIC_UUID@
            &&& s.characteristics@[0].properties == (CharacteristicProperties {
                read: true,
                ..no_properties()
            })
            &&& s.characteristics@[0].initial_value_base64 matches Some(v) && v@
                == standard_base64_encoded(seq![PROTOCOL_MAJOR])
            &&& s.characteristics@[0].max_value_length == 1
            &&& s.characteristics@[1].instance_key@ == "rx"@
            &&& s.characteristics@[1].uuid@ == RX_CHARACTERISTIC_UUID@
            &&& s.characteristics@[1].properties == (CharacteristicProperties {
                write: true,
                ..no_properties()
            })
            &&& s.characteristics@[1].initial_value_base64 is None
            &&& s.characteristics@[1].max_value_length == ATTRIBUTE_VALUE_MAX
            &&& s.characteristics@[2].instance_key@ == "tx"@
            &&& s.characteristics@[2].uuid@ == TX_CHARACTERISTIC_UUID@
            &&& s.characteristics@[2].properties == (CharacteristicProperties {
                notify: true,
                ..no_properties()
            })
            &&& s.characteristics@[2].initial_value_base64 is None
            &&& s.characteristics@[2].max_value_length == ATTRIBUTE_VALUE_MAX
        }),
{
    let version = [PROTOCOL_MAJOR];
    assert(version@ =~= seq![PROTOCOL_MAJOR]);
    let info = local_characteristic(
        "info",
        INFO_CHARACTERISTIC_UUID,
        CharacteristicProperties {
            read: true,
            write: false,
            write_without_response: false,
            notify: false,
            indicate: false,
        },
        Some(encode_base64(&version)),
        1,
    );
    let rx = local_characteristic(
        "rx",
        RX_CHARACTERISTIC_UUID,
        CharacteristicProperties {
            read: false,
            write: true,
            write_without_response: false,
            notify: false,
            indicate: false,
        },
        None,
        ATTRIBUTE_VALUE_MAX,
    );
    let tx = local_characteristic(
        "tx",
        TX_CHARACTERISTIC_UUID,
        CharacteristicProperties {
            read: false,
            write: false,
            write_without_response: false,
            notify: true,
            indicate: false,
        },
        None,
        ATTRIBUTE_VALUE_MAX,
    );
    let mut characteristics: Vec<LocalCharacteristic> = Vec::new();
    characteristics.push(info);
    characteristics.push(rx);
    characteristics.push(tx);
    let mut services: Vec<LocalService> = Vec::new();
    services.push(
        LocalService {
            instance_key: SERVICE_KEY.to_owned(),
            uuid: service_uuid.to_owned(),
            primary: true,
            characteristics,
        },
    );
    ServerDefinition { services }
}

/// What a ready peer does with a frame it received.
#[derive(Debug, PartialEq, Eq)]
pub enum FrameEffect {
    /// Nothing to do: a fragment of a partial message, a refused frame (the sender
    /// retransmits it), or a handshake frame.
    Nothing,
    /// A complete message: it goes to the webview, and its ACK goes out.
    Deliver { payload: Vec<u8>, ack: Vec<u8> },
    /// A message delivered before arrived again: only its ACK goes out.
    Reack { ack: Vec<u8> },
    /// The message in flight was acknowledged: its sender learns so.
    Acknowledged { message_id: u32 },
    /// The other side closed the peer.
    Closed,
}

/// The effect of a frame, by view.
pub enum EffectView {
    Nothing,
    Deliver { payload: Seq<u8>, ack: Seq<u8> },
    Reack { ack: Seq<u8> },
    Acknowledged { message_id: u32 },
    Closed,
}

impl View for FrameEffect {
    type V = EffectView;

    open spec fn view(&self) -> EffectView {
        match self {
            FrameEffect::Nothing => EffectView::Nothing,
            FrameEffect::Deliver { payload, ack } => EffectView::Deliver {
                payload: payload@,
                ack: ack@,
            },
            FrameEffect::Reack { ack } => EffectView::Reack { ack: ack@ },
            FrameEffect::Acknowledged { message_id } => EffectView::Acknowledged {
                message_id: *message_id,
            },
            FrameEffect::Closed => EffectView::Closed,
        }
    }
}

/// The receiver after the message at the front of its queue was taken.
pub open spec fn taken(v: ReceiverView) -> ReceiverView {
    if v.completed.len() == 0 {
        v
    } else {
        ReceiverView {
            completed: v.completed.subrange(1, v.completed.len() as int),
            complete_queue_bytes: v.complete_queue_bytes - v.completed[0].1.len(),
            ..v
        }
    }
}

/// The receiver, sender and effect after a ready peer takes a frame of `kind`.
pub open spec fn frame_step(
    receiver: ReceiverView,
    sender: SenderView,
    kind: FrameKind,
    message_id: u32,
    bytes: Seq<u8>,
    now: u64,
) -> (ReceiverView, SenderView, EffectView) {
    match kind {
        FrameKind::Data => {
            let (next, outcome) = receive_step(receiver, bytes, now);
            match outcome {
                Ok(ActionView::Message { payload, ack, .. }) => (
                    taken(next),
                    sender,
                    EffectView::Deliver { payload, ack },
                ),
                Ok(ActionView::DuplicateAck { ack, .. }) => (next, sender, EffectView::Reack { ack }),
                _ => (next, sender, EffectView::Nothing),
            }
        },
        FrameKind::Ack => match sender.pending {
            Some(p) if p.message.0 == message_id => (
                receiver,
                SenderView { pending: None, ..sender },
                EffectView::Acknowledged { message_id },
            ),
            _ => (receiver, sender, EffectView::Nothing),
        },
        FrameKind::Close => (receiver, sender, EffectView::Closed),
        _ => (receiver, sender, EffectView::Nothing),
    }
}

/// Applies a DATA, ACK or CLOSE frame of a ready peer to its receiver and sender.
/// A DATA frame goes through the receiver; a message it completes leaves the queue at
/// once, since the webview receives it now. An ACK settles the message in flight.
pub fn on_peer_frame(
    kind: FrameKind,
    message_id: u32,
    bytes: &[u8],
    now_ms: u64,
    receiver: &mut Receiver,
    sender: &mut Sender,
) -> (effect: FrameEffect)
    requires
        old(receiver).well_formed(),
        old(sender).well_formed(),
    ensures
        final(receiver).well_formed(),
        final(sender).well_formed(),
        (final(receiver)@, final(sender)@, effect@) == frame_step(
            old(receiver)@,
            old(sender)@,
            kind,
            message_id,
            bytes@,
            now_ms,
        ),
        match kind {
            FrameKind::Data => {
                let (next, outcome) = receive_step(old(receiver)@, bytes@, now_ms);
                &&& final(sender)@ == old(sender)@
                &&& match outcome {
                    Ok(ActionView::Message { payload, ack, .. }) => effect@ == EffectView::Deliver {
                        payload,
                        ack,
                    } && final(receiver)@ == taken(next),
                    Ok(ActionView::DuplicateAck { ack, .. }) => effect@ == EffectView::Reack { ack }
                        && final(receiver)@ == next,
                    _ => effect@ == EffectView::Nothing && final(receiver)@ == next,
                }
            },
            FrameKind::Ack => {
                &&& final(receiver)@ == old(receiver)@
                &&& match old(sender)@.pending {
                    Some(p) if p.message.0 == message_id => effect@ == EffectView::Acknowledged {
                        message_id,
                    } && final(sender)@ == (SenderView { pending: None, ..old(sender)@ }),
                    _ => effect@ == EffectView::Nothing && final(sender)@ == old(sender)@,
                }
            },
            FrameKind::Close => effect@ == EffectView::Closed && final(receiver)@ == old(
                receiver,
            )@ && final(sender)@ == old(sender)@,
            _ => effect@ == EffectView::Nothing && final(receiver)@ == old(receiver)@
                && final(sender)@ == old(sender)@,
        },
{
    match kind {
        FrameKind::Data => match receiver.receive_at(bytes, now_ms) {
            Ok(ReceiveAction::Message { payload, ack, .. }) => {
                let _ = receiver.pop_message();
                FrameEffect::Deliver { payload, ack }
            },
            Ok(ReceiveAction::DuplicateAck { ack, .. }) => FrameEffect::Reack { ack },
            _ => FrameEffect::Nothing,
        },
        FrameKind::Ack => match sender.acknowledge(message_id) {
            Ok(SendAction::Acknowledged { message_id }) => FrameEffect::Acknowledged { message_id },
            _ => FrameEffect::Nothing,
        },
        FrameKind::Close => FrameEffect::Closed,
        _ => FrameEffect::Nothing,
    }
}

/// What a pending send of a peer that closes learns: the message in flight may have
/// arrived, the others were never sent.
pub fn closed_delivery(in_flight: Option<u32>, message_id: u32) -> (delivery: DeliveryOutcome)
    ensures
        delivery == if in_flight == Some(message_id) {
            DeliveryOutcome::Unknown
        } else {
            DeliveryOutcome::NotSubmitted
        },
{
    match in_flight {
        Some(id) => if id == message_id {
            DeliveryOutcome::Unknown
        } else {
            DeliveryOutcome::NotSubmitted
        },
        None => DeliveryOutcome::NotSubmitted,
    }
}

} // verus!
