//! The v1 frame: a 14-byte little-endian header and a fragment payload.

use vstd::prelude::*;
use vstd::slice::{slice_subrange, slice_to_vec};

use crate::error::{BleError, BleResult, ErrorCode};

verus! {

pub const PROTOCOL_MAJOR: u8 = 1;

pub const HEADER_LEN: usize = 14;

#[derive(Clone, Copy, Debug, PartialEq, Eq, Hash, Structural)]
pub enum FrameKind {
    Hello,
    HelloAck,
    Data,
    Ack,
    Close,
}

/// The wire byte of a frame kind.
pub open spec fn kind_byte(kind: FrameKind) -> u8 {
    match kind {
        FrameKind::Hello => 1,
        FrameKind::HelloAck => 2,
        FrameKind::Data => 3,
        FrameKind::Ack => 4,
        FrameKind::Close => 5,
    }
}

/// The frame kind of a wire byte, if it names one.
pub open spec fn kind_of_byte(byte: u8) -> Option<FrameKind> {
    if byte == 1 {
        Some(FrameKind::Hello)
    } else if byte == 2 {
        Some(FrameKind::HelloAck)
    } else if byte == 3 {
        Some(FrameKind::Data)
    } else if byte == 4 {
        Some(FrameKind::Ack)
    } else if byte == 5 {
        Some(FrameKind::Close)
    } else {
        None
    }
}

impl FrameKind {
    pub fn to_byte(self) -> (byte: u8)
        ensures
            byte == kind_byte(self),
    {
        match self {
            FrameKind::Hello => 1,
            FrameKind::HelloAck => 2,
            FrameKind::Data => 3,
            FrameKind::Ack => 4,
            FrameKind::Close => 5,
        }
    }

    /// The kind of a wire byte; any other byte is a protocol mismatch.
    pub fn try_from_byte(value: u8) -> (kind: BleResult<FrameKind>)
        ensures
            kind matches Ok(k) ==> kind_of_byte(value) == Some(k),
            kind matches Err(e) ==> kind_of_byte(value) is None && e.is_plain(
                ErrorCode::ProtocolMismatch,
            ) && e.message@ == "unknown v1 frame kind"@,
    {
        match value {
            1 => Ok(FrameKind::Hello),
            2 => Ok(FrameKind::HelloAck),
            3 => Ok(FrameKind::Data),
            4 => Ok(FrameKind::Ack),
            5 => Ok(FrameKind::Close),
            _ => Err(BleError::new(ErrorCode::ProtocolMismatch, "unknown v1 frame kind")),
        }
    }
}

/// The little-endian bytes of a 16-bit value.
pub open spec fn le_u16(value: u16) -> Seq<u8> {
    seq![(value % 256) as u8, (value / 256) as u8]
}

/// The little-endian bytes of a 32-bit value.
pub open spec fn le_u32(value: u32) -> Seq<u8> {
    seq![
        (value % 256) as u8,
        ((value / 256) % 256) as u8,
        ((value / 65536) % 256) as u8,
        (value / 16777216) as u8,
    ]
}

/// The 16-bit value of two little-endian bytes.
pub open spec fn u16_of_le(b0: u8, b1: u8) -> u16 {
    (b0 + b1 * 256) as u16
}

/// The 32-bit value of four little-endian bytes.
pub open spec fn u32_of_le(b0: u8, b1: u8, b2: u8, b3: u8) -> u32 {
    (b0 + b1 * 256 + b2 * 65536 + b3 * 16777216) as u32
}

/// The mathematical content of a frame.
pub struct FrameModel {
    pub kind: FrameKind,
    pub message_id: u32,
    pub fragment_index: u16,
    pub fragment_count: u16,
    pub total_length: u32,
    pub payload: Seq<u8>,
}

impl FrameModel {
    /// The first v1 rule the frame breaks, as its error code; `None` for a valid frame.
    pub open spec fn validation_error(self, max_logical_size: int) -> Option<ErrorCode> {
        let plen = self.payload.len();
        if self.fragment_count == 0 || self.fragment_index >= self.fragment_count {
            Some(ErrorCode::ProtocolMismatch)
        } else if self.total_length > max_logical_size {
            Some(ErrorCode::PayloadTooLarge)
        } else if plen > self.total_length {
            Some(ErrorCode::ProtocolMismatch)
        } else if self.kind != FrameKind::Ack && self.total_length == 0 && (self.fragment_count != 1
            || self.fragment_index != 0 || plen != 0) {
            Some(ErrorCode::ProtocolMismatch)
        } else if self.kind != FrameKind::Ack && self.total_length > 0 && (plen == 0
            || self.fragment_count > self.total_length) {
            Some(ErrorCode::ProtocolMismatch)
        } else if self.kind == FrameKind::Data && self.message_id == 0 {
            Some(ErrorCode::ProtocolMismatch)
        } else if self.kind == FrameKind::Ack && (self.message_id == 0 || self.fragment_index != 0
            || self.fragment_count != 1 || self.total_length != 0 || plen != 0) {
            Some(ErrorCode::ProtocolMismatch)
        } else if (self.kind == FrameKind::Hello || self.kind == FrameKind::HelloAck || self.kind
            == FrameKind::Close) && self.message_id != 0 {
            Some(ErrorCode::ProtocolMismatch)
        } else {
            None
        }
    }

    /// The message of the first rule the frame breaks, in the order of
    /// [`FrameModel::validation_error`].
    pub open spec fn validation_message(self, max_logical_size: int) -> Seq<char> {
        let plen = self.payload.len();
        if self.fragment_count == 0 || self.fragment_index >= self.fragment_count {
            "invalid fragment index or count"@
        } else if self.total_length > max_logical_size {
            "logical payload exceeds configured maximum"@
        } else if plen > self.total_length {
            "fragment payload exceeds the declared logical length"@
        } else if self.kind != FrameKind::Ack && self.total_length == 0 && (self.fragment_count != 1
            || self.fragment_index != 0 || plen != 0) {
            "empty messages must use one header-only frame"@
        } else if self.kind != FrameKind::Ack && self.total_length > 0 && (plen == 0
            || self.fragment_count > self.total_length) {
            "fragment count or payload is impossible for the declared length"@
        } else if self.kind == FrameKind::Data {
            "DATA message IDs must be nonzero"@
        } else if self.kind == FrameKind::Ack {
            "ACK must contain a nonzero ID and no payload"@
        } else {
            "control message IDs must be zero"@
        }
    }

    /// The 14 header bytes.
    pub open spec fn header(self) -> Seq<u8> {
        seq![PROTOCOL_MAJOR, kind_byte(self.kind)] + le_u32(self.message_id) + le_u16(
            self.fragment_index,
        ) + le_u16(self.fragment_count) + le_u32(self.total_length)
    }

    /// The wire form: the header, then the payload.
    pub open spec fn bytes(self) -> Seq<u8> {
        self.header() + self.payload
    }
}

/// The header fields that `bytes` carries, with `kind` for its kind byte.
pub open spec fn model_of_bytes(bytes: Seq<u8>, kind: FrameKind) -> FrameModel {
    FrameModel {
        kind,
        message_id: u32_of_le(bytes[2], bytes[3], bytes[4], bytes[5]),
        fragment_index: u16_of_le(bytes[6], bytes[7]),
        fragment_count: u16_of_le(bytes[8], bytes[9]),
        total_length: u32_of_le(bytes[10], bytes[11], bytes[12], bytes[13]),
        payload: bytes.subrange(14, bytes.len() as int),
    }
}

/// What decoding `bytes` under `max_logical_size` gives: the frame, or the error code.
pub open spec fn decode_model(bytes: Seq<u8>, max_logical_size: int) -> Result<
    FrameModel,
    ErrorCode,
> {
    if bytes.len() < 14 {
        Err(ErrorCode::ProtocolMismatch)
    } else if bytes.len() - 14 > max_logical_size {
        Err(ErrorCode::PayloadTooLarge)
    } else if bytes[0] != PROTOCOL_MAJOR {
        Err(ErrorCode::ProtocolMismatch)
    } else {
        match kind_of_byte(bytes[1]) {
            None => Err(ErrorCode::ProtocolMismatch),
            Some(kind) => {
                let model = model_of_bytes(bytes, kind);
                match model.validation_error(max_logical_size) {
                    Some(code) => Err(code),
                    None => Ok(model),
                }
            },
        }
    }
}

/// The message of the first check that `bytes` fails, in the order of [`decode_model`].
pub open spec fn decode_message(bytes: Seq<u8>, max_logical_size: int) -> Seq<char> {
    if bytes.len() < 14 {
        "frame is shorter than the 14-byte header"@
    } else if bytes.len() - 14 > max_logical_size {
        "fragment payload exceeds the logical allocation ceiling"@
    } else if bytes[0] != PROTOCOL_MAJOR {
        "unsupported protocol major"@
    } else {
        match kind_of_byte(bytes[1]) {
            None => "unknown v1 frame kind"@,
            Some(kind) => model_of_bytes(bytes, kind).validation_message(max_logical_size),
        }
    }
}

/// The acknowledgement of `message_id`.
pub open spec fn ack_model(message_id: u32) -> FrameModel {
    FrameModel {
        kind: FrameKind::Ack,
        message_id,
        fragment_index: 0,
        fragment_count: 1,
        total_length: 0,
        payload: Seq::empty(),
    }
}

#[derive(Clone, Debug, PartialEq, Eq)]
pub struct Frame {
    pub kind: FrameKind,
    pub message_id: u32,
    pub fragment_index: u16,
    pub fragment_count: u16,
    pub total_length: u32,
    pub payload: Vec<u8>,
}

impl View for Frame {
    type V = FrameModel;

    open spec fn view(&self) -> FrameModel {
        FrameModel {
            kind: self.kind,
            message_id: self.message_id,
            fragment_index: self.fragment_index,
            fragment_count: self.fragment_count,
            total_length: self.total_length,
            payload: self.payload@,
        }
    }
}

fn push_le_u16(bytes: &mut Vec<u8>, value: u16)
    ensures
        final(bytes)@ == old(bytes)@ + le_u16(value),
{
    bytes.push((value % 256) as u8);
    bytes.push((value / 256) as u8);
}

fn push_le_u32(bytes: &mut Vec<u8>, value: u32)
    ensures
        final(bytes)@ == old(bytes)@ + le_u32(value),
{
    bytes.push((value % 256) as u8);
    bytes.push(((value / 256) % 256) as u8);
    bytes.push(((value / 65536) % 256) as u8);
    bytes.push((value / 16777216) as u8);
}

fn read_u16(bytes: &[u8], at: usize) -> (value: u16)
    requires
        at + 2 <= bytes@.len(),
    ensures
        value == u16_of_le(bytes@[at as int], bytes@[at + 1]),
{
    (bytes[at] as u16) + (bytes[at + 1] as u16) * 256
}

fn read_u32(bytes: &[u8], at: usize) -> (value: u32)
    requires
        at + 4 <= bytes@.len(),
    ensures
        value == u32_of_le(bytes@[at as int], bytes@[at + 1], bytes@[at + 2], bytes@[at + 3]),
{
    (bytes[at] as u32) + (bytes[at + 1] as u32) * 256 + (bytes[at + 2] as u32) * 65536 + (bytes[at
        + 3] as u32) * 16777216
}

impl Frame {
    /// Decodes and validates a protocol frame within the configured allocation limit.
    pub fn decode(bytes: &[u8], max_logical_size: usize) -> (frame: BleResult<Frame>)
        ensures
            frame is Ok <==> decode_model(bytes@, max_logical_size as int) is Ok,
            frame matches Ok(f) ==> decode_model(bytes@, max_logical_size as int) == Ok::<
                FrameModel,
                ErrorCode,
            >(f@),
            frame matches Err(e) ==> decode_model(bytes@, max_logical_size as int) == Err::<
                FrameModel,
                ErrorCode,
            >(e.code)
                && e.message@ == decode_message(bytes@, max_logical_size as int)
                && e.operation_id is None && e.resource_id is None && e.delivery is None
                && e.native_code is None,
    {
        if bytes.len() < HEADER_LEN {
            return Err(
                BleError::new(
                    ErrorCode::ProtocolMismatch,
                    "frame is shorter than the 14-byte header",
                ),
            );
        }
        if bytes.len() - HEADER_LEN > max_logical_size {
            return Err(
                BleError::new(
                    ErrorCode::PayloadTooLarge,
                    "fragment payload exceeds the logical allocation ceiling",
                ),
            );
        }
        if bytes[0] != PROTOCOL_MAJOR {
            return Err(BleError::new(ErrorCode::ProtocolMismatch, "unsupported protocol major"));
        }
        let kind = FrameKind::try_from_byte(bytes[1])?;
        let message_id = read_u32(bytes, 2);
        let fragment_index = read_u16(bytes, 6);
        let fragment_count = read_u16(bytes, 8);
        let total_length = read_u32(bytes, 10);
        let payload = slice_to_vec(slice_subrange(bytes, HEADER_LEN, bytes.len()));
        let frame = Frame { kind, message_id, fragment_index, fragment_count, total_length, payload };
        assert(frame@ == model_of_bytes(bytes@, kind));
        frame.validate(max_logical_size)?;
        Ok(frame)
    }

    /// Validates and encodes this frame using the v1 wire representation.
    pub fn encode(&self, max_logical_size: usize) -> (bytes: BleResult<Vec<u8>>)
        ensures
            bytes is Ok <==> self@.validation_error(max_logical_size as int) is None,
            bytes matches Ok(b) ==> b@ == self@.bytes(),
            bytes matches Err(e) ==> Some(e.code) == self@.validation_error(
                max_logical_size as int,
            ) && e.message@ == self@.validation_message(max_logical_size as int)
                && e.operation_id is None && e.resource_id is None && e.delivery is None
                && e.native_code is None,
    {
        self.validate(max_logical_size)?;
        let mut bytes: Vec<u8> = Vec::new();
        bytes.push(PROTOCOL_MAJOR);
        bytes.push(self.kind.to_byte());
        push_le_u32(&mut bytes, self.message_id);
        push_le_u16(&mut bytes, self.fragment_index);
        push_le_u16(&mut bytes, self.fragment_count);
        push_le_u32(&mut bytes, self.total_length);
        assert(bytes@ == self@.header());
        let ghost header = bytes@;
        bytes.extend_from_slice(self.payload.as_slice());
        assert(bytes@ =~= header + self.payload@);
        Ok(bytes)
    }

    /// Checks the v1 rules; the error is the first rule the frame breaks.
    pub fn validate(&self, max_logical_size: usize) -> (valid: BleResult<()>)
        ensures
            valid is Ok <==> self@.validation_error(max_logical_size as int) is None,
            valid matches Err(e) ==> Some(e.code) == self@.validation_error(
                max_logical_size as int,
            ) && e.message@ == self@.validation_message(max_logical_size as int)
                && e.operation_id is None && e.resource_id is None && e.delivery is None
                && e.native_code is None,
    {
        let plen = self.payload.len();
        if self.fragment_count == 0 || self.fragment_index >= self.fragment_count {
            return Err(
                BleError::new(ErrorCode::ProtocolMismatch, "invalid fragment index or count"),
            );
        }
        if self.total_length as usize > max_logical_size {
            return Err(
                BleError::new(
                    ErrorCode::PayloadTooLarge,
                    "logical payload exceeds configured maximum",
                ),
            );
        }
        if plen > self.total_length as usize {
            return Err(
                BleError::new(
                    ErrorCode::ProtocolMismatch,
                    "fragment payload exceeds the declared logical length",
                ),
            );
        }
        let is_ack = match self.kind {
            FrameKind::Ack => true,
            _ => false,
        };
        if !is_ack {
            if self.total_length == 0 && (self.fragment_count != 1 || self.fragment_index != 0
                || plen != 0) {
                return Err(
                    BleError::new(
                        ErrorCode::ProtocolMismatch,
                        "empty messages must use one header-only frame",
                    ),
                );
            }
            if self.total_length > 0 && (plen == 0 || (self.fragment_count as u32)
                > self.total_length) {
                return Err(
                    BleError::new(
                        ErrorCode::ProtocolMismatch,
                        "fragment count or payload is impossible for the declared length",
                    ),
                );
            }
        }
        match self.kind {
            FrameKind::Data => {
                if self.message_id == 0 {
                    return Err(
                        BleError::new(
                            ErrorCode::ProtocolMismatch,
                            "DATA message IDs must be nonzero",
                        ),
                    );
                }
            },
            FrameKind::Ack => {
                if self.message_id == 0 || self.fragment_index != 0 || self.fragment_count != 1
                    || self.total_length != 0 || plen != 0 {
                    return Err(
                        BleError::new(
                            ErrorCode::ProtocolMismatch,
                            "ACK must contain a nonzero ID and no payload",
                        ),
                    );
                }
            },
            _ => {
                if self.message_id != 0 {
                    return Err(
                        BleError::new(
                            ErrorCode::ProtocolMismatch,
                            "control message IDs must be zero",
                        ),
                    );
                }
            },
        }
        Ok(())
    }

    pub fn ack(message_id: u32) -> (frame: Frame)
        ensures
            frame@ == ack_model(message_id),
    {
        Frame {
            kind: FrameKind::Ack,
            message_id,
            fragment_index: 0,
            fragment_count: 1,
            total_length: 0,
            payload: Vec::new(),
        }
    }
}

/// How many fragments carry `len` bytes at `chunk` bytes each: one for an empty payload.
pub open spec fn fragment_count_of(len: int, chunk: int) -> int {
    if len == 0 {
        1
    } else {
        len / chunk + if len % chunk == 0 {
            0int
        } else {
            1int
        }
    }
}

/// The message of the first rule that a fragmentation breaks, in the order of
/// [`fragment_error`].
pub open spec fn fragment_message(
    kind: FrameKind,
    message_id: u32,
    len: int,
    value_limit: int,
    max_logical_size: int,
) -> Seq<char> {
    if value_limit < 14 {
        "characteristic value limit is below the 14-byte protocol header"@
    } else if len > max_logical_size {
        "logical payload exceeds configured maximum"@
    } else if len > u32::MAX {
        "logical payload exceeds the v1 length field"@
    } else if kind == FrameKind::Ack {
        "ACK must contain a nonzero ID and no payload"@
    } else if len > 0 && value_limit == 14 {
        "characteristic value limit leaves no room for payload"@
    } else if fragment_count_of(len, value_limit - 14) > u16::MAX {
        "payload requires more than u16::MAX fragments"@
    } else if kind == FrameKind::Data {
        "DATA message IDs must be nonzero"@
    } else {
        "control message IDs must be zero"@
    }
}

/// Fragment `index` of `payload` cut into `chunk`-byte pieces.
pub open spec fn fragment_model(
    kind: FrameKind,
    message_id: u32,
    payload: Seq<u8>,
    chunk: int,
    index: int,
) -> FrameModel {
    let len = payload.len() as int;
    let start = index * chunk;
    let end = if len - start > chunk {
        start + chunk
    } else {
        len
    };
    FrameModel {
        kind,
        message_id,
        fragment_index: index as u16,
        fragment_count: fragment_count_of(len, chunk) as u16,
        total_length: len as u32,
        payload: payload.subrange(start, end),
    }
}

/// Why `fragment` refuses a payload of `len` bytes, as its error code; `None` when it succeeds.
pub open spec fn fragment_error(
    kind: FrameKind,
    message_id: u32,
    len: int,
    value_limit: int,
    max_logical_size: int,
) -> Option<ErrorCode> {
    if value_limit < 14 {
        Some(ErrorCode::Unsupported)
    } else if len > max_logical_size {
        Some(ErrorCode::PayloadTooLarge)
    } else if len > u32::MAX {
        Some(ErrorCode::PayloadTooLarge)
    } else if kind == FrameKind::Ack {
        if message_id == 0 {
            Some(ErrorCode::ProtocolMismatch)
        } else {
            None
        }
    } else if len > 0 && value_limit == 14 {
        Some(ErrorCode::Unsupported)
    } else if fragment_count_of(len, value_limit - 14) > u16::MAX {
        Some(ErrorCode::PayloadTooLarge)
    } else if kind == FrameKind::Data && message_id == 0 {
        Some(ErrorCode::ProtocolMismatch)
    } else if kind != FrameKind::Data && message_id != 0 {
        Some(ErrorCode::ProtocolMismatch)
    } else {
        None
    }
}

proof fn lemma_fragment_arith(len: int, chunk: int, q: int, r: int, i: int)
    by (nonlinear_arith)
    requires
        len > 0,
        chunk >= 1,
        len == q * chunk + r,
        0 <= r < chunk,
        0 <= i < q + if r == 0 {
            0int
        } else {
            1int
        },
    ensures
        0 <= i * chunk < len,
        1 <= q + (if r == 0 {
            0int
        } else {
            1int
        }),
        q + (if r == 0 {
            0int
        } else {
            1int
        }) <= len,
        q >= 0,
{
}

proof fn lemma_count_positive(len: int, chunk: int)
    requires
        len >= 0,
        chunk >= 1,
    ensures
        fragment_count_of(len, chunk) >= 1,
{
    if len > 0 {
        vstd::arithmetic::div_mod::lemma_fundamental_div_mod(len, chunk);
        let q = len / chunk;
        let r = len % chunk;
        if r == 0 {
            assert(q >= 1) by (nonlinear_arith)
                requires
                    len == chunk * q + r,
                    r == 0,
                    len > 0,
                    chunk >= 1,
            ;
        }
    }
}

/// Each fragment of a payload that `fragment` accepts is a valid frame.
proof fn lemma_fragment_valid(
    kind: FrameKind,
    message_id: u32,
    payload: Seq<u8>,
    chunk: int,
    index: int,
    max_logical_size: int,
)
    requires
        kind != FrameKind::Ack,
        chunk >= 1 || payload.len() == 0,
        chunk >= 0,
        payload.len() <= max_logical_size,
        payload.len() <= u32::MAX,
        fragment_count_of(payload.len() as int, chunk) <= u16::MAX,
        0 <= index < fragment_count_of(payload.len() as int, chunk),
    ensures
        fragment_model(kind, message_id, payload, chunk, index).validation_error(
            max_logical_size,
        ) == if (kind == FrameKind::Data && message_id == 0) || (kind != FrameKind::Data
            && message_id != 0) {
            Some(ErrorCode::ProtocolMismatch)
        } else {
            None
        },
        fragment_model(kind, message_id, payload, chunk, index).validation_message(
            max_logical_size,
        ) == if kind == FrameKind::Data {
            "DATA message IDs must be nonzero"@
        } else {
            "control message IDs must be zero"@
        },
        0 <= index * chunk <= payload.len(),
        fragment_count_of(payload.len() as int, chunk) >= 1,
{
    let len = payload.len() as int;
    if len > 0 {
        vstd::arithmetic::div_mod::lemma_fundamental_div_mod(len, chunk);
        lemma_fragment_arith(len, chunk, len / chunk, len % chunk, index);
    } else {
        assert(index == 0);
        assert(index * chunk == 0) by (nonlinear_arith)
            requires
                index == 0,
        ;
    }
}

/// Splits a logical payload into validated frames for a characteristic value limit.
pub fn fragment(
    kind: FrameKind,
    message_id: u32,
    payload: &[u8],
    value_limit: usize,
    max_logical_size: usize,
) -> (frames: BleResult<Vec<Vec<u8>>>)
    ensures
        frames is Err <==> fragment_error(
            kind,
            message_id,
            payload@.len() as int,
            value_limit as int,
            max_logical_size as int,
        ) is Some,
        frames matches Err(e) ==> Some(e.code) == fragment_error(
            kind,
            message_id,
            payload@.len() as int,
            value_limit as int,
            max_logical_size as int,
        ) && e.message@ == fragment_message(
            kind,
            message_id,
            payload@.len() as int,
            value_limit as int,
            max_logical_size as int,
        ) && e.operation_id is None && e.resource_id is None && e.delivery is None
                && e.native_code is None,
        kind == FrameKind::Ack ==> (frames matches Ok(fs) ==> fs@.len() == 1 && fs@[0]@
            == ack_model(message_id).bytes()),
        kind != FrameKind::Ack ==> (frames matches Ok(fs) ==> fs@.len() == fragment_count_of(
            payload@.len() as int,
            value_limit - 14,
        ) && forall|i: int|
            0 <= i < fs@.len() ==> #[trigger] fs@[i]@ == fragment_model(
                kind,
                message_id,
                payload@,
                value_limit - 14,
                i,
            ).bytes()),
{
    if value_limit < HEADER_LEN {
        return Err(
            BleError::new(
                ErrorCode::Unsupported,
                "characteristic value limit is below the 14-byte protocol header",
            ),
        );
    }
    let len = payload.len();
    if len > max_logical_size {
        return Err(
            BleError::new(ErrorCode::PayloadTooLarge, "logical payload exceeds configured maximum"),
        );
    }
    if len > 4294967295 {
        return Err(
            BleError::new(ErrorCode::PayloadTooLarge, "logical payload exceeds the v1 length field"),
        );
    }
    let total_length = len as u32;
    if kind == FrameKind::Ack {
        let ack = Frame::ack(message_id).encode(max_logical_size)?;
        let mut frames: Vec<Vec<u8>> = Vec::new();
        frames.push(ack);
        return Ok(frames);
    }
    let chunk = value_limit - HEADER_LEN;
    if len > 0 && chunk == 0 {
        return Err(
            BleError::new(
                ErrorCode::Unsupported,
                "characteristic value limit leaves no room for payload",
            ),
        );
    }
    let whole: usize = if len == 0 {
        0
    } else {
        len / chunk
    };
    let count: usize = if len == 0 {
        1
    } else if whole > 65535 {
        65536
    } else if len % chunk == 0 {
        whole
    } else {
        whole + 1
    };
    if count > 65535 {
        return Err(
            BleError::new(
                ErrorCode::PayloadTooLarge,
                "payload requires more than u16::MAX fragments",
            ),
        );
    }
    proof {
        if len > 0 {
            lemma_count_positive(len as int, chunk as int);
        }
    }
    let fragment_count = count as u16;
    let mut frames: Vec<Vec<u8>> = Vec::new();
    let mut index: usize = 0;
    while index < count
        invariant
            kind != FrameKind::Ack,
            len == payload@.len(),
            chunk == value_limit - 14,
            len > 0 ==> chunk >= 1,
            len <= max_logical_size,
            len <= u32::MAX,
            total_length == len,
            count == fragment_count_of(len as int, chunk as int),
            count <= u16::MAX,
            fragment_count == count,
            index > 0 ==> !((kind == FrameKind::Data && message_id == 0) || (kind
                != FrameKind::Data && message_id != 0)),
            index <= count,
            frames@.len() == index,
            forall|i: int|
                0 <= i < index ==> #[trigger] frames@[i]@ == fragment_model(
                    kind,
                    message_id,
                    payload@,
                    chunk as int,
                    i,
                ).bytes(),
        decreases count - index,
    {
        proof {
            lemma_fragment_valid(
                kind,
                message_id,
                payload@,
                chunk as int,
                index as int,
                max_logical_size as int,
            );
        }
        let start = index * chunk;
        let end = if len - start > chunk {
            start + chunk
        } else {
            len
        };
        let frame = Frame {
            kind,
            message_id,
            fragment_index: index as u16,
            fragment_count,
            total_length,
            payload: slice_to_vec(slice_subrange(payload, start, end)),
        };
        assert(frame@ == fragment_model(kind, message_id, payload@, chunk as int, index as int));
        let bytes = match frame.encode(max_logical_size) {
            Ok(bytes) => bytes,
            Err(error) => {
                return Err(error);
            },
        };
        frames.push(bytes);
        index = index + 1;
    }
    Ok(frames)
}

proof fn lemma_le_u16_roundtrip(value: u16)
    ensures
        u16_of_le(le_u16(value)[0], le_u16(value)[1]) == value,
{
    assert(((value % 256) as u8) + ((value / 256) as u8) * 256 == value);
}

proof fn lemma_le_u32_roundtrip(value: u32)
    ensures
        u32_of_le(le_u32(value)[0], le_u32(value)[1], le_u32(value)[2], le_u32(value)[3])
            == value,
{
    let b = le_u32(value);
    assert(b[0] + b[1] * 256 + b[2] * 65536 + b[3] * 16777216 == value);
}

proof fn lemma_u16_bytes_roundtrip(b0: u8, b1: u8)
    ensures
        le_u16(u16_of_le(b0, b1)) == seq![b0, b1],
{
    let v = u16_of_le(b0, b1);
    assert(v == b0 + b1 * 256);
    assert(le_u16(v) =~= seq![b0, b1]);
}

proof fn lemma_u32_bytes_roundtrip(b0: u8, b1: u8, b2: u8, b3: u8)
    ensures
        le_u32(u32_of_le(b0, b1, b2, b3)) == seq![b0, b1, b2, b3],
{
    let v = u32_of_le(b0, b1, b2, b3);
    assert(v == b0 + b1 * 256 + b2 * 65536 + b3 * 16777216);
    assert(v % 256 == b0 && (v / 256) % 256 == b1 && (v / 65536) % 256 == b2 && v / 16777216 == b3)
        by (nonlinear_arith)
        requires
            v == b0 + b1 * 256 + b2 * 65536 + b3 * 16777216,
            b0 < 256,
            b1 < 256,
            b2 < 256,
            b3 < 256,
    ;
    assert(le_u32(v) =~= seq![b0, b1, b2, b3]);
}

/// Decoding the encoding of a valid frame gives the frame back.
pub proof fn law_decode_of_encode(frame: FrameModel, max_logical_size: int)
    requires
        frame.validation_error(max_logical_size) is None,
    ensures
        decode_model(frame.bytes(), max_logical_size) == Ok::<FrameModel, ErrorCode>(frame),
{
    let bytes = frame.bytes();
    lemma_le_u32_roundtrip(frame.message_id);
    lemma_le_u16_roundtrip(frame.fragment_index);
    lemma_le_u16_roundtrip(frame.fragment_count);
    lemma_le_u32_roundtrip(frame.total_length);
    assert(bytes.len() == 14 + frame.payload.len());
    assert(bytes.subrange(14, bytes.len() as int) =~= frame.payload);
    let model = model_of_bytes(bytes, frame.kind);
    assert(model == frame);
}

/// A byte string that decodes is the encoding of what it decodes to.
pub proof fn law_encode_of_decode(bytes: Seq<u8>, max_logical_size: int)
    requires
        decode_model(bytes, max_logical_size) is Ok,
    ensures
        decode_model(bytes, max_logical_size)->Ok_0.bytes() == bytes,
{
    let frame = decode_model(bytes, max_logical_size)->Ok_0;
    lemma_u32_bytes_roundtrip(bytes[2], bytes[3], bytes[4], bytes[5]);
    lemma_u16_bytes_roundtrip(bytes[6], bytes[7]);
    lemma_u16_bytes_roundtrip(bytes[8], bytes[9]);
    lemma_u32_bytes_roundtrip(bytes[10], bytes[11], bytes[12], bytes[13]);
    assert(kind_byte(frame.kind) == bytes[1]);
    assert(frame.bytes() =~= bytes);
}

/// The concatenation of byte strings, in order.
pub open spec fn joined(pieces: Seq<Seq<u8>>) -> Seq<u8>
    decreases pieces.len(),
{
    if pieces.len() == 0 {
        Seq::empty()
    } else {
        joined(pieces.drop_last()) + pieces.last()
    }
}

/// The payloads of the first `count` fragments.
pub open spec fn fragment_payloads(
    kind: FrameKind,
    message_id: u32,
    payload: Seq<u8>,
    chunk: int,
    count: int,
) -> Seq<Seq<u8>> {
    Seq::new(count as nat, |i: int| fragment_model(kind, message_id, payload, chunk, i).payload)
}

proof fn lemma_prefix_arith(len: int, chunk: int, q: int, r: int, k: int)
    by (nonlinear_arith)
    requires
        len > 0,
        chunk >= 1,
        len == chunk * q + r,
        0 <= r < chunk,
        q >= 0,
        0 <= k,
    ensures
        (k + 1) * chunk == k * chunk + chunk,
        k * chunk >= 0,
        (q + if r == 0 {
            0int
        } else {
            1int
        }) * chunk >= len,
{
}

#[verifier::spinoff_prover]
proof fn lemma_join_prefix(
    kind: FrameKind,
    message_id: u32,
    payload: Seq<u8>,
    chunk: int,
    k: int,
)
    requires
        payload.len() > 0,
        chunk >= 1,
        0 <= k <= fragment_count_of(payload.len() as int, chunk),
    ensures
        joined(fragment_payloads(kind, message_id, payload, chunk, k)) == payload.subrange(
            0,
            if k * chunk < payload.len() {
                k * chunk
            } else {
                payload.len() as int
            },
        ),
    decreases k,
{
    let len = payload.len() as int;
    vstd::arithmetic::div_mod::lemma_fundamental_div_mod(len, chunk);
    lemma_prefix_arith(len, chunk, len / chunk, len % chunk, k);
    if k == 0 {
        assert(joined(fragment_payloads(kind, message_id, payload, chunk, 0)) =~= Seq::empty());
        assert(payload.subrange(0, 0) =~= Seq::<u8>::empty());
    } else {
        lemma_join_prefix(kind, message_id, payload, chunk, k - 1);
        lemma_prefix_arith(len, chunk, len / chunk, len % chunk, k - 1);
        lemma_fragment_arith(len, chunk, len / chunk, len % chunk, k - 1);
        let pieces = fragment_payloads(kind, message_id, payload, chunk, k);
        assert(pieces.drop_last() =~= fragment_payloads(kind, message_id, payload, chunk, k - 1));
        let start = (k - 1) * chunk;
        assert(start < len);
        let end = if k * chunk < len {
            k * chunk
        } else {
            len
        };
        assert(pieces.last() == payload.subrange(start, end));
        assert(joined(pieces.drop_last()) == payload.subrange(0, start));
        assert(joined(pieces) == joined(pieces.drop_last()) + pieces.last());
        assert(payload.subrange(0, start) + payload.subrange(start, end) =~= payload.subrange(
            0,
            end,
        ));
    }
}

/// `fragment` cuts a payload into frames that each decode, that number themselves
/// 0..count with the count and total length of the payload, and whose payloads,
/// joined in order, give the payload back.
#[verifier::spinoff_prover]
pub proof fn law_fragments_reassemble(
    kind: FrameKind,
    message_id: u32,
    payload: Seq<u8>,
    value_limit: int,
    max_logical_size: int,
)
    requires
        kind != FrameKind::Ack,
        fragment_error(kind, message_id, payload.len() as int, value_limit, max_logical_size)
            is None,
    ensures
        forall|i: int|
            0 <= i < fragment_count_of(payload.len() as int, value_limit - 14) ==> {
                let frame = #[trigger] fragment_model(
                    kind,
                    message_id,
                    payload,
                    value_limit - 14,
                    i,
                );
                &&& decode_model(frame.bytes(), max_logical_size) == Ok::<FrameModel, ErrorCode>(
                    frame,
                )
                &&& frame.kind == kind
                &&& frame.message_id == message_id
                &&& frame.fragment_index == i
                &&& frame.fragment_count == fragment_count_of(
                    payload.len() as int,
                    value_limit - 14,
                )
                &&& frame.total_length == payload.len()
            },
        joined(
            fragment_payloads(
                kind,
                message_id,
                payload,
                value_limit - 14,
                fragment_count_of(payload.len() as int, value_limit - 14),
            ),
        ) == payload,
{
    let chunk = value_limit - 14;
    let len = payload.len() as int;
    let n = fragment_count_of(len, chunk);
    assert forall|i: int| 0 <= i < n implies {
        let frame = #[trigger] fragment_model(kind, message_id, payload, chunk, i);
        &&& decode_model(frame.bytes(), max_logical_size) == Ok::<FrameModel, ErrorCode>(frame)
        &&& frame.kind == kind
        &&& frame.message_id == message_id
        &&& frame.fragment_index == i
        &&& frame.fragment_count == n
        &&& frame.total_length == len
    } by {
        lemma_fragment_valid(kind, message_id, payload, chunk, i, max_logical_size);
        law_decode_of_encode(
            fragment_model(kind, message_id, payload, chunk, i),
            max_logical_size,
        );
    }
    if len == 0 {
        let pieces = fragment_payloads(kind, message_id, payload, chunk, n);
        assert(n == 1);
        assert(pieces.drop_last() =~= Seq::<Seq<u8>>::empty());
        assert(0 * chunk == 0) by (nonlinear_arith);
        assert(pieces[0] =~= payload);
        assert(joined(pieces.drop_last()) =~= Seq::<u8>::empty());
        assert(joined(pieces) == joined(pieces.drop_last()) + pieces.last());
        assert(joined(pieces) =~= payload);
    } else {
        lemma_join_prefix(kind, message_id, payload, chunk, n);
        vstd::arithmetic::div_mod::lemma_fundamental_div_mod(len, chunk);
        lemma_prefix_arith(len, chunk, len / chunk, len % chunk, n);
        assert(payload.subrange(0, len) =~= payload);
    }
}

} // verus!
