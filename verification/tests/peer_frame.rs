use gattify::peer::frame::{fragment, Frame, FrameKind, HEADER_LEN};
use gattify::ErrorCode;

#[test]
fn twenty_byte_limit_yields_six_byte_fragments() {
    let payload: Vec<u8> = (0..13).collect();
    let frames = fragment(FrameKind::Data, 7, &payload, 20, 16 * 1024).unwrap();
    assert_eq!(frames.iter().map(Vec::len).collect::<Vec<_>>(), [20, 20, 15]);
    assert_eq!(Frame::decode(&frames[2], 16 * 1024).unwrap().fragment_count, 3);
}

#[test]
fn golden_vectors_are_little_endian() {
    let data = Frame {
        kind: FrameKind::Data,
        message_id: 0x1234_5678,
        fragment_index: 1,
        fragment_count: 3,
        total_length: 7,
        payload: vec![0xaa, 0xbb],
    }
    .encode(16 * 1024)
    .unwrap();
    assert_eq!(
        data,
        [
            0x01, 0x03, 0x78, 0x56, 0x34, 0x12, 0x01, 0x00, 0x03, 0x00, 0x07, 0x00, 0x00, 0x00,
            0xaa, 0xbb
        ]
    );
    assert_eq!(
        Frame::ack(0x1234_5678).encode(16 * 1024).unwrap(),
        [0x01, 0x04, 0x78, 0x56, 0x34, 0x12, 0, 0, 1, 0, 0, 0, 0, 0]
    );
}

#[test]
fn empty_data_is_one_header_only_frame() {
    let frames = fragment(FrameKind::Data, 1, &[], 14, 16 * 1024).unwrap();
    assert_eq!(frames.len(), 1);
    assert_eq!(frames[0].len(), HEADER_LEN);
}

#[test]
fn malformed_ack_is_rejected() {
    let mut bytes = Frame::ack(9).encode(16 * 1024).unwrap();
    bytes.push(1);
    assert_eq!(
        Frame::decode(&bytes, 16 * 1024).unwrap_err().code,
        ErrorCode::ProtocolMismatch
    );
}

#[test]
fn oversized_received_value_is_rejected_before_payload_copy() {
    let bytes = vec![0_u8; HEADER_LEN + 17];
    assert_eq!(
        Frame::decode(&bytes, 16).unwrap_err().code,
        ErrorCode::PayloadTooLarge
    );
}

#[test]
fn fragment_count_is_bounded_by_the_declared_payload() {
    let frame = Frame {
        kind: FrameKind::Data,
        message_id: 1,
        fragment_index: 0,
        fragment_count: u16::MAX,
        total_length: 1,
        payload: vec![1],
    };
    assert_eq!(
        frame.encode(16 * 1024).unwrap_err().code,
        ErrorCode::ProtocolMismatch
    );
}

#[test]
fn a_decoded_frame_encodes_back_to_its_bytes() {
    let bytes = [
        0x01, 0x03, 0x78, 0x56, 0x34, 0x12, 0x01, 0x00, 0x03, 0x00, 0x07, 0x00, 0x00, 0x00, 0xaa,
        0xbb,
    ];
    let frame = Frame::decode(&bytes, 16 * 1024).unwrap();
    assert_eq!(frame.message_id, 0x1234_5678);
    assert_eq!(frame.payload, vec![0xaa, 0xbb]);
    assert_eq!(frame.encode(16 * 1024).unwrap(), bytes);
}

#[test]
fn fragments_decode_to_the_payload_in_order() {
    let payload: Vec<u8> = (0..40).collect();
    let frames = fragment(FrameKind::Data, 3, &payload, 20, 16 * 1024).unwrap();
    let mut joined = Vec::new();
    for (index, bytes) in frames.iter().enumerate() {
        let frame = Frame::decode(bytes, 16 * 1024).unwrap();
        assert_eq!(frame.fragment_index as usize, index);
        assert_eq!(frame.total_length, 40);
        joined.extend_from_slice(&frame.payload);
    }
    assert_eq!(joined, payload);
}

#[test]
fn an_unknown_version_or_kind_is_a_protocol_mismatch() {
    let mut bytes = Frame::ack(1).encode(16 * 1024).unwrap();
    bytes[0] = 2;
    assert_eq!(
        Frame::decode(&bytes, 16 * 1024).unwrap_err().code,
        ErrorCode::ProtocolMismatch
    );
    let mut bytes = Frame::ack(1).encode(16 * 1024).unwrap();
    bytes[1] = 0x7f;
    assert_eq!(
        Frame::decode(&bytes, 16 * 1024).unwrap_err().code,
        ErrorCode::ProtocolMismatch
    );
}

#[test]
fn a_limit_below_the_header_cannot_fragment() {
    assert!(fragment(FrameKind::Data, 1, b"a", HEADER_LEN, 16 * 1024).is_err());
}
