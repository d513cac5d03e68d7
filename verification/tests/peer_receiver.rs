use gattify::peer::frame::{fragment, FrameKind};
use gattify::peer::receiver::{ReceiveAction, Receiver, ReceiverLimits};
use gattify::ErrorCode;

#[test]
fn accepts_only_after_complete_reassembly() {
    let payload: Vec<u8> = (0..13).collect();
    let frames = fragment(FrameKind::Data, 41, &payload, 20, 16 * 1024).unwrap();
    let mut receiver = Receiver::default();
    assert_eq!(receiver.receive(&frames[1]).unwrap(), ReceiveAction::Nothing);
    assert_eq!(receiver.receive(&frames[0]).unwrap(), ReceiveAction::Nothing);
    let ReceiveAction::Message {
        message_id,
        payload: actual,
        ..
    } = receiver.receive(&frames[2]).unwrap()
    else {
        panic!("expected complete message")
    };
    assert_eq!(message_id, 41);
    assert_eq!(actual, payload);
    assert_eq!(receiver.pop_message(), Some((41, payload)));
}

#[test]
fn queue_overflow_happens_before_ack() {
    let mut receiver = Receiver::new(ReceiverLimits {
        max_complete_queue_bytes: 2,
        ..ReceiverLimits::default()
    });
    let frame = fragment(FrameKind::Data, 1, b"abc", 20, 16 * 1024).unwrap();
    assert_eq!(
        receiver.receive(&frame[0]).unwrap_err().code,
        ErrorCode::QueueFull
    );
}

#[test]
fn valid_duplicate_is_reacked_and_not_queued_twice() {
    let frame = fragment(FrameKind::Data, 7, b"ok", 20, 16 * 1024).unwrap();
    let mut receiver = Receiver::default();
    assert!(matches!(
        receiver.receive(&frame[0]).unwrap(),
        ReceiveAction::Message { .. }
    ));
    assert!(matches!(
        receiver.receive(&frame[0]).unwrap(),
        ReceiveAction::DuplicateAck { .. }
    ));
    assert_eq!(receiver.pop_message().unwrap().1, b"ok");
    assert!(receiver.pop_message().is_none());
}

#[test]
fn control_reassembly_is_not_blocked_by_partial_data() {
    let data = fragment(FrameKind::Data, 9, b"split-data", 20, 16 * 1024).unwrap();
    let control = fragment(FrameKind::Hello, 0, b"hello", 20, 16 * 1024).unwrap();
    let mut receiver = Receiver::default();
    assert_eq!(receiver.receive(&data[0]).unwrap(), ReceiveAction::Nothing);
    assert_eq!(
        receiver.receive(&control[0]).unwrap(),
        ReceiveAction::Control {
            kind: FrameKind::Hello,
            payload: b"hello".to_vec(),
        }
    );
}

#[test]
fn metadata_allocation_respects_the_buffer_budget() {
    let frame = fragment(FrameKind::Data, 1, b"ab", 15, 16 * 1024).unwrap();
    let mut receiver = Receiver::new(ReceiverLimits {
        max_buffered_bytes: 0,
        ..ReceiverLimits::default()
    });
    assert_eq!(
        receiver.receive(&frame[0]).unwrap_err().code,
        ErrorCode::QueueFull
    );
}

#[test]
fn expired_partial_releases_its_budget() {
    let frames = fragment(FrameKind::Data, 1, b"ab", 15, 16 * 1024).unwrap();
    let metadata_budget = 512;
    let mut receiver = Receiver::new(ReceiverLimits {
        max_buffered_bytes: metadata_budget,
        max_partial_messages: 1,
        reassembly_deadline_ms: 10,
        ..ReceiverLimits::default()
    });
    assert_eq!(
        receiver.receive_at(&frames[0], 0).unwrap(),
        ReceiveAction::Nothing
    );

    let replacement = fragment(FrameKind::Data, 2, b"cd", 15, 16 * 1024).unwrap();
    assert_eq!(
        receiver.receive_at(&replacement[0], 10).unwrap(),
        ReceiveAction::Nothing
    );
}

#[test]
fn a_delivered_message_is_acknowledged_with_an_ack_frame() {
    let frame = fragment(FrameKind::Data, 5, b"hi", 20, 16 * 1024).unwrap();
    let mut receiver = Receiver::default();
    let ReceiveAction::Message { ack, .. } = receiver.receive(&frame[0]).unwrap() else {
        panic!("expected a message")
    };
    assert_eq!(ack, [0x01, 0x04, 5, 0, 0, 0, 0, 0, 1, 0, 0, 0, 0, 0]);
    let ReceiveAction::DuplicateAck { message_id, ack: again } =
        receiver.receive(&frame[0]).unwrap()
    else {
        panic!("expected a duplicate ack")
    };
    assert_eq!(message_id, 5);
    assert_eq!(again, ack);
}

#[test]
fn an_ack_frame_reports_its_message() {
    let ack = fragment(FrameKind::Ack, 11, &[], 20, 16 * 1024).unwrap();
    let mut receiver = Receiver::default();
    assert_eq!(
        receiver.receive(&ack[0]).unwrap(),
        ReceiveAction::Ack { message_id: 11 }
    );
}

#[test]
fn disconnect_drops_partial_messages_only() {
    let payload: Vec<u8> = (0..13).collect();
    let frames = fragment(FrameKind::Data, 2, &payload, 20, 16 * 1024).unwrap();
    let whole = fragment(FrameKind::Data, 3, b"x", 20, 16 * 1024).unwrap();
    let mut receiver = Receiver::default();
    receiver.receive(&frames[0]).unwrap();
    receiver.receive(&whole[0]).unwrap();
    receiver.disconnect();
    assert_eq!(receiver.receive(&frames[1]).unwrap(), ReceiveAction::Nothing);
    assert_eq!(receiver.receive(&frames[2]).unwrap(), ReceiveAction::Nothing);
    assert_eq!(receiver.pop_message(), Some((3, b"x".to_vec())));
    assert!(receiver.pop_message().is_none());
}

#[test]
fn each_refused_frame_names_its_reason() {
    let mut receiver = Receiver::default();
    let first = fragment(FrameKind::Data, 9, b"one", 20, 16 * 1024).unwrap();
    receiver.receive(&first[0]).unwrap();
    let reused = fragment(FrameKind::Data, 9, b"two", 20, 16 * 1024).unwrap();
    let error = receiver.receive(&reused[0]).unwrap_err();
    assert_eq!(error.code, ErrorCode::ProtocolMismatch);
    assert_eq!(error.message, "message ID was reused with different content");
    let error = receiver.receive(&[1, 3, 0]).unwrap_err();
    assert_eq!(error.message, "frame is shorter than the 14-byte header");
    let mut short = first[0].clone();
    short[0] = 2;
    assert_eq!(
        receiver.receive(&short).unwrap_err().message,
        "unsupported protocol major"
    );
}

#[test]
fn fragments_in_reverse_order_give_the_message_once() {
    let payload: Vec<u8> = (0..40).collect();
    let frames = fragment(FrameKind::Data, 5, &payload, 20, 16 * 1024).unwrap();
    let mut receiver = Receiver::default();
    let last = frames.len() - 1;
    for frame in frames[1..].iter().rev() {
        assert_eq!(receiver.receive_at(frame, 0).unwrap(), ReceiveAction::Nothing);
    }
    let ReceiveAction::Message { message_id, payload: actual, .. } =
        receiver.receive_at(&frames[0], 10).unwrap()
    else {
        panic!("expected the message after fragment {last}")
    };
    assert_eq!(message_id, 5);
    assert_eq!(actual, payload);
}
