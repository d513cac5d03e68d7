use gattify::peer::frame::{fragment, FrameKind};
use gattify::peer::sender::{SendAction, SendLimits, Sender};
use gattify::{DeliveryOutcome, ErrorCode};

#[test]
fn stop_and_wait_retries_twice_then_fails_honestly() {
    let mut sender = Sender::default();
    let message_id = sender.enqueue(b"hello".to_vec()).unwrap();
    assert!(matches!(
        sender.poll(0).unwrap(),
        SendAction::Submit {
            retransmission: false,
            ..
        }
    ));
    assert!(matches!(
        sender.poll(5_000).unwrap(),
        SendAction::Submit {
            retransmission: true,
            ..
        }
    ));
    assert!(matches!(
        sender.poll(10_000).unwrap(),
        SendAction::Submit {
            retransmission: true,
            ..
        }
    ));
    let SendAction::Failed {
        message_id: failed,
        error,
    } = sender.poll(15_000).unwrap()
    else {
        panic!("expected timeout")
    };
    assert_eq!(failed, message_id);
    assert_eq!(error.delivery, Some(DeliveryOutcome::Unknown));
}

#[test]
fn ack_releases_next_message() {
    let mut sender = Sender::default();
    let first = sender.enqueue(vec![1]).unwrap();
    let second = sender.enqueue(vec![2]).unwrap();
    sender.poll(0).unwrap();
    assert_eq!(
        sender.acknowledge(first).unwrap(),
        SendAction::Acknowledged { message_id: first }
    );
    assert!(matches!(
        sender.poll(1).unwrap(),
        SendAction::Submit { message_id, .. } if message_id == second
    ));
}

#[test]
fn a_submission_carries_the_fragments_of_its_message() {
    let mut sender = Sender::default();
    let payload: Vec<u8> = (0..13).collect();
    let message_id = sender.enqueue(payload.clone()).unwrap();
    let SendAction::Submit { message_id: sent, frames, retransmission } = sender.poll(0).unwrap()
    else {
        panic!("expected a submission")
    };
    assert_eq!(sent, message_id);
    assert!(!retransmission);
    assert_eq!(frames, fragment(FrameKind::Data, message_id, &payload, 20, 16 * 1024).unwrap());
    assert_eq!(sender.in_flight(), Some(message_id));
}

#[test]
fn nothing_to_send_is_idle() {
    let mut sender = Sender::default();
    assert_eq!(sender.poll(0).unwrap(), SendAction::Idle);
    let id = sender.enqueue(vec![1]).unwrap();
    sender.poll(0).unwrap();
    assert_eq!(sender.poll(1).unwrap(), SendAction::Idle);
    assert_eq!(sender.in_flight(), Some(id));
}

#[test]
fn a_full_queue_refuses_new_messages() {
    let mut sender = Sender::new(SendLimits {
        max_outbound_queue_bytes: 4,
        ..SendLimits::default()
    });
    sender.enqueue(vec![1, 2, 3]).unwrap();
    assert_eq!(sender.queued_bytes(), 3);
    assert_eq!(sender.enqueue(vec![4, 5]).unwrap_err().code, ErrorCode::QueueFull);
    assert_eq!(sender.queued_bytes(), 3);
}

#[test]
fn an_oversized_message_is_refused() {
    let mut sender = Sender::new(SendLimits {
        max_logical_size: 2,
        ..SendLimits::default()
    });
    assert_eq!(
        sender.enqueue(vec![1, 2, 3]).unwrap_err().code,
        ErrorCode::PayloadTooLarge
    );
}

#[test]
fn an_unexpected_ack_is_a_protocol_mismatch() {
    let mut sender = Sender::default();
    let id = sender.enqueue(vec![1]).unwrap();
    sender.poll(0).unwrap();
    assert_eq!(
        sender.acknowledge(id.wrapping_add(1)).unwrap_err().code,
        ErrorCode::ProtocolMismatch
    );
}

#[test]
fn disconnect_hands_back_every_unsent_message() {
    let mut sender = Sender::default();
    let first = sender.enqueue(vec![1]).unwrap();
    let second = sender.enqueue(vec![2, 3]).unwrap();
    sender.poll(0).unwrap();
    let failed = sender.disconnect();
    assert_eq!(failed.iter().map(|m| m.message_id).collect::<Vec<_>>(), [first, second]);
    assert_eq!(sender.queued_bytes(), 0);
    assert_eq!(sender.in_flight(), None);
}

#[test]
fn message_ids_count_up_across_polls_and_acknowledgements() {
    let mut sender = Sender::default();
    assert_eq!(sender.enqueue(b"hello".to_vec()).unwrap(), 1);
    sender.poll(0).unwrap();
    assert_eq!(sender.enqueue(vec![7, 8]).unwrap(), 2);
    sender.acknowledge(1).unwrap();
    sender.poll(1).unwrap();
    assert_eq!(sender.enqueue(vec![9]).unwrap(), 3);
    sender.disconnect();
    assert_eq!(sender.enqueue(vec![10]).unwrap(), 4);
}

#[test]
fn queued_bytes_follow_the_messages_not_yet_finished() {
    let mut sender = Sender::default();
    assert_eq!(sender.queued_bytes(), 0);
    let first = sender.enqueue(vec![1, 2, 3]).unwrap();
    sender.enqueue(vec![4, 5]).unwrap();
    assert_eq!(sender.queued_bytes(), 5);
    sender.poll(0).unwrap();
    assert_eq!(sender.queued_bytes(), 5);
    sender.acknowledge(first).unwrap();
    assert_eq!(sender.queued_bytes(), 2);
    sender.enqueue(vec![6]).unwrap();
    assert_eq!(sender.queued_bytes(), 3);
    sender.disconnect();
    assert_eq!(sender.queued_bytes(), 0);
}
