use gattify::winrt::engine::cancelled;
use gattify::winrt::link::{close_step, CloseEnd, Closing, LinkPhase};
use gattify::ErrorCode;

fn waiting(wait_ms: u64) -> Closing {
    Closing {
        emit: false,
        error: cancelled(),
        wait_ms: Some(wait_ms),
    }
}

#[test]
fn a_lost_link_refuses_its_procedures_and_tells_its_owner() {
    let closing = Closing::lost("the device disconnected");
    assert!(closing.emit);
    assert_eq!(closing.error.code, ErrorCode::Disconnected);
    let step = close_step(
        LinkPhase::Connected,
        None,
        &vec![Some(3), None, Some(5)],
        &closing,
        true,
    );
    assert_eq!(step.phase, LinkPhase::Closing);
    assert_eq!(step.rejected, vec![3, 5]);
    assert!(step.release);
    assert!(step.emit_closed);
    assert_eq!(step.end, CloseEnd::Finish);
}

#[test]
fn an_aborted_connect_is_refused_first_and_silently() {
    let step = close_step(
        LinkPhase::Connecting,
        Some(1),
        &vec![Some(2)],
        &Closing::silent(cancelled()),
        false,
    );
    assert_eq!(step.rejected, vec![1, 2]);
    assert!(!step.emit_closed);
    assert_eq!(step.end, CloseEnd::Finish);
}

#[test]
fn a_connecting_link_never_reports_a_close() {
    let step = close_step(
        LinkPhase::Connecting,
        None,
        &Vec::new(),
        &Closing::lost("the device disconnected"),
        false,
    );
    assert!(!step.emit_closed);
    assert!(step.rejected.is_empty());
}

#[test]
fn an_active_session_is_waited_for() {
    let active = close_step(LinkPhase::Connected, None, &Vec::new(), &waiting(2_000), true);
    assert_eq!(active.end, CloseEnd::Wait(2_000));
    let idle = close_step(LinkPhase::Connected, None, &Vec::new(), &waiting(2_000), false);
    assert_eq!(idle.end, CloseEnd::Finish);
}

#[test]
fn a_closing_link_only_finishes() {
    let now = close_step(
        LinkPhase::Closing,
        Some(7),
        &vec![Some(8)],
        &Closing::silent(cancelled()),
        true,
    );
    assert!(now.rejected.is_empty());
    assert!(!now.release);
    assert!(!now.emit_closed);
    assert_eq!(now.end, CloseEnd::Finish);
    let later = close_step(LinkPhase::Closing, None, &Vec::new(), &waiting(2_000), true);
    assert_eq!(later.end, CloseEnd::Keep);
}
