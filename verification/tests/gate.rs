use gattify::gate::GateState;

#[test]
fn a_command_entering_during_a_cleanup_is_held_back() {
    let mut gate = GateState::default();
    gate.begin_cleanup();
    assert!(!gate.try_enter());
    assert_eq!(gate.running, 0);
    gate.end_cleanup();
    assert!(gate.try_enter());
    assert_eq!(gate.running, 1);
}

#[test]
fn a_cleanup_is_idle_once_the_running_commands_left() {
    let mut gate = GateState::default();
    assert!(gate.try_enter());
    gate.begin_cleanup();
    assert!(!gate.is_idle());
    gate.leave();
    assert!(gate.is_idle());
}

#[test]
fn extra_cleanup_ends_leave_none_pending() {
    let mut gate = GateState::default();
    gate.end_cleanup();
    assert_eq!(gate.cleanups, 0);
    gate.begin_cleanup();
    gate.begin_cleanup();
    gate.end_cleanup();
    assert!(!gate.try_enter());
    gate.end_cleanup();
    assert!(gate.try_enter());
}
