use maniac::signal::{GlobalRegistry, RegisterError, RegisteredSignals, SignalHandle, SignalKind, SignalState};

#[test]
fn signal_kind_round_trips_its_number() {
    let kind = SignalKind::from_raw(15);
    assert_eq!(kind.as_raw(), 15);
    assert_eq!(SignalKind::from_raw(kind.as_raw()), kind);
}

#[test]
fn a_delivery_is_received_once() {
    let mut registry = GlobalRegistry::new();
    let mut handle = SignalHandle::new(2);
    assert!(!handle.try_recv(&registry));
    registry.notify(2);
    assert!(handle.try_recv(&registry));
    assert!(!handle.try_recv(&registry));
    registry.notify(2);
    registry.notify(2);
    assert!(handle.try_recv(&registry));
    assert_eq!(handle.last_seen, 3);
    assert_eq!(registry.generation(), 3);
}

#[test]
fn untracked_signals_are_ignored() {
    let mut registry = GlobalRegistry::new();
    registry.notify(64);
    registry.notify(-1);
    assert_eq!(registry.generation(), 0);
    assert_eq!(registry.pending(64), None);
    assert_eq!(registry.pending(63), Some(0));
    let mut handle = SignalHandle::new(70);
    assert!(!handle.try_recv(&registry));
    assert_eq!(handle.signum(), 70);
}

#[test]
fn state_counts_deliveries() {
    let mut state = SignalState::new();
    let mut seen = 0u64;
    assert!(!state.try_recv(&mut seen));
    state.notify();
    assert!(state.try_recv(&mut seen));
    assert_eq!(seen, 1);
}

#[test]
fn signal_registration_is_checked_and_done_once() {
    let mut set = RegisteredSignals::new();
    assert_eq!(set.check(0, 9, 19), Err(RegisterError::InvalidNumber));
    assert_eq!(set.check(64, 9, 19), Err(RegisterError::InvalidNumber));
    assert_eq!(set.check(-3, 9, 19), Err(RegisterError::InvalidNumber));
    assert_eq!(set.check(9, 9, 19), Err(RegisterError::Uncatchable));
    assert_eq!(set.check(19, 9, 19), Err(RegisterError::Uncatchable));
    assert_eq!(set.check(1, 9, 19), Ok(true));
    set.mark(1);
    assert_eq!(set.mask, 2);
    assert_eq!(set.check(1, 9, 19), Ok(false));
    assert_eq!(set.check(2, 9, 19), Ok(true));
    set.mark(63);
    assert_eq!(set.check(63, 9, 19), Ok(false));
}

#[test]
fn unix_test_signal_kind_values() {
    assert_eq!(SignalKind::interrupt().as_raw(), libc::SIGINT);
    assert_eq!(SignalKind::terminate().as_raw(), libc::SIGTERM);
    assert_eq!(SignalKind::hangup().as_raw(), libc::SIGHUP);
    assert_eq!(SignalKind::quit().as_raw(), libc::SIGQUIT);
    assert_eq!(SignalKind::user_defined1().as_raw(), libc::SIGUSR1);
    assert_eq!(SignalKind::user_defined2().as_raw(), libc::SIGUSR2);
}

#[test]
fn every_named_signal_can_be_registered() {
    let set = RegisteredSignals::new();
    let kinds = [
        SignalKind::alarm(),
        SignalKind::child(),
        SignalKind::hangup(),
        SignalKind::interrupt(),
        SignalKind::io(),
        SignalKind::pipe(),
        SignalKind::quit(),
        SignalKind::terminate(),
        SignalKind::user_defined1(),
        SignalKind::user_defined2(),
        SignalKind::window_change(),
        SignalKind::cont(),
        SignalKind::terminal_stop(),
        SignalKind::tty_input(),
        SignalKind::tty_output(),
        SignalKind::urgent(),
    ];
    for k in kinds {
        assert_eq!(set.check(k.as_raw(), libc::SIGKILL, libc::SIGSTOP), Ok(true));
    }
    assert_eq!(SignalKind::child().as_raw(), libc::SIGCHLD);
    assert_eq!(SignalKind::urgent().as_raw(), libc::SIGURG);
}
