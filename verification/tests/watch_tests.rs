use marketlog::watch::{Debouncer, WatchAction, WatchEvent, DEBOUNCE_MS};

// Two change events 100 ms apart settle exactly once.
#[test]
fn burst_collapses_to_one_settle() {
    let mut d = Debouncer::new(0);
    assert_eq!(d.step(WatchEvent::Changed(1000)), WatchAction::Settle);
    assert_eq!(d.step(WatchEvent::Changed(1100)), WatchAction::Ignore);
}

// Two change events 600 ms apart settle twice.
#[test]
fn spaced_events_settle_twice() {
    let mut d = Debouncer::new(0);
    assert_eq!(d.step(WatchEvent::Changed(1000)), WatchAction::Settle);
    assert_eq!(d.step(WatchEvent::Changed(1600)), WatchAction::Settle);
}

#[test]
fn window_measured_from_last_settle() {
    let mut d = Debouncer::new(0);
    assert_eq!(d.step(WatchEvent::Changed(1000)), WatchAction::Settle);
    // Ignored events do not move the window.
    assert_eq!(d.step(WatchEvent::Changed(1100)), WatchAction::Ignore);
    assert_eq!(d.step(WatchEvent::Changed(1499)), WatchAction::Ignore);
    assert_eq!(d.step(WatchEvent::Changed(1500)), WatchAction::Settle);
}

#[test]
fn event_within_window_of_start_is_ignored() {
    let mut d = Debouncer::new(10_000);
    assert_eq!(d.step(WatchEvent::Changed(10_000 + DEBOUNCE_MS - 1)), WatchAction::Ignore);
    assert_eq!(d.step(WatchEvent::Changed(10_000 + DEBOUNCE_MS)), WatchAction::Settle);
}

#[test]
fn timeouts_never_reparse() {
    let mut d = Debouncer::new(0);
    assert_eq!(d.step(WatchEvent::Timeout), WatchAction::Ignore);
    assert_eq!(d.step(WatchEvent::Timeout), WatchAction::Ignore);
    assert_eq!(d.step(WatchEvent::Changed(5000)), WatchAction::Settle);
}

#[test]
fn disconnect_exits() {
    let mut d = Debouncer::new(0);
    assert_eq!(d.step(WatchEvent::Disconnected), WatchAction::Exit);
}

#[test]
fn clock_going_backwards_is_ignored() {
    let mut d = Debouncer::new(2000);
    assert_eq!(d.step(WatchEvent::Changed(1000)), WatchAction::Ignore);
}
