//! Admission, draining and shutdown of gates, and guard groups.
use std::time::Duration;

use runtime_rs::gate::default_acquire_timeout;
use runtime_rs::gate::DrainAction;
use runtime_rs::gate::DrainEvent;
use runtime_rs::gate::EnterAction;
use runtime_rs::gate::EnterEvent;
use runtime_rs::gate::Error;
use runtime_rs::gate::Gate;
use runtime_rs::guard::GuardGroup;
use runtime_rs::signal::NotifyOnce;
use runtime_rs::signal::Signal;

#[test]
fn try_enter_counts_one_slot_per_permit() {
    let mut gate = Gate::new(Some(2), Duration::from_millis(10));

    let first = gate.try_enter().unwrap();
    assert_eq!(gate.count(), 1);

    let second = gate.try_enter().unwrap();
    assert_eq!(gate.count(), 2);

    assert!(matches!(gate.try_enter(), Err(Error::AtCapacity)));

    gate.leave(first);
    assert_eq!(gate.count(), 1);

    gate.leave(second);
    assert_eq!(gate.count(), 0);
}

#[test]
fn unlimited_gate_admits_all_and_frees_no_slot() {
    let mut gate = Gate::new(None, Duration::from_millis(10));
    let mut permits = Vec::new();
    for n in 1..=50usize {
        permits.push(gate.try_enter().unwrap());
        assert_eq!(gate.count(), n);
    }
    for permit in permits {
        assert!(!gate.leave(permit));
    }
    assert_eq!(gate.count(), 0);
}

#[test]
fn count_is_the_number_of_live_permits() {
    let mut gate = Gate::new(Some(3), Duration::ZERO);
    let mut live = Vec::new();
    for step in [true, true, false, true, true, true, false, false, true] {
        if step {
            if let Ok(permit) = gate.try_enter() {
                live.push(permit);
            }
        } else if let Some(permit) = live.pop() {
            gate.leave(permit);
        }
        assert_eq!(gate.count(), live.len());
        assert!(gate.count() <= 3);
    }
    assert_eq!(gate.count(), 2);
}

#[test]
fn gate_without_slots_admits_nobody() {
    let mut gate = Gate::new(Some(0), Duration::from_millis(10));
    assert!(matches!(gate.try_enter(), Err(Error::AtCapacity)));
    assert_eq!(gate.count(), 0);
}

#[test]
fn leaving_a_full_gate_frees_a_slot() {
    let mut gate = Gate::new(Some(1), Duration::from_millis(10));
    let permit = gate.try_enter().unwrap();
    assert!(gate.leave(permit));
    let again = gate.try_enter().unwrap();
    assert_eq!(gate.count(), 1);
    assert!(gate.leave(again));
}

#[test]
fn closing_gate_refuses_new_work_and_keeps_accepted_work() {
    let mut gate = Gate::new(Some(5), Duration::from_millis(10));
    let permit = gate.try_enter().unwrap();
    assert!(!gate.is_shutting_down());
    assert!(!permit.is_shutting_down(&gate));

    gate.graceful_shutdown(None);
    assert!(gate.is_shutting_down());
    assert!(permit.is_shutting_down(&gate));
    assert_eq!(gate.count(), 1);
    assert!(matches!(gate.try_enter(), Err(Error::ShuttingDown)));
    let asked = EnterEvent::Asked { waited: Duration::ZERO };
    assert!(matches!(gate.enter(asked), EnterAction::Refuse(Error::ShuttingDown)));
    assert_eq!(gate.count(), 1);

    // A second signal does not take the first one back.
    gate.graceful_shutdown(Some(Duration::from_secs(1)));
    assert!(gate.is_shutting_down());
    gate.leave(permit);
}

#[test]
fn grace_period_reads_back() {
    let mut gate = Gate::new(None, default_acquire_timeout());
    assert_eq!(gate.grace_period(), None);
    gate.graceful_shutdown(Some(Duration::from_secs(30)));
    assert_eq!(gate.grace_period(), Some(Duration::from_secs(30)));
    gate.graceful_shutdown(Some(Duration::new(2, 345)));
    assert_eq!(gate.grace_period(), Some(Duration::from_nanos(2_000_000_345)));
    gate.graceful_shutdown(Some(Duration::ZERO));
    assert_eq!(gate.grace_period(), Some(Duration::ZERO));
    gate.graceful_shutdown(None);
    assert_eq!(gate.grace_period(), None);
}

#[test]
fn long_grace_periods_read_back() {
    let mut gate = Gate::new(None, Duration::ZERO);
    let longest = Duration::from_nanos(u64::MAX);
    for given in [longest, Duration::new(18446744073, 709551616), Duration::MAX] {
        gate.graceful_shutdown(Some(given));
        assert_eq!(gate.grace_period(), Some(given));
    }
}

#[test]
fn entering_waits_for_what_is_left_of_the_timeout() {
    let mut gate = Gate::new(Some(1), Duration::from_millis(100));
    let first = gate.enter(EnterEvent::Asked { waited: Duration::ZERO });
    let permit = match first {
        EnterAction::Enter(permit) => permit,
        other => panic!("expected to enter, got {other:?}"),
    };
    assert_eq!(gate.count(), 1);

    match gate.enter(EnterEvent::Asked { waited: Duration::from_millis(30) }) {
        EnterAction::Wait(remaining) => assert_eq!(remaining, Duration::from_millis(70)),
        other => panic!("expected to wait, got {other:?}"),
    }
    assert_eq!(gate.count(), 1);

    match gate.enter(EnterEvent::Asked { waited: Duration::from_millis(100) }) {
        EnterAction::Refuse(Error::AcquireTimeout(timeout)) => {
            assert_eq!(timeout, Duration::from_millis(100))
        }
        other => panic!("expected a timeout, got {other:?}"),
    }
    assert!(matches!(
        gate.enter(EnterEvent::TimedOut),
        EnterAction::Refuse(Error::AcquireTimeout(t)) if t == Duration::from_millis(100)
    ));
    assert!(matches!(
        gate.enter(EnterEvent::ShutDown),
        EnterAction::Refuse(Error::ShuttingDown)
    ));

    assert!(gate.leave(permit));
    let late = EnterEvent::Asked { waited: Duration::from_millis(99) };
    assert!(matches!(gate.enter(late), EnterAction::Enter(_)));
}

#[test]
fn draining_an_empty_gate_is_over_at_once() {
    let mut gate = Gate::new(None, default_acquire_timeout());
    gate.graceful_shutdown(Some(Duration::from_secs(1)));
    assert!(matches!(gate.wait_all_done(DrainEvent::Asked), DrainAction::Finish));
    assert!(!*gate.wait_forced_shutdown().borrow());
}

#[test]
fn clean_drain_does_not_force_shutdown() {
    let mut gate = Gate::new(None, default_acquire_timeout());
    let first = gate.try_enter().unwrap();
    let second = gate.try_enter().unwrap();
    gate.graceful_shutdown(Some(Duration::from_secs(3)));
    match gate.wait_all_done(DrainEvent::Asked) {
        DrainAction::Wait(limit) => assert_eq!(limit, Some(Duration::from_secs(3))),
        other => panic!("expected to wait, got {other:?}"),
    }
    gate.leave(first);
    assert!(!*gate.wait_last_permit().borrow());
    gate.leave(second);
    assert!(*gate.wait_last_permit().borrow());
    assert!(matches!(gate.wait_all_done(DrainEvent::AllDone), DrainAction::Finish));
    assert!(!*gate.wait_forced_shutdown().borrow());
    assert_eq!(gate.count(), 0);
}

#[test]
fn drain_that_runs_out_of_time_forces_shutdown() {
    let mut gate = Gate::new(None, default_acquire_timeout());
    let permit = gate.try_enter().unwrap();
    gate.graceful_shutdown(Some(Duration::from_millis(5)));
    assert!(matches!(gate.wait_all_done(DrainEvent::TimedOut), DrainAction::Finish));
    assert!(*gate.wait_forced_shutdown().borrow());
    assert!(*permit.wait_forced_shutdown(&gate).borrow());
    assert_eq!(gate.count(), 1);
    gate.leave(permit);
}

#[test]
fn drain_without_grace_period_waits_without_limit() {
    let mut gate = Gate::new(None, default_acquire_timeout());
    let permit = gate.try_enter().unwrap();
    gate.graceful_shutdown(None);
    assert!(matches!(gate.wait_all_done(DrainEvent::Asked), DrainAction::Wait(None)));
    gate.leave(permit);
}

#[test]
fn an_open_gate_drains_too() {
    let mut gate = Gate::new(None, Duration::ZERO);
    assert!(*gate.wait_last_permit().borrow());
    let permit = gate.try_enter().unwrap();
    let waiting = gate.wait_last_permit();
    assert!(!*waiting.borrow());
    assert!(matches!(gate.wait_all_done(DrainEvent::Asked), DrainAction::Wait(None)));
    gate.leave(permit);
    assert!(*waiting.borrow());
    assert!(matches!(gate.wait_all_done(DrainEvent::AllDone), DrainAction::Finish));
    assert_eq!(gate.count(), 0);
}

#[test]
fn whoever_drains_waits_on_where_others_entered_since() {
    let mut gate = Gate::new(None, Duration::ZERO);
    let first = gate.try_enter().unwrap();
    gate.leave(first);
    let second = gate.try_enter().unwrap();
    assert!(!*gate.wait_last_permit().borrow());
    assert!(matches!(gate.wait_all_done(DrainEvent::AllDone), DrainAction::Wait(None)));
    gate.leave(second);
    assert!(matches!(gate.wait_all_done(DrainEvent::AllDone), DrainAction::Finish));
}

#[test]
fn waiting_tasks_see_the_signals() {
    let mut gate = Gate::new(None, default_acquire_timeout());
    let permit = gate.try_enter().unwrap();
    let graceful = gate.wait_graceful_shutdown();
    let through_permit = permit.wait_graceful_shutdown(&gate);
    let forced = gate.wait_forced_shutdown();
    assert!(!*graceful.borrow());
    assert!(!*through_permit.borrow());
    assert!(!*forced.borrow());

    gate.graceful_shutdown(None);
    assert!(*graceful.borrow());
    assert!(*through_permit.borrow());
    assert!(!*forced.borrow());

    gate.force_shutdown();
    assert!(*forced.borrow());
    gate.leave(permit);
}

#[test]
fn a_freed_slot_wakes_who_waits_for_it() {
    let runtime = tokio::runtime::Builder::new_current_thread().build().unwrap();
    runtime.block_on(async {
        let mut gate = Gate::new(Some(1), default_acquire_timeout());
        let permit = gate.try_enter().unwrap();
        let signal = gate.wait_slot();
        let mut waiting = Box::pin(signal.notified());
        waiting.as_mut().enable();
        assert!(gate.leave(permit));
        waiting.await;
    });
}

#[test]
fn sticky_signal_is_seen_by_later_waiters() {
    let mut signal = NotifyOnce::default();
    assert!(!signal.is_notified());
    assert!(!*signal.notified().borrow());
    signal.notify_waiters();
    signal.notify_waiters();
    assert!(signal.is_notified());
    assert!(*signal.notified().borrow());
}

#[test]
fn signals_go_up_and_down() {
    let mut signal = Signal::new(true);
    let seen = signal.receiver();
    assert!(signal.is_up() && *seen.borrow());
    signal.set(false);
    assert!(!signal.is_up() && !*seen.borrow());
    signal.set(true);
    assert!(signal.is_up() && *seen.borrow());
}

#[test]
fn default_timeout_is_a_tenth_of_a_second() {
    assert_eq!(default_acquire_timeout(), Duration::from_millis(100));
    assert_eq!(default_acquire_timeout().as_nanos(), 100_000_000);
}

#[test]
fn guards_count_work_in_flight() {
    let mut group = GuardGroup::new();
    assert_eq!(group.count(), 0);
    assert!(group.wait_empty().is_none());
    let first = group.guard();
    let second = group.guard();
    assert_eq!(group.count(), 2);
    assert!(group.wait_empty().is_some());
    assert!(!group.release(first));
    assert_eq!(group.count(), 1);
    assert!(group.release(second));
    assert_eq!(group.count(), 0);
    assert!(group.wait_empty().is_none());
    assert_eq!(GuardGroup::default().count(), 0);
}

#[test]
fn last_guard_wakes_who_waits_for_the_group() {
    let runtime = tokio::runtime::Builder::new_current_thread().build().unwrap();
    runtime.block_on(async {
        let mut group = GuardGroup::new();
        let guard = group.guard();
        let signal = group.wait_empty().unwrap();
        let mut waiting = Box::pin(signal.notified());
        waiting.as_mut().enable();
        assert!(group.release(guard));
        waiting.await;
        assert!(group.wait_empty().is_none());
    });
}
