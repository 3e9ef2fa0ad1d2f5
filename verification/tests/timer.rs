use reactive_state::time::{idle_window_elapsed, AnyTime, TimerData, TimerStep, WALLCLOCK_RECHECK_CAP_NANOS};
use reactive_state::is_wake_with;
use reactive_state::utils::btree_multi_map::BTreeMultiMap;
use reactive_state::state_container::StateContext;

#[test]
fn due_action_fires_exactly_once() {
    let mut timer: TimerData<u32> = TimerData::new();
    let now: u64 = 1_000_000;
    timer.spawn_at(7, AnyTime::Monotonic(now + 50_000_000));

    // Before the deadline the service waits exactly until it.
    assert!(matches!(timer.step(now, 0), TimerStep::Wait(50_000_000)));

    // After the deadline the action fires once, then the service is idle.
    assert!(matches!(timer.step(now + 200_000_000, 0), TimerStep::Call(7)));
    assert!(matches!(timer.step(now + 200_000_000, 0), TimerStep::Idle));
}

#[test]
fn cancelled_action_never_fires() {
    let mut timer: TimerData<u32> = TimerData::new();
    let now: u64 = 1_000_000;
    let at = AnyTime::Monotonic(now + 50_000_000);
    let (id, wake) = timer.spawn_at(7, at);
    assert!(wake);

    let both_empty = timer.cancel(at, id);
    assert!(both_empty);
    assert!(matches!(timer.step(now + 200_000_000, 0), TimerStep::Idle));
}

#[test]
fn cancel_after_firing_is_a_no_op() {
    let mut timer: TimerData<u32> = TimerData::new();
    let at = AnyTime::Monotonic(10);
    let (id, _) = timer.spawn_at(3, at);
    assert!(matches!(timer.step(20, 0), TimerStep::Call(3)));
    assert!(timer.cancel(at, id));
    assert!(matches!(timer.step(20, 0), TimerStep::Idle));
}

#[test]
fn timer_ordering_earliest_first() {
    let mut timer: TimerData<u32> = TimerData::new();
    timer.spawn_at(1, AnyTime::Monotonic(300));
    timer.spawn_at(2, AnyTime::Monotonic(100));
    timer.spawn_at(3, AnyTime::Monotonic(200));

    assert!(matches!(timer.step(1_000, 0), TimerStep::Call(2)));
    assert!(matches!(timer.step(1_000, 0), TimerStep::Call(3)));
    assert!(matches!(timer.step(1_000, 0), TimerStep::Call(1)));
    assert!(matches!(timer.step(1_000, 0), TimerStep::Idle));
}

#[test]
fn monotonic_due_wins_over_wallclock() {
    let mut timer: TimerData<u32> = TimerData::new();
    timer.spawn_at(1, AnyTime::Wallclock(50));
    timer.spawn_at(2, AnyTime::Monotonic(60));
    assert!(matches!(timer.step(100, 100), TimerStep::Call(2)));
    assert!(matches!(timer.step(100, 100), TimerStep::Call(1)));
}

#[test]
fn wallclock_wait_is_capped() {
    let mut timer: TimerData<u32> = TimerData::new();
    timer.spawn_at(1, AnyTime::Wallclock(10_000_000_000));
    // The wall-clock deadline is far away, but the wait is capped so a
    // system-clock jump is noticed soon.
    assert!(matches!(timer.step(0, 0), TimerStep::Wait(WALLCLOCK_RECHECK_CAP_NANOS)));

    let mut timer2: TimerData<u32> = TimerData::new();
    timer2.spawn_at(1, AnyTime::Monotonic(10_000_000_000));
    // A monotonic wait is not capped.
    assert!(matches!(timer2.step(0, 0), TimerStep::Wait(10_000_000_000)));
}

#[test]
fn past_deadline_resolves_immediately() {
    let mut timer: TimerData<u32> = TimerData::new();
    timer.spawn_at(5, AnyTime::Monotonic(10));
    assert!(matches!(timer.step(10, 0), TimerStep::Call(5)));
}

#[test]
fn spawn_signals_only_new_earliest() {
    let mut timer: TimerData<u32> = TimerData::new();
    let (_, wake1) = timer.spawn_at(1, AnyTime::Monotonic(100));
    let (_, wake2) = timer.spawn_at(2, AnyTime::Monotonic(200));
    let (_, wake3) = timer.spawn_at(3, AnyTime::Monotonic(50));
    assert!(wake1);
    assert!(!wake2);
    assert!(wake3);
}

#[test]
fn is_wake_with_matches_first_key() {
    let mut map: BTreeMultiMap<u32> = BTreeMultiMap::new();
    assert!(is_wake_with(&map, 100));
    map.insert(100, 1);
    assert!(!is_wake_with(&map, 100));
    assert!(!is_wake_with(&map, 150));
    assert!(is_wake_with(&map, 50));
}

#[test]
fn running_flag_round_trip() {
    let mut timer: TimerData<u32> = TimerData::new();
    assert!(!timer.is_running());
    timer.set_running(true);
    assert!(timer.is_running());
    timer.set_running(false);
    assert!(!timer.is_running());
}

#[test]
fn merged_deadline_drives_the_earlier_wake() {
    // A poll asks for two wake-ups; the effective deadline is the earlier,
    // and the timer fires at it regardless of the order of the requests.
    let mut cx: StateContext<u32> = StateContext::new();
    cx.begin_evaluation();
    cx.notify_at(5_000_000_000);
    cx.notify_at(1_000_000_000);
    let deadline = cx.pending_deadline().unwrap();
    assert_eq!(deadline, 1_000_000_000);

    let mut timer: TimerData<u32> = TimerData::new();
    timer.spawn_at(1, AnyTime::Monotonic(deadline));
    assert!(matches!(timer.step(999_999_999, 0), TimerStep::Wait(1)));
    assert!(matches!(timer.step(1_000_000_000, 0), TimerStep::Call(1)));
}

#[test]
fn idle_window_boundary() {
    assert!(!idle_window_elapsed(3_999_999_999, 0));
    assert!(idle_window_elapsed(4_000_000_000, 0));
    assert!(idle_window_elapsed(9_000_000_000, 5_000_000_000));
}

#[test]
fn extreme_deadline_still_waits() {
    // A deadline at the largest representable instant is a stored deadline
    // like any other: the service must wait for it, not go idle.
    let mut timer: TimerData<u32> = TimerData::new();
    let (id, _) = timer.spawn_at(1, AnyTime::Monotonic(u64::MAX));
    assert!(matches!(timer.step(0, 0), TimerStep::Wait(u64::MAX)));
    assert!(matches!(timer.step(u64::MAX, 0), TimerStep::Call(1)));

    let mut timer2: TimerData<u32> = TimerData::new();
    let (id2, _) = timer2.spawn_at(2, AnyTime::Monotonic(u64::MAX));
    timer2.cancel(AnyTime::Monotonic(u64::MAX), id2);
    assert!(matches!(timer2.step(0, 0), TimerStep::Idle));
    let _ = id;
}
