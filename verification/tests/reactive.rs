use reactive_state::state_container::{Poll, StateContext, StateKey, SubscribeState};
use reactive_state::state::queue::{Queue, QueueReader};
use reactive_state::state::value::Value;
use reactive_state::utils::bipartite_graph::YKey;

/// Runs the steps a polling adapter takes before re-evaluating.
fn begin_poll(cx: &mut StateContext<u32>, target: &mut Option<YKey>) {
    if let Some(y) = target.take() {
        cx.remove_target(y);
    }
    cx.clear_sources();
    cx.begin_evaluation();
}

#[test]
fn watch_then_notify_wakes() {
    let mut cx: StateContext<u32> = StateContext::new();
    let key = StateKey::new(&mut cx);
    let mut target: Option<YKey> = None;

    begin_poll(&mut cx, &mut target);
    key.watch(&mut cx);
    target = Some(cx.commit_target(7));

    cx.begin_evaluation();
    key.notify(&mut cx);
    assert_eq!(cx.take_pending(), vec![7u32]);
    assert!(target.is_some());
}

#[test]
fn notify_unwatched_key_wakes_nobody() {
    let mut cx: StateContext<u32> = StateContext::new();
    let watched = StateKey::new(&mut cx);
    let unwatched = StateKey::new(&mut cx);
    let mut target: Option<YKey> = None;

    begin_poll(&mut cx, &mut target);
    watched.watch(&mut cx);
    cx.commit_target(7);

    cx.begin_evaluation();
    unwatched.notify(&mut cx);
    assert_eq!(cx.take_pending(), Vec::<u32>::new());
}

#[test]
fn repeated_notify_wakes_once() {
    let mut cx: StateContext<u32> = StateContext::new();
    let key = StateKey::new(&mut cx);
    let mut target: Option<YKey> = None;

    begin_poll(&mut cx, &mut target);
    key.watch(&mut cx);
    cx.commit_target(7);

    cx.begin_evaluation();
    key.notify(&mut cx);
    key.notify(&mut cx);
    key.notify(&mut cx);
    assert_eq!(cx.take_pending(), vec![7u32]);
}

#[test]
fn repeated_watch_single_wake() {
    let mut cx: StateContext<u32> = StateContext::new();
    let key = StateKey::new(&mut cx);
    let mut target: Option<YKey> = None;

    begin_poll(&mut cx, &mut target);
    key.watch(&mut cx);
    key.watch(&mut cx);
    key.watch(&mut cx);
    cx.commit_target(7);

    cx.begin_evaluation();
    key.notify(&mut cx);
    assert_eq!(cx.take_pending(), vec![7u32]);
}

#[test]
fn deadline_merge_takes_earlier() {
    let mut cx: StateContext<u32> = StateContext::new();
    cx.begin_evaluation();
    cx.notify_at(5_000);
    cx.notify_at(2_000);
    assert_eq!(cx.pending_deadline(), Some(2_000));

    let mut cx2: StateContext<u32> = StateContext::new();
    cx2.begin_evaluation();
    cx2.notify_at(2_000);
    cx2.notify_at(5_000);
    assert_eq!(cx2.pending_deadline(), Some(2_000));

    cx.begin_evaluation();
    assert_eq!(cx.pending_deadline(), None);
}

#[test]
fn subscription_on_sum_recomputes_on_its_inputs_only() {
    let mut cx: StateContext<u32> = StateContext::new();
    let mut a = Value::new(0i64, &mut cx);
    let mut b = Value::new(0i64, &mut cx);
    let mut c = Value::new(0i64, &mut cx);

    let mut sub = SubscribeState::new();
    let mut target: Option<YKey> = None;

    // First poll: dirty, so evaluate `a + c`.
    assert!(sub.try_begin());
    begin_poll(&mut cx, &mut target);
    let v = *a.get(&mut cx) + *c.get(&mut cx);
    assert_eq!(v, 0);
    target = Some(cx.commit_target(sub.age() as u32));

    // update: a <- 1 wakes the subscription.
    cx.begin_evaluation();
    a.set(1, &mut cx);
    for age in cx.take_pending() {
        assert!(sub.on_wake(age as u64));
    }
    assert!(sub.is_dirty());
    assert!(sub.try_begin());
    begin_poll(&mut cx, &mut target);
    let v = *a.get(&mut cx) + *c.get(&mut cx);
    assert_eq!(v, 1);
    target = Some(cx.commit_target(sub.age() as u32));

    // update: b <- 2 wakes nothing; no new value appears.
    cx.begin_evaluation();
    b.set(2, &mut cx);
    assert_eq!(cx.take_pending(), Vec::<u32>::new());
    assert!(!sub.is_dirty());
    assert!(!sub.try_begin());

    // update: c <- 3 wakes the subscription again.
    cx.begin_evaluation();
    c.set(3, &mut cx);
    for age in cx.take_pending() {
        assert!(sub.on_wake(age as u64));
    }
    assert!(sub.try_begin());
    begin_poll(&mut cx, &mut target);
    let v = *a.get(&mut cx) + *c.get(&mut cx);
    assert_eq!(v, 4);
    cx.commit_target(sub.age() as u32);
}

#[test]
fn independent_subscribers_wake_independently() {
    let mut cx: StateContext<u32> = StateContext::new();
    let mut a = Value::new(0i64, &mut cx);
    let mut b = Value::new(0i64, &mut cx);

    let mut target_a: Option<YKey> = None;
    let mut target_b: Option<YKey> = None;

    begin_poll(&mut cx, &mut target_a);
    a.get(&mut cx);
    target_a = Some(cx.commit_target(1));

    begin_poll(&mut cx, &mut target_b);
    b.get(&mut cx);
    target_b = Some(cx.commit_target(2));

    cx.begin_evaluation();
    a.set(3, &mut cx);
    assert_eq!(cx.take_pending(), vec![1u32]);

    cx.begin_evaluation();
    b.set(4, &mut cx);
    assert_eq!(cx.take_pending(), vec![2u32]);
    assert!(target_a.is_some() && target_b.is_some());
}

#[test]
fn threshold_poll_resolves_when_sum_reaches_ten() {
    let mut cx: StateContext<u32> = StateContext::new();
    let mut a = Value::new(0i64, &mut cx);
    let mut b = Value::new(0i64, &mut cx);

    let mut target: Option<YKey> = None;

    // Poll while 0 + 0 < 10: pending.
    begin_poll(&mut cx, &mut target);
    let sum = *a.get(&mut cx) + *b.get(&mut cx);
    assert!(sum < 10);
    target = Some(cx.commit_target(9));

    // a <- 5 wakes the waiter, but 5 + 0 is still below the threshold.
    cx.begin_evaluation();
    a.set(5, &mut cx);
    assert_eq!(cx.take_pending(), vec![9u32]);
    begin_poll(&mut cx, &mut target);
    let sum = *a.get(&mut cx) + *b.get(&mut cx);
    assert!(sum < 10);
    target = Some(cx.commit_target(9));

    // b <- 6 wakes it again and 5 + 6 resolves the wait.
    cx.begin_evaluation();
    b.set(6, &mut cx);
    assert_eq!(cx.take_pending(), vec![9u32]);
    begin_poll(&mut cx, &mut target);
    let sum = *a.get(&mut cx) + *b.get(&mut cx);
    assert_eq!(sum, 11);
}

#[test]
fn stale_wake_is_ignored() {
    let mut sub = SubscribeState::new();
    assert!(sub.try_begin());
    let stale = sub.age();
    // The subscription re-evaluates again before the wake lands.
    sub.on_wake(stale);
    assert!(sub.try_begin());
    assert!(!sub.on_wake(stale));
    assert!(!sub.is_dirty());
    assert!(sub.on_wake(sub.age()));
    assert!(sub.is_dirty());
}

#[test]
fn value_get_mut_notifies_eagerly() {
    let mut cx: StateContext<u32> = StateContext::new();
    let mut v = Value::new(10i64, &mut cx);
    let mut target: Option<YKey> = None;

    begin_poll(&mut cx, &mut target);
    v.get(&mut cx);
    cx.commit_target(3);

    cx.begin_evaluation();
    *v.get_mut(&mut cx) += 1;
    assert_eq!(cx.take_pending(), vec![3u32]);
    cx.clear_sources();
    cx.begin_evaluation();
    assert_eq!(*v.get(&mut cx), 11);
}

#[test]
fn push_then_pop() {
    let mut cx: StateContext<u32> = StateContext::new();
    let mut q = Queue::new(&mut cx);
    cx.begin_evaluation();
    q.push(42i64, &mut cx);
    cx.take_pending();
    cx.clear_sources();
    cx.begin_evaluation();
    assert!(matches!(q.pop(&mut cx), Poll::Ready(42)));
    assert!(matches!(q.pop(&mut cx), Poll::Pending));
}

#[test]
fn pop_then_push() {
    let mut cx: StateContext<u32> = StateContext::new();
    let mut q = Queue::new(&mut cx);
    let mut target: Option<YKey> = None;

    begin_poll(&mut cx, &mut target);
    assert!(matches!(q.pop(&mut cx), Poll::<i64>::Pending));
    target = Some(cx.commit_target(5));

    // The push into the empty queue wakes the blocked consumer.
    cx.begin_evaluation();
    q.push(42, &mut cx);
    assert_eq!(cx.take_pending(), vec![5u32]);
    begin_poll(&mut cx, &mut target);
    assert!(matches!(q.pop(&mut cx), Poll::Ready(42)));
}

#[test]
fn push_nonempty_does_not_notify() {
    let mut cx: StateContext<u32> = StateContext::new();
    let mut q = Queue::new(&mut cx);
    let mut target: Option<YKey> = None;

    begin_poll(&mut cx, &mut target);
    assert!(matches!(q.pop(&mut cx), Poll::<i64>::Pending));
    cx.commit_target(5);

    cx.begin_evaluation();
    q.push(1, &mut cx);
    q.push(2, &mut cx);
    // Only the transition from empty notified; the queue coalesced it into
    // one wake anyway.
    assert_eq!(cx.take_pending(), vec![5u32]);
}

#[test]
fn queue_reader_round_trip() {
    let mut cx: StateContext<u32> = StateContext::new();
    let mut q = Queue::new(&mut cx);
    let mut reader = QueueReader::new();

    cx.begin_evaluation();
    q.push(1i64, &mut cx);
    q.push(2, &mut cx);
    cx.take_pending();

    cx.clear_sources();
    cx.begin_evaluation();
    assert!(matches!(reader.fetch(&mut q, &mut cx), Poll::Ready(())));
    assert_eq!(reader.next(), Some(1));
    assert_eq!(reader.next(), Some(2));
    assert_eq!(reader.next(), None);

    // Both the reader and the queue are now empty: fetching pends.
    assert!(matches!(reader.fetch(&mut q, &mut cx), Poll::Pending));
}

#[test]
fn fetch_ready_while_reader_holds_items() {
    let mut cx: StateContext<u32> = StateContext::new();
    let mut q = Queue::new(&mut cx);
    let mut reader = QueueReader::new();

    cx.begin_evaluation();
    q.push(1i64, &mut cx);
    cx.take_pending();

    cx.clear_sources();
    cx.begin_evaluation();
    assert!(matches!(reader.fetch(&mut q, &mut cx), Poll::Ready(())));
    // The queue gets another item, but the reader still holds one: fetch is
    // ready without touching the queue.
    cx.begin_evaluation();
    q.push(2, &mut cx);
    cx.take_pending();
    assert!(matches!(reader.fetch(&mut q, &mut cx), Poll::Ready(())));
    assert_eq!(reader.next(), Some(1));
    assert!(matches!(reader.fetch(&mut q, &mut cx), Poll::Ready(())));
    assert_eq!(reader.next(), Some(2));
    assert_eq!(reader.next(), None);
}

#[test]
fn removed_source_stops_waking() {
    let mut cx: StateContext<u32> = StateContext::new();
    let doomed = StateKey::new(&mut cx);
    let kept = StateKey::new(&mut cx);
    let mut target: Option<YKey> = None;

    begin_poll(&mut cx, &mut target);
    doomed.watch(&mut cx);
    kept.watch(&mut cx);
    cx.commit_target(6);

    // The owner of the first key goes away; its source leaves the graph at
    // the start of the next evaluation, edges and all.
    cx.remove_source(doomed);
    cx.begin_evaluation();
    kept.notify(&mut cx);
    assert_eq!(cx.take_pending(), vec![6u32]);
}

#[test]
fn removed_target_cannot_be_woken() {
    let mut cx: StateContext<u32> = StateContext::new();
    let key = StateKey::new(&mut cx);
    let mut target: Option<YKey> = None;

    begin_poll(&mut cx, &mut target);
    key.watch(&mut cx);
    let y = cx.commit_target(6);

    // The scope is dropped before any notification: its target leaves the
    // graph and its stored action is disarmed.
    cx.remove_target(y);
    cx.begin_evaluation();
    key.notify(&mut cx);
    assert_eq!(cx.take_pending(), Vec::<u32>::new());
}

#[test]
fn source_liveness_tracks_removal() {
    let mut cx: StateContext<u32> = StateContext::new();
    let key = StateKey::new(&mut cx);
    assert!(cx.source_live(&key));
    cx.remove_source(key);
}
