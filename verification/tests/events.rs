use reactive_state::state::event_channel::EventChannel;
use reactive_state::state_container::StateContext;
use reactive_state::utils::shared_queue::SharedQueueCursor;

/// Drains every newly available event through the cursor, committing the
/// advance, as one poll of an event subscription does.
fn drain(
    ch: &mut EventChannel<i64>,
    cursor: &mut SharedQueueCursor,
) -> Vec<i64> {
    let mut out = Vec::new();
    let mut reader = ch.read(cursor);
    while let Some(v) = ch.read_next(&mut reader) {
        out.push(*v);
    }
    ch.commit_read(cursor, reader);
    out
}

#[test]
fn two_subscribers_see_one_update_in_order() {
    let mut cx: StateContext<u32> = StateContext::new();
    let mut ch = EventChannel::new(&mut cx);
    let mut cursor1 = ch.create_cursor();
    let mut cursor2 = ch.create_cursor();

    cx.begin_evaluation();
    ch.send(1, &mut cx);
    ch.send(2, &mut cx);
    cx.take_pending();

    assert_eq!(drain(&mut ch, &mut cursor1), vec![1, 2]);
    assert_eq!(drain(&mut ch, &mut cursor2), vec![1, 2]);
    assert_eq!(drain(&mut ch, &mut cursor1), Vec::<i64>::new());

    ch.drop_cursor(cursor1);
    ch.drop_cursor(cursor2);
}

#[test]
fn late_subscriber_sees_only_later_events() {
    let mut cx: StateContext<u32> = StateContext::new();
    let mut ch = EventChannel::new(&mut cx);
    let mut early = ch.create_cursor();

    cx.begin_evaluation();
    ch.send(1, &mut cx);
    ch.send(2, &mut cx);
    cx.take_pending();

    let mut late = ch.create_cursor();

    cx.begin_evaluation();
    ch.send(3, &mut cx);
    cx.take_pending();

    assert_eq!(drain(&mut ch, &mut late), vec![3]);
    assert_eq!(drain(&mut ch, &mut early), vec![1, 2, 3]);

    ch.drop_cursor(early);
    ch.drop_cursor(late);
}

#[test]
fn send_notifies_subscriber_every_time() {
    let mut cx: StateContext<u32> = StateContext::new();
    let mut ch = EventChannel::new(&mut cx);
    let mut cursor = ch.create_cursor();

    // A drained subscriber watches the channel and goes to sleep.
    cx.clear_sources();
    cx.begin_evaluation();
    assert_eq!(drain(&mut ch, &mut cursor), Vec::<i64>::new());
    ch.watch(&mut cx);
    cx.commit_target(8);

    cx.begin_evaluation();
    ch.send(5, &mut cx);
    assert_eq!(cx.take_pending(), vec![8u32]);
    assert_eq!(drain(&mut ch, &mut cursor), vec![5]);

    // The channel notifies even though earlier events were already read.
    cx.clear_sources();
    cx.begin_evaluation();
    ch.watch(&mut cx);
    cx.commit_target(9);
    cx.begin_evaluation();
    ch.send(6, &mut cx);
    assert_eq!(cx.take_pending(), vec![9u32]);
    assert_eq!(drain(&mut ch, &mut cursor), vec![6]);

    ch.drop_cursor(cursor);
}

#[test]
fn send_all_appends_in_order_and_notifies_once() {
    let mut cx: StateContext<u32> = StateContext::new();
    let mut ch = EventChannel::new(&mut cx);
    let mut cursor = ch.create_cursor();

    cx.clear_sources();
    cx.begin_evaluation();
    ch.watch(&mut cx);
    cx.commit_target(4);

    cx.begin_evaluation();
    ch.send_all(vec![7, 8, 9], &mut cx);
    assert_eq!(cx.take_pending(), vec![4u32]);
    assert_eq!(drain(&mut ch, &mut cursor), vec![7, 8, 9]);

    ch.drop_cursor(cursor);
}

#[test]
fn sends_without_observer_are_swallowed() {
    let mut cx: StateContext<u32> = StateContext::new();
    let mut ch = EventChannel::new(&mut cx);

    cx.begin_evaluation();
    ch.send(1, &mut cx);
    ch.send(2, &mut cx);
    cx.take_pending();

    // Nothing held a cursor, so nothing was retained for anyone.
    let mut cursor = ch.create_cursor();
    assert_eq!(drain(&mut ch, &mut cursor), Vec::<i64>::new());
    ch.drop_cursor(cursor);
}

#[test]
fn read_rest_hands_out_the_whole_suffix_in_order() {
    let mut cx: StateContext<u32> = StateContext::new();
    let mut ch = EventChannel::new(&mut cx);
    let mut cursor = ch.create_cursor();

    cx.begin_evaluation();
    ch.send(4, &mut cx);
    ch.send(5, &mut cx);
    ch.send(6, &mut cx);
    cx.take_pending();

    // One value is taken singly; the rest come in one pass, in order.
    let mut reader = ch.read(&cursor);
    assert_eq!(ch.read_next(&mut reader), Some(&4));
    let rest: Vec<i64> = ch.read_rest(&mut reader).into_iter().copied().collect();
    assert_eq!(rest, vec![5, 6]);
    ch.commit_read(&mut cursor, reader);

    // The pass consumed everything: a fresh pass sees nothing more.
    let mut reader = ch.read(&cursor);
    assert!(ch.read_rest(&mut reader).is_empty());
    ch.commit_read(&mut cursor, reader);
    ch.drop_cursor(cursor);
}
