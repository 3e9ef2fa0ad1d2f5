use reactive_state::utils::shared_queue::SharedQueue;

#[test]
fn basic_push_and_read() {
    let mut queue = SharedQueue::new();
    let mut cursor = queue.create_cursor();

    queue.push(1);
    queue.push(2);
    queue.push(3);

    let mut reader = queue.read(&cursor);
    assert_eq!(reader.pop(&queue), Some(&1));
    assert_eq!(reader.pop(&queue), Some(&2));
    assert_eq!(reader.pop(&queue), Some(&3));
    assert_eq!(reader.pop(&queue), None);
    queue.commit_read(&mut cursor, reader);

    queue.drop_cursor(cursor);
}

#[test]
fn multiple_cursors() {
    let mut queue = SharedQueue::new();
    let mut cursor1 = queue.create_cursor();
    let mut cursor2 = queue.create_cursor();

    queue.push(1);
    queue.push(2);

    let mut reader1 = queue.read(&cursor1);
    assert_eq!(reader1.pop(&queue), Some(&1));
    assert_eq!(reader1.pop(&queue), Some(&2));
    assert_eq!(reader1.pop(&queue), None);
    queue.commit_read(&mut cursor1, reader1);

    let mut reader2 = queue.read(&cursor2);
    assert_eq!(reader2.pop(&queue), Some(&1));
    assert_eq!(reader2.pop(&queue), Some(&2));
    assert_eq!(reader2.pop(&queue), None);
    queue.commit_read(&mut cursor2, reader2);

    queue.drop_cursor(cursor1);
    queue.drop_cursor(cursor2);
}

#[test]
fn memory_cleanup() {
    let mut queue = SharedQueue::new();
    queue.push(1);
    queue.push(2);

    let cursor = queue.create_cursor();
    queue.drop_cursor(cursor);

    assert_eq!(queue.values_len(), 0);
    assert_eq!(queue.ref_counts_len(), 1);
}

#[test]
fn memory_no_cursor() {
    let mut queue = SharedQueue::new();
    queue.push(1);
    queue.push(2);

    assert_eq!(queue.values_len(), 0);
    assert_eq!(queue.ref_counts_len(), 1);
}

#[test]
fn cursor_position_update() {
    let mut queue = SharedQueue::new();
    let mut cursor = queue.create_cursor();

    queue.push(1);
    queue.push(2);

    let mut reader = queue.read(&cursor);
    assert_eq!(reader.pop(&queue), Some(&1));
    queue.commit_read(&mut cursor, reader);

    let mut reader = queue.read(&cursor);
    assert_eq!(reader.pop(&queue), Some(&2));
    queue.commit_read(&mut cursor, reader);

    queue.drop_cursor(cursor);
}

#[test]
fn create_cursor_after_push() {
    let mut queue = SharedQueue::new();
    queue.push(1);
    let mut cursor = queue.create_cursor();
    queue.push(2);
    let mut reader = queue.read(&cursor);
    assert_eq!(reader.pop(&queue), Some(&2));
    assert_eq!(reader.pop(&queue), None);
    queue.commit_read(&mut cursor, reader);
    queue.drop_cursor(cursor);
}

#[test]
fn create_cursor_when_unread_value_exists() {
    let mut queue = SharedQueue::new();
    let mut cursor1 = queue.create_cursor();
    queue.push(1);
    let mut cursor2 = queue.create_cursor();
    queue.push(2);

    let mut reader2 = queue.read(&cursor2);
    assert_eq!(reader2.pop(&queue), Some(&2));
    assert_eq!(reader2.pop(&queue), None);
    queue.commit_read(&mut cursor2, reader2);

    let mut reader1 = queue.read(&cursor1);
    assert_eq!(reader1.pop(&queue), Some(&1));
    assert_eq!(reader1.pop(&queue), Some(&2));
    assert_eq!(reader1.pop(&queue), None);
    queue.commit_read(&mut cursor1, reader1);
}

#[test]
fn pruning_keeps_reachable_values() {
    let mut queue = SharedQueue::new();
    let mut early = queue.create_cursor();
    queue.push(10);
    queue.push(20);
    queue.push(30);
    let late = queue.create_cursor();

    // The early cursor reads one value; the two others stay reachable for
    // nobody below them, so exactly one value is pruned.
    let mut reader = queue.read(&early);
    assert_eq!(reader.pop(&queue), Some(&10));
    queue.commit_read(&mut early, reader);
    assert_eq!(queue.values_len(), 2);

    // After the early cursor leaves, only the end-of-log cursor remains and
    // everything is pruned.
    queue.drop_cursor(early);
    assert_eq!(queue.values_len(), 0);
    queue.drop_cursor(late);
}
