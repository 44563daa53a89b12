use std::collections::VecDeque;

use labkit::message::Message;
use labkit::time::{TIMESTAMP_MAX_NANOS, TIMESTAMP_MIN_NANOS};
use labkit::topic::TopicManager;

const SEC: i128 = 1_000_000_000;
const T0: i128 = 1_700_000_000 * SEC;

fn msg(consumer_idx: usize, idx: usize, reception: i128) -> Message {
    Message { consumer_idx, topic: 7, idx, reception }
}

fn receptions(q: &VecDeque<Message>) -> Vec<i128> {
    q.iter().map(|m| m.reception).collect()
}

#[test]
fn active_consumer_message_is_delivered() {
    let mut tm = TopicManager::new(2, 0);
    let m = msg(0, 1, T0);
    assert!(tm.can_process(&m));
    assert_eq!(tm.process(m), Some(m));
}

#[test]
fn standby_message_is_buffered_and_handed_over() {
    let mut tm = TopicManager::new(2, 0);
    let a = msg(1, 1, T0);
    let b = msg(1, 2, T0 + SEC);
    assert_eq!(tm.process(a), None);
    assert_eq!(tm.process(b), None);
    assert!(tm.can_switch(1));
    let q = tm.switch_consumer(1);
    assert_eq!(q, VecDeque::from(vec![a, b]));
    // consumer 1 is active now: its messages are delivered
    let c = msg(1, 3, T0 + 2 * SEC);
    assert_eq!(tm.process(c), Some(c));
    // and consumer 0 is buffered
    assert_eq!(tm.process(msg(0, 9, T0 + 2 * SEC)), None);
    let back = tm.switch_consumer(0);
    assert_eq!(receptions(&back), Vec::<i128>::new());
}

#[test]
fn switch_drops_messages_within_margin() {
    let mut tm = TopicManager::new(2, 0);
    assert!(tm.process(msg(0, 1, T0)).is_some());
    for (i, dt) in [-1i128, 1, 2, 3].iter().enumerate() {
        assert_eq!(tm.process(msg(1, i + 1, T0 + dt * SEC)), None);
    }
    let q = tm.switch_consumer(1);
    assert_eq!(receptions(&q), vec![T0 + 2 * SEC, T0 + 3 * SEC]);
    // received before the last delivery plus the margin: dropped
    assert_eq!(tm.process(msg(1, 5, T0 + SEC)), None);
    assert_eq!(tm.process(msg(0, 5, T0 + SEC)), None);
    let m = msg(1, 6, T0 + 2 * SEC);
    assert_eq!(tm.process(m), Some(m));
}

#[test]
fn switch_without_delivery_hands_over_whole_buffer() {
    let mut tm = TopicManager::new(3, 0);
    tm.process(msg(2, 1, T0 - 100 * SEC));
    tm.process(msg(2, 2, T0 - 90 * SEC));
    let q = tm.switch_consumer(2);
    assert_eq!(receptions(&q), vec![T0 - 100 * SEC, T0 - 90 * SEC]);
}

#[test]
fn buffer_window_drops_old_messages() {
    let mut tm = TopicManager::new(2, 0);
    tm.process(msg(1, 1, T0));
    tm.process(msg(1, 2, T0 + 31 * SEC));
    let q = tm.switch_consumer(1);
    assert_eq!(receptions(&q), vec![T0 + 31 * SEC]);

    let mut tm = TopicManager::new(2, 0);
    tm.process(msg(1, 1, T0));
    tm.process(msg(1, 2, T0 + 30 * SEC));
    let q = tm.switch_consumer(1);
    assert_eq!(receptions(&q), vec![T0, T0 + 30 * SEC]);
}

#[test]
fn clear_expired_drops_only_the_leading_expired() {
    let mut q = VecDeque::from(vec![msg(1, 1, 5), msg(1, 2, 1), msg(1, 3, 10), msg(1, 4, 2)]);
    TopicManager::clear_expired(&mut q, 6);
    assert_eq!(receptions(&q), vec![10, 2]);

    let mut q = VecDeque::from(vec![msg(1, 1, 10), msg(1, 2, 1)]);
    TopicManager::clear_expired(&mut q, 6);
    assert_eq!(receptions(&q), vec![10, 1]);

    let mut q = VecDeque::from(vec![msg(1, 1, 1), msg(1, 2, 2)]);
    TopicManager::clear_expired(&mut q, 6);
    assert!(q.is_empty());
}

#[test]
fn earliest_instant_is_accepted_before_any_delivery() {
    let mut tm = TopicManager::new(1, 0);
    let m = msg(0, 1, TIMESTAMP_MIN_NANOS);
    assert!(tm.can_process(&m));
    assert_eq!(tm.process(m), Some(m));
}

#[test]
fn inputs_that_would_panic_are_refused() {
    let tm = TopicManager::new(2, 0);
    // unknown standby consumer
    assert!(!tm.can_process(&msg(5, 1, T0)));
    assert!(!tm.can_switch(5));
    // out of the timestamp range
    assert!(!tm.can_process(&msg(0, 1, TIMESTAMP_MAX_NANOS + 1)));
    // buffering needs the instant 30 s earlier to exist
    assert!(!tm.can_process(&msg(1, 1, TIMESTAMP_MIN_NANOS + 10 * SEC)));
    assert!(tm.can_process(&msg(1, 1, TIMESTAMP_MIN_NANOS + 30 * SEC)));
    // no buffer for the active consumer when there are no consumers
    let empty = TopicManager::new(0, 0);
    assert!(!empty.can_process(&msg(0, 1, T0)));

    // a switch after a delivery at the last instant would overflow
    let mut tm = TopicManager::new(2, 0);
    tm.process(msg(0, 1, TIMESTAMP_MAX_NANOS));
    assert!(!tm.can_switch(1));
    let mut tm = TopicManager::new(2, 0);
    tm.process(msg(0, 1, TIMESTAMP_MAX_NANOS - 2 * SEC));
    assert!(tm.can_switch(1));
}
