use labkit::client::{Client, TOPICS_MOCK};
use labkit::message::{Message, Op};

const SEC: i128 = 1_000_000_000;
const T0: i128 = 1_700_000_000 * SEC;

fn msg(consumer_idx: usize, topic: usize, idx: usize, reception: i128) -> Op {
    Op::Message(Message { consumer_idx, topic, idx, reception })
}

#[test]
fn mock_topics() {
    assert_eq!(TOPICS_MOCK, [7, 42, 99]);
}

#[test]
fn messages_of_the_active_consumer_pass_through() {
    let mut c = Client::new(2);
    assert_eq!(c.pop_queued(), None);
    for &t in TOPICS_MOCK.iter() {
        let op = msg(0, t, 1, T0);
        assert!(c.can_handle(&op));
        assert_eq!(c.handle(op), Some(Message { consumer_idx: 0, topic: t, idx: 1, reception: T0 }));
    }
    assert_eq!(c.handle(msg(1, 42, 1, T0)), None);
}

#[test]
fn unknown_topic_is_refused() {
    let c = Client::new(2);
    assert!(!c.can_handle(&msg(0, 8, 1, T0)));
    assert!(!c.can_handle(&Op::ConsumerSwitch { topic: 8, consumer_idx: 0 }));
    assert!(!c.can_handle(&Op::ConsumerSwitch { topic: 7, consumer_idx: 2 }));
    assert!(c.can_handle(&Op::ConsumerSwitch { topic: 7, consumer_idx: 1 }));
}

#[test]
fn switch_hands_out_buffered_messages_in_order() {
    let mut c = Client::new(2);
    assert!(c.handle(msg(0, 42, 1, T0)).is_some());
    assert_eq!(c.handle(msg(1, 42, 1, T0 + 3 * SEC)), None);
    assert_eq!(c.handle(msg(1, 42, 2, T0 + 4 * SEC)), None);
    assert_eq!(c.handle(msg(1, 42, 3, T0 + 5 * SEC)), None);
    // a message of another topic does not interfere
    assert_eq!(c.handle(msg(1, 7, 1, T0 + 5 * SEC)), None);
    let first = c.handle(Op::ConsumerSwitch { topic: 42, consumer_idx: 1 });
    assert_eq!(first.map(|m| m.idx), Some(1));
    assert_eq!(c.queued_len(), 2);
    assert_eq!(c.pop_queued().map(|m| m.idx), Some(2));
    assert_eq!(c.pop_queued().map(|m| m.idx), Some(3));
    assert_eq!(c.pop_queued(), None);
    // topic 7 still reads from consumer 0
    assert!(c.handle(msg(0, 7, 2, T0 + 6 * SEC)).is_some());
}

#[test]
fn switch_to_an_empty_buffer_hands_out_nothing() {
    let mut c = Client::new(2);
    assert_eq!(c.handle(Op::ConsumerSwitch { topic: 99, consumer_idx: 1 }), None);
    assert_eq!(c.queued_len(), 0);
    assert!(c.handle(msg(1, 99, 1, T0)).is_some());
}
