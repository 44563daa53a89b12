use std::collections::HashMap;

use labkit::consumer::{drawn_topic_change, record_watermark, Consumer};

#[test]
fn new_consumer_receives_every_topic() {
    let c = Consumer::new(3);
    assert_eq!(c.idx(), 3);
    assert_eq!(c.receiving_topics(), &vec![7, 42, 99]);
}

#[test]
fn topics_are_walked_round_robin_and_counted() {
    let mut c = Consumer::new(1);
    let mut w: HashMap<usize, HashMap<usize, usize>> = HashMap::new();
    let topics: Vec<usize> = (0..5)
        .map(|_| {
            assert!(c.can_poll(&w));
            let m = c.poll(&mut w).0.unwrap();
            assert_eq!(m.consumer_idx, 1);
            m.topic
        })
        .collect();
    assert_eq!(topics, vec![7, 42, 99, 7, 42]);
    assert_eq!(w[&1][&7], 2);
    assert_eq!(w[&1][&42], 2);
    assert_eq!(w[&1][&99], 1);
}

#[test]
fn message_index_is_the_new_watermark() {
    let mut c = Consumer::new(1);
    let mut w: HashMap<usize, HashMap<usize, usize>> =
        HashMap::from([(1, HashMap::from([(7, 41)]))]);
    let m = c.poll(&mut w).0.unwrap();
    assert_eq!((m.topic, m.idx), (7, 42));
    let now = jiff::Timestamp::now().as_nanosecond();
    assert!((now - m.reception).abs() < 60 * 1_000_000_000);
}

#[test]
fn clones_share_the_counter() {
    let mut a = Consumer::new(1);
    let mut b = a.clone();
    let mut w: HashMap<usize, HashMap<usize, usize>> = HashMap::new();
    assert_eq!(a.poll(&mut w).0.unwrap().topic, 7);
    assert_eq!(b.poll(&mut w).0.unwrap().topic, 42);
    assert_eq!(a.poll(&mut w).0.unwrap().topic, 99);
}

#[test]
fn consumer_zero_keeps_a_valid_topic_list() {
    let mut c = Consumer::new(0);
    let mut w: HashMap<usize, HashMap<usize, usize>> = HashMap::new();
    for _ in 0..200 {
        let m = c.poll(&mut w).0.unwrap();
        let topics = c.receiving_topics().clone();
        assert!(topics.contains(&m.topic));
        assert!(topics.len() == 2 || topics.len() == 3);
        assert!(topics.iter().all(|t| [7, 42, 99].contains(t)));
    }
    let total: usize = w[&0].values().sum();
    assert_eq!(total, 200);
}

#[test]
fn topic_changes() {
    let mut c = Consumer::new(0);
    c.change_topics(Some(1));
    assert_eq!(c.receiving_topics(), &vec![7, 99]);
    assert_eq!(c.select_topic(3), 99);
    c.change_topics(None);
    assert_eq!(c.receiving_topics(), &vec![7, 42, 99]);
    assert_eq!(c.select_topic(4), 42);
}

#[test]
fn watermark_recording() {
    let mut w: HashMap<usize, HashMap<usize, usize>> = HashMap::new();
    assert_eq!(record_watermark(&mut w, 2, 7), 1);
    assert_eq!(record_watermark(&mut w, 2, 7), 2);
    assert_eq!(record_watermark(&mut w, 3, 7), 1);
    assert_eq!(w[&2][&7], 2);
    assert_eq!(w[&3][&7], 1);
}

#[test]
fn overflowing_watermark_is_refused() {
    let c = Consumer::new(1);
    let w: HashMap<usize, HashMap<usize, usize>> =
        HashMap::from([(1, HashMap::from([(42, usize::MAX)]))]);
    assert!(!c.can_poll(&w));
}

#[test]
fn drawn_topic_changes() {
    assert_eq!(drawn_topic_change(0, false, true, 2), None);
    assert_eq!(drawn_topic_change(1, true, true, 2), None);
    assert_eq!(drawn_topic_change(0, true, false, 2), Some(None));
    assert_eq!(drawn_topic_change(0, true, true, 2), Some(Some(2)));
}

#[test]
fn consumers_other_than_zero_never_change_topics() {
    let mut c = Consumer::new(1);
    let mut w: HashMap<usize, HashMap<usize, usize>> = HashMap::new();
    for _ in 0..100 {
        assert_eq!(c.poll(&mut w).1, None);
    }
    assert_eq!(c.receiving_topics(), &vec![7, 42, 99]);
}
