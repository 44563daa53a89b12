use std::collections::HashMap;

use labkit::distribution::{can_distribute_exec, consumer_switches, next_distribution};
use labkit::message::Op;

type Watermarks = HashMap<usize, HashMap<usize, usize>>;

fn marks(rows: &[(usize, [usize; 3])]) -> Watermarks {
    rows.iter()
        .map(|(c, w)| (*c, HashMap::from([(7, w[0]), (42, w[1]), (99, w[2])])))
        .collect()
}

fn zeros() -> HashMap<usize, usize> {
    HashMap::from([(7, 0), (42, 0), (99, 0)])
}

#[test]
fn first_advancing_consumer_is_chosen() {
    let pre = marks(&[(0, [1, 1, 1]), (1, [1, 1, 1])]);
    let post = marks(&[(0, [1, 2, 1]), (1, [2, 2, 1])]);
    let last = zeros();
    assert!(can_distribute_exec(&pre, &post, &last, 2));
    let next = next_distribution(&pre, &post, &last, 2);
    assert_eq!(next, HashMap::from([(7, 1), (42, 0), (99, 0)]));
    assert_eq!(
        consumer_switches(&last, &next),
        vec![Op::ConsumerSwitch { topic: 7, consumer_idx: 1 }]
    );
}

#[test]
fn quiet_topic_keeps_its_consumer() {
    let pre = marks(&[(0, [3, 3, 3]), (1, [5, 5, 5])]);
    let post = pre.clone();
    let last = HashMap::from([(7, 1), (42, 0), (99, 1)]);
    let next = next_distribution(&pre, &post, &last, 2);
    assert_eq!(next, last);
    assert!(consumer_switches(&last, &next).is_empty());
}

#[test]
fn switches_follow_topic_order() {
    let last = HashMap::from([(7, 0), (42, 0), (99, 0)]);
    let next = HashMap::from([(7, 1), (42, 0), (99, 2)]);
    assert_eq!(
        consumer_switches(&last, &next),
        vec![
            Op::ConsumerSwitch { topic: 7, consumer_idx: 1 },
            Op::ConsumerSwitch { topic: 99, consumer_idx: 2 },
        ]
    );
}

#[test]
fn undefined_inputs_are_detected() {
    let pre = marks(&[(0, [1, 1, 1])]);
    let post = marks(&[(0, [1, 1, 1])]);
    // a third consumer without watermarks
    assert!(!can_distribute_exec(&pre, &post, &zeros(), 2));
    // a watermark that went back and none that advanced
    let post = marks(&[(0, [0, 1, 1])]);
    assert!(!can_distribute_exec(&pre, &post, &zeros(), 1));
    // a topic missing from the last distribution
    assert!(!can_distribute_exec(&pre, &pre, &HashMap::from([(7, 0)]), 1));
    assert!(can_distribute_exec(&pre, &pre, &zeros(), 1));
}

#[test]
fn switches_over_rounds_change_the_assignment_each_time() {
    let mut last = zeros();
    let mut sent: Vec<Op> = Vec::new();
    let windows = [
        (marks(&[(0, [1, 1, 1]), (1, [1, 1, 1])]), marks(&[(0, [1, 1, 1]), (1, [2, 1, 1])])),
        (marks(&[(0, [1, 1, 1]), (1, [2, 1, 1])]), marks(&[(0, [1, 1, 1]), (1, [3, 1, 1])])),
        (marks(&[(0, [1, 1, 1]), (1, [3, 1, 1])]), marks(&[(0, [2, 1, 1]), (1, [4, 1, 1])])),
    ];
    for (pre, post) in windows.iter() {
        assert!(can_distribute_exec(pre, post, &last, 2));
        let next = next_distribution(pre, post, &last, 2);
        sent.extend(consumer_switches(&last, &next));
        last = next;
    }
    assert_eq!(
        sent,
        vec![
            Op::ConsumerSwitch { topic: 7, consumer_idx: 1 },
            Op::ConsumerSwitch { topic: 7, consumer_idx: 0 },
        ]
    );
    assert_eq!(last[&7], 0);
}
