//! Choosing, per topic, the consumer to read from: the first consumer whose
//! watermark for the topic advanced over an observation window.
use std::collections::HashMap;
use vstd::prelude::*;

use crate::client::{mock_topics, TOPICS_MOCK};
use crate::message::Op;

verus! {

broadcast use vstd::std_specs::hash::group_hash_axioms;

/// The watermark of `consumer` for `topic` in a snapshot (consumer, then
/// topic, to the number of messages polled).
pub open spec fn watermark_in(
    w: Map<usize, HashMap<usize, usize>>,
    consumer: usize,
    topic: usize,
) -> usize {
    w[consumer]@[topic]
}

/// The snapshot holds a watermark of every mock topic for the consumers
/// `0..mock_consumers`.
pub open spec fn covers(w: Map<usize, HashMap<usize, usize>>, mock_consumers: usize) -> bool {
    forall|c: usize, t: usize|
        c < mock_consumers && mock_topics().contains(t) ==> #[trigger] w[c]@.contains_key(t)
            && w.contains_key(c)
}

/// The watermark of `consumer` for `topic` grew between the snapshots.
pub open spec fn advanced(
    pre: Map<usize, HashMap<usize, usize>>,
    post: Map<usize, HashMap<usize, usize>>,
    consumer: usize,
    topic: usize,
) -> bool {
    watermark_in(pre, consumer, topic) < watermark_in(post, consumer, topic)
}

/// No watermark of `topic` changed between the snapshots.
pub open spec fn unchanged(
    pre: Map<usize, HashMap<usize, usize>>,
    post: Map<usize, HashMap<usize, usize>>,
    mock_consumers: usize,
    topic: usize,
) -> bool {
    forall|c: usize|
        c < mock_consumers ==> #[trigger] watermark_in(pre, c, topic) == watermark_in(post, c, topic)
}

/// Inputs on which the distribution is defined: both snapshots cover the
/// consumers, the last distribution has every topic, and for every topic
/// either nothing changed or some consumer advanced.
pub open spec fn can_distribute(
    pre: Map<usize, HashMap<usize, usize>>,
    post: Map<usize, HashMap<usize, usize>>,
    last: Map<usize, usize>,
    mock_consumers: usize,
) -> bool {
    &&& covers(pre, mock_consumers)
    &&& covers(post, mock_consumers)
    &&& forall|t: usize| #[trigger] mock_topics().contains(t) ==> last.contains_key(t)
    &&& forall|t: usize| #[trigger]
        mock_topics().contains(t) ==> unchanged(pre, post, mock_consumers, t) || exists|c: usize|
            c < mock_consumers && #[trigger] advanced(pre, post, c, t)
}

/// `consumer` is the one a topic goes to: the previous one when nothing
/// changed, else the first consumer that advanced.
pub open spec fn chosen(
    pre: Map<usize, HashMap<usize, usize>>,
    post: Map<usize, HashMap<usize, usize>>,
    last: Map<usize, usize>,
    mock_consumers: usize,
    topic: usize,
    consumer: usize,
) -> bool {
    if unchanged(pre, post, mock_consumers, topic) {
        consumer == last[topic]
    } else {
        &&& consumer < mock_consumers
        &&& advanced(pre, post, consumer, topic)
        &&& forall|c: usize| c < consumer ==> !#[trigger] advanced(pre, post, c, topic)
    }
}

/// The switch orders for the topics of `topics`, in that order: one for
/// each topic whose consumer differs between `last` and `next`.
pub open spec fn switch_orders(topics: Seq<usize>, last: Map<usize, usize>, next: Map<usize, usize>) -> Seq<Op>
    decreases topics.len(),
{
    if topics.len() == 0 {
        Seq::empty()
    } else {
        let rest = switch_orders(topics.drop_last(), last, next);
        let t = topics.last();
        if last[t] != next[t] {
            rest.push(Op::ConsumerSwitch { topic: t, consumer_idx: next[t] })
        } else {
            rest
        }
    }
}

/// A switch order names a topic of `topics` whose consumer changed, and
/// the new consumer; every topic whose consumer changed gets one.
pub proof fn lemma_switch_orders(
    topics: Seq<usize>,
    last: Map<usize, usize>,
    next: Map<usize, usize>,
    topic: usize,
    consumer_idx: usize,
)
    ensures
        switch_orders(topics, last, next).contains(Op::ConsumerSwitch { topic, consumer_idx })
            <==> (topics.contains(topic) && last[topic] != next[topic] && consumer_idx
            == next[topic]),
    decreases topics.len(),
{
    let op = Op::ConsumerSwitch { topic, consumer_idx };
    if topics.len() > 0 {
        let init = topics.drop_last();
        let t = topics.last();
        lemma_switch_orders(init, last, next, topic, consumer_idx);
        let rest = switch_orders(init, last, next);
        assert(topics =~= init.push(t));
        assert(topics.contains(topic) <==> (init.contains(topic) || t == topic)) by {
            if topics.contains(topic) {
                let j = choose|j: int| 0 <= j < topics.len() && topics[j] == topic;
                if j < init.len() {
                    assert(init[j] == topic);
                }
            }
            if init.contains(topic) {
                let j = choose|j: int| 0 <= j < init.len() && init[j] == topic;
                assert(topics[j] == topic);
            }
            if t == topic {
                assert(topics[topics.len() - 1] == topic);
            }
        }
        if last[t] != next[t] {
            let pushed = Op::ConsumerSwitch { topic: t, consumer_idx: next[t] };
            assert(rest.push(pushed).contains(op) <==> (rest.contains(op) || pushed == op)) by {
                if rest.push(pushed).contains(op) {
                    let j = choose|j: int| 0 <= j < rest.push(pushed).len() && rest.push(pushed)[j] == op;
                    if j < rest.len() {
                        assert(rest[j] == op);
                    }
                }
                if rest.contains(op) {
                    let j = choose|j: int| 0 <= j < rest.len() && rest[j] == op;
                    assert(rest.push(pushed)[j] == op);
                }
                if pushed == op {
                    assert(rest.push(pushed)[rest.len() as int] == op);
                }
            }
        }
    }
}

/// A snapshot lacking the watermark of a consumer below `mock_consumers`
/// for a mock topic does not cover the consumers.
pub proof fn lemma_uncovered(
    w: Map<usize, HashMap<usize, usize>>,
    mock_consumers: usize,
    c: usize,
    topic: usize,
)
    requires
        c < mock_consumers,
        mock_topics().contains(topic),
        !(w.contains_key(c) && w[c]@.contains_key(topic)),
    ensures
        !covers(w, mock_consumers),
{
    if covers(w, mock_consumers) {
        assert(w[c]@.contains_key(topic));
        assert(w.contains_key(c));
    }
}

/// Everything `can_distribute` asks of one topic.
pub open spec fn topic_ready(
    pre: Map<usize, HashMap<usize, usize>>,
    post: Map<usize, HashMap<usize, usize>>,
    last: Map<usize, usize>,
    mock_consumers: usize,
    t: usize,
) -> bool {
    &&& last.contains_key(t)
    &&& forall|c: usize|
        c < mock_consumers ==> #[trigger] pre[c]@.contains_key(t) && pre.contains_key(c)
            && post[c]@.contains_key(t) && post.contains_key(c)
    &&& unchanged(pre, post, mock_consumers, t) || exists|c: usize|
        c < mock_consumers && #[trigger] advanced(pre, post, c, t)
}

/// Whether `next_distribution` is defined on these snapshots.
pub fn can_distribute_exec(
    pre: &HashMap<usize, HashMap<usize, usize>>,
    post: &HashMap<usize, HashMap<usize, usize>>,
    last: &HashMap<usize, usize>,
    mock_consumers: usize,
) -> (r: bool)
    ensures
        r == can_distribute(pre@, post@, last@, mock_consumers),
{
    let mut i: usize = 0;
    while i < 3
        invariant
            i <= 3,
            forall|j: int|
                0 <= j < i ==> topic_ready(pre@, post@, last@, mock_consumers, #[trigger] mock_topics()[j]),
        decreases 3 - i,
    {
        let topic = TOPICS_MOCK[i];
        assert(topic == mock_topics()[i as int]);
        assert(mock_topics().contains(topic));
        if !last.contains_key(&topic) {
            return false;
        }
        let mut all_equal = true;
        let mut any_less = false;
        let mut c: usize = 0;
        while c < mock_consumers
            invariant
                i < 3,
                topic == mock_topics()[i as int],
                mock_topics().contains(topic),
                c <= mock_consumers,
                forall|d: usize| d < c ==> #[trigger] pre@.contains_key(d),
                forall|d: usize| d < c ==> #[trigger] pre@[d]@.contains_key(topic),
                forall|d: usize| d < c ==> #[trigger] post@.contains_key(d),
                forall|d: usize| d < c ==> #[trigger] post@[d]@.contains_key(topic),
                all_equal <==> forall|d: usize|
                    d < c ==> #[trigger] watermark_in(pre@, d, topic) == watermark_in(post@, d, topic),
                any_less <==> exists|d: usize| d < c && #[trigger] advanced(pre@, post@, d, topic),
            decreases mock_consumers - c,
        {
            let pm = match pre.get(&c) {
                Some(m) => m,
                None => {
                    proof {
                        lemma_uncovered(pre@, mock_consumers, c, topic);
                    }
                    return false;
                },
            };
            let before = match pm.get(&topic) {
                Some(v) => *v,
                None => {
                    proof {
                        lemma_uncovered(pre@, mock_consumers, c, topic);
                    }
                    return false;
                },
            };
            let qm = match post.get(&c) {
                Some(m) => m,
                None => {
                    proof {
                        lemma_uncovered(post@, mock_consumers, c, topic);
                    }
                    return false;
                },
            };
            let after = match qm.get(&topic) {
                Some(v) => *v,
                None => {
                    proof {
                        lemma_uncovered(post@, mock_consumers, c, topic);
                    }
                    return false;
                },
            };
            assert(pre@.contains_key(c));
            assert(*pm == pre@[c]);
            assert(pre@[c]@.contains_key(topic) && post@[c]@.contains_key(topic));
            assert(watermark_in(pre@, c, topic) == before);
            assert(watermark_in(post@, c, topic) == after);
            assert(advanced(pre@, post@, c, topic) == (before < after));
            if before != after {
                all_equal = false;
            }
            if before < after {
                any_less = true;
            }
            c = c + 1;
        }
        if !all_equal && !any_less {
            assert(!unchanged(pre@, post@, mock_consumers, topic));
            return false;
        }
        assert(topic_ready(pre@, post@, last@, mock_consumers, topic));
        i = i + 1;
    }
    assert forall|t: usize| #[trigger] mock_topics().contains(t) implies topic_ready(
        pre@,
        post@,
        last@,
        mock_consumers,
        t,
    ) by {
        let j = choose|j: int| 0 <= j < 3 && mock_topics()[j] == t;
        assert(topic_ready(pre@, post@, last@, mock_consumers, mock_topics()[j]));
    }
    assert forall|c: usize, t: usize|
        c < mock_consumers && mock_topics().contains(t) implies #[trigger] pre@[c]@.contains_key(t)
            && pre@.contains_key(c) by {
        assert(topic_ready(pre@, post@, last@, mock_consumers, t));
    }
    assert forall|c: usize, t: usize|
        c < mock_consumers && mock_topics().contains(t) implies #[trigger] post@[c]@.contains_key(t)
            && post@.contains_key(c) by {
        assert(topic_ready(pre@, post@, last@, mock_consumers, t));
        assert(pre@[c]@.contains_key(t));
    }
    assert(covers(pre@, mock_consumers));
    assert(covers(post@, mock_consumers));
    true
}

/// The first consumer from `c` on (below `mock_consumers`) whose
/// watermark for `topic` advanced; `mock_consumers` when there is none.
pub open spec fn first_advanced(
    pre: Map<usize, HashMap<usize, usize>>,
    post: Map<usize, HashMap<usize, usize>>,
    topic: usize,
    c: usize,
    mock_consumers: usize,
) -> usize
    decreases mock_consumers - c,
{
    if c >= mock_consumers {
        mock_consumers
    } else if advanced(pre, post, c, topic) {
        c
    } else {
        first_advanced(pre, post, topic, (c + 1) as usize, mock_consumers)
    }
}

/// The consumer a topic goes to: the previous one when no watermark of the
/// topic moved, else the first consumer that advanced.
pub open spec fn chosen_consumer(
    pre: Map<usize, HashMap<usize, usize>>,
    post: Map<usize, HashMap<usize, usize>>,
    last: Map<usize, usize>,
    mock_consumers: usize,
    topic: usize,
) -> usize {
    if unchanged(pre, post, mock_consumers, topic) {
        last[topic]
    } else {
        first_advanced(pre, post, topic, 0, mock_consumers)
    }
}

/// The distribution of the mock topics after one observation window.
pub open spec fn distribution(
    pre: Map<usize, HashMap<usize, usize>>,
    post: Map<usize, HashMap<usize, usize>>,
    last: Map<usize, usize>,
    mock_consumers: usize,
) -> Map<usize, usize> {
    Map::new(
        |t: usize| mock_topics().contains(t),
        |t: usize| chosen_consumer(pre, post, last, mock_consumers, t),
    )
}

/// The first advanced consumer is the one `chosen` describes.
pub proof fn lemma_first_advanced_is(
    pre: Map<usize, HashMap<usize, usize>>,
    post: Map<usize, HashMap<usize, usize>>,
    topic: usize,
    c: usize,
    x: usize,
    mock_consumers: usize,
)
    requires
        c <= x < mock_consumers,
        advanced(pre, post, x, topic),
        forall|d: usize| c <= d < x ==> !#[trigger] advanced(pre, post, d, topic),
    ensures
        first_advanced(pre, post, topic, c, mock_consumers) == x,
    decreases x - c,
{
    if c < x {
        lemma_first_advanced_is(pre, post, topic, (c + 1) as usize, x, mock_consumers);
    }
}

/// When some consumer advanced, the first one is below `mock_consumers`
/// and advanced.
pub proof fn lemma_first_advanced_exists(
    pre: Map<usize, HashMap<usize, usize>>,
    post: Map<usize, HashMap<usize, usize>>,
    topic: usize,
    c: usize,
    d: usize,
    mock_consumers: usize,
)
    requires
        c <= d < mock_consumers,
        advanced(pre, post, d, topic),
    ensures
        first_advanced(pre, post, topic, c, mock_consumers) < mock_consumers,
        advanced(pre, post, first_advanced(pre, post, topic, c, mock_consumers), topic),
    decreases d - c,
{
    if c < d && !advanced(pre, post, c, topic) {
        lemma_first_advanced_exists(pre, post, topic, (c + 1) as usize, d, mock_consumers);
    }
}

/// The consumers whom the switch orders of `ops` for `topic` name, in order.
pub open spec fn switches_of(ops: Seq<Op>, topic: usize) -> Seq<usize>
    decreases ops.len(),
{
    if ops.len() == 0 {
        Seq::empty()
    } else {
        let rest = switches_of(ops.drop_last(), topic);
        match ops.last() {
            Op::ConsumerSwitch { topic: t, consumer_idx } => if t == topic {
                rest.push(consumer_idx)
            } else {
                rest
            },
            Op::Message(_) => rest,
        }
    }
}

/// The distribution after each of `rounds` (watermark snapshots before and
/// after each window), starting from `last`, and all the switch orders
/// given on the way.
pub open spec fn run_rounds(
    rounds: Seq<(Map<usize, HashMap<usize, usize>>, Map<usize, HashMap<usize, usize>>)>,
    last: Map<usize, usize>,
    mock_consumers: usize,
) -> (Map<usize, usize>, Seq<Op>)
    decreases rounds.len(),
{
    if rounds.len() == 0 {
        (last, Seq::empty())
    } else {
        let (current, ops) = run_rounds(rounds.drop_last(), last, mock_consumers);
        let (pre, post) = rounds.last();
        let next = distribution(pre, post, current, mock_consumers);
        (next, ops + switch_orders(mock_topics(), current, next))
    }
}

/// Every round of `rounds` is one on which the distribution is defined.
pub open spec fn rounds_defined(
    rounds: Seq<(Map<usize, HashMap<usize, usize>>, Map<usize, HashMap<usize, usize>>)>,
    last: Map<usize, usize>,
    mock_consumers: usize,
) -> bool
    decreases rounds.len(),
{
    if rounds.len() == 0 {
        true
    } else {
        &&& rounds_defined(rounds.drop_last(), last, mock_consumers)
        &&& can_distribute(
            rounds.last().0,
            rounds.last().1,
            run_rounds(rounds.drop_last(), last, mock_consumers).0,
            mock_consumers,
        )
    }
}

/// Switch orders of a concatenation are those of each part.
pub proof fn lemma_switches_of_append(a: Seq<Op>, b: Seq<Op>, topic: usize)
    ensures
        switches_of(a + b, topic) == switches_of(a, topic) + switches_of(b, topic),
    decreases b.len(),
{
    if b.len() == 0 {
        assert(a + b =~= a);
        assert(switches_of(a, topic) + Seq::<usize>::empty() =~= switches_of(a, topic));
    } else {
        lemma_switches_of_append(a, b.drop_last(), topic);
        assert((a + b).drop_last() =~= a + b.drop_last());
        assert((a + b).last() == b.last());
        match b.last() {
            Op::ConsumerSwitch { topic: t, consumer_idx } => {
                if t == topic {
                    assert(switches_of(a, topic) + switches_of(b.drop_last(), topic).push(consumer_idx)
                        =~= (switches_of(a, topic) + switches_of(b.drop_last(), topic)).push(
                        consumer_idx,
                    ));
                }
            },
            Op::Message(_) => {},
        }
    }
}

/// Over distinct topics, the switch orders name a topic at most once: with
/// the new consumer when it changed.
pub proof fn lemma_switches_of_orders(
    topics: Seq<usize>,
    last: Map<usize, usize>,
    next: Map<usize, usize>,
    topic: usize,
)
    requires
        topics.no_duplicates(),
    ensures
        switches_of(switch_orders(topics, last, next), topic) == if topics.contains(topic)
            && last[topic] != next[topic] {
            seq![next[topic]]
        } else {
            Seq::<usize>::empty()
        },
    decreases topics.len(),
{
    if topics.len() > 0 {
        let init = topics.drop_last();
        let t = topics.last();
        assert(init.no_duplicates());
        lemma_switches_of_orders(init, last, next, topic);
        let rest = switch_orders(init, last, next);
        if last[t] != next[t] {
            let pushed = rest.push(Op::ConsumerSwitch { topic: t, consumer_idx: next[t] });
            assert(pushed.drop_last() =~= rest);
        }
        assert(topics.contains(topic) <==> (init.contains(topic) || t == topic)) by {
            if topics.contains(topic) {
                let j = choose|j: int| 0 <= j < topics.len() && topics[j] == topic;
                if j < init.len() {
                    assert(init[j] == topic);
                }
            }
            if init.contains(topic) {
                let j = choose|j: int| 0 <= j < init.len() && init[j] == topic;
                assert(topics[j] == topic);
            }
        }
        if t == topic && init.contains(topic) {
            let j = choose|j: int| 0 <= j < init.len() && init[j] == topic;
            assert(topics[j] == topics[topics.len() - 1]);
        }
    }
}

/// Every switch order names a topic of `topics`.
pub proof fn lemma_switch_orders_topics(topics: Seq<usize>, last: Map<usize, usize>, next: Map<usize, usize>)
    ensures
        forall|i: int|
            0 <= i < switch_orders(topics, last, next).len() ==> (#[trigger] switch_orders(
                topics,
                last,
                next,
            )[i] matches Op::ConsumerSwitch { topic, .. } && topics.contains(topic)),
    decreases topics.len(),
{
    if topics.len() > 0 {
        let init = topics.drop_last();
        lemma_switch_orders_topics(init, last, next);
        let rest = switch_orders(init, last, next);
        assert forall|i: int| 0 <= i < rest.len() implies (#[trigger] rest[i] matches Op::ConsumerSwitch {
            topic,
            ..
        } && topics.contains(topic)) by {
            if let Op::ConsumerSwitch { topic, .. } = rest[i] {
                let j = choose|j: int| 0 <= j < init.len() && init[j] == topic;
                assert(topics[j] == topic);
            }
        }
        assert(topics[topics.len() - 1] == topics.last());
    }
}

/// Every order given over any number of rounds is a switch of a mock topic.
pub proof fn law_orders_name_mock_topics(
    rounds: Seq<(Map<usize, HashMap<usize, usize>>, Map<usize, HashMap<usize, usize>>)>,
    last: Map<usize, usize>,
    mock_consumers: usize,
)
    ensures
        forall|i: int|
            0 <= i < run_rounds(rounds, last, mock_consumers).1.len() ==> (#[trigger] run_rounds(
                rounds,
                last,
                mock_consumers,
            ).1[i] matches Op::ConsumerSwitch { topic, .. } && mock_topics().contains(topic)),
    decreases rounds.len(),
{
    if rounds.len() > 0 {
        let init = rounds.drop_last();
        law_orders_name_mock_topics(init, last, mock_consumers);
        let (current, ops) = run_rounds(init, last, mock_consumers);
        let (pre, post) = rounds.last();
        let next = distribution(pre, post, current, mock_consumers);
        let orders = switch_orders(mock_topics(), current, next);
        lemma_switch_orders_topics(mock_topics(), current, next);
        let all = ops + orders;
        assert forall|i: int| 0 <= i < all.len() implies (#[trigger] all[i] matches Op::ConsumerSwitch {
            topic,
            ..
        } && mock_topics().contains(topic)) by {
            if i < ops.len() {
                assert(all[i] == ops[i]);
            } else {
                assert(all[i] == orders[i - ops.len()]);
            }
        }
    }
}

/// Over any number of rounds, the switch orders for a mock topic name each
/// time a consumer below `mock_consumers` other than the one the topic is
/// read from at that point (the first differs from the starting one, each
/// from the one before), and the topic ends up read from the last one named.
pub proof fn law_switches_over_rounds(
    rounds: Seq<(Map<usize, HashMap<usize, usize>>, Map<usize, HashMap<usize, usize>>)>,
    last: Map<usize, usize>,
    mock_consumers: usize,
    topic: usize,
)
    requires
        rounds_defined(rounds, last, mock_consumers),
        mock_topics().contains(topic),
    ensures
        ({
            let (current, ops) = run_rounds(rounds, last, mock_consumers);
            let s = switches_of(ops, topic);
            &&& forall|i: int| 0 <= i < s.len() ==> #[trigger] s[i] < mock_consumers
            &&& s.len() > 0 ==> s[0] != last[topic]
            &&& forall|i: int| 0 <= i < s.len() - 1 ==> #[trigger] s[i + 1] != s[i]
            &&& current[topic] == if s.len() > 0 {
                s.last()
            } else {
                last[topic]
            }
        }),
    decreases rounds.len(),
{
    if rounds.len() > 0 {
        let init = rounds.drop_last();
        law_switches_over_rounds(init, last, mock_consumers, topic);
        let (current, ops) = run_rounds(init, last, mock_consumers);
        let (pre, post) = rounds.last();
        let next = distribution(pre, post, current, mock_consumers);
        let orders = switch_orders(mock_topics(), current, next);
        assert(mock_topics().no_duplicates()) by {
            assert(mock_topics()[0] == 7 && mock_topics()[1] == 42 && mock_topics()[2] == 99);
        }
        lemma_switches_of_append(ops, orders, topic);
        lemma_switches_of_orders(mock_topics(), current, next, topic);
        let prev = switches_of(ops, topic);
        let s = switches_of(ops + orders, topic);
        assert(next[topic] == chosen_consumer(pre, post, current, mock_consumers, topic));
        if current[topic] != next[topic] {
            assert(!unchanged(pre, post, mock_consumers, topic));
            let d = choose|d: usize| d < mock_consumers && #[trigger] advanced(pre, post, d, topic);
            lemma_first_advanced_exists(pre, post, topic, 0, d, mock_consumers);
            assert(s =~= prev.push(next[topic]));
            assert forall|i: int| 0 <= i < s.len() implies #[trigger] s[i] < mock_consumers by {
                if i < prev.len() {
                    assert(s[i] == prev[i]);
                }
            }
            assert forall|i: int| 0 <= i < s.len() - 1 implies #[trigger] s[i + 1] != s[i] by {
                if i + 1 < prev.len() {
                    assert(s[i] == prev[i] && s[i + 1] == prev[i + 1]);
                }
            }
        } else {
            assert(s =~= prev);
        }
    }
}

/// The consumer each mock topic is to be read from, given the watermarks
/// before and after an observation window and the previous distribution.
pub fn next_distribution(
    pre: &HashMap<usize, HashMap<usize, usize>>,
    post: &HashMap<usize, HashMap<usize, usize>>,
    last: &HashMap<usize, usize>,
    mock_consumers: usize,
) -> (r: HashMap<usize, usize>)
    requires
        can_distribute(pre@, post@, last@, mock_consumers),
    ensures
        forall|t: usize| #[trigger] r@.contains_key(t) <==> mock_topics().contains(t),
        forall|t: usize|
            #[trigger] mock_topics().contains(t) ==> chosen(
                pre@,
                post@,
                last@,
                mock_consumers,
                t,
                r@[t],
            ),
        r@ == distribution(pre@, post@, last@, mock_consumers),
{
    let mut distribution: HashMap<usize, usize> = HashMap::new();
    let mut i: usize = 0;
    while i < 3
        invariant
            i <= 3,
            can_distribute(pre@, post@, last@, mock_consumers),
            forall|t: usize| #[trigger]
                distribution@.contains_key(t) <==> exists|j: int|
                    0 <= j < i && #[trigger] mock_topics()[j] == t,
            forall|t: usize| #[trigger]
                distribution@.contains_key(t) ==> chosen(
                    pre@,
                    post@,
                    last@,
                    mock_consumers,
                    t,
                    distribution@[t],
                ),
        decreases 3 - i,
    {
        let topic = TOPICS_MOCK[i];
        assert(topic == mock_topics()[i as int]);
        assert(mock_topics().contains(topic));
        let mut all_equal = true;
        let mut first_less: Option<usize> = None;
        let mut c: usize = 0;
        while c < mock_consumers
            invariant
                i < 3,
                topic == mock_topics()[i as int],
                mock_topics().contains(topic),
                c <= mock_consumers,
                can_distribute(pre@, post@, last@, mock_consumers),
                all_equal <==> forall|d: usize|
                    d < c ==> #[trigger] watermark_in(pre@, d, topic) == watermark_in(post@, d, topic),
                match first_less {
                    Some(f) => f < c && advanced(pre@, post@, f, topic) && forall|d: usize|
                        d < f ==> !#[trigger] advanced(pre@, post@, d, topic),
                    None => forall|d: usize| d < c ==> !#[trigger] advanced(pre@, post@, d, topic),
                },
            decreases mock_consumers - c,
        {
            assert(pre@[c]@.contains_key(topic) && pre@.contains_key(c));
            assert(post@[c]@.contains_key(topic) && post@.contains_key(c));
            let before = *pre.get(&c).unwrap().get(&topic).unwrap();
            let after = *post.get(&c).unwrap().get(&topic).unwrap();
            assert(watermark_in(pre@, c, topic) == before);
            assert(watermark_in(post@, c, topic) == after);
            assert(advanced(pre@, post@, c, topic) == (before < after));
            if before != after {
                all_equal = false;
            }
            if before < after && first_less.is_none() {
                first_less = Some(c);
            }
            c = c + 1;
        }
        let chosen_consumer = if all_equal {
            *last.get(&topic).unwrap()
        } else {
            match first_less {
                Some(f) => f,
                None => {
                    assert(!unchanged(pre@, post@, mock_consumers, topic));
                    0
                },
            }
        };
        distribution.insert(topic, chosen_consumer);
        i = i + 1;
        assert forall|t: usize| #[trigger]
            distribution@.contains_key(t) <==> exists|j: int|
                0 <= j < i && #[trigger] mock_topics()[j] == t by {
            if distribution@.contains_key(t) && t != topic {
                let j = choose|j: int| 0 <= j < i - 1 && #[trigger] mock_topics()[j] == t;
            }
            if exists|j: int| 0 <= j < i && #[trigger] mock_topics()[j] == t {
                let j = choose|j: int| 0 <= j < i && #[trigger] mock_topics()[j] == t;
                if j < i - 1 {
                }
            }
        }
    }
    assert forall|t: usize| #[trigger] distribution@.contains_key(t) <==> mock_topics().contains(t) by {
        if mock_topics().contains(t) {
            let j = choose|j: int| 0 <= j < 3 && mock_topics()[j] == t;
            assert(mock_topics()[j] == t);
        }
        if distribution@.contains_key(t) {
            let j = choose|j: int| 0 <= j < 3 && #[trigger] mock_topics()[j] == t;
            assert(mock_topics()[j] == t);
        }
    }
    assert forall|t: usize| #[trigger] mock_topics().contains(t) implies chosen(
        pre@,
        post@,
        last@,
        mock_consumers,
        t,
        distribution@[t],
    ) by {
        assert(distribution@.contains_key(t));
    }
    assert forall|t: usize| #[trigger] mock_topics().contains(t) implies distribution@[t]
        == chosen_consumer(pre@, post@, last@, mock_consumers, t) by {
        if !unchanged(pre@, post@, mock_consumers, t) {
            lemma_first_advanced_is(pre@, post@, t, 0, distribution@[t], mock_consumers);
        }
    }
    assert(distribution@ =~= crate::distribution::distribution(pre@, post@, last@, mock_consumers));
    distribution
}

/// The switch orders that take the mock topics from the distribution
/// `last` to `next`, in the order of `TOPICS_MOCK`.
pub fn consumer_switches(last: &HashMap<usize, usize>, next: &HashMap<usize, usize>) -> (r: Vec<
    Op,
>)
    requires
        forall|t: usize| #[trigger]
            mock_topics().contains(t) ==> last@.contains_key(t) && next@.contains_key(t),
    ensures
        r@ == switch_orders(mock_topics(), last@, next@),
{
    let mut orders: Vec<Op> = Vec::new();
    let mut i: usize = 0;
    while i < 3
        invariant
            i <= 3,
            forall|t: usize| #[trigger]
                mock_topics().contains(t) ==> last@.contains_key(t) && next@.contains_key(t),
            orders@ == switch_orders(mock_topics().take(i as int), last@, next@),
        decreases 3 - i,
    {
        let topic = TOPICS_MOCK[i];
        assert(topic == mock_topics()[i as int]);
        assert(mock_topics().contains(topic));
        let before = *last.get(&topic).unwrap();
        let after = *next.get(&topic).unwrap();
        if before != after {
            orders.push(Op::ConsumerSwitch { topic, consumer_idx: after });
        }
        assert(mock_topics().take(i + 1).drop_last() =~= mock_topics().take(i as int));
        assert(mock_topics().take(i + 1).last() == topic);
        i = i + 1;
    }
    assert(mock_topics().take(3) =~= mock_topics());
    orders
}

/// Over a window in which no watermark moved, every topic keeps its
/// consumer and no switch order is given.
pub proof fn law_quiet_window_keeps_consumers(
    pre: Map<usize, HashMap<usize, usize>>,
    post: Map<usize, HashMap<usize, usize>>,
    last: Map<usize, usize>,
    mock_consumers: usize,
    next: Map<usize, usize>,
)
    requires
        forall|t: usize| #[trigger] mock_topics().contains(t) ==> unchanged(pre, post, mock_consumers, t),
        forall|t: usize|
            #[trigger] mock_topics().contains(t) ==> chosen(pre, post, last, mock_consumers, t, next[t]),
    ensures
        forall|t: usize| #[trigger] mock_topics().contains(t) ==> next[t] == last[t],
        switch_orders(mock_topics(), last, next) == Seq::<Op>::empty(),
{
    let orders = switch_orders(mock_topics(), last, next);
    if orders.len() > 0 {
        lemma_switch_orders_are_switches(mock_topics(), last, next);
        let o = orders[0];
        if let Op::ConsumerSwitch { topic, consumer_idx } = o {
            assert(orders.contains(o));
            lemma_switch_orders(mock_topics(), last, next, topic, consumer_idx);
        }
    }
}

/// Every entry of `switch_orders` is a switch order.
pub proof fn lemma_switch_orders_are_switches(topics: Seq<usize>, last: Map<usize, usize>, next: Map<usize, usize>)
    ensures
        forall|i: int|
            0 <= i < switch_orders(topics, last, next).len() ==> #[trigger] switch_orders(
                topics,
                last,
                next,
            )[i] is ConsumerSwitch,
    decreases topics.len(),
{
    if topics.len() > 0 {
        lemma_switch_orders_are_switches(topics.drop_last(), last, next);
    }
}

} // verus!
