//! A mock consumer: which topic its next message belongs to, and the
//! per-consumer, per-topic message numbering (watermarks).
use std::collections::HashMap;
use std::sync::atomic::AtomicUsize;
use std::sync::atomic::Ordering;
use std::sync::Arc;
use vstd::prelude::*;

use crate::client::{mock_topics, TOPICS_MOCK};
use crate::message::Message;
use crate::random::{random_index, random_ratio};
use crate::time::{jiff_timestamp_now, valid_timestamp};

verus! {

broadcast use vstd::std_specs::hash::group_hash_axioms;

/// The watermarks of `consumer` in a table (consumer, then topic, to the
/// number of messages polled); empty when the consumer has none.
pub open spec fn watermarks_of(w: Map<usize, HashMap<usize, usize>>, consumer: usize) -> Map<
    usize,
    usize,
> {
    if w.contains_key(consumer) {
        w[consumer]@
    } else {
        Map::empty()
    }
}

/// The number of messages `consumer` polled for `topic`; 0 when absent.
pub open spec fn watermark_of(
    w: Map<usize, HashMap<usize, usize>>,
    consumer: usize,
    topic: usize,
) -> usize {
    if watermarks_of(w, consumer).contains_key(topic) {
        watermarks_of(w, consumer)[topic]
    } else {
        0
    }
}

/// Counts one more message of `consumer` for `topic` and returns the new
/// count, creating the entries that are missing.
pub fn record_watermark(
    watermarks: &mut HashMap<usize, HashMap<usize, usize>>,
    consumer: usize,
    topic: usize,
) -> (r: usize)
    requires
        watermark_of(old(watermarks)@, consumer, topic) < usize::MAX,
    ensures
        r == watermark_of(old(watermarks)@, consumer, topic) + 1,
        final(watermarks)@.dom() == old(watermarks)@.dom().insert(consumer),
        forall|c: usize|
            c != consumer && #[trigger] old(watermarks)@.contains_key(c) ==> final(watermarks)@[c]
                == old(watermarks)@[c],
        watermarks_of(final(watermarks)@, consumer) == watermarks_of(old(watermarks)@, consumer).insert(
            topic,
            r,
        ),
        watermark_of(final(watermarks)@, consumer, topic) == r,
        watermarks_grow(old(watermarks)@, final(watermarks)@),
{
    let ghost old_map = watermarks@;
    let mut per_topic: HashMap<usize, usize> = match watermarks.remove(&consumer) {
        Some(m) => m,
        None => HashMap::new(),
    };
    assert(per_topic@ == watermarks_of(old_map, consumer));
    let current: usize = match per_topic.get(&topic) {
        Some(v) => *v,
        None => 0,
    };
    let next: usize = current + 1;
    per_topic.insert(topic, next);
    watermarks.insert(consumer, per_topic);
    assert(watermarks@.dom() =~= old_map.dom().insert(consumer));
    assert forall|c: usize, t: usize|
        #[trigger] watermark_of(watermarks@, c, t) >= watermark_of(old_map, c, t) by {
        if c != consumer {
            if old_map.contains_key(c) {
                assert(watermarks@[c] == old_map[c]);
            }
            assert(watermarks_of(watermarks@, c) == watermarks_of(old_map, c));
        }
    }
    next
}

/// No watermark of `before` is higher in `after`.
pub open spec fn watermarks_grow(
    before: Map<usize, HashMap<usize, usize>>,
    after: Map<usize, HashMap<usize, usize>>,
) -> bool {
    forall|c: usize, t: usize| #[trigger]
        watermark_of(after, c, t) >= watermark_of(before, c, t)
}

/// Watermarks that grew twice grew.
pub proof fn law_watermarks_grow_transitive(
    a: Map<usize, HashMap<usize, usize>>,
    b: Map<usize, HashMap<usize, usize>>,
    c: Map<usize, HashMap<usize, usize>>,
)
    requires
        watermarks_grow(a, b),
        watermarks_grow(b, c),
    ensures
        watermarks_grow(a, c),
{
    assert forall|x: usize, t: usize| #[trigger] watermark_of(c, x, t) >= watermark_of(a, x, t) by {
        assert(watermark_of(b, x, t) >= watermark_of(a, x, t));
    }
}

/// Message indices rise per consumer and topic: a message polled after
/// another of the same consumer and topic, with the watermarks only growing
/// in between, has a higher index.
pub proof fn law_message_index_rises(
    after_first: Map<usize, HashMap<usize, usize>>,
    before_second: Map<usize, HashMap<usize, usize>>,
    first: Message,
    second: Message,
)
    requires
        first.consumer_idx == second.consumer_idx,
        first.topic == second.topic,
        first.idx == watermark_of(after_first, first.consumer_idx, first.topic),
        watermarks_grow(after_first, before_second),
        second.idx == watermark_of(before_second, second.consumer_idx, second.topic) + 1,
    ensures
        second.idx > first.idx,
{
    assert(watermark_of(before_second, first.consumer_idx, first.topic) >= watermark_of(
        after_first,
        first.consumer_idx,
        first.topic,
    ));
}

/// A topic list a consumer may hold: non-empty, made of mock topics.
pub open spec fn topics_ok(topics: Seq<usize>) -> bool {
    &&& topics.len() > 0
    &&& forall|i: int| 0 <= i < topics.len() ==> #[trigger] mock_topics().contains(topics[i])
}

/// The topic lists a consumer goes through: every mock topic, or every mock
/// topic but one.
pub open spec fn topics_shape(topics: Seq<usize>) -> bool {
    topics == mock_topics() || exists|i: int| 0 <= i < 3 && topics == mock_topics().remove(i)
}

/// A topic list of that shape has two or three mock topics, in the order of
/// `TOPICS_MOCK` (which is increasing), so the round-robin index is always
/// in range.
pub proof fn law_topic_list_shape(topics: Seq<usize>)
    requires
        topics_shape(topics),
    ensures
        2 <= topics.len() <= 3,
        topics_ok(topics),
        forall|j: int, k: int| 0 <= j < k < topics.len() ==> topics[j] < topics[k],
{
    assert(mock_topics()[0] == 7 && mock_topics()[1] == 42 && mock_topics()[2] == 99);
    if topics == mock_topics() {
        assert forall|j: int| 0 <= j < topics.len() implies #[trigger] mock_topics().contains(topics[j]) by {}
    } else {
        let i = choose|i: int| 0 <= i < 3 && topics == mock_topics().remove(i);
        assert forall|j: int| 0 <= j < topics.len() implies #[trigger] mock_topics().contains(topics[j]) by {
            if j < i {
                assert(topics[j] == mock_topics()[j]);
            } else {
                assert(topics[j] == mock_topics()[j + 1]);
            }
        }
        assert forall|j: int, k: int| 0 <= j < k < topics.len() implies topics[j] < topics[k] by {
            if j < i {
                assert(topics[j] == mock_topics()[j]);
            } else {
                assert(topics[j] == mock_topics()[j + 1]);
            }
            if k < i {
                assert(topics[k] == mock_topics()[k]);
            } else {
                assert(topics[k] == mock_topics()[k + 1]);
            }
        }
    }
}

/// The topic list after a change: every mock topic, without the one at
/// `removed` if given; no change leaves `topics` as it is.
pub open spec fn topics_after(topics: Seq<usize>, change: Option<Option<usize>>) -> Seq<usize> {
    match change {
        Some(Some(i)) => mock_topics().remove(i as int),
        Some(None) => mock_topics(),
        None => topics,
    }
}

/// The topic change that the draws of a poll call for: consumer 0 changes
/// its list when the first draw says so, and then drops the topic at
/// `removed` when the second draw says so.
pub fn drawn_topic_change(idx: usize, change: bool, reduce: bool, removed: usize) -> (r: Option<
    Option<usize>,
>)
    requires
        removed < 3,
    ensures
        r == (if change && idx == 0 {
            Some(
                if reduce {
                    Some(removed)
                } else {
                    None
                },
            )
        } else {
            None
        }),
{
    if change && idx == 0 {
        if reduce {
            Some(Some(removed))
        } else {
            Some(None)
        }
    } else {
        None
    }
}

/// The mathematical state of a `Consumer`: its index and the topics it
/// receives. Its message counter, shared with its clones, is not modelled.
pub struct ConsumerView {
    pub idx: usize,
    pub receiving_topics: Seq<usize>,
}

/// A mock consumer.
#[derive(Clone, Debug)]
pub struct Consumer {
    idx: usize,
    message_idx: Arc<AtomicUsize>,
    receiving_topics: Vec<usize>,
}

impl View for Consumer {
    type V = ConsumerView;

    closed spec fn view(&self) -> ConsumerView {
        ConsumerView { idx: self.idx, receiving_topics: self.receiving_topics@ }
    }
}

impl Consumer {
    /// Consumer `idx`, receiving every mock topic, its counter at 0.
    pub fn new(idx: usize) -> (r: Self)
        ensures
            r@.idx == idx,
            r@.receiving_topics == mock_topics(),
            topics_ok(r@.receiving_topics),
            topics_shape(r@.receiving_topics),
    {
        let receiving_topics = vec![TOPICS_MOCK[0], TOPICS_MOCK[1], TOPICS_MOCK[2]];
        let r = Consumer { idx, message_idx: Arc::new(AtomicUsize::new(0)), receiving_topics };
        assert(r@.receiving_topics =~= mock_topics());
        assert forall|i: int| 0 <= i < 3 implies #[trigger] mock_topics().contains(
            mock_topics()[i],
        ) by {}
        r
    }

    /// The consumer's index.
    pub fn idx(&self) -> (r: usize)
        ensures
            r == self@.idx,
    {
        self.idx
    }

    /// The topics the consumer receives.
    pub fn receiving_topics(&self) -> (r: &Vec<usize>)
        ensures
            r@ == self@.receiving_topics,
    {
        &self.receiving_topics
    }

    /// Whether `poll` accepts this state: the topic list is valid and no
    /// watermark of this consumer would overflow.
    pub fn can_poll(&self, watermarks: &HashMap<usize, HashMap<usize, usize>>) -> (r: bool)
        ensures
            r == (topics_ok(self@.receiving_topics) && forall|t: usize|
                #[trigger] mock_topics().contains(t) ==> watermark_of(watermarks@, self@.idx, t)
                    < usize::MAX),
    {
        let n = self.receiving_topics.len();
        if n == 0 {
            return false;
        }
        let mut i: usize = 0;
        while i < n
            invariant
                n == self@.receiving_topics.len(),
                i <= n,
                forall|j: int| 0 <= j < i ==> #[trigger] mock_topics().contains(self@.receiving_topics[j]),
            decreases n - i,
        {
            let t = self.receiving_topics[i];
            if !(t == TOPICS_MOCK[0] || t == TOPICS_MOCK[1] || t == TOPICS_MOCK[2]) {
                proof {
                    if mock_topics().contains(t) {
                        let k = choose|k: int| 0 <= k < 3 && mock_topics()[k] == t;
                        assert(mock_topics()[k] == t);
                    }
                }
                return false;
            }
            assert(mock_topics()[0] == 7 && mock_topics()[1] == 42 && mock_topics()[2] == 99);
            assert(mock_topics().contains(t));
            i = i + 1;
        }
        let mut k: usize = 0;
        while k < 3
            invariant
                k <= 3,
                forall|j: int| 0 <= j < k ==> watermark_of(watermarks@, self@.idx, #[trigger] mock_topics()[j]) < usize::MAX,
            decreases 3 - k,
        {
            let t = TOPICS_MOCK[k];
            assert(t == mock_topics()[k as int]);
            let current: usize = match watermarks.get(&self.idx) {
                Some(m) => match m.get(&t) {
                    Some(v) => *v,
                    None => 0,
                },
                None => 0,
            };
            assert(current == watermark_of(watermarks@, self@.idx, t));
            if current == usize::MAX {
                assert(mock_topics().contains(t));
                return false;
            }
            k = k + 1;
        }
        assert forall|t: usize| #[trigger] mock_topics().contains(t) implies watermark_of(watermarks@, self@.idx, t) < usize::MAX by {
            let j = choose|j: int| 0 <= j < 3 && mock_topics()[j] == t;
            assert(watermark_of(watermarks@, self@.idx, mock_topics()[j]) < usize::MAX);
        }
        true
    }

    /// Resets the topic list to every mock topic, then removes the one at
    /// `removed`, if given.
    pub fn change_topics(&mut self, removed: Option<usize>)
        requires
            removed matches Some(i) ==> i < 3,
        ensures
            final(self)@.idx == old(self)@.idx,
            final(self)@.receiving_topics == match removed {
                Some(i) => mock_topics().remove(i as int),
                None => mock_topics(),
            },
            topics_ok(final(self)@.receiving_topics),
    {
        self.receiving_topics = vec![TOPICS_MOCK[0], TOPICS_MOCK[1], TOPICS_MOCK[2]];
        assert(self.receiving_topics@ =~= mock_topics());
        match removed {
            Some(i) => {
                self.receiving_topics.remove(i);
                assert(self.receiving_topics@ =~= mock_topics().remove(i as int));
                assert forall|j: int| 0 <= j < 2 implies #[trigger] mock_topics().contains(
                    mock_topics().remove(i as int)[j],
                ) by {
                    if j < i {
                        assert(mock_topics().remove(i as int)[j] == mock_topics()[j]);
                    } else {
                        assert(mock_topics().remove(i as int)[j] == mock_topics()[j + 1]);
                    }
                }
            },
            None => {
                assert forall|j: int| 0 <= j < 3 implies #[trigger] mock_topics().contains(
                    mock_topics()[j],
                ) by {}
            },
        }
    }

    /// Takes the next value of the message counter shared with the clones
    /// of this consumer (wrapping at `usize::MAX`).
    fn next_counter(&self) -> usize {
        self.message_idx.fetch_add(1, Ordering::Relaxed)
    }

    /// The topic of the message numbered `counter`: the topic list is
    /// walked round-robin.
    pub fn select_topic(&self, counter: usize) -> (r: usize)
        requires
            topics_ok(self@.receiving_topics),
        ensures
            r == self@.receiving_topics[(counter as int) % (self@.receiving_topics.len() as int)],
            mock_topics().contains(r),
    {
        let i = counter % self.receiving_topics.len();
        self.receiving_topics[i]
    }

    /// Polls the next message: consumer 0 may first change its topic list
    /// (with chance 1/10; the list is then all mock topics, one of them
    /// removed with chance 3/4), the next topic is taken round-robin from the
    /// shared counter, the consumer's watermark for it is counted up, and the
    /// clock gives the reception instant. Returns the message (`None` when
    /// the system clock lies outside the range of `jiff::Timestamp`) and the
    /// topic change applied.
    pub fn poll(&mut self, watermarks: &mut HashMap<usize, HashMap<usize, usize>>) -> (r: (
        Option<Message>,
        Option<Option<usize>>,
    ))
        requires
            topics_ok(old(self)@.receiving_topics),
            forall|t: usize|
                #[trigger] mock_topics().contains(t) ==> watermark_of(
                    old(watermarks)@,
                    old(self)@.idx,
                    t,
                ) < usize::MAX,
        ensures
            final(self)@.idx == old(self)@.idx,
            r.1 is Some ==> old(self)@.idx == 0,
            r.1 matches Some(Some(i)) ==> i < 3,
            final(self)@.receiving_topics == topics_after(old(self)@.receiving_topics, r.1),
            topics_ok(final(self)@.receiving_topics),
            topics_shape(old(self)@.receiving_topics) ==> topics_shape(final(self)@.receiving_topics),
            watermarks_grow(old(watermarks)@, final(watermarks)@),
            final(watermarks)@.dom() == old(watermarks)@.dom().insert(old(self)@.idx),
            forall|c: usize|
                c != old(self)@.idx && #[trigger] old(watermarks)@.contains_key(c)
                    ==> final(watermarks)@[c] == old(watermarks)@[c],
            exists|t: usize|
                #[trigger] final(self)@.receiving_topics.contains(t) && watermarks_of(
                    final(watermarks)@,
                    old(self)@.idx,
                ) == watermarks_of(old(watermarks)@, old(self)@.idx).insert(
                    t,
                    (watermark_of(old(watermarks)@, old(self)@.idx, t) + 1) as usize,
                ),
            r.0 matches Some(m) ==> {
                &&& final(self)@.receiving_topics.contains(m.topic)
                &&& m.consumer_idx == old(self)@.idx
                &&& m.idx == watermark_of(old(watermarks)@, m.consumer_idx, m.topic) + 1
                &&& m.idx == watermark_of(final(watermarks)@, m.consumer_idx, m.topic)
                &&& watermarks_of(final(watermarks)@, m.consumer_idx) == watermarks_of(
                    old(watermarks)@,
                    m.consumer_idx,
                ).insert(m.topic, m.idx)
                &&& valid_timestamp(m.reception as int)
            },
    {
        let change = random_ratio(1, 10);
        let mut reduce = false;
        let mut removed: usize = 0;
        if change && self.idx == 0 {
            let topic_count: u32 = 3;
            reduce = random_ratio(topic_count, topic_count + 1);
            if reduce {
                removed = random_index(3);
            }
        }
        let applied = drawn_topic_change(self.idx, change, reduce, removed);
        match applied {
            Some(at) => {
                self.change_topics(at);
            },
            None => {},
        }
        proof {
            if let Some(Some(i)) = applied {
                assert(0 <= i < 3 && self@.receiving_topics == mock_topics().remove(i as int));
            }
        }
        let counter = self.next_counter();
        let topic = self.select_topic(counter);
        proof {
            let k = (counter as int) % (self@.receiving_topics.len() as int);
            assert(self@.receiving_topics[k] == topic);
            assert(self@.receiving_topics.contains(topic));
        }
        let idx = record_watermark(watermarks, self.idx, topic);
        let message = match jiff_timestamp_now() {
            Some(reception) => Some(Message { consumer_idx: self.idx, topic, idx, reception }),
            None => None,
        };
        (message, applied)
    }
}

} // verus!
