//! The client's decisions: which topic manager a message or a switch order
//! goes to, and the queue of messages handed over at a switch.
use std::collections::HashMap;
use std::collections::VecDeque;
use vstd::prelude::*;

use crate::message::{Message, Op};
use crate::topic::{initial_topic, TopicManager, TopicView};

verus! {

broadcast use vstd::std_specs::hash::group_hash_axioms;

/// The topics every mock consumer receives.
pub const TOPICS_MOCK: [usize; 3] = [7, 42, 99];

/// `TOPICS_MOCK` as a sequence.
pub open spec fn mock_topics() -> Seq<usize> {
    seq![7usize, 42usize, 99usize]
}

/// The mathematical state of a `Client`.
#[verifier::ext_equal]
pub struct ClientView {
    pub topics: Map<usize, TopicView>,
    pub message_queue: Seq<Message>,
}

impl ClientView {
    /// Every topic manager keeps its invariant.
    pub open spec fn wf(self) -> bool {
        &&& forall|t: usize| #[trigger] self.topics.contains_key(t) ==> self.topics[t].wf()
        &&& self.buffers_hold_own_topic()
        &&& self.queue_from_active()
    }

    /// The buffers of a topic's manager hold only messages of that topic.
    pub open spec fn buffers_hold_own_topic(self) -> bool {
        forall|t: usize, c: usize, k: int|
            #![trigger self.topics[t].buffers[c][k]]
            self.topics.contains_key(t) && self.topics[t].buffers.contains_key(c) && 0 <= k
                < self.topics[t].buffers[c].len() ==> self.topics[t].buffers[c][k].topic == t
    }

    /// Every queued message belongs to a topic of the client and comes from
    /// that topic's active consumer.
    pub open spec fn queue_from_active(self) -> bool {
        forall|k: int|
            0 <= k < self.message_queue.len() ==> {
                let m = #[trigger] self.message_queue[k];
                &&& self.topics.contains_key(m.topic)
                &&& m.consumer_idx == self.topics[m.topic].active_consumer
            }
    }

    /// The state after handing out the next queued message, and that
    /// message, if any.
    pub open spec fn pop(self) -> (ClientView, Option<Message>) {
        if self.message_queue.len() > 0 {
            (ClientView { message_queue: self.message_queue.drop_first(), ..self }, Some(self.message_queue[0]))
        } else {
            (self, None)
        }
    }

    /// The state after `n` pops, and the messages handed out.
    pub open spec fn pop_n(self, n: nat) -> (ClientView, Seq<Message>)
        decreases n,
    {
        if n == 0 {
            (self, Seq::empty())
        } else {
            let (w, out) = self.pop_n((n - 1) as nat);
            let (w2, m) = w.pop();
            match m {
                Some(x) => (w2, out.push(x)),
                None => (w2, out),
            }
        }
    }

    /// Events the client handles without panicking.
    pub open spec fn can_handle(self, op: Op) -> bool {
        match op {
            Op::Message(msg) => {
                &&& self.topics.contains_key(msg.topic)
                &&& self.topics[msg.topic].can_process(msg)
            },
            Op::ConsumerSwitch { topic, consumer_idx } => {
                &&& self.topics.contains_key(topic)
                &&& self.topics[topic].can_switch(consumer_idx)
            },
        }
    }

    /// The state after an event, and the message to hand out, if any. A
    /// switch replaces the queue by what the new consumer buffered and hands
    /// out its first message.
    pub open spec fn handle(self, op: Op) -> (ClientView, Option<Message>) {
        match op {
            Op::Message(msg) => {
                let (t, r) = self.topics[msg.topic].process(msg);
                (ClientView { topics: self.topics.insert(msg.topic, t), ..self }, r)
            },
            Op::ConsumerSwitch { topic, consumer_idx } => {
                let (t, q) = self.topics[topic].switch(consumer_idx);
                let topics = self.topics.insert(topic, t);
                if q.len() > 0 {
                    (ClientView { topics, message_queue: q.drop_first() }, Some(q[0]))
                } else {
                    (ClientView { topics, message_queue: q }, None)
                }
            },
        }
    }
}

/// The state of a fresh client.
pub open spec fn initial_client(mock_consumers: usize) -> ClientView {
    ClientView {
        topics: Map::new(
            |t: usize| mock_topics().contains(t),
            |t: usize| initial_topic(mock_consumers, 0),
        ),
        message_queue: Seq::empty(),
    }
}

/// The failover state of all topics, and the messages waiting to be
/// handed out after a consumer switch.
pub struct Client {
    topics: HashMap<usize, TopicManager>,
    message_queue: VecDeque<Message>,
}

impl View for Client {
    type V = ClientView;

    closed spec fn view(&self) -> ClientView {
        ClientView {
            topics: self.topics@.map_values(|m: TopicManager| m@),
            message_queue: self.message_queue@,
        }
    }
}

impl Client {
    /// The client keeps the invariant of its model at all times.
    #[verifier::type_invariant]
    closed spec fn inv(self) -> bool {
        self@.wf()
    }

    /// A client reading every mock topic from consumer 0, with buffers for
    /// the consumers `0..mock_consumers`.
    pub fn new(mock_consumers: usize) -> (r: Self)
        ensures
            r@ == initial_client(mock_consumers),
            r@.wf(),
            forall|t: usize| #[trigger] r@.topics.contains_key(t) <==> mock_topics().contains(t),
            forall|t: usize| #[trigger]
                r@.topics.contains_key(t) ==> r@.topics[t] == initial_topic(mock_consumers, 0),
            r@.message_queue.len() == 0,
    {
        proof {
            law_fresh_client(mock_consumers);
        }
        let mut topics: HashMap<usize, TopicManager> = HashMap::new();
        let mut i: usize = 0;
        while i < 3
            invariant
                i <= 3,
                forall|t: usize| #[trigger]
                    topics@.contains_key(t) <==> mock_topics().take(i as int).contains(t),
                forall|t: usize| #[trigger]
                    topics@.contains_key(t) ==> topics@[t]@ == initial_topic(mock_consumers, 0),
            decreases 3 - i,
        {
            let topic = TOPICS_MOCK[i];
            assert(topic == mock_topics()[i as int]);
            topics.insert(topic, TopicManager::new(mock_consumers, 0));
            assert(mock_topics().take(i + 1) =~= mock_topics().take(i as int).push(topic));
            assert forall|t: usize|
                mock_topics().take(i + 1).contains(t) <==> (mock_topics().take(i as int).contains(t)
                    || t == topic) by {
                let s = mock_topics().take(i as int);
                if s.push(topic).contains(t) {
                    let j = choose|j: int| 0 <= j < s.push(topic).len() && s.push(topic)[j] == t;
                    if j < s.len() {
                        assert(s[j] == t);
                    }
                }
                if s.contains(t) {
                    let j = choose|j: int| 0 <= j < s.len() && s[j] == t;
                    assert(s.push(topic)[j] == t);
                }
                if t == topic {
                    assert(s.push(topic)[s.len() as int] == t);
                }
            }
            i = i + 1;
        }
        assert(mock_topics().take(3) =~= mock_topics());
        let message_queue: VecDeque<Message> = VecDeque::new();
        assert(topics@.map_values(|m: TopicManager| m@) =~= initial_client(mock_consumers).topics);
        assert(initial_client(mock_consumers).wf());
        let r = Client { topics, message_queue };
        assert(r@ =~= initial_client(mock_consumers));
        r
    }

    /// Hands out the next message queued at a consumer switch, if any.
    pub fn pop_queued(&mut self) -> (r: Option<Message>)
        ensures
            (final(self)@, r) == old(self)@.pop(),
            final(self)@.wf(),
            final(self)@.topics == old(self)@.topics,
            old(self)@.message_queue.len() == 0 ==> r is None && final(self)@ == old(self)@,
            old(self)@.message_queue.len() > 0 ==> r == Some(old(self)@.message_queue[0])
                && final(self)@.message_queue == old(self)@.message_queue.drop_first(),
    {
        proof {
            use_type_invariant(&*self);
            law_pop_keeps_wf(self@);
        }
        let ghost old_view = self@;
        let mut queue: VecDeque<Message> = VecDeque::new();
        std::mem::swap(&mut queue, &mut self.message_queue);
        let r = queue.pop_front();
        proof {
            if r is Some {
                assert(queue@ =~= old_view.message_queue.drop_first());
            }
        }
        self.message_queue = queue;
        assert(self@ =~= old_view.pop().0);
        r
    }

    /// The number of messages still queued.
    pub fn queued_len(&self) -> (r: usize)
        ensures
            r == self@.message_queue.len(),
    {
        self.message_queue.len()
    }

    /// Whether `handle` accepts `op` in the current state.
    pub fn can_handle(&self, op: &Op) -> (r: bool)
        ensures
            r == self@.can_handle(*op),
    {
        proof {
            use_type_invariant(self);
        }
        match op {
            Op::Message(msg) => match self.topics.get(&msg.topic) {
                Some(m) => m.can_process(msg),
                None => false,
            },
            Op::ConsumerSwitch { topic, consumer_idx } => match self.topics.get(topic) {
                Some(m) => {
                    assert(self@.topics.contains_key(*topic));
                    m.can_switch(*consumer_idx)
                },
                None => false,
            },
        }
    }

    /// Reacts to one event: a message goes to its topic's manager, a switch
    /// order changes the topic's consumer and queues what that consumer
    /// buffered. Returns the message to hand out, if any. Events are only
    /// read once the queue is empty.
    pub fn handle(&mut self, op: Op) -> (r: Option<Message>)
        requires
            old(self)@.can_handle(op),
            old(self)@.message_queue.len() == 0,
        ensures
            (final(self)@, r) == old(self)@.handle(op),
            final(self)@.wf(),
            op matches Op::Message(msg) ==> {
                &&& r == old(self)@.topics[msg.topic].process(msg).1
                &&& final(self)@.topics[msg.topic] == old(self)@.topics[msg.topic].process(msg).0
                &&& final(self)@.message_queue == old(self)@.message_queue
            },
    {
        proof {
            use_type_invariant(&*self);
            if let Op::Message(msg) = op {
                law_message_hands_out_delivery(self@, msg);
            }
        }
        let ghost old_view = self@;
        let mut topics: HashMap<usize, TopicManager> = HashMap::new();
        std::mem::swap(&mut topics, &mut self.topics);
        let ghost old_map = topics@;
        proof {
            law_handle_keeps_wf(old_view, op);
        }
        match op {
            Op::Message(msg) => {
                let mut manager = topics.remove(&msg.topic).unwrap();
                assert(manager@ == old_view.topics[msg.topic]);
                let r = manager.process(msg);
                topics.insert(msg.topic, manager);
                assert(topics@ =~= old_map.insert(msg.topic, manager));
                assert(topics@.map_values(|m: TopicManager| m@) =~= old_view.topics.insert(
                    msg.topic,
                    manager@,
                ));
                self.topics = topics;
                assert(self@ =~= old_view.handle(op).0);
                r
            },
            Op::ConsumerSwitch { topic, consumer_idx } => {
                let mut manager = topics.remove(&topic).unwrap();
                assert(manager@ == old_view.topics[topic]);
                let mut queue = manager.switch_consumer(consumer_idx);
                topics.insert(topic, manager);
                assert(topics@ =~= old_map.insert(topic, manager));
                assert(topics@.map_values(|m: TopicManager| m@) =~= old_view.topics.insert(
                    topic,
                    manager@,
                ));
                let ghost handed = queue@;
                let r = queue.pop_front();
                proof {
                    if r is Some {
                        assert(queue@ =~= handed.drop_first());
                    }
                }
                self.topics = topics;
                self.message_queue = queue;
                assert(self@ =~= old_view.handle(op).0);
                r
            },
        }
    }
}

/// For a message event the client hands out exactly what the topic's
/// manager delivers, the topic's state becomes the manager's new state, and
/// the other topics and the queue stay as they are. In particular a fresh
/// message of a topic's active consumer is handed out.
pub proof fn law_message_hands_out_delivery(v: ClientView, msg: Message)
    requires
        v.wf(),
        v.can_handle(Op::Message(msg)),
    ensures
        v.handle(Op::Message(msg)).1 == v.topics[msg.topic].process(msg).1,
        v.handle(Op::Message(msg)).0.topics[msg.topic] == v.topics[msg.topic].process(msg).0,
        v.handle(Op::Message(msg)).0.message_queue == v.message_queue,
        v.handle(Op::Message(msg)).0.topics.dom() == v.topics.dom(),
        forall|t: usize|
            t != msg.topic && #[trigger] v.topics.contains_key(t) ==> v.handle(
                Op::Message(msg),
            ).0.topics[t] == v.topics[t],
        msg.consumer_idx == v.topics[msg.topic].active_consumer && msg.reception
            >= v.topics[msg.topic].message_min_reception ==> v.handle(Op::Message(msg)).1 == Some(
            msg,
        ),
        msg.consumer_idx != v.topics[msg.topic].active_consumer ==> v.handle(
            Op::Message(msg),
        ).1 is None,
{
    law_message_touches_its_topic_only(v, msg);
    crate::topic::law_process_effects(v.topics[msg.topic], msg);
}

/// A fresh client has exactly the mock topics, each read from consumer 0
/// with an empty buffer for each of the consumers `0..mock_consumers`, and
/// nothing queued.
pub proof fn law_fresh_client(mock_consumers: usize)
    ensures
        forall|t: usize| #[trigger]
            initial_client(mock_consumers).topics.contains_key(t) <==> mock_topics().contains(t),
        forall|t: usize|
            #[trigger] mock_topics().contains(t) ==> {
                let v = initial_client(mock_consumers).topics[t];
                &&& v.active_consumer == 0
                &&& forall|c: usize| #[trigger] v.buffers.contains_key(c) <==> c < mock_consumers
                &&& forall|c: usize| c < mock_consumers ==> #[trigger] v.buffers[c].len() == 0
                &&& v.last_message_reception is None
            },
        initial_client(mock_consumers).message_queue.len() == 0,
{
    crate::topic::law_fresh_manager(mock_consumers, 0);
}

/// Handling an event keeps the client's invariant: every manager keeps its
/// own, buffers hold only their topic's messages, and the queue only
/// messages of active consumers.
pub proof fn law_handle_keeps_wf(v: ClientView, op: Op)
    requires
        v.wf(),
        v.can_handle(op),
    ensures
        v.handle(op).0.wf(),
{
    let w = v.handle(op).0;
    assert forall|t: usize| #[trigger] w.topics.contains_key(t) implies w.topics[t].wf() by {
        match op {
            Op::Message(msg) => {
                if t == msg.topic {
                    crate::topic::law_process_keeps_wf(v.topics[t], msg);
                }
            },
            Op::ConsumerSwitch { topic, consumer_idx } => {
                if t == topic {
                    crate::topic::law_switch_keeps_wf(v.topics[t], consumer_idx);
                }
            },
        }
    }
    match op {
        Op::Message(msg) => {
            let tv = v.topics[msg.topic];
            assert forall|t: usize, c: usize, k: int|
                #![trigger w.topics[t].buffers[c][k]]
                w.topics.contains_key(t) && w.topics[t].buffers.contains_key(c) && 0 <= k
                    < w.topics[t].buffers[c].len() implies w.topics[t].buffers[c][k].topic == t by {
                if t == msg.topic && c == msg.consumer_idx && msg.reception >= tv.message_min_reception
                    && msg.consumer_idx != tv.active_consumer && tv.buff_messages {
                    let until = msg.reception - crate::topic::BUFFER_WINDOW_SECS * crate::time::NANOS_PER_SEC;
                    let b = tv.buffers[c];
                    crate::topic::lemma_drop_expired(b, until);
                    let kept = crate::topic::drop_expired(b, until);
                    if k < kept.len() {
                        assert(kept[k] == b[b.len() - kept.len() + k]);
                        assert(v.topics[t].buffers[c][b.len() - kept.len() + k].topic == t);
                    }
                } else if t == msg.topic {
                    assert(w.topics[t].buffers[c] == v.topics[t].buffers[c]);
                    assert(v.topics[t].buffers[c][k].topic == t);
                } else {
                    assert(w.topics[t] == v.topics[t]);
                    assert(v.topics[t].buffers[c][k].topic == t);
                }
            }
            assert forall|k: int| 0 <= k < w.message_queue.len() implies {
                let m = #[trigger] w.message_queue[k];
                &&& w.topics.contains_key(m.topic)
                &&& m.consumer_idx == w.topics[m.topic].active_consumer
            } by {
                let m = v.message_queue[k];
                assert(v.topics.contains_key(m.topic));
            }
        },
        Op::ConsumerSwitch { topic, consumer_idx } => {
            let tv = v.topics[topic];
            assert forall|t: usize, c: usize, k: int|
                #![trigger w.topics[t].buffers[c][k]]
                w.topics.contains_key(t) && w.topics[t].buffers.contains_key(c) && 0 <= k
                    < w.topics[t].buffers[c].len() implies w.topics[t].buffers[c][k].topic == t by {
                if t != topic {
                    assert(w.topics[t] == v.topics[t]);
                    assert(v.topics[t].buffers[c][k].topic == t);
                } else if c != consumer_idx {
                    assert(w.topics[t].buffers[c] == v.topics[t].buffers[c]);
                    assert(v.topics[t].buffers[c][k].topic == t);
                }
            }
            let q = tv.switch(consumer_idx).1;
            let b = tv.buffers[consumer_idx];
            crate::topic::law_switch_hands_over_buffer_tail(tv, consumer_idx);
            crate::topic::law_handed_over_from_new_consumer(tv, consumer_idx);
            assert forall|j: int| 0 <= j < q.len() implies (#[trigger] q[j]).topic == topic by {
                assert(q[j] == b[b.len() - q.len() + j]);
                assert(v.topics[topic].buffers[consumer_idx][b.len() - q.len() + j].topic == topic);
            }
            assert forall|k: int| 0 <= k < w.message_queue.len() implies {
                let m = #[trigger] w.message_queue[k];
                &&& w.topics.contains_key(m.topic)
                &&& m.consumer_idx == w.topics[m.topic].active_consumer
            } by {
                assert(w.message_queue[k] == q[k + 1]);
                assert(q[k + 1].topic == topic);
                assert(q[k + 1].consumer_idx == consumer_idx);
            }
        },
    }
}

/// Handing out a queued message keeps the client's invariant.
pub proof fn law_pop_keeps_wf(v: ClientView)
    requires
        v.wf(),
    ensures
        v.pop().0.wf(),
{
    let w = v.pop().0;
    assert forall|k: int| 0 <= k < w.message_queue.len() implies {
        let m = #[trigger] w.message_queue[k];
        &&& w.topics.contains_key(m.topic)
        &&& m.consumer_idx == w.topics[m.topic].active_consumer
    } by {
        let m = v.message_queue[k + 1];
    }
}

/// Everything the client hands out, from an event or from the queue,
/// belongs to one of its topics and comes from that topic's active consumer.
pub proof fn law_handed_out_from_active(v: ClientView, op: Op)
    requires
        v.wf(),
    ensures
        v.can_handle(op) ==> (v.handle(op).1 matches Some(m) ==> {
            &&& v.handle(op).0.topics.contains_key(m.topic)
            &&& m.consumer_idx == v.handle(op).0.topics[m.topic].active_consumer
        }),
        v.pop().1 matches Some(m) ==> {
            &&& v.pop().0.topics.contains_key(m.topic)
            &&& m.consumer_idx == v.pop().0.topics[m.topic].active_consumer
        },
{
    if v.message_queue.len() > 0 {
        let m = v.message_queue[0];
    }
    if v.can_handle(op) {
        match op {
            Op::Message(msg) => {},
            Op::ConsumerSwitch { topic, consumer_idx } => {
                let tv = v.topics[topic];
                let q = tv.switch(consumer_idx).1;
                let b = tv.buffers[consumer_idx];
                crate::topic::law_switch_hands_over_buffer_tail(tv, consumer_idx);
                crate::topic::law_handed_over_from_new_consumer(tv, consumer_idx);
                if q.len() > 0 {
                    assert(q[0] == b[b.len() - q.len()]);
                    assert(v.topics[topic].buffers[consumer_idx][b.len() - q.len()].topic == topic);
                    assert(q[0].consumer_idx == consumer_idx);
                }
            },
        }
    }
}

/// `n` pops hand out the first `n` queued messages in order and leave the
/// rest queued; the topics are untouched.
pub proof fn law_queue_drains_in_order(v: ClientView, n: nat)
    requires
        n <= v.message_queue.len(),
    ensures
        v.pop_n(n).1 == v.message_queue.take(n as int),
        v.pop_n(n).0 == (ClientView { message_queue: v.message_queue.skip(n as int), ..v }),
    decreases n,
{
    if n > 0 {
        law_queue_drains_in_order(v, (n - 1) as nat);
        let w = v.pop_n((n - 1) as nat).0;
        assert(w.message_queue[0] == v.message_queue[n - 1]);
        assert(v.message_queue.take(n - 1).push(v.message_queue[n - 1]) =~= v.message_queue.take(n as int));
        assert(w.message_queue.drop_first() =~= v.message_queue.skip(n as int));
    } else {
        assert(v.message_queue.take(0) =~= Seq::<Message>::empty());
        assert(v.message_queue.skip(0) =~= v.message_queue);
    }
}

/// A message only changes the state of its own topic, and leaves the queue
/// as it is.
pub proof fn law_message_touches_its_topic_only(v: ClientView, msg: Message)
    requires
        v.can_handle(Op::Message(msg)),
    ensures
        v.handle(Op::Message(msg)).0.message_queue == v.message_queue,
        v.handle(Op::Message(msg)).0.topics.dom() == v.topics.dom(),
        forall|t: usize|
            t != msg.topic && #[trigger] v.topics.contains_key(t) ==> v.handle(
                Op::Message(msg),
            ).0.topics[t] == v.topics[t],
{
    assert(v.handle(Op::Message(msg)).0.topics.dom() =~= v.topics.dom());
}

/// A switch order hands out exactly what the topic's switch hands over, in
/// order: the returned message first, then the queue. Other topics keep
/// their state.
pub proof fn law_switch_hands_out_in_order(v: ClientView, topic: usize, consumer_idx: usize)
    requires
        v.can_handle(Op::ConsumerSwitch { topic, consumer_idx }),
    ensures
        ({
            let (w, r) = v.handle(Op::ConsumerSwitch { topic, consumer_idx });
            let q = v.topics[topic].switch(consumer_idx).1;
            &&& match r {
                Some(m) => seq![m] + w.message_queue == q,
                None => q.len() == 0 && w.message_queue == q,
            }
            &&& w.topics.dom() == v.topics.dom()
            &&& forall|t: usize|
                t != topic && #[trigger] v.topics.contains_key(t) ==> w.topics[t] == v.topics[t]
        }),
{
    let (w, r) = v.handle(Op::ConsumerSwitch { topic, consumer_idx });
    let q = v.topics[topic].switch(consumer_idx).1;
    if q.len() > 0 {
        assert(seq![q[0]] + q.drop_first() =~= q);
    }
    assert(w.topics.dom() =~= v.topics.dom());
}

} // verus!
