//! Per-topic failover state: which consumer is read from, and what the
//! other consumers have received meanwhile.
use std::collections::HashMap;
use std::collections::VecDeque;
use vstd::prelude::*;

use crate::message::Message;
use crate::time::{
    jiff_checked_add_secs, jiff_timestamp_min, shifted_timestamp, valid_timestamp,
    NANOS_PER_SEC, TIMESTAMP_MAX_NANOS, TIMESTAMP_MIN_NANOS,
};

verus! {

broadcast use vstd::std_specs::hash::group_hash_axioms;

/// How long (in seconds) a message of a standby consumer stays buffered,
/// measured back from the newest message of that consumer.
pub const BUFFER_WINDOW_SECS: i64 = 30;

/// After a switch, messages received less than this many seconds after the
/// last delivered one are considered already delivered.
pub const SWITCH_MARGIN_SECS: i64 = 2;

/// The leading messages of `s` received before `until` removed.
pub open spec fn drop_expired(s: Seq<Message>, until: int) -> Seq<Message>
    decreases s.len(),
{
    if s.len() > 0 && s[0].reception < until {
        drop_expired(s.drop_first(), until)
    } else {
        s
    }
}

/// What `drop_expired` removes is exactly a prefix of messages received
/// before `until`, and what it keeps starts, if at all, at or after `until`.
pub proof fn lemma_drop_expired(s: Seq<Message>, until: int)
    ensures
        drop_expired(s, until).len() <= s.len(),
        drop_expired(s, until) == s.subrange(s.len() - drop_expired(s, until).len(), s.len() as int),
        forall|i: int|
            0 <= i < s.len() - drop_expired(s, until).len() ==> #[trigger] s[i].reception < until,
        drop_expired(s, until).len() > 0 ==> drop_expired(s, until)[0].reception >= until,
    decreases s.len(),
{
    if s.len() > 0 && s[0].reception < until {
        lemma_drop_expired(s.drop_first(), until);
        let k = s.len() - drop_expired(s, until).len();
        assert forall|i: int| 0 <= i < k implies #[trigger] s[i].reception < until by {
            if i > 0 {
                assert(s[i] == s.drop_first()[i - 1]);
            }
        }
        assert(s.drop_first().subrange(
            s.drop_first().len() - drop_expired(s, until).len(),
            s.drop_first().len() as int,
        ) =~= s.subrange(k, s.len() as int));
    } else {
        assert(s.subrange(0, s.len() as int) =~= s);
    }
}

/// The mathematical state of a `TopicManager`.
#[verifier::ext_equal]
pub struct TopicView {
    pub active_consumer: usize,
    pub buffers: Map<usize, Seq<Message>>,
    pub last_message_reception: Option<i128>,
    pub message_min_reception: i128,
    pub buff_messages: bool,
}

impl TopicView {
    /// The state the manager keeps at all times.
    pub open spec fn wf(self) -> bool {
        &&& valid_timestamp(self.message_min_reception as int)
        &&& (self.last_message_reception matches Some(l) ==> valid_timestamp(l as int))
        &&& (self.buffers.contains_key(self.active_consumer) ==> self.buffers[self.active_consumer].len()
            == 0)
        &&& self.buffers_hold_own()
        &&& self.buff_messages
    }

    /// Each buffer holds only messages of its own consumer.
    pub open spec fn buffers_hold_own(self) -> bool {
        forall|c: usize, k: int|
            #![trigger self.buffers[c][k]]
            self.buffers.contains_key(c) && 0 <= k < self.buffers[c].len() ==> self.buffers[c][k].consumer_idx
                == c
    }

    /// Inputs on which `process` does its work without panicking.
    pub open spec fn can_process(self, msg: Message) -> bool {
        &&& valid_timestamp(msg.reception as int)
        &&& msg.reception >= self.message_min_reception ==> if msg.consumer_idx
            == self.active_consumer {
            self.buffers.contains_key(self.active_consumer)
        } else {
            self.buff_messages ==> {
                &&& self.buffers.contains_key(msg.consumer_idx)
                &&& shifted_timestamp(msg.reception as int, -BUFFER_WINDOW_SECS) is Some
            }
        }
    }

    /// The state after a message arrives, and the message to deliver, if any.
    pub open spec fn process(self, msg: Message) -> (TopicView, Option<Message>) {
        if msg.reception < self.message_min_reception {
            (self, None)
        } else if msg.consumer_idx == self.active_consumer {
            (TopicView { last_message_reception: Some(msg.reception), ..self }, Some(msg))
        } else if !self.buff_messages {
            (self, None)
        } else {
            let until = msg.reception - BUFFER_WINDOW_SECS * NANOS_PER_SEC;
            let kept = drop_expired(self.buffers[msg.consumer_idx], until);
            (TopicView { buffers: self.buffers.insert(msg.consumer_idx, kept.push(msg)), ..self }, None)
        }
    }

    /// Inputs on which `switch_consumer` does its work without panicking.
    pub open spec fn can_switch(self, consumer_idx: usize) -> bool {
        &&& self.buffers.contains_key(consumer_idx)
        &&& (self.last_message_reception matches Some(l) ==> shifted_timestamp(
            l as int,
            SWITCH_MARGIN_SECS as int,
        ) is Some)
    }

    /// The state after reading from `consumer_idx`, and the messages that
    /// consumer buffered which are to be delivered now.
    pub open spec fn switch(self, consumer_idx: usize) -> (TopicView, Seq<Message>) {
        let emptied = self.buffers.insert(consumer_idx, Seq::empty());
        match self.last_message_reception {
            Some(l) => {
                let until = l + SWITCH_MARGIN_SECS * NANOS_PER_SEC;
                (
                    TopicView {
                        active_consumer: consumer_idx,
                        buffers: emptied,
                        message_min_reception: until as i128,
                        ..self
                    },
                    drop_expired(self.buffers[consumer_idx], until),
                )
            },
            None => (
                TopicView { active_consumer: consumer_idx, buffers: emptied, ..self },
                self.buffers[consumer_idx],
            ),
        }
    }
}

/// The state of a fresh manager.
pub open spec fn initial_topic(mock_consumers: usize, active_consumer: usize) -> TopicView {
    TopicView {
        active_consumer,
        buffers: Map::new(|i: usize| i < mock_consumers, |i: usize| Seq::<Message>::empty()),
        last_message_reception: None,
        message_min_reception: TIMESTAMP_MIN_NANOS,
        buff_messages: true,
    }
}

/// Failover state of one topic.
pub struct TopicManager {
    active_consumer: usize,
    buffers: HashMap<usize, VecDeque<Message>>,
    last_message_reception: Option<i128>,
    message_min_reception: i128,
    // Should be moved to `buffers` by wrapping it in an `Option`.
    buff_messages: bool,
}

impl View for TopicManager {
    type V = TopicView;

    closed spec fn view(&self) -> TopicView {
        TopicView {
            active_consumer: self.active_consumer,
            buffers: self.buffers@.map_values(|q: VecDeque<Message>| q@),
            last_message_reception: self.last_message_reception,
            message_min_reception: self.message_min_reception,
            buff_messages: self.buff_messages,
        }
    }
}

impl TopicManager {
    /// The manager keeps the invariant of its model at all times.
    #[verifier::type_invariant]
    closed spec fn inv(self) -> bool {
        self@.wf()
    }

    /// A manager reading from `active_consumer`, with an empty buffer for
    /// each of the consumers `0..mock_consumers`.
    pub fn new(mock_consumers: usize, active_consumer: usize) -> (r: Self)
        ensures
            r@ == initial_topic(mock_consumers, active_consumer),
            r@.wf(),
            r@.active_consumer == active_consumer,
            forall|c: usize| #[trigger] r@.buffers.contains_key(c) <==> c < mock_consumers,
            forall|c: usize| c < mock_consumers ==> #[trigger] r@.buffers[c].len() == 0,
            r@.last_message_reception is None,
            r@.message_min_reception == TIMESTAMP_MIN_NANOS,
            r@.buff_messages,
    {
        proof {
            law_fresh_manager(mock_consumers, active_consumer);
        }
        let mut buffers: HashMap<usize, VecDeque<Message>> = HashMap::new();
        let mut consumer_idx: usize = 0;
        while consumer_idx < mock_consumers
            invariant
                consumer_idx <= mock_consumers,
                forall|i: usize| #[trigger] buffers@.contains_key(i) <==> i < consumer_idx,
                forall|i: usize| #[trigger] buffers@.contains_key(i) ==> buffers@[i]@.len() == 0,
            decreases mock_consumers - consumer_idx,
        {
            buffers.insert(consumer_idx, VecDeque::new());
            consumer_idx = consumer_idx + 1;
        }
        assert forall|i: usize| #[trigger] buffers@.contains_key(i) implies buffers@[i]@
            =~= Seq::<Message>::empty() by {}
        assert(buffers@.map_values(|q: VecDeque<Message>| q@) =~= Map::new(
            |i: usize| i < mock_consumers,
            |i: usize| Seq::<Message>::empty(),
        ));
        let r = TopicManager {
            active_consumer,
            buffers,
            last_message_reception: None,
            message_min_reception: jiff_timestamp_min(),
            buff_messages: true,
        };
        assert(r@ =~= initial_topic(mock_consumers, active_consumer));
        r
    }

    /// Drops the leading messages received before `until`.
    pub fn clear_expired(messages: &mut VecDeque<Message>, until: i128)
        ensures
            final(messages)@ == drop_expired(old(messages)@, until as int),
    {
        while messages.len() > 0 && messages[0].reception < until
            invariant
                drop_expired(messages@, until as int) == drop_expired(old(messages)@, until as int),
            decreases messages@.len(),
        {
            let ghost before = messages@;
            let popped = messages.pop_front();
            assert(popped is Some);
            assert(messages@ =~= before.drop_first());
        }
    }

    /// Whether `process` accepts `msg` in the current state.
    pub fn can_process(&self, msg: &Message) -> (r: bool)
        ensures
            r == self@.can_process(*msg),
    {
        if !(TIMESTAMP_MIN_NANOS <= msg.reception && msg.reception <= TIMESTAMP_MAX_NANOS) {
            return false;
        }
        if msg.reception < self.message_min_reception {
            return true;
        }
        if msg.consumer_idx == self.active_consumer {
            self.buffers.contains_key(&self.active_consumer)
        } else if !self.buff_messages {
            true
        } else {
            self.buffers.contains_key(&msg.consumer_idx) && jiff_checked_add_secs(
                msg.reception,
                -BUFFER_WINDOW_SECS,
            ).is_some()
        }
    }

    /// Handles a message that `msg.consumer_idx` polled for this topic:
    /// messages older than the minimum reception are dropped, those of the
    /// active consumer are delivered, those of the others are buffered (when
    /// buffering is on) after the buffer's expired head is cleared.
    pub fn process(&mut self, msg: Message) -> (r: Option<Message>)
        requires
            old(self)@.can_process(msg),
        ensures
            (final(self)@, r) == old(self)@.process(msg),
            final(self)@.wf(),
            msg.reception < old(self)@.message_min_reception ==> r is None && final(self)@ == old(self)@,
            msg.reception >= old(self)@.message_min_reception && msg.consumer_idx == old(self)@.active_consumer ==> {
                &&& r == Some(msg)
                &&& final(self)@.last_message_reception == Some(msg.reception)
                &&& final(self)@.active_consumer == old(self)@.active_consumer
                &&& final(self)@.message_min_reception == old(self)@.message_min_reception
                &&& final(self)@.buffers == old(self)@.buffers
                &&& final(self)@.buff_messages == old(self)@.buff_messages
            },
            msg.reception >= old(self)@.message_min_reception && msg.consumer_idx != old(self)@.active_consumer ==> {
                &&& r is None
                &&& final(self)@.last_message_reception == old(self)@.last_message_reception
                &&& final(self)@.active_consumer == old(self)@.active_consumer
                &&& final(self)@.message_min_reception == old(self)@.message_min_reception
                &&& final(self)@.buff_messages == old(self)@.buff_messages
                &&& final(self)@.buffers.dom() == old(self)@.buffers.dom()
                &&& forall|c: usize|
                    c != msg.consumer_idx && #[trigger] old(self)@.buffers.contains_key(c)
                        ==> final(self)@.buffers[c] == old(self)@.buffers[c]
                &&& final(self)@.buffers[msg.consumer_idx].last() == msg
            },
    {
        proof {
            use_type_invariant(&*self);
            law_process_effects(self@, msg);
        }
        if msg.reception < self.message_min_reception {
            return None;
        }
        if self.active_consumer == msg.consumer_idx {
            self.last_message_reception = Some(msg.reception);
            return Some(msg);
        }
        if !self.buff_messages {
            return None;
        }
        let ghost old_view = self@;
        let until = match jiff_checked_add_secs(msg.reception, -BUFFER_WINDOW_SECS) {
            Some(u) => u,
            None => msg.reception,
        };
        let mut buffers: HashMap<usize, VecDeque<Message>> = HashMap::new();
        std::mem::swap(&mut buffers, &mut self.buffers);
        let ghost old_map = buffers@;
        let mut buffer = match buffers.remove(&msg.consumer_idx) {
            Some(b) => b,
            None => VecDeque::new(),
        };
        Self::clear_expired(&mut buffer, until);
        buffer.push_back(msg);
        buffers.insert(msg.consumer_idx, buffer);
        proof {
            assert(buffers@ =~= old_map.insert(msg.consumer_idx, buffer));
            assert(buffers@.map_values(|q: VecDeque<Message>| q@) =~= old_view.buffers.insert(
                msg.consumer_idx,
                buffer@,
            ));
            law_process_keeps_wf(old_view, msg);
        }
        self.buffers = buffers;
        assert(self@ =~= old_view.process(msg).0);
        None
    }

    /// Whether `switch_consumer` accepts `consumer_idx` in the current state.
    pub fn can_switch(&self, consumer_idx: usize) -> (r: bool)
        ensures
            r == self@.can_switch(consumer_idx),
    {
        proof {
            use_type_invariant(self);
        }
        if !self.buffers.contains_key(&consumer_idx) {
            return false;
        }
        match self.last_message_reception {
            Some(l) => jiff_checked_add_secs(l, SWITCH_MARGIN_SECS).is_some(),
            None => true,
        }
    }

    /// Reads the topic from `consumer_idx` from now on, and hands back what
    /// that consumer buffered, without the messages received less than the
    /// switch margin after the last delivered one; those later arriving are
    /// dropped as well.
    pub fn switch_consumer(&mut self, consumer_idx: usize) -> (r: VecDeque<Message>)
        requires
            old(self)@.can_switch(consumer_idx),
        ensures
            (final(self)@, r@) == old(self)@.switch(consumer_idx),
            final(self)@.wf(),
            final(self)@.active_consumer == consumer_idx,
            final(self)@.buffers.dom() == old(self)@.buffers.dom(),
            final(self)@.buffers[consumer_idx].len() == 0,
            forall|c: usize|
                c != consumer_idx && #[trigger] old(self)@.buffers.contains_key(c) ==> final(self)@.buffers[c] == old(self)@.buffers[c],
            final(self)@.last_message_reception == old(self)@.last_message_reception,
            final(self)@.buff_messages == old(self)@.buff_messages,
            final(self)@.message_min_reception == match old(self)@.last_message_reception {
                Some(l) => l + SWITCH_MARGIN_SECS * NANOS_PER_SEC,
                None => old(self)@.message_min_reception as int,
            },
    {
        proof {
            use_type_invariant(&*self);
            law_switch_effects(self@, consumer_idx);
        }
        let ghost old_view = self@;
        let mut buffers: HashMap<usize, VecDeque<Message>> = HashMap::new();
        std::mem::swap(&mut buffers, &mut self.buffers);
        let ghost old_map = buffers@;
        let mut buffer = match buffers.remove(&consumer_idx) {
            Some(b) => b,
            None => VecDeque::new(),
        };
        self.active_consumer = consumer_idx;
        match self.last_message_reception {
            Some(last) => {
                let until = match jiff_checked_add_secs(last, SWITCH_MARGIN_SECS) {
                    Some(u) => u,
                    None => last,
                };
                Self::clear_expired(&mut buffer, until);
                self.message_min_reception = until;
            },
            None => {},
        }
        buffers.insert(consumer_idx, VecDeque::new());
        proof {
            assert(buffers@.map_values(|q: VecDeque<Message>| q@) =~= old_view.buffers.insert(
                consumer_idx,
                Seq::empty(),
            ));
            law_switch_keeps_wf(old_view, consumer_idx);
        }
        self.buffers = buffers;
        assert(self@ =~= old_view.switch(consumer_idx).0);
        buffer
    }
}

/// A fresh manager reads from the consumer it is given, has an empty buffer
/// for each of the consumers `0..mock_consumers` and none other, has
/// delivered nothing, accepts any instant and buffers standby messages.
pub proof fn law_fresh_manager(mock_consumers: usize, active_consumer: usize)
    ensures
        ({
            let v = initial_topic(mock_consumers, active_consumer);
            &&& v.active_consumer == active_consumer
            &&& forall|c: usize| #[trigger] v.buffers.contains_key(c) <==> c < mock_consumers
            &&& forall|c: usize| c < mock_consumers ==> #[trigger] v.buffers[c].len() == 0
            &&& v.last_message_reception is None
            &&& v.message_min_reception == TIMESTAMP_MIN_NANOS
            &&& v.buff_messages
            &&& v.wf()
        }),
{
}

/// What processing a message does, case by case: a message older than the
/// minimum reception changes nothing and is dropped; one of the active
/// consumer is delivered and only recorded as the last delivery; one of a
/// standby consumer is not delivered, and only its consumer's buffer
/// changes, now ending with it.
pub proof fn law_process_effects(v: TopicView, msg: Message)
    requires
        v.wf(),
        v.can_process(msg),
    ensures
        msg.reception < v.message_min_reception ==> v.process(msg).1 is None && v.process(msg).0
            == v,
        msg.reception >= v.message_min_reception && msg.consumer_idx == v.active_consumer ==> {
            let w = v.process(msg).0;
            &&& v.process(msg).1 == Some(msg)
            &&& w.last_message_reception == Some(msg.reception)
            &&& w.active_consumer == v.active_consumer
            &&& w.message_min_reception == v.message_min_reception
            &&& w.buffers == v.buffers
            &&& w.buff_messages == v.buff_messages
        },
        msg.reception >= v.message_min_reception && msg.consumer_idx != v.active_consumer ==> {
            let w = v.process(msg).0;
            &&& v.process(msg).1 is None
            &&& w.last_message_reception == v.last_message_reception
            &&& w.active_consumer == v.active_consumer
            &&& w.message_min_reception == v.message_min_reception
            &&& w.buff_messages == v.buff_messages
            &&& w.buffers.dom() == v.buffers.dom()
            &&& forall|c: usize|
                c != msg.consumer_idx && #[trigger] v.buffers.contains_key(c) ==> w.buffers[c]
                    == v.buffers[c]
            &&& w.buffers[msg.consumer_idx].len() > 0
            &&& w.buffers[msg.consumer_idx].last() == msg
        },
{
    if msg.reception >= v.message_min_reception && msg.consumer_idx != v.active_consumer {
        let w = v.process(msg).0;
        assert(w.buffers.dom() =~= v.buffers.dom());
    }
}

/// As long as no switch happens, the active consumer's messages keep being
/// delivered: after one is delivered, a later one not older than the
/// minimum reception is delivered as well.
pub proof fn law_active_consumer_keeps_being_delivered(v: TopicView, first: Message, second: Message)
    requires
        v.wf(),
        v.can_process(first),
        first.consumer_idx == v.active_consumer,
        second.consumer_idx == v.active_consumer,
        first.reception >= v.message_min_reception,
        second.reception >= v.message_min_reception,
    ensures
        v.process(first).1 == Some(first),
        v.process(first).0.process(second).1 == Some(second),
{
}

/// What a switch does: the topic is read from `consumer_idx`, whose buffer
/// is emptied; every other buffer, the last delivery and buffering stay as
/// they are; the minimum reception becomes the last delivery plus the
/// switch margin, or stays when nothing was delivered.
pub proof fn law_switch_effects(v: TopicView, consumer_idx: usize)
    requires
        v.wf(),
        v.can_switch(consumer_idx),
    ensures
        ({
            let w = v.switch(consumer_idx).0;
            &&& w.active_consumer == consumer_idx
            &&& w.buffers.dom() == v.buffers.dom()
            &&& w.buffers[consumer_idx].len() == 0
            &&& forall|c: usize|
                c != consumer_idx && #[trigger] v.buffers.contains_key(c) ==> w.buffers[c] == v.buffers[c]
            &&& w.last_message_reception == v.last_message_reception
            &&& w.buff_messages == v.buff_messages
            &&& w.message_min_reception == match v.last_message_reception {
                Some(l) => l + SWITCH_MARGIN_SECS * NANOS_PER_SEC,
                None => v.message_min_reception as int,
            }
        }),
{
    assert(v.switch(consumer_idx).0.buffers.dom() =~= v.buffers.dom());
}

/// After any switch, a standby consumer's message not older than the
/// minimum reception is buffered, and a later switch to that consumer hands
/// it over (when no delivery lies within the margin before it).
pub proof fn law_standby_message_is_buffered_and_handed_over(
    v: TopicView,
    first: usize,
    msg: Message,
)
    requires
        v.wf(),
        v.can_switch(first),
        v.switch(first).0.can_process(msg),
        msg.consumer_idx != first,
        v.buffers.contains_key(msg.consumer_idx),
        msg.reception >= v.switch(first).0.message_min_reception,
        v.last_message_reception is None,
    ensures
        ({
            let w = v.switch(first).0.process(msg).0;
            &&& v.switch(first).0.process(msg).1 is None
            &&& w.buffers[msg.consumer_idx].last() == msg
            &&& w.can_switch(msg.consumer_idx)
            &&& w.switch(msg.consumer_idx).1 == w.buffers[msg.consumer_idx]
            &&& w.switch(msg.consumer_idx).1.last() == msg
        }),
{
    law_switch_keeps_wf(v, first);
    law_switch_effects(v, first);
    law_process_effects(v.switch(first).0, msg);
}

/// Processing keeps the manager's invariant.
pub proof fn law_process_keeps_wf(v: TopicView, msg: Message)
    requires
        v.wf(),
        v.can_process(msg),
    ensures
        v.process(msg).0.wf(),
{
    if msg.reception >= v.message_min_reception && msg.consumer_idx != v.active_consumer
        && v.buff_messages {
        let until = msg.reception - BUFFER_WINDOW_SECS * NANOS_PER_SEC;
        let b = v.buffers[msg.consumer_idx];
        lemma_drop_expired(b, until);
        let kept = drop_expired(b, until);
        let w = v.process(msg).0;
        assert forall|c: usize, k: int|
            #![trigger w.buffers[c][k]]
            w.buffers.contains_key(c) && 0 <= k < w.buffers[c].len() implies w.buffers[c][k].consumer_idx
                == c by {
            if c == msg.consumer_idx {
                if k < kept.len() {
                    assert(kept[k] == b[b.len() - kept.len() + k]);
                    assert(b[b.len() - kept.len() + k].consumer_idx == c);
                }
            } else {
                assert(w.buffers[c] == v.buffers[c]);
            }
        }
    }
}

/// Switching keeps the manager's invariant.
pub proof fn law_switch_keeps_wf(v: TopicView, consumer_idx: usize)
    requires
        v.wf(),
        v.can_switch(consumer_idx),
    ensures
        v.switch(consumer_idx).0.wf(),
{
    let w = v.switch(consumer_idx).0;
    assert forall|c: usize, k: int|
        #![trigger w.buffers[c][k]]
        w.buffers.contains_key(c) && 0 <= k < w.buffers[c].len() implies w.buffers[c][k].consumer_idx
            == c by {
        if c != consumer_idx {
            assert(w.buffers[c] == v.buffers[c]);
        }
    }
}

/// The consumers with a buffer never change: a fresh manager has one for
/// each of `0..mock_consumers`, and processing and switching keep the set.
pub proof fn law_buffer_keys_preserved(v: TopicView, msg: Message, consumer_idx: usize, mock_consumers: usize)
    ensures
        initial_topic(mock_consumers, 0).buffers.dom() == Set::new(|c: usize| c < mock_consumers),
        v.can_process(msg) ==> v.process(msg).0.buffers.dom() == v.buffers.dom(),
        v.can_switch(consumer_idx) ==> v.switch(consumer_idx).0.buffers.dom() == v.buffers.dom(),
{
    assert(initial_topic(mock_consumers, 0).buffers.dom() =~= Set::new(|c: usize| c < mock_consumers));
    if v.can_process(msg) {
        assert(v.process(msg).0.buffers.dom() =~= v.buffers.dom());
    }
    if v.can_switch(consumer_idx) {
        assert(v.switch(consumer_idx).0.buffers.dom() =~= v.buffers.dom());
    }
}

/// What a switch hands over comes from the new active consumer.
pub proof fn law_handed_over_from_new_consumer(v: TopicView, consumer_idx: usize)
    requires
        v.wf(),
        v.can_switch(consumer_idx),
    ensures
        forall|k: int|
            0 <= k < v.switch(consumer_idx).1.len() ==> (#[trigger] v.switch(consumer_idx).1[k]).consumer_idx
                == consumer_idx,
{
    let b = v.buffers[consumer_idx];
    let q = v.switch(consumer_idx).1;
    law_switch_hands_over_buffer_tail(v, consumer_idx);
    assert forall|k: int| 0 <= k < q.len() implies (#[trigger] q[k]).consumer_idx == consumer_idx by {
        assert(q[k] == b[b.len() - q.len() + k]);
        assert(b[b.len() - q.len() + k].consumer_idx == consumer_idx);
    }
}

/// A delivered message is the one processed, comes from the active
/// consumer and is not older than the minimum reception.
pub proof fn law_delivered_is_active_and_fresh(v: TopicView, msg: Message)
    ensures
        v.process(msg).1 matches Some(m) ==> {
            &&& m == msg
            &&& m.consumer_idx == v.active_consumer
            &&& m.reception >= v.message_min_reception
        },
{
}

/// Messages of the active consumer are never buffered, and messages of the
/// other consumers are never delivered.
pub proof fn law_only_active_is_delivered(v: TopicView, msg: Message)
    requires
        v.wf(),
        v.can_process(msg),
    ensures
        msg.consumer_idx == v.active_consumer ==> v.process(msg).0.buffers == v.buffers,
        msg.consumer_idx != v.active_consumer ==> v.process(msg).1 is None,
{
}

/// After a switch to `consumer_idx`, its messages not older than the new
/// minimum reception are delivered as they arrive.
pub proof fn law_switched_consumer_is_delivered(v: TopicView, consumer_idx: usize, msg: Message)
    requires
        v.wf(),
        v.can_switch(consumer_idx),
        msg.consumer_idx == consumer_idx,
        msg.reception >= v.switch(consumer_idx).0.message_min_reception,
    ensures
        v.switch(consumer_idx).0.process(msg).1 == Some(msg),
{
}

/// After a switch that follows a delivery at `l`, nothing received before
/// `l` plus the switch margin is delivered or buffered any more.
pub proof fn law_no_redelivery_after_switch(v: TopicView, consumer_idx: usize, msg: Message)
    requires
        v.wf(),
        v.can_switch(consumer_idx),
        v.last_message_reception matches Some(l) && msg.reception < l + SWITCH_MARGIN_SECS
            * NANOS_PER_SEC,
    ensures
        v.switch(consumer_idx).0.process(msg) == (v.switch(consumer_idx).0, None::<Message>),
{
}

/// What a switch hands over is the tail of the new consumer's buffer, the
/// dropped head being the messages received before the last delivery plus
/// the switch margin; the new consumer's buffer is left empty.
pub proof fn law_switch_hands_over_buffer_tail(v: TopicView, consumer_idx: usize)
    requires
        v.wf(),
        v.can_switch(consumer_idx),
    ensures
        ({
            let (w, q) = v.switch(consumer_idx);
            let b = v.buffers[consumer_idx];
            &&& q.len() <= b.len()
            &&& q == b.subrange(b.len() - q.len(), b.len() as int)
            &&& w.buffers[consumer_idx].len() == 0
            &&& w.active_consumer == consumer_idx
            &&& (v.last_message_reception matches Some(l) ==> {
                &&& (forall|i: int|
                    0 <= i < b.len() - q.len() ==> #[trigger] b[i].reception < l + SWITCH_MARGIN_SECS
                        * NANOS_PER_SEC)
                &&& (q.len() > 0 ==> q[0].reception >= l + SWITCH_MARGIN_SECS * NANOS_PER_SEC)
            })
            &&& (v.last_message_reception is None ==> q == b)
        }),
{
    if let Some(l) = v.last_message_reception {
        lemma_drop_expired(v.buffers[consumer_idx], l + SWITCH_MARGIN_SECS * NANOS_PER_SEC);
    } else {
        let b = v.buffers[consumer_idx];
        assert(b.subrange(0, b.len() as int) =~= b);
    }
}

/// Buffering a standby consumer's message appends it after the messages of
/// that consumer received within the buffer window before it.
pub proof fn law_buffer_window(v: TopicView, msg: Message)
    requires
        v.wf(),
        v.can_process(msg),
        msg.reception >= v.message_min_reception,
        msg.consumer_idx != v.active_consumer,
        v.buff_messages,
    ensures
        ({
            let b = v.process(msg).0.buffers[msg.consumer_idx];
            let until = msg.reception - BUFFER_WINDOW_SECS * NANOS_PER_SEC;
            &&& b.last() == msg
            &&& b[0].reception >= until
            &&& b.drop_last() == drop_expired(v.buffers[msg.consumer_idx], until)
        }),
{
    let until = msg.reception - BUFFER_WINDOW_SECS * NANOS_PER_SEC;
    lemma_drop_expired(v.buffers[msg.consumer_idx], until);
    let kept = drop_expired(v.buffers[msg.consumer_idx], until);
    assert(kept.push(msg).drop_last() =~= kept);
}

} // verus!
