//! The messages that consumers deliver, and the events the client reacts to.
use vstd::prelude::*;

verus! {

/// A message polled by a consumer.
#[derive(Clone, Copy, Debug, PartialEq, Eq, Structural)]
pub struct Message {
    /// Index of the consumer that polled the message.
    pub consumer_idx: usize,
    /// Topic the message belongs to.
    pub topic: usize,
    /// Position of the message in its consumer's stream for this topic.
    pub idx: usize,
    /// Instant of reception, in nanoseconds since the Unix epoch
    /// (`jiff::Timestamp::as_nanosecond`).
    pub reception: i128,
}

/// What reaches the client: a message, or the order to read a topic from
/// another consumer.
#[derive(Clone, Copy, Debug, PartialEq, Eq, Structural)]
pub enum Op {
    Message(Message),
    ConsumerSwitch { topic: usize, consumer_idx: usize },
}

} // verus!
