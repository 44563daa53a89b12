//! Verified core of a set of channel and metrics experiments: the topic
//! failover logic of a multi-consumer client, the consumer's message
//! numbering, the topic distribution planner and the index table of
//! registered metric registries.
pub mod client;
pub mod consumer;
pub mod distribution;
pub mod message;
pub mod registry;
mod random;
pub mod time;
pub mod topic;
