//! Replication core of an eventually consistent key-value cluster: hybrid
//! logical clocks, an observed-remove CRDT set per keyspace, the wire codec for
//! snapshots and keyspace counters, replica selection by consistency level, and
//! the decisions taken by the write fan-out and the anti-entropy poller.

pub mod codec;
pub mod counters;
pub mod hlc;
pub mod keyspace;
pub mod membership;
pub mod options;
pub mod orswot;
pub mod poller;
pub mod selector;
