//! A Raft consensus core.
//!
//! The library decides what a node does; it performs no I/O.  A driver feeds
//! events to [`raft::RaftNode`], carries out what each reaction asks for
//! (storage, messages, replies) and owns the timers and the channels.

pub mod agreement;
pub mod apply;
pub mod bytes;
pub mod client;
pub mod cluster;
pub mod consistency;
pub mod dedup;
pub mod election;
pub mod events;
pub mod history;
pub mod identity;
pub mod laws;
pub mod log;
pub mod matching;
pub mod messages;
pub mod model;
pub mod quorum;
pub mod raft;
pub mod recovery;
pub mod replication;
pub mod safety;
pub mod sessions;
pub mod snapshot;
pub mod storage;
pub mod table;
pub mod text;
pub mod traits;
pub mod types;

pub use crate::types::{
    ClientId, ClientRequest, CommandResult, Config, NodeId, RaftCommand, SeqNum,
};
