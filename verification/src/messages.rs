//! What nodes and clients say to each other.

use crate::log::{EntryView, LogEntry};
use crate::types::{ClientId, NodeId, SeqNum};
use vstd::prelude::*;

verus! {

/// Asks for the vote of a node.
#[derive(Debug, Clone, Copy, PartialEq, Eq, Structural)]
pub struct RequestVoteRequest {
    pub term: u64,
    pub candidate_id: NodeId,
    pub last_log_term: u64,
    pub last_log_index: u64,
}

#[derive(Debug, Clone, Copy, PartialEq, Eq, Structural)]
pub struct RequestVoteResponse {
    pub term: u64,
    pub vote_granted: bool,
}

/// Sends the entries that follow `prev_log_index`; without entries, a heartbeat.
#[derive(Debug)]
pub struct AppendEntriesRequest {
    pub term: u64,
    pub leader_id: NodeId,
    pub prev_log_index: u64,
    pub prev_log_term: u64,
    pub entries: Vec<LogEntry>,
    pub leader_commit: u64,
}

/// An [`AppendEntriesRequest`] as a mathematical value.
pub struct AppendEntriesView {
    pub term: u64,
    pub leader_id: NodeId,
    pub prev_log_index: u64,
    pub prev_log_term: u64,
    pub entries: Seq<EntryView>,
    pub leader_commit: u64,
}

impl View for AppendEntriesRequest {
    type V = AppendEntriesView;

    open spec fn view(&self) -> AppendEntriesView {
        AppendEntriesView {
            term: self.term,
            leader_id: self.leader_id,
            prev_log_index: self.prev_log_index,
            prev_log_term: self.prev_log_term,
            entries: EntryView::all(self.entries@),
            leader_commit: self.leader_commit,
        }
    }
}

#[derive(Debug, Clone, Copy, PartialEq, Eq, Structural)]
pub struct AppendEntriesResponse {
    pub term: u64,
    pub success: bool,
    /// Where the logs part, or zero.
    pub conflict_index: u64,
    pub last_log_index: u64,
}

/// Sends a whole snapshot to a node that lags behind the log of the leader.
#[derive(Debug)]
pub struct InstallSnapshotRequest {
    pub term: u64,
    pub leader_id: NodeId,
    pub last_included_index: u64,
    pub last_included_term: u64,
    pub data: Vec<u8>,
}

/// An [`InstallSnapshotRequest`] as a mathematical value.
pub struct InstallSnapshotView {
    pub term: u64,
    pub leader_id: NodeId,
    pub last_included_index: u64,
    pub last_included_term: u64,
    pub data: Seq<u8>,
}

impl View for InstallSnapshotRequest {
    type V = InstallSnapshotView;

    open spec fn view(&self) -> InstallSnapshotView {
        InstallSnapshotView {
            term: self.term,
            leader_id: self.leader_id,
            last_included_index: self.last_included_index,
            last_included_term: self.last_included_term,
            data: self.data@,
        }
    }
}

#[derive(Debug, Clone, Copy, PartialEq, Eq, Structural)]
pub struct InstallSnapshotResponse {
    pub term: u64,
    pub success: bool,
}

/// A command of a client on its way to a node.
#[derive(Debug)]
pub struct ClientCommandRequest {
    pub client_id: ClientId,
    pub seq_num: SeqNum,
    pub last_received_seq: SeqNum,
    pub command: Vec<u8>,
}

/// A [`ClientCommandRequest`] as a mathematical value.
pub struct ClientCommandView {
    pub client_id: ClientId,
    pub seq_num: SeqNum,
    pub last_received_seq: SeqNum,
    pub command: Seq<u8>,
}

impl View for ClientCommandRequest {
    type V = ClientCommandView;

    open spec fn view(&self) -> ClientCommandView {
        ClientCommandView {
            client_id: self.client_id,
            seq_num: self.seq_num,
            last_received_seq: self.last_received_seq,
            command: self.command@,
        }
    }
}

} // verus!
