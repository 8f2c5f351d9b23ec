//! The state of a node.

use crate::log::Log;
use crate::model::{LeaderView, NodeView};
use crate::table::RequestTable;
use crate::types::{ClientId, CommandResult, Config, NodeId, SeqNum};
use std::collections::HashMap;
use vstd::prelude::*;

verus! {

#[derive(Debug, Clone, Copy, PartialEq, Eq, Structural)]
pub enum State {
    Follower,
    Candidate,
    Leader,
}

/// What only a leader keeps.  `T` is the handle through which a client is answered.
#[derive(Debug)]
pub struct LeaderState<T> {
    /// For each follower, the index of the entry to send next.
    pub next_index: HashMap<NodeId, u64>,
    /// For each follower, the index up to which its log is known to agree.
    pub match_index: HashMap<NodeId, u64>,
    /// The requests that wait for their entry to be committed.
    pub pending_clients: RequestTable<T>,
    /// The results of the requests that were carried out.
    pub client_results: RequestTable<CommandResult>,
    /// The last sequence number of each client, by the number of the client.
    pub last_seq_nums: HashMap<u64, SeqNum>,
    /// The id that was last given to a client.  Only a leader gives out ids.
    pub last_client_id: ClientId,
}

impl<T> View for LeaderState<T> {
    type V = LeaderView<T>;

    open spec fn view(&self) -> LeaderView<T> {
        LeaderView {
            next_index: self.next_index@,
            match_index: self.match_index@,
            pending_clients: self.pending_clients@,
            client_results: self.client_results@.map_values(|r: CommandResult| r@),
            last_seq_nums: self.last_seq_nums@,
            last_client_id: self.last_client_id,
        }
    }
}

/// A node of the cluster.
#[derive(Debug)]
pub struct RaftNode<T> {
    pub config: Config,
    pub state: State,
    pub current_term: u64,
    /// `None` if the node did not vote in `current_term`.
    pub voted_for: Option<NodeId>,
    pub log: Log,
    /// The index of the last committed entry.
    pub commit_index: u64,
    /// The index of the last entry that was applied to the state machine.
    pub last_applied: u64,
    /// `None` if the node does not lead.
    pub leader_state: Option<LeaderState<T>>,
    pub current_leader: Option<NodeId>,
}

impl<T> View for RaftNode<T> {
    type V = NodeView<T>;

    open spec fn view(&self) -> NodeView<T> {
        NodeView {
            config: self.config,
            state: self.state,
            current_term: self.current_term,
            voted_for: self.voted_for,
            log: self.log@,
            commit_index: self.commit_index,
            last_applied: self.last_applied,
            leader: match self.leader_state {
                Some(leader) => Some(leader@),
                None => None,
            },
            current_leader: self.current_leader,
        }
    }
}

} // verus!
