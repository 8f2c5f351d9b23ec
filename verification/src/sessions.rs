//! Requests of clients, from registration to shutdown.

use crate::log::{EntryView, LogEntry};
use crate::model::{NodeView, StorageOp, StorageOpView};
use crate::raft::{RaftNode, State};
use crate::table::RequestTable;
use crate::types::{ClientId, ClientRequest, CommandResult, RaftCommand, ResultView, SeqNum};
use vstd::prelude::*;

verus! {

broadcast use vstd::std_specs::hash::group_hash_axioms;

/// What follows from the request of a client.
#[derive(Debug)]
pub enum ClientOutcome<T> {
    /// The client is answered at once.
    Answer { to: T, result: CommandResult },
    /// An entry was appended: once it is saved, it goes to the peers.
    Replicate { storage: Vec<StorageOp> },
}

impl<T> RaftNode<T> {
    /// The answer to a client by a node that does not lead.
    pub(crate) fn redirect(&self, unknown: &str) -> (r: CommandResult)
        ensures
            r@ == self@.redirect(unknown@),
    {
        match self.current_leader {
            Some(id) => CommandResult::Redirect(id),
            None => CommandResult::Error(unknown.to_string()),
        }
    }

    /// There is an index left for the entry, and an id for a new client.
    pub fn can_take_request(&self, req: &ClientRequest<T>) -> (r: bool)
        ensures
            r == self@.client_request_defined(req@),
    {
        let leader = match &self.leader_state {
            Some(leader) => leader,
            None => {
                return true;
            },
        };
        let done: bool = match leader.last_seq_nums.get(&req.client_id.0) {
            Some(last) => req.seq_num.0 <= last.0,
            None => false,
        };
        let received: bool = req.seq_num.0 <= req.last_received_seq.0;
        let known: bool = !received && leader.client_results.contains(req.client_id, req.seq_num);
        if done || known || leader.pending_clients.contains(req.client_id, req.seq_num) {
            return true;
        }
        let id_left: bool = match req.command {
            RaftCommand::RegisterClient => leader.last_client_id.0 < u64::MAX,
            RaftCommand::ClientCommand(_) => true,
        };
        self.log.last_index() < u64::MAX && id_left
    }

    /// Takes the request of a client.
    pub fn handle_client_request(&mut self, req: ClientRequest<T>) -> (r: ClientOutcome<T>)
        requires
            old(self)@.client_request_defined(req@),
        ensures
            final(self)@ == old(self)@.after_client_request(req@),
            match r {
                ClientOutcome::Answer { to, result } => {
                    &&& !(old(self)@.client_verdict(req@) is Append)
                    &&& to == req.response_tx
                    &&& result@ == old(self)@.client_answer(req@)
                },
                ClientOutcome::Replicate { storage } => {
                    &&& old(self)@.client_verdict(req@) is Append
                    &&& StorageOpView::all(storage@) == seq![
                        StorageOpView::AppendLog { entries: seq![old(self)@.entry_for(req@)] },
                    ]
                },
            },
    {
        if self.leader_state.is_none() {
            let result = self.redirect("Node is not a leader");
            return ClientOutcome::Answer { to: req.response_tx, result };
        }
        let ghost pruned = self@.forget_received(req.client_id, req.last_received_seq);
        let mut leader = self.leader_state.take().unwrap();
        leader.client_results.forget(req.client_id, req.last_received_seq);
        assert(leader@.client_results =~= pruned.leader->0.client_results);

        let known: Option<CommandResult> = match leader.client_results.get(
            req.client_id,
            req.seq_num,
        ) {
            Some(result) => Some(result.clone()),
            None => None,
        };
        if let Some(result) = known {
            self.leader_state = Some(leader);
            return ClientOutcome::Answer { to: req.response_tx, result };
        }
        let done: bool = match leader.last_seq_nums.get(&req.client_id.0) {
            Some(last) => req.seq_num.0 <= last.0,
            None => false,
        };
        if done {
            self.leader_state = Some(leader);
            let empty: Vec<u8> = Vec::new();
            return ClientOutcome::Answer {
                to: req.response_tx,
                result: CommandResult::Success(empty),
            };
        }
        if leader.pending_clients.contains(req.client_id, req.seq_num) {
            self.leader_state = Some(leader);
            return ClientOutcome::Answer {
                to: req.response_tx,
                result: CommandResult::Error(
                    "Duplicate request is already in progress".to_string(),
                ),
            };
        }
        let mut client_id: ClientId = req.client_id;
        let mut seq_num: SeqNum = req.seq_num;
        if let RaftCommand::RegisterClient = req.command {
            leader.last_client_id = ClientId::from_u64(leader.last_client_id.0 + 1);
            client_id = leader.last_client_id;
            seq_num = SeqNum::from_u64(0);
            leader.last_seq_nums.insert(client_id.0, seq_num);
        }
        let entry = LogEntry {
            term: self.current_term,
            index: self.log.last_index() + 1,
            command: req.command,
            client_id,
            seq_num,
        };
        let mut saved: Vec<LogEntry> = Vec::new();
        saved.push(entry.clone());
        let mut appended: Vec<LogEntry> = Vec::new();
        appended.push(entry);
        self.log.append(appended);
        leader.pending_clients.insert(client_id, seq_num, req.response_tx);
        self.leader_state = Some(leader);
        let mut storage: Vec<StorageOp> = Vec::new();
        storage.push(StorageOp::AppendLog { entries: saved });
        proof {
            let e = old(self)@.entry_for(req@);
            assert(EntryView::all(appended@) =~= seq![e]);
            assert(EntryView::all(saved@) =~= seq![e]);
            assert(StorageOpView::all(storage@) =~= seq![
                StorageOpView::AppendLog { entries: seq![e] },
            ]);
        }
        ClientOutcome::Replicate { storage }
    }

    /// The request by which a client registers at this node, or why there is none.
    pub fn register_client(&self, response_tx: T) -> (r: Result<ClientRequest<T>, CommandResult>)
        ensures
            r is Ok <==> self.state is Leader,
            r matches Ok(req) ==> req@ == (crate::types::ClientRequestView {
                client_id: ClientId(0),
                seq_num: SeqNum(0),
                last_received_seq: SeqNum(0),
                command: crate::types::CommandView::RegisterClient,
                response_tx,
            }),
            r matches Err(result) ==> result@ == self@.redirect(
                "Node is not a leader and current leader is unknown"@,
            ),
    {
        if self.state != State::Leader {
            return Err(self.redirect("Node is not a leader and current leader is unknown"));
        }
        Ok(
            ClientRequest {
                client_id: ClientId::from_u64(0),
                seq_num: SeqNum::from_u64(0),
                last_received_seq: SeqNum::from_u64(0),
                command: RaftCommand::RegisterClient,
                response_tx,
            },
        )
    }

    /// What the leader knows of its clients is worth saving.
    pub fn has_client_state(&self) -> (r: bool)
        ensures
            r == (self@.leader is Some && !self@.leader->0.last_seq_nums.is_empty()),
    {
        match &self.leader_state {
            Some(leader) => !leader.last_seq_nums.is_empty(),
            None => false,
        }
    }

    /// Shuts the node down.  Every client that waits gets an answer.
    ///
    /// What the leader knows of its clients and the term of the node are saved first,
    /// as far as the storage can.
    pub fn shutdown(&mut self) -> (r: Farewell<T>)
        ensures
            final(self)@ == (match old(self)@.leader {
                Some(leader) => NodeView {
                    leader: Some(
                        crate::model::LeaderView { pending_clients: Map::empty(), ..leader },
                    ),
                    ..old(self)@
                },
                None => old(self)@,
            }),
            r.save_client_state == (old(self)@.leader is Some
                && !old(self)@.leader->0.last_seq_nums.is_empty()),
            r.save_term@ == (StorageOpView::SaveTerm {
                term: old(self).current_term,
                voted_for: old(self).voted_for,
            }),
            r.result@ == ResultView::Error("Node is shutting down"@),
            match old(self)@.leader {
                Some(leader) => RequestTable::<T>::lists(r.waiting@, leader.pending_clients),
                None => r.waiting@.len() == 0,
            },
    {
        let save_client_state: bool = self.has_client_state();
        let save_term = StorageOp::SaveTerm {
            term: self.current_term,
            voted_for: self.voted_for,
        };
        let waiting: Vec<((ClientId, SeqNum), T)> = match self.leader_state.as_mut() {
            Some(leader) => leader.pending_clients.drain(),
            None => Vec::new(),
        };
        Farewell {
            save_client_state,
            save_term,
            waiting,
            result: CommandResult::Error("Node is shutting down".to_string()),
        }
    }
}

/// What is left to do when a node shuts down.
#[derive(Debug)]
pub struct Farewell<T> {
    pub save_client_state: bool,
    pub save_term: StorageOp,
    /// The clients that wait, each with its request.
    pub waiting: Vec<((ClientId, SeqNum), T)>,
    /// The answer to each of them.
    pub result: CommandResult,
}

/// The answer to a client that registers: what came back, if the request got through
/// to the node and was answered.
pub fn registration_result(sent: bool, reply: Option<CommandResult>) -> (r: CommandResult)
    ensures
        r@ == (if !sent {
            ResultView::Error("Node internal error or shutdown"@)
        } else {
            match reply {
                Some(result) => result@,
                None => ResultView::Error("Raft core dropped response channel"@),
            }
        }),
{
    if sent {
        match reply {
            Some(result) => result,
            None => CommandResult::Error("Raft core dropped response channel".to_string()),
        }
    } else {
        CommandResult::Error("Node internal error or shutdown".to_string())
    }
}

} // verus!
