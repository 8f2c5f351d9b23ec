//! Terms, votes and leadership.

use crate::messages::{RequestVoteRequest, RequestVoteResponse};
use crate::model::{StorageOp, StorageOpView};
use crate::raft::{LeaderState, RaftNode, State};
use crate::table::RequestTable;
use crate::types::{ClientId, NodeId, SeqNum};
use std::collections::HashMap;
use vstd::prelude::*;

verus! {

broadcast use vstd::std_specs::hash::group_hash_axioms;

/// Draws a number between `min` and `max`, both included.
///
/// Calls `rand::random_range`.  Claimed of it: the number lies in the range.  Which
/// one it is, and how likely, is left open.  An empty range would make it panic.
#[verifier::external_body]
fn random_in_range(min: u64, max: u64) -> (r: u64)
    requires
        min <= max,
    ensures
        min <= r <= max,
{
    rand::random_range(min..=max)
}

/// What an election starts with: the request goes to every peer, and the vote of
/// the node for itself is saved.
#[derive(Debug)]
pub struct ElectionStart {
    pub request: RequestVoteRequest,
    pub save: StorageOp,
    /// The votes that the node has: its own.
    pub votes_granted: usize,
}

/// What a candidate does after the answer of a peer.
#[derive(Debug)]
pub enum VoteOutcome {
    /// The peer is in a later term: the node follows, once this is saved.
    SteppedDown { save: StorageOp },
    /// A majority is reached: the node is to become the leader.
    Elected,
    Waiting,
}

impl<T> RaftNode<T> {
    /// An election timeout in milliseconds, within the limits of the configuration.
    pub fn random_election_timeout(&self) -> (r: u64)
        requires
            self.config.election_timeout_min <= self.config.election_timeout_max,
        ensures
            self.config.election_timeout_min <= r <= self.config.election_timeout_max,
    {
        random_in_range(self.config.election_timeout_min, self.config.election_timeout_max)
    }

    /// Makes the node a follower in `term`.  The change has to be saved.
    pub fn become_follower(&mut self, term: u64) -> (save: StorageOp)
        ensures
            final(self)@ == old(self)@.step_down(term),
            save@ == (StorageOpView::SaveTerm { term, voted_for: final(self)@.voted_for }),
    {
        if term != self.current_term {
            self.voted_for = None;
        }
        self.current_term = term;
        self.state = State::Follower;
        self.leader_state = None;
        self.current_leader = None;
        StorageOp::SaveTerm { term: self.current_term, voted_for: self.voted_for }
    }

    /// The follower has not heard from a leader in time.
    pub fn election_timeout(&mut self)
        ensures
            final(self)@ == (crate::model::NodeView {
                current_leader: None,
                state: State::Candidate,
                ..old(self)@
            }),
    {
        self.current_leader = None;
        self.state = State::Candidate;
    }

    /// Starts an election in the next term.  The node votes for itself.
    pub fn start_new_election(&mut self) -> (r: ElectionStart)
        requires
            old(self).current_term < u64::MAX,
        ensures
            final(self)@ == old(self)@.start_election(),
            r.request == final(self)@.vote_request(),
            r.save@ == (StorageOpView::SaveTerm {
                term: final(self).current_term,
                voted_for: final(self).voted_for,
            }),
            r.votes_granted == 1,
    {
        self.current_term = self.current_term + 1;
        self.voted_for = Some(self.config.node_id);
        self.state = State::Candidate;
        let request = RequestVoteRequest {
            term: self.current_term,
            candidate_id: self.config.node_id,
            last_log_term: self.log.last_term(),
            last_log_index: self.log.last_index(),
        };
        ElectionStart {
            request,
            save: StorageOp::SaveTerm { term: self.current_term, voted_for: self.voted_for },
            votes_granted: 1,
        }
    }

    /// Enters the race for leadership.
    pub fn begin_candidacy(&mut self) -> (r: ElectionStart)
        requires
            old(self).current_term < u64::MAX,
        ensures
            final(self)@ == (crate::model::NodeView {
                current_leader: None,
                ..old(self)@.start_election()
            }),
            r.request == final(self)@.vote_request(),
            r.save@ == (StorageOpView::SaveTerm {
                term: final(self).current_term,
                voted_for: final(self).voted_for,
            }),
            r.votes_granted == 1,
    {
        self.current_leader = None;
        self.start_new_election()
    }

    /// Counts the answer of a peer.  `votes_granted` starts at what the election starts
    /// with.
    pub fn handle_vote_response(
        &mut self,
        resp: RequestVoteResponse,
        votes_granted: &mut usize,
    ) -> (r: VoteOutcome)
        requires
            resp.term <= old(self).current_term && resp.vote_granted && old(self).state is Candidate
                ==> *old(votes_granted) < usize::MAX,
        ensures
            resp.term > old(self).current_term ==> {
                &&& final(self)@ == old(self)@.step_down(resp.term)
                &&& *final(votes_granted) == *old(votes_granted)
                &&& r matches VoteOutcome::SteppedDown { save } && save@
                    == (StorageOpView::SaveTerm { term: resp.term, voted_for: None })
            },
            resp.term <= old(self).current_term ==> {
                let counted = resp.vote_granted && old(self).state is Candidate;
                &&& final(self)@ == old(self)@
                &&& *final(votes_granted) == *old(votes_granted) + if counted {
                    1int
                } else {
                    0
                }
                &&& r is Elected <==> counted && *final(votes_granted)
                    >= old(self).config.majority_view()
                &&& r is Waiting <==> !(r is Elected)
            },
    {
        if resp.term > self.current_term {
            return VoteOutcome::SteppedDown { save: self.become_follower(resp.term) };
        }
        if resp.vote_granted && self.state == State::Candidate {
            *votes_granted = *votes_granted + 1;
            if *votes_granted >= self.config.majority() {
                return VoteOutcome::Elected;
            }
        }
        VoteOutcome::Waiting
    }

    /// Makes the node the leader of its term.  `loaded` is what the storage has of the
    /// clients: the id given out last and the last sequence number of each.  New clients
    /// get ids above that one and above every id in the log.
    pub fn become_leader(&mut self, loaded: Result<(ClientId, HashMap<u64, SeqNum>), String>)
        requires
            old(self).config.peers@.len() > 0 ==> old(self)@.log.last_index() < u64::MAX,
        ensures
            final(self)@ == match loaded {
                Ok((last_client_id, last_seq_nums)) => old(self)@.become_leader(
                    last_client_id,
                    last_seq_nums@,
                ),
                Err(_) => old(self)@.become_leader(ClientId(0), Map::empty()),
            },
            forall|k: int|
                0 <= k < old(self)@.log.slots.len() ==> (
                #[trigger] old(self)@.log.slots[k]).client_id.0 <= (
                final(self)@.leader->0).last_client_id.0,
    {
        self.state = State::Leader;
        self.current_leader = Some(self.config.node_id);
        let mut next_index: HashMap<NodeId, u64> = HashMap::new();
        let mut match_index: HashMap<NodeId, u64> = HashMap::new();
        let last_index: u64 = self.log.last_index();
        let mut i: usize = 0;
        while i < self.config.peers.len()
            invariant
                i <= self.config.peers@.len(),
                self.config.peers@.len() > 0 ==> last_index < u64::MAX,
                forall|p: NodeId| #[trigger]
                    next_index@.contains_key(p) <==> self.config.peers@.take(i as int).contains(p),
                forall|p: NodeId| #[trigger]
                    next_index@.contains_key(p) ==> next_index@[p] == last_index + 1,
                forall|p: NodeId| #[trigger]
                    match_index@.contains_key(p) <==> self.config.peers@.take(i as int).contains(p),
                forall|p: NodeId| #[trigger]
                    match_index@.contains_key(p) ==> match_index@[p] == 0,
            decreases self.config.peers.len() - i,
        {
            let peer: NodeId = self.config.peers[i];
            next_index.insert(peer, last_index + 1);
            match_index.insert(peer, 0);
            proof {
                crate::table::lemma_take_contains(self.config.peers@, i as int);
            }
            i = i + 1;
        }
        let (last_client_id, last_seq_nums): (ClientId, HashMap<u64, SeqNum>) = match loaded {
            Ok(pair) => pair,
            Err(_) => (ClientId(0), HashMap::new()),
        };
        let highest: u64 = self.log.highest_client_id();
        let ghost loaded_id = last_client_id;
        let last_client_id: ClientId = if last_client_id.0 >= highest {
            last_client_id
        } else {
            ClientId(highest)
        };
        let leader = LeaderState {
            next_index,
            match_index,
            pending_clients: RequestTable::new(),
            client_results: RequestTable::new(),
            last_seq_nums,
            last_client_id,
        };
        proof {
            let peers = self.config.peers@;
            assert(peers.take(i as int) =~= peers);
            let expected = old(self)@.become_leader(loaded_id, last_seq_nums@).leader->0;
            assert(leader@.next_index =~= expected.next_index);
            assert(leader@.match_index =~= expected.match_index);
            assert(leader@.client_results =~= expected.client_results);
            let log = old(self)@.log;
            crate::log::EntryView::lemma_highest_id(log.slots, log.dropped_client_id);
        }
        self.leader_state = Some(leader);
    }

    /// Answers a request for the vote of the node.
    pub fn handle_request_vote(&mut self, req: RequestVoteRequest) -> (r: (
        RequestVoteResponse,
        Vec<StorageOp>,
    ))
        ensures
            final(self)@ == old(self)@.after_vote_request(req),
            r.0 == old(self)@.vote_response(req),
            StorageOpView::all(r.1@) == old(self)@.vote_ops(req),
    {
        let mut storage: Vec<StorageOp> = Vec::new();
        if req.term < self.current_term {
            assert(StorageOpView::all(storage@) =~= old(self)@.vote_ops(req));
            return (
                RequestVoteResponse { term: self.current_term, vote_granted: false },
                storage,
            );
        }
        if req.term > self.current_term {
            storage.push(self.become_follower(req.term));
        }
        let free: bool = match self.voted_for {
            None => true,
            Some(id) => id == req.candidate_id,
        };
        let our_last_index: u64 = self.log.last_index();
        let our_last_term: u64 = self.log.last_term();
        let vote_granted: bool = free && (req.last_log_term > our_last_term || (req.last_log_term
            == our_last_term && req.last_log_index >= our_last_index));
        if vote_granted {
            self.voted_for = Some(req.candidate_id);
            storage.push(
                StorageOp::SaveTerm { term: self.current_term, voted_for: self.voted_for },
            );
        }
        assert(StorageOpView::all(storage@) =~= old(self)@.vote_ops(req));
        (RequestVoteResponse { term: self.current_term, vote_granted }, storage)
    }
}

} // verus!
