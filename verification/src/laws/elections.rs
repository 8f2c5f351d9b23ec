//! What elections promise.

use crate::events::{EventView, StepView};
use crate::history::Move;
use crate::laws::logs;
use crate::messages::RequestVoteRequest;
use crate::model::{NodeView, StorageOpView};
use crate::types::{ClientId, Config, NodeId, SeqNum};
use vstd::prelude::*;

verus! {

/// Nothing but the term, the vote, the role, what goes with leading and the leader that the
/// node knows is another one.
pub open spec fn keeps_the_rest<T>(before: NodeView<T>, after: NodeView<T>) -> bool {
    &&& after.config == before.config
    &&& after.log == before.log
    &&& after.commit_index == before.commit_index
    &&& after.last_applied == before.last_applied
}

/// The node follows in `term`, which it was not in before: it has voted for nobody and knows
/// no leader.
pub open spec fn follows_anew<T>(before: NodeView<T>, after: NodeView<T>, term: u64) -> bool {
    &&& keeps_the_rest(before, after)
    &&& after.state is Follower
    &&& after.current_term == term
    &&& after.voted_for is None
    &&& after.leader is None
    &&& after.current_leader is None
}

impl<T> NodeView<T> {
    /// A node votes for a candidate of a later term, or of its own if it has voted for nobody
    /// else in it, whose log ends in a later term than its own, or in the same term and not
    /// before it.  It votes for no other.  So it is in every role.
    pub proof fn who_gets_the_vote(self, req: RequestVoteRequest)
        ensures
            ({
                let free = req.term > self.current_term || (req.term == self.current_term && (
                self.voted_for is None || self.voted_for == Some(req.candidate_id)));
                let recent = req.last_log_term > logs::end_term(self.log) || (req.last_log_term
                    == logs::end_term(self.log) && req.last_log_index >= logs::end(self.log));
                let event = EventView::<T>::VoteRequestReceived(req);
                let after = self.after_event(event);
                let reaction = self.reaction(event);
                &&& self.event_defined(event)
                &&& reaction.step matches StepView::Vote { storage, vote } && {
                    &&& vote.vote_granted <==> free && recent
                    &&& vote.term >= self.current_term && vote.term >= req.term
                    &&& vote.term == self.current_term || vote.term == req.term
                    // the vote is saved before it is given
                    &&& free && recent ==> storage.len() > 0 && storage[storage.len() - 1]
                        == (StorageOpView::SaveTerm {
                        term: req.term,
                        voted_for: Some(req.candidate_id),
                    })
                    &&& req.term > self.current_term ==> storage.len() > 0 && storage[0]
                        == (StorageOpView::SaveTerm { term: req.term, voted_for: None })
                    &&& storage.len() == (if req.term > self.current_term {
                        1int
                    } else {
                        0
                    }) + (if free && recent {
                        1int
                    } else {
                        0
                    })
                }
                &&& free && recent ==> after.voted_for == Some(req.candidate_id)
                    && after.current_term == req.term
                &&& req.term > self.current_term ==> {
                    &&& after.state is Follower
                    &&& after.current_term == req.term
                    &&& after.leader is None
                    &&& after.current_leader is None
                    &&& !recent ==> after.voted_for is None
                }
                &&& req.term <= self.current_term ==> {
                    &&& after.state == self.state
                    &&& after.current_term == self.current_term
                    &&& after.leader == self.leader
                    &&& !(free && recent) ==> after.voted_for == self.voted_for
                    &&& after.current_leader == self.current_leader
                }
                &&& keeps_the_rest(self, after)
                // a follower that has voted waits anew; another role ends with its term
                &&& reaction.reset_timer <==> self.state is Follower && free && recent
                &&& reaction.leave <==> !(self.state is Follower) && req.term > self.current_term
            }),
    {
    }

    /// The same, whoever asks the node for its vote.
    pub proof fn vote_is_the_same_in_every_role(self, req: RequestVoteRequest)
        ensures
            ({
                let event = EventView::<T>::VoteRequestReceived(req);
                &&& self.reaction(event).step == (StepView::<T>::Vote {
                    storage: self.vote_ops(req),
                    vote: self.vote_response(req),
                })
                &&& self.after_vote_request(req).voted_for == self.after_event(event).voted_for
                &&& self.after_vote_request(req).current_term == self.after_event(
                    event,
                ).current_term
                &&& self.after_vote_request(req).state == self.after_event(event).state
                &&& self.after_vote_request(req).leader == self.after_event(event).leader
                &&& keeps_the_rest(self, self.after_vote_request(req))
                &&& self.after_vote_request(req).current_leader == self.after_event(
                    event,
                ).current_leader
            }),
    {
    }

    /// A node that steps down keeps its vote within its term, and has none in another one.
    pub proof fn stepping_down(self, term: u64)
        ensures
            term != self.current_term ==> follows_anew(self, self.step_down(term), term),
            term == self.current_term ==> {
                &&& keeps_the_rest(self, self.step_down(term))
                &&& self.step_down(term).state is Follower
                &&& self.step_down(term).current_term == term
                &&& self.step_down(term).voted_for == self.voted_for
                &&& self.step_down(term).leader is None
                &&& self.step_down(term).current_leader is None
            },
    {
    }

    /// A candidate runs in the next term, votes for itself, and tells where its log ends.
    pub proof fn running_for_leadership(self)
        requires
            self.current_term < u64::MAX,
        ensures
            ({
                let after = self.start_election();
                &&& keeps_the_rest(self, after)
                &&& after.current_term == self.current_term + 1
                &&& after.voted_for == Some(self.config.node_id)
                &&& after.state is Candidate
                &&& after.leader == self.leader
                &&& after.current_leader == self.current_leader
                &&& after.vote_request().term == self.current_term + 1
                &&& after.vote_request().candidate_id == self.config.node_id
                &&& after.vote_request().last_log_term == logs::end_term(self.log)
                &&& after.vote_request().last_log_index == logs::end(self.log)
            }),
    {
    }

    /// A new leader supposes that each of its peers has its whole log and knows of none that
    /// it has; nobody waits and no result is known.  It goes on from the highest id that its
    /// storage or its log knows, and from the numbers in its storage.
    pub proof fn leading_begins(self, last_client_id: ClientId, last_seq_nums: Map<u64, SeqNum>)
        requires
            self.config.peers@.len() > 0 ==> logs::end(self.log) < u64::MAX,
        ensures
            ({
                let after = self.become_leader(last_client_id, last_seq_nums);
                let leader = after.leader->0;
                &&& keeps_the_rest(self, after)
                &&& after.current_term == self.current_term
                &&& after.voted_for == self.voted_for
                &&& after.state is Leader
                &&& after.current_leader == Some(self.config.node_id)
                &&& after.leader is Some
                &&& forall|p: NodeId| #[trigger]
                    leader.next_index.contains_key(p) <==> self.config.peers@.contains(p)
                &&& forall|p: NodeId| #[trigger]
                    leader.match_index.contains_key(p) <==> self.config.peers@.contains(p)
                &&& forall|p: NodeId|
                    self.config.peers@.contains(p) ==> #[trigger] leader.next_index[p] == logs::end(
                        self.log,
                    ) + 1
                &&& forall|p: NodeId|
                    self.config.peers@.contains(p) ==> #[trigger] leader.match_index[p] == 0
                &&& leader.pending_clients.dom().is_empty()
                &&& leader.client_results.dom().is_empty()
                &&& leader.last_seq_nums == last_seq_nums
                &&& leader.last_client_id.0 >= last_client_id.0
                &&& forall|k: int|
                    0 <= k < self.log.slots.len() ==> leader.last_client_id.0 >= (
                    #[trigger] self.log.slots[k]).client_id.0
                &&& leader.last_client_id.0 > last_client_id.0 ==> logs::is_highest_id(
                    self.log,
                    leader.last_client_id.0,
                )
            }),
    {
        self.log.highest_id_is_found();
    }

    /// A candidate is made to follow by a later term.
    pub proof fn later_term_ends_a_candidacy(self, term: u64)
        requires
            term > self.current_term,
        ensures
            follows_anew(self, self.after_move(Move::LaterTerm { term }), term),
    {
    }

    /// A node that waits in vain for a leader runs for leadership; nothing else changes.
    pub proof fn waiting_in_vain(self)
        ensures
            ({
                let after = self.after_move(Move::TimedOut);
                &&& keeps_the_rest(self, after)
                &&& after.state is Candidate
                &&& after.current_leader is None
                &&& after.current_term == self.current_term
                &&& after.voted_for == self.voted_for
                &&& after.leader == self.leader
            }),
    {
    }
}

/// More than half of the nodes, the one that counts among them, make a majority, and no
/// fewer would.
pub proof fn majority_is_more_than_half(config: Config)
    ensures
        config.majority_view() == (config.peers@.len() + 1) / 2 + 1,
        2 * config.majority_view() > config.peers@.len() + 1,
        2 * (config.majority_view() - 1) <= config.peers@.len() + 1,
        Config::majority_of(config.peers@.len()) == config.majority_view(),
{
}

} // verus!
