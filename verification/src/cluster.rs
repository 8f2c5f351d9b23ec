//! A whole cluster: what its nodes do to each other, and why a term has one leader.

use crate::events::EventView;
use crate::history::Move;
use crate::log::{EntryView, LogView};
use crate::messages::{AppendEntriesView, InstallSnapshotView, RequestVoteRequest};
use crate::model::{FollowerMessageView, NodeView, SnapshotOffer};
use crate::raft::State;
use crate::types::{ClientId, NodeId, SeqNum};
use vstd::prelude::*;

verus! {

/// A vote that a node gave in answer to a request.
pub struct Grant {
    pub term: u64,
    pub voter: NodeId,
    pub candidate: NodeId,
}

/// The word of a node to the leader of a term that it holds the log up to `index`.
pub struct Ack {
    pub term: u64,
    pub follower: NodeId,
    pub index: u64,
}

/// The nodes of a cluster, with a record of what went on between them.
pub struct ClusterView<T> {
    pub nodes: Map<NodeId, NodeView<T>>,
    /// Every vote that was given.
    pub grants: Set<Grant>,
    /// Who has led in which term, and whose votes made it so.
    pub leaders: Map<(u64, NodeId), Set<NodeId>>,
    /// Every request for votes that was sent.
    pub requests: Set<RequestVoteRequest>,
    /// Every request with entries that a leader has sent.
    pub sent: Set<AppendEntriesView>,
    /// Every snapshot that a leader has sent.
    pub offers: Set<SnapshotOffer>,
    /// Every request with entries and every snapshot that was answered with success.
    pub acks: Set<Ack>,
    /// What the history of a node was when it last gave its vote in a term.
    pub vote_logs: Map<(u64, NodeId), Map<int, EntryView>>,
    /// The log of each node by index, with the entries that a snapshot has taken in.
    pub histories: Map<NodeId, Map<int, EntryView>>,
    /// The log of the leader of each term, by index, as far as it came while it led.
    pub term_logs: Map<u64, Map<int, EntryView>>,
}

/// One step of a cluster.
pub enum ClusterStep<T> {
    /// A node makes a move that needs no other node.
    Act { node: NodeId, m: Move<T> },
    /// A follower has not heard from a leader in time and runs for leadership.
    Campaign { node: NodeId },
    /// A candidate has the votes of `voters` in its term and becomes the leader.
    Win {
        node: NodeId,
        voters: Set<NodeId>,
        last_client_id: ClientId,
        last_seq_nums: Map<u64, SeqNum>,
    },
    /// A leader sends its entries or its snapshot to a follower.
    Send { node: NodeId, follower: NodeId },
    /// A node stops and starts again from its storage, which has a snapshot of this index
    /// and term, or none where both are zero.
    Restart { node: NodeId, index: u64, term: u64 },
}

impl<T> NodeView<T> {
    /// The node after it has stopped and started again from its storage, which has a
    /// snapshot of this index and term.
    ///
    /// It has the log that it had, without the entries that the snapshot has taken in.  That
    /// is so where the storage carries its operations out as
    /// [`StorageView::after`](crate::storage::StorageView::after) says: see
    /// `restart_is_recovery` and `storage_has_the_nodes` there.
    pub open spec fn restarted(self, index: u64, term: u64) -> NodeView<T> {
        let log = self.log.compact(index, term);
        NodeView {
            state: State::Follower,
            log: LogView { dropped_client_id: 0, ..log },
            commit_index: log.snapshot_index,
            last_applied: log.snapshot_index,
            leader: None,
            current_leader: None,
            ..self
        }
    }

    /// The follower as a candidate in the next term.
    pub open spec fn campaigning(self) -> NodeView<T> {
        self.after_move(Move::TimedOut).after_move(Move::Candidacy)
    }
}

impl InstallSnapshotView {
    /// What the request says of the snapshot, without the data.
    pub open spec fn offer(self) -> SnapshotOffer {
        SnapshotOffer {
            term: self.term,
            leader_id: self.leader_id,
            last_included_index: self.last_included_index,
            last_included_term: self.last_included_term,
        }
    }
}

/// The entries by index, once the log has become `log`: what was there before a change
/// stays where the log does not reach any more, what the log has takes its place.
pub open spec fn updated_history(before: Map<int, EntryView>, log: LogView) -> Map<int, EntryView> {
    Map::new(
        |i: int| 0 < i <= log.last_index() && (log.entry_at(i) is Some || before.contains_key(i)),
        |i: int|
            match log.entry_at(i) {
                Some(e) => e,
                None => before[i],
            },
    )
}

impl<T> ClusterView<T> {
    /// The nodes make one cluster: each has its own id, and all others as its peers.
    pub open spec fn formed(self) -> bool {
        &&& self.nodes.dom().finite()
        &&& self.histories.dom() == self.nodes.dom()
        &&& forall|i: NodeId| #[trigger]
            self.nodes.contains_key(i) ==> {
                &&& self.nodes[i].config.node_id == i
                &&& self.nodes[i].config.peers@.len() + 1 == self.nodes.dom().len()
            }
    }

    /// A cluster in which nothing has happened yet.
    pub open spec fn fresh(self) -> bool {
        &&& self.formed()
        &&& self.grants.is_empty()
        &&& self.leaders.dom().is_empty()
        &&& self.requests.is_empty()
        &&& self.sent.is_empty()
        &&& self.offers.is_empty()
        &&& self.acks.is_empty()
        &&& self.term_logs.dom().is_empty()
        &&& forall|i: NodeId| #[trigger]
            self.nodes.contains_key(i) ==> {
                &&& self.nodes[i].state is Follower
                &&& self.nodes[i].leader is None
            }
    }

    /// The move of the node can come about: requests and snapshots are those that another
    /// node has sent.
    pub open spec fn arrives(self, node: NodeId, m: Move<T>) -> bool {
        match m {
            Move::Event { event: EventView::VoteRequestReceived(req), .. } => {
                self.requests.contains(req)
            },
            Move::Event { event: EventView::AppendEntriesReceived(req), .. } => {
                self.sent.contains(req) && req.leader_id != node
            },
            Move::Event { event: EventView::InstallSnapshotReceived(req), .. } => {
                self.offers.contains(req.offer()) && req.leader_id != node
            },
            Move::Installed { req } => self.offers.contains(req.offer()) && req.leader_id != node,
            _ => true,
        }
    }

    /// The step can be taken.
    pub open spec fn can_step(self, step: ClusterStep<T>) -> bool {
        match step {
            ClusterStep::Act { node, m } => {
                &&& self.nodes.contains_key(node)
                &&& self.nodes[node].possible(m)
                &&& self.arrives(node, m)
                &&& !(m is TimedOut) && !(m is Candidacy) && !(m is Victory)
            },
            ClusterStep::Campaign { node } => {
                &&& self.nodes.contains_key(node)
                &&& self.nodes[node].state is Follower
                &&& self.nodes[node].current_term < u64::MAX
            },
            ClusterStep::Win { node, voters, .. } => {
                &&& self.nodes.contains_key(node)
                &&& self.nodes[node].state is Candidate
                &&& self.nodes[node].log.last_index() < u64::MAX
                &&& voters.subset_of(self.nodes.dom())
                &&& !voters.contains(node)
                &&& forall|v: NodeId| #[trigger]
                    voters.contains(v) ==> self.grants.contains(
                        Grant {
                            term: self.nodes[node].current_term,
                            voter: v,
                            candidate: node,
                        },
                    )
                &&& voters.len() + 1 >= self.nodes[node].config.majority_view()
            },
            ClusterStep::Send { node, follower } => {
                &&& self.nodes.contains_key(node)
                &&& self.nodes[node].state is Leader
                &&& self.nodes[node].message_defined(follower)
            },
            ClusterStep::Restart { node, index, term } => {
                &&& self.nodes.contains_key(node)
                &&& self.nodes[node].log.can_start_from(index, term)
            },
        }
    }

    /// The vote that the node gives with the move.
    pub open spec fn granted(self, node: NodeId, m: Move<T>) -> Set<Grant> {
        match m {
            Move::Event { event: EventView::VoteRequestReceived(req), .. } => {
                if self.nodes[node].grants_vote(req) {
                    set![
                        Grant { term: req.term, voter: node, candidate: req.candidate_id },
                    ]
                } else {
                    Set::empty()
                }
            },
            _ => Set::empty(),
        }
    }

    /// The success that the node reports with the move.
    pub open spec fn acked(self, node: NodeId, m: Move<T>) -> Set<Ack> {
        match m {
            Move::Event { event: EventView::AppendEntriesReceived(req), .. } => {
                if !(self.nodes[node].state is Leader) && self.nodes[node].append_response(
                    req,
                ).success {
                    set![
                        Ack {
                            term: req.term,
                            follower: node,
                            index: (req.prev_log_index + req.entries.len()) as u64,
                        },
                    ]
                } else {
                    Set::empty()
                }
            },
            Move::Installed { req } => set![
                Ack { term: req.term, follower: node, index: req.last_included_index },
            ],
            _ => Set::empty(),
        }
    }

    /// The request for votes that the node sends with the move.
    pub open spec fn asked(self, node: NodeId, m: Move<T>) -> Set<RequestVoteRequest> {
        if m is Election {
            set![self.nodes[node].after_move(m).vote_request()]
        } else {
            Set::empty()
        }
    }

    /// The entries from which the history of the node goes on with the move.  They are its
    /// own, or those of the leader whose snapshot goes beyond them.
    pub open spec fn base_history(self, node: NodeId, m: Move<T>) -> Map<int, EntryView> {
        match m {
            Move::Installed { req } => {
                if req.last_included_index > self.nodes[node].log.last_index() {
                    self.term_logs[req.term]
                } else {
                    self.histories[node]
                }
            },
            _ => self.histories[node],
        }
    }

    /// The cluster with another state of one node.
    pub open spec fn with_node(self, node: NodeId, next: NodeView<T>) -> ClusterView<T> {
        self.with_history(node, next, self.histories[node])
    }

    /// The cluster with another state of one node, whose history goes on from `base`.  What
    /// a leader has is the log of its term.
    pub open spec fn with_history(
        self,
        node: NodeId,
        next: NodeView<T>,
        base: Map<int, EntryView>,
    ) -> ClusterView<T> {
        let history = updated_history(base, next.log);
        ClusterView {
            nodes: self.nodes.insert(node, next),
            histories: self.histories.insert(node, history),
            term_logs: if next.state is Leader {
                self.term_logs.insert(next.current_term, history)
            } else {
                self.term_logs
            },
            ..self
        }
    }

    pub open spec fn after_step(self, step: ClusterStep<T>) -> ClusterView<T> {
        match step {
            ClusterStep::Act { node, m } => {
                ClusterView {
                    grants: self.grants.union(self.granted(node, m)),
                    acks: self.acks.union(self.acked(node, m)),
                    requests: self.requests.union(self.asked(node, m)),
                    vote_logs: if self.granted(node, m).is_empty() {
                        self.vote_logs
                    } else {
                        self.vote_logs.insert(
                            (self.nodes[node].after_move(m).current_term, node),
                            self.histories[node],
                        )
                    },
                    ..self.with_history(
                        node,
                        self.nodes[node].after_move(m),
                        self.base_history(node, m),
                    )
                }
            },
            ClusterStep::Campaign { node } => {
                ClusterView {
                    requests: self.requests.insert(
                        self.nodes[node].campaigning().vote_request(),
                    ),
                    ..self.with_node(node, self.nodes[node].campaigning())
                }
            },
            ClusterStep::Win { node, voters, last_client_id, last_seq_nums } => {
                ClusterView {
                    leaders: self.leaders.insert((self.nodes[node].current_term, node), voters),
                    ..self.with_node(
                        node,
                        self.nodes[node].become_leader(last_client_id, last_seq_nums),
                    )
                }
            },
            ClusterStep::Send { node, follower } => match self.nodes[node].message_for(follower) {
                FollowerMessageView::AppendEntries { request, .. } => ClusterView {
                    sent: self.sent.insert(request),
                    ..self
                },
                FollowerMessageView::InstallSnapshot { offer } => ClusterView {
                    offers: self.offers.insert(offer),
                    ..self
                },
            },
            ClusterStep::Restart { node, index, term } => self.with_node(
                node,
                self.nodes[node].restarted(index, term),
            ),
        }
    }

    pub open spec fn after_steps(self, steps: Seq<ClusterStep<T>>) -> ClusterView<T>
        decreases steps.len(),
    {
        if steps.len() == 0 {
            self
        } else {
            self.after_steps(steps.drop_last()).after_step(steps.last())
        }
    }

    /// Each of the steps can be taken when its turn comes.
    pub open spec fn can_take(self, steps: Seq<ClusterStep<T>>) -> bool
        decreases steps.len(),
    {
        steps.len() > 0 ==> {
            &&& self.can_take(steps.drop_last())
            &&& self.after_steps(steps.drop_last()).can_step(steps.last())
        }
    }
}

// ---- one leader per term ----

impl<T> ClusterView<T> {
    /// Votes and leaders are in order.
    pub open spec fn votes_in_order(self) -> bool {
        &&& self.formed()
        // who votes for another stays with it for the rest of the term
        &&& forall|g: Grant| #[trigger]
            self.grants.contains(g) ==> self.nodes.contains_key(g.voter) && (g.voter != g.candidate
                ==> self.nodes[g.voter].is_bound(g.term, g.candidate) && !(
            self.nodes[g.voter].current_term == g.term && !(
            self.nodes[g.voter].state is Follower)))
        // nobody votes for two others in one term
        &&& forall|g: Grant, h: Grant| #[trigger]
            self.grants.contains(g) && #[trigger] self.grants.contains(h) && g.term == h.term
                && g.voter == h.voter && g.voter != g.candidate && h.voter != h.candidate
                ==> g.candidate == h.candidate
        // a candidate votes for itself
        &&& forall|i: NodeId| #[trigger]
            self.nodes.contains_key(i) && self.nodes[i].state is Candidate
                ==> self.nodes[i].voted_for == Some(i)
        // a leader stays with its own vote, had a majority, and voted for nobody else
        &&& forall|l: (u64, NodeId)| #[trigger]
            self.leaders.contains_key(l) ==> {
                &&& self.nodes.contains_key(l.1)
                &&& self.nodes[l.1].is_bound(l.0, l.1)
                &&& !(self.nodes[l.1].current_term == l.0 && self.nodes[l.1].state is Candidate)
                &&& self.is_backed(l)
            }
        &&& forall|l: (u64, NodeId), g: Grant| #[trigger]
            self.leaders.contains_key(l) && #[trigger] self.grants.contains(g) && g.term == l.0
                && g.voter == l.1 ==> g.candidate == l.1
        // who leads is on record
        &&& forall|i: NodeId| #[trigger]
            self.nodes.contains_key(i) && self.nodes[i].state is Leader
                ==> self.leaders.contains_key((self.nodes[i].current_term, i))
    }

    /// The votes on record make a majority with that of the leader itself.
    pub open spec fn is_backed(self, l: (u64, NodeId)) -> bool {
        let voters = self.leaders[l];
        &&& voters.subset_of(self.nodes.dom())
        &&& !voters.contains(l.1)
        &&& forall|v: NodeId| #[trigger]
            voters.contains(v) ==> self.grants.contains(
                Grant { term: l.0, voter: v, candidate: l.1 },
            )
        &&& voters.len() + 1 >= self.nodes[l.1].config.majority_view()
    }

    /// A term has at most one leader.
    pub proof fn one_leader_per_term(self, term: u64, a: NodeId, b: NodeId)
        requires
            self.votes_in_order(),
            self.leaders.contains_key((term, a)),
            self.leaders.contains_key((term, b)),
        ensures
            a == b,
    {
        let members = self.nodes.dom();
        let for_a = self.leaders[(term, a)];
        let for_b = self.leaders[(term, b)];
        assert(self.is_backed((term, a)) && self.is_backed((term, b)));
        vstd::set_lib::lemma_len_subset(for_a, members);
        vstd::set_lib::lemma_len_subset(for_b, members);
        assert(self.nodes.contains_key(a) && self.nodes.contains_key(b));
        crate::quorum::majorities_meet(members, for_a.insert(a), for_b.insert(b));
        let both = choose|node: NodeId| #[trigger]
            for_a.insert(a).contains(node) && for_b.insert(b).contains(node);
        if a != b {
            if for_a.contains(both) && for_b.contains(both) {
                assert(self.grants.contains(Grant { term, voter: both, candidate: a }));
                assert(self.grants.contains(Grant { term, voter: both, candidate: b }));
            } else if for_a.contains(both) {
                assert(self.grants.contains(Grant { term, voter: b, candidate: a }));
            } else {
                assert(self.grants.contains(Grant { term, voter: a, candidate: b }));
            }
        }
    }
}

impl<T> NodeView<T> {
    /// In `term` the node stays with its vote for `candidate`, if it is still in it.
    pub open spec fn is_bound(self, term: u64, candidate: NodeId) -> bool {
        ||| self.current_term > term
        ||| self.current_term == term && self.voted_for == Some(candidate)
    }

    /// What one move of a node does to its term, its role and its vote.
    pub(crate) proof fn lemma_move_and_vote(self, m: Move<T>)
        requires
            self.possible(m),
            !(m is TimedOut) && !(m is Candidacy) && !(m is Victory),
        ensures
            self.after_move(m).config == self.config,
            self.after_move(m).current_term >= self.current_term,
            self.after_move(m).state is Leader ==> self.state is Leader
                && self.after_move(m).current_term == self.current_term,
            self.after_move(m).state is Candidate ==> self.state is Candidate && (self.voted_for
                == Some(self.config.node_id) ==> self.after_move(m).voted_for == self.voted_for),
            self.after_move(m).current_term == self.current_term && !(self.state is Candidate)
                ==> self.after_move(m).state == self.state && (self.voted_for is Some
                ==> self.after_move(m).voted_for == self.voted_for),
    {
    }
}

impl<T> ClusterView<T> {
    #[verifier::rlimit(40)]
    proof fn lemma_act_keeps_votes_in_order(self, node: NodeId, m: Move<T>)
        requires
            self.votes_in_order(),
            self.can_step(ClusterStep::Act { node, m }),
        ensures
            self.after_step(ClusterStep::Act { node, m }).votes_in_order(),
    {
        let n = self.nodes[node];
        let next = n.after_move(m);
        n.lemma_move_and_vote(m);
        let after = self.after_step(ClusterStep::Act { node, m });
        assert(after.nodes.dom() =~= self.nodes.dom());
        assert(after.histories.dom() =~= self.histories.dom());
        assert forall|g: Grant| #[trigger] after.grants.contains(g) implies after.nodes.contains_key(
            g.voter,
        ) && (g.voter != g.candidate ==> after.nodes[g.voter].is_bound(g.term, g.candidate) && !(
        after.nodes[g.voter].current_term == g.term && !(
        after.nodes[g.voter].state is Follower))) by {
            if !self.grants.contains(g) {
                assert(self.granted(node, m).contains(g));
            }
        }
        assert forall|g: Grant, h: Grant| #[trigger]
            after.grants.contains(g) && #[trigger] after.grants.contains(h) && g.term == h.term
                && g.voter == h.voter && g.voter != g.candidate && h.voter
                != h.candidate implies g.candidate == h.candidate by {
            if self.grants.contains(g) && !self.grants.contains(h) {
                assert(self.granted(node, m).contains(h));
            } else if !self.grants.contains(g) && self.grants.contains(h) {
                assert(self.granted(node, m).contains(g));
            }
        }
        assert forall|l: (u64, NodeId)| #[trigger] after.leaders.contains_key(l) implies {
            &&& after.nodes.contains_key(l.1)
            &&& after.nodes[l.1].is_bound(l.0, l.1)
            &&& !(after.nodes[l.1].current_term == l.0 && after.nodes[l.1].state is Candidate)
            &&& after.is_backed(l)
        } by {
            assert(self.leaders.contains_key(l));
            assert(self.is_backed(l));
            let voters = self.leaders[l];
            assert forall|v: NodeId| #[trigger] voters.contains(v) implies after.grants.contains(
                Grant { term: l.0, voter: v, candidate: l.1 },
            ) by {}
        }
        assert forall|l: (u64, NodeId), g: Grant| #[trigger]
            after.leaders.contains_key(l) && #[trigger] after.grants.contains(g) && g.term == l.0
                && g.voter == l.1 implies g.candidate == l.1 by {
            assert(self.leaders.contains_key(l));
            if !self.grants.contains(g) {
                assert(self.granted(node, m).contains(g));
            }
        }
    }

    #[verifier::rlimit(40)]
    pub(crate) proof fn lemma_step_keeps_votes_in_order(self, step: ClusterStep<T>)
        requires
            self.votes_in_order(),
            self.can_step(step),
        ensures
            self.after_step(step).votes_in_order(),
    {
        let after = self.after_step(step);
        match step {
            ClusterStep::Act { node, m } => {
                self.lemma_act_keeps_votes_in_order(node, m);
            },
            ClusterStep::Win { node, voters, .. } => {
                let term = self.nodes[node].current_term;
                assert(after.nodes.dom() =~= self.nodes.dom());
                assert(after.histories.dom() =~= self.histories.dom());
                assert forall|l: (u64, NodeId)| #[trigger] after.leaders.contains_key(l) implies {
                    &&& after.nodes.contains_key(l.1)
                    &&& after.nodes[l.1].is_bound(l.0, l.1)
                    &&& !(after.nodes[l.1].current_term == l.0
                        && after.nodes[l.1].state is Candidate)
                    &&& after.is_backed(l)
                } by {
                    if l != (term, node) {
                        assert(self.leaders.contains_key(l));
                        assert(self.is_backed(l));
                    }
                }
                assert forall|l: (u64, NodeId), g: Grant| #[trigger]
                    after.leaders.contains_key(l) && #[trigger] after.grants.contains(g) && g.term
                        == l.0 && g.voter == l.1 implies g.candidate == l.1 by {
                    if l != (term, node) {
                        assert(self.leaders.contains_key(l));
                    }
                }
            },
            ClusterStep::Campaign { node } => {
                assert(after.nodes.dom() =~= self.nodes.dom());
                assert(after.histories.dom() =~= self.histories.dom());
                self.lemma_same_record(after, node);
            },
            ClusterStep::Restart { node, .. } => {
                assert(after.nodes.dom() =~= self.nodes.dom());
                assert(after.histories.dom() =~= self.histories.dom());
                self.lemma_same_record(after, node);
            },
            ClusterStep::Send { .. } => {
                assert forall|l: (u64, NodeId)| #[trigger] after.leaders.contains_key(l)
                    implies after.is_backed(l) by {
                    assert(self.leaders.contains_key(l));
                    assert(self.is_backed(l));
                }
            },
        }
    }

    /// A leader that had its majority before has it after a step that leaves the record of
    /// votes and leaders alone.
    proof fn lemma_same_record(self, after: ClusterView<T>, node: NodeId)
        requires
            self.votes_in_order(),
            self.nodes.contains_key(node),
            after.nodes.dom() == self.nodes.dom(),
            after.nodes == self.nodes.insert(node, after.nodes[node]),
            after.nodes[node].config == self.nodes[node].config,
            after.grants == self.grants,
            after.leaders == self.leaders,
        ensures
            forall|l: (u64, NodeId)| #[trigger]
                after.leaders.contains_key(l) ==> after.nodes.contains_key(l.1) && after.is_backed(l),
    {
        assert forall|l: (u64, NodeId)| #[trigger]
            after.leaders.contains_key(l) implies after.nodes.contains_key(l.1) && after.is_backed(
            l,
        ) by {
            assert(self.leaders.contains_key(l));
            assert(self.is_backed(l));
        }
    }

    /// Whatever the steps of a cluster in which nothing has happened yet, votes and leaders
    /// are in order.
    pub proof fn votes_stay_in_order(self, steps: Seq<ClusterStep<T>>)
        requires
            self.fresh(),
            self.can_take(steps),
        ensures
            self.after_steps(steps).votes_in_order(),
        decreases steps.len(),
    {
        if steps.len() > 0 {
            self.votes_stay_in_order(steps.drop_last());
            self.after_steps(steps.drop_last()).lemma_step_keeps_votes_in_order(steps.last());
        }
    }

    /// Whatever the steps of the cluster, no term ever has two leaders: neither one after
    /// the other nor at the same time.
    pub proof fn election_safety(self, steps: Seq<ClusterStep<T>>, term: u64, a: NodeId, b: NodeId)
        requires
            self.fresh(),
            self.can_take(steps),
        ensures
            ({
                let now = self.after_steps(steps);
                &&& now.leaders.contains_key((term, a)) && now.leaders.contains_key((term, b))
                    ==> a == b
                &&& now.nodes.contains_key(a) && now.nodes.contains_key(b)
                    && now.nodes[a].state is Leader && now.nodes[b].state is Leader
                    && now.nodes[a].current_term == now.nodes[b].current_term ==> a == b
            }),
    {
        let now = self.after_steps(steps);
        self.votes_stay_in_order(steps);
        if now.leaders.contains_key((term, a)) && now.leaders.contains_key((term, b)) {
            now.one_leader_per_term(term, a, b);
        }
        if now.nodes.contains_key(a) && now.nodes.contains_key(b) && now.nodes[a].state is Leader
            && now.nodes[b].state is Leader && now.nodes[a].current_term
            == now.nodes[b].current_term {
            now.one_leader_per_term(now.nodes[a].current_term, a, b);
        }
    }
}

} // verus!
