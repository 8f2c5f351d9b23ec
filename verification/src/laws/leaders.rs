//! What a leader promises to its followers.

use crate::events::{EventView, StepView};
use crate::laws::{elections, logs};
use crate::messages::{AppendEntriesResponse, InstallSnapshotResponse};
use crate::model::{FollowerMessageView, LeaderView, NodeView, StorageOpView};
use crate::raft::State;
use crate::types::NodeId;
use vstd::prelude::*;

verus! {

/// How many followers are known to hold the log up to `index`.
pub open spec fn holders(known: Map<NodeId, u64>, index: int) -> nat {
    known.dom().filter(|p: NodeId| known[p] >= index).len()
}

/// The leader and the followers that are known to hold the log up to `index` are more than
/// half of the cluster.
pub open spec fn most_hold<T>(node: NodeView<T>, index: int) -> bool {
    holders(node.leader->0.match_index, index) + 1 >= (node.config.peers@.len() + 1) / 2 + 1
}

/// How far `follower` is known to agree with the log.
pub open spec fn known_match<T>(node: NodeView<T>, follower: NodeId) -> u64 {
    if node.leader->0.match_index.contains_key(follower) {
        node.leader->0.match_index[follower]
    } else {
        0
    }
}

/// The index that is to be sent to `follower` next, one where nothing is known.
pub open spec fn known_next<T>(node: NodeView<T>, follower: NodeId) -> u64 {
    if node.leader->0.next_index.contains_key(follower) {
        node.leader->0.next_index[follower]
    } else {
        1
    }
}

/// The leader knows nothing else of its clients.
pub open spec fn same_clients<T>(before: LeaderView<T>, after: LeaderView<T>) -> bool {
    &&& after.pending_clients == before.pending_clients
    &&& after.client_results == before.client_results
    &&& after.last_seq_nums == before.last_seq_nums
    &&& after.last_client_id == before.last_client_id
}

/// The node leads on in its term, with the same log.
pub open spec fn leads_on<T>(before: NodeView<T>, after: NodeView<T>) -> bool {
    &&& after.config == before.config
    &&& after.state == before.state
    &&& after.current_term == before.current_term
    &&& after.voted_for == before.voted_for
    &&& after.current_leader == before.current_leader
    &&& after.log == before.log
    &&& after.last_applied == before.last_applied
    &&& after.leader is Some
}

/// After a success of `follower` up to `index` the leader knows at least that, forgets
/// nothing that it knew, sends what follows next, and knows the same of everyone else.
pub open spec fn notes_success<T>(
    before: NodeView<T>,
    after: NodeView<T>,
    follower: NodeId,
    index: u64,
) -> bool {
    let known = after.leader->0.match_index;
    let next = after.leader->0.next_index;
    &&& known.contains_key(follower) && next.contains_key(follower)
    &&& known[follower] >= index && known[follower] >= known_match(before, follower)
    &&& known[follower] == index || known[follower] == known_match(before, follower)
    &&& next[follower] == known[follower] + 1
    &&& forall|p: NodeId|
        p != follower ==> (#[trigger] known.contains_key(p)
            <==> before.leader->0.match_index.contains_key(p)) && (known.contains_key(p)
            ==> known[p] == before.leader->0.match_index[p])
    &&& forall|p: NodeId|
        p != follower ==> (#[trigger] next.contains_key(p)
            <==> before.leader->0.next_index.contains_key(p)) && (next.contains_key(p)
            ==> next[p] == before.leader->0.next_index[p])
    &&& same_clients(before.leader->0, after.leader->0)
}

impl<T> NodeView<T> {
    /// A leader can take an answer as long as the indices leave room for one more and its log
    /// has every entry that is not committed.
    pub proof fn answers_can_be_taken(
        self,
        resp: AppendEntriesResponse,
        snapshot: InstallSnapshotResponse,
        follower: NodeId,
        index: u64,
    )
        requires
            self.state is Leader,
            self.leader is Some,
            logs::in_sequence(self.log),
            self.log.snapshot_index <= self.commit_index < u64::MAX,
            known_match(self, follower) < u64::MAX,
            index < u64::MAX,
        ensures
            self.event_defined(EventView::AppendEntriesResponse(resp, follower, index)),
            self.event_defined(EventView::InstallSnapshotResponseReceived(
                snapshot,
                follower,
                index,
            )),
    {
        self.log.sequence_is_contiguity();
        self.log.lemma_contiguous();
    }

    /// An answer from a later term makes the leader follow, once the term is saved.
    pub proof fn later_term_ends_leading(
        self,
        resp: AppendEntriesResponse,
        snapshot: InstallSnapshotResponse,
        follower: NodeId,
        index: u64,
    )
        requires
            self.state is Leader,
        ensures
            ({
                let event = EventView::<T>::AppendEntriesResponse(resp, follower, index);
                resp.term > self.current_term ==> {
                    &&& self.event_defined(event)
                    &&& elections::follows_anew(self, self.after_event(event), resp.term)
                    &&& self.reaction(event).leave && !self.reaction(event).reset_timer
                    &&& self.reaction(event).step matches StepView::Persist { storage }
                        && storage.len() == 1 && storage[0] == (StorageOpView::SaveTerm {
                        term: resp.term,
                        voted_for: None,
                    })
                }
            }),
            ({
                let event = EventView::<T>::InstallSnapshotResponseReceived(
                    snapshot,
                    follower,
                    index,
                );
                snapshot.term > self.current_term ==> {
                    &&& self.event_defined(event)
                    &&& elections::follows_anew(self, self.after_event(event), snapshot.term)
                    &&& self.reaction(event).leave && !self.reaction(event).reset_timer
                    &&& self.reaction(event).step matches StepView::Persist { storage }
                        && storage.len() == 1 && storage[0] == (StorageOpView::SaveTerm {
                        term: snapshot.term,
                        voted_for: None,
                    })
                }
            }),
    {
    }

    /// With a success the leader notes how far the follower agrees, and commits every entry
    /// of its own term that it and the followers that hold it are a majority for.  It commits
    /// nothing that it has not committed before unless such an entry is at its end, and then
    /// it applies what is committed.
    pub proof fn leader_commits_what_most_hold(
        self,
        resp: AppendEntriesResponse,
        follower: NodeId,
        index: u64,
    )
        requires
            self.state is Leader,
            self.leader is Some,
            resp.term <= self.current_term,
            resp.success,
            known_match(self, follower) < u64::MAX,
            index < u64::MAX,
        ensures
            ({
                let event = EventView::<T>::AppendEntriesResponse(resp, follower, index);
                let after = self.after_event(event);
                let reaction = self.reaction(event);
                &&& leads_on(self, after)
                &&& notes_success(self, after, follower, index)
                &&& after.commit_index >= self.commit_index
                &&& forall|i: int|
                    self.commit_index < i <= logs::end(self.log) && #[trigger] logs::filled(
                        self.log,
                        i,
                    ) && logs::entry(self.log, i).term == self.current_term && most_hold(after, i)
                        ==> after.commit_index >= i
                &&& after.commit_index > self.commit_index ==> {
                    &&& after.commit_index <= logs::end(self.log)
                    &&& logs::filled(self.log, after.commit_index as int)
                    &&& logs::entry(self.log, after.commit_index as int).term == self.current_term
                    &&& most_hold(after, after.commit_index as int)
                }
                &&& reaction.step is Apply <==> after.commit_index > self.commit_index
                &&& reaction.step is Ignore <==> after.commit_index == self.commit_index
                &&& !reaction.leave && !reaction.reset_timer
            }),
    {
        let event = EventView::<T>::AppendEntriesResponse(resp, follower, index);
        let after = self.after_event(event);
        let noted = self.with_match(follower, index);
        let top = noted.log.last_index() as int;
        noted.lemma_highest_committable(top);
        if top <= self.commit_index {
            assert(noted.highest_committable(top) == self.commit_index);
        }
        assert forall|i: int|
            self.commit_index < i <= logs::end(self.log) && #[trigger] logs::filled(self.log, i)
                && logs::entry(self.log, i).term == self.current_term && most_hold(
                after,
                i,
            ) implies after.commit_index >= i by {
            assert(noted.log.entry_at(i) == Some(logs::entry(self.log, i)));
            assert(noted.committable(i));
        }
    }

    /// With a refusal the leader goes back: to where the logs part, if that is earlier than
    /// what it was to send, else by one entry, but never before the first; and it sends
    /// again.  A refusal of what it is no longer about to send changes nothing.
    pub proof fn leader_backs_up(self, resp: AppendEntriesResponse, follower: NodeId, index: u64)
        requires
            self.state is Leader,
            self.leader is Some,
            resp.term <= self.current_term,
            !resp.success,
        ensures
            ({
                let event = EventView::<T>::AppendEntriesResponse(resp, follower, index);
                let after = self.after_event(event);
                let reaction = self.reaction(event);
                let before = known_next(self, follower);
                let next = after.leader->0.next_index;
                &&& self.event_defined(event)
                &&& leads_on(self, after)
                &&& after.commit_index == self.commit_index
                &&& after.leader->0.match_index == self.leader->0.match_index
                &&& same_clients(self.leader->0, after.leader->0)
                &&& next.contains_key(follower)
                &&& before > index ==> next[follower] == before && reaction.step is Ignore
                &&& before <= index ==> {
                    &&& reaction.step == (StepView::<T>::Resend { follower })
                    &&& 0 < resp.conflict_index < before ==> next[follower] == resp.conflict_index
                    &&& !(0 < resp.conflict_index < before) && before > 1 ==> next[follower]
                        == before - 1
                    &&& before <= 1 ==> next[follower] == 1
                }
                &&& forall|p: NodeId|
                    p != follower ==> (#[trigger] next.contains_key(p)
                        <==> self.leader->0.next_index.contains_key(p)) && (next.contains_key(p)
                        ==> next[p] == self.leader->0.next_index[p])
                &&& !reaction.leave && !reaction.reset_timer
            }),
    {
    }

    /// A follower that has installed a snapshot is known to agree up to its end, and is sent
    /// what follows; nothing is committed by it.  A follower that has not is left alone.
    pub proof fn leader_goes_on_after_a_snapshot(
        self,
        resp: InstallSnapshotResponse,
        follower: NodeId,
        index: u64,
    )
        requires
            self.state is Leader,
            self.leader is Some,
            resp.term <= self.current_term,
            known_match(self, follower) < u64::MAX,
            index < u64::MAX,
        ensures
            ({
                let event = EventView::<T>::InstallSnapshotResponseReceived(resp, follower, index);
                let after = self.after_event(event);
                let reaction = self.reaction(event);
                &&& self.event_defined(event)
                &&& leads_on(self, after)
                &&& after.commit_index == self.commit_index
                &&& resp.success ==> notes_success(self, after, follower, index) && reaction.step
                    == (StepView::<T>::Resend { follower })
                &&& !resp.success ==> after == self && reaction.step is Ignore
                &&& !reaction.leave && !reaction.reset_timer
            }),
    {
    }

    /// The same, for answers that are handed to the node itself.
    pub proof fn answers_are_taken_alike(
        self,
        resp: AppendEntriesResponse,
        follower: NodeId,
        index: u64,
    )
        requires
            self.state is Leader,
        ensures
            self.after_append_answer(resp, follower, index) == self.after_event(
                EventView::AppendEntriesResponse(resp, follower, index),
            ),
            self.append_answer_defined(resp, follower, index) == self.event_defined(
                EventView::AppendEntriesResponse(resp, follower, index),
            ),
            self.leader is Some ==> self.next_for(follower) == known_next(self, follower),
            self.leader is Some ==> self.match_for(follower) == known_match(self, follower),
    {
    }

    /// What may be committed does not depend on the role.
    proof fn lemma_scan_in_a_role(self, state: State, from: int)
        ensures
            (NodeView { state, ..self }).highest_committable(from) == self.highest_committable(from),
        decreases from - self.commit_index,
    {
        let other = NodeView { state, ..self };
        assert(other.committable(from) == self.committable(from));
        if from > self.commit_index && !self.committable(from) {
            self.lemma_scan_in_a_role(state, from - 1);
        }
    }

    /// An answer that is handed to the node itself is taken in the same way whatever its role.
    pub proof fn answers_do_not_depend_on_the_role(
        self,
        resp: AppendEntriesResponse,
        follower: NodeId,
        index: u64,
        state: State,
    )
        ensures
            ({
                let other = NodeView { state, ..self };
                &&& other.append_answer_defined(resp, follower, index)
                    == self.append_answer_defined(resp, follower, index)
                &&& resp.term > self.current_term ==> other.after_append_answer(
                    resp,
                    follower,
                    index,
                ) == self.after_append_answer(resp, follower, index)
                &&& resp.term <= self.current_term ==> other.after_append_answer(
                    resp,
                    follower,
                    index,
                ) == (NodeView { state, ..self.after_append_answer(resp, follower, index) })
                &&& other.next_for(follower) == self.next_for(follower)
            }),
    {
        let other = NodeView { state, ..self };
        let noted = self.with_match(follower, index);
        let there = other.with_match(follower, index);
        assert(there == (NodeView { state, ..noted }));
        noted.lemma_scan_in_a_role(state, noted.log.last_index() as int);
        assert(there.commit_scan_defined() == noted.commit_scan_defined());
    }

    /// What a leader knows of `follower` is noted, whoever asks for it.
    pub proof fn success_is_noted(self, follower: NodeId, index: u64)
        requires
            self.leader is Some,
            known_match(self, follower) < u64::MAX,
            index < u64::MAX,
        ensures
            leads_on(self, self.with_match(follower, index)),
            notes_success(self, self.with_match(follower, index), follower, index),
            self.with_match(follower, index).commit_index == self.commit_index,
    {
    }

    /// A leader shortens its log by a snapshot of its own that is later than the one it has,
    /// and has the storage drop the entries.  Any other changes nothing.
    pub proof fn leader_shortens_its_log(self, index: u64, term: u64)
        requires
            self.state is Leader,
        ensures
            ({
                let event = EventView::<T>::SnapshotCompleted(index, term);
                let after = self.after_event(event);
                let reaction = self.reaction(event);
                &&& self.event_defined(event)
                &&& after == (NodeView { log: self.log.compact(index, term), ..self })
                &&& index > self.log.snapshot_index ==> {
                    &&& after.log.snapshot_index == index
                    &&& after.log.snapshot_term == term
                    &&& reaction.step matches StepView::Persist { storage } && storage.len() == 1
                        && storage[0] == (StorageOpView::TruncateLog { index })
                }
                &&& index <= self.log.snapshot_index ==> after == self && reaction.step is Ignore
                &&& !reaction.leave && !reaction.reset_timer
            }),
    {
    }

    /// A leader does nothing with what only another leader or a candidate is meant for.
    pub proof fn what_is_not_for_a_leader(self, event: EventView<T>)
        requires
            self.state is Leader,
            event is AppendEntriesReceived || event is InstallSnapshotReceived
                || event is VoteResponse,
        ensures
            self.event_defined(event),
            self.after_event(event) == self,
            self.reaction(event).step is Ignore,
            !self.reaction(event).leave && !self.reaction(event).reset_timer,
    {
    }

    /// What a leader sends to a follower: every entry from the next one on, with the index and
    /// the term of the one before, or its snapshot where it no longer has that one.
    pub proof fn leader_sends_what_follows(self, follower: NodeId)
        requires
            self.leader is Some,
            logs::in_sequence(self.log),
            logs::end(self.log) < u64::MAX,
            self.leader->0.next_index.contains_key(follower) ==> 1
                <= self.leader->0.next_index[follower] <= logs::end(self.log) + 1,
        ensures
            ({
                let next = if self.leader->0.next_index.contains_key(follower) {
                    self.leader->0.next_index[follower] as int
                } else {
                    logs::end(self.log) + 1
                };
                let snapshot = self.log.snapshot_index;
                &&& self.message_defined(follower)
                &&& next <= snapshot ==> {
                    &&& self.message_for(follower) matches FollowerMessageView::InstallSnapshot {
                        offer,
                    } && offer.term == self.current_term && offer.leader_id == self.config.node_id
                        && offer.last_included_index == snapshot && offer.last_included_term
                        == self.log.snapshot_term
                }
                &&& next > snapshot ==> {
                    &&& self.message_for(follower) matches FollowerMessageView::AppendEntries {
                        request,
                        match_target,
                    } && {
                        &&& request.term == self.current_term
                        &&& request.leader_id == self.config.node_id
                        &&& request.leader_commit == self.commit_index
                        &&& request.prev_log_index == next - 1
                        &&& request.prev_log_term == if next == 1 {
                            0
                        } else if next == snapshot + 1 {
                            self.log.snapshot_term
                        } else {
                            logs::entry(self.log, next - 1).term
                        }
                        &&& request.entries.len() == logs::end(self.log) + 1 - next
                        &&& forall|i: int|
                            next <= i <= logs::end(self.log) ==> request.entries[i - next]
                                == #[trigger] logs::entry(self.log, i)
                        &&& match_target == logs::end(self.log)
                    }
                }
            }),
    {
        self.log.sequence_is_contiguity();
        self.log.lemma_contiguous();
        let next = self.send_from(follower);
        if next > self.log.snapshot_index {
            if next > 1 && next - 1 > self.log.snapshot_index {
                assert(self.log.entry_at(next - 1) is Some);
            }
            self.log.lemma_range(next, (self.log.last_index() + 1) as u64);
        }
    }

    /// What a follower is sent depends on the log, the index that is to be sent next, the id,
    /// the term and the commit index of the leader, and on nothing else.
    pub proof fn message_depends_on_what_is_known(self, follower: NodeId, other: NodeView<T>)
        requires
            self.leader is Some,
            other.leader is Some,
            other.log == self.log,
            other.leader->0.next_index == self.leader->0.next_index,
        ensures
            self.message_defined(follower) == other.message_defined(follower),
            other.current_term == self.current_term && other.config.node_id == self.config.node_id
                && other.commit_index == self.commit_index ==> self.message_for(follower)
                == other.message_for(follower),
    {
    }
}

} // verus!
