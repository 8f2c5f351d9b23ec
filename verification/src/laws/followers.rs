//! What a node that does not lead promises to a leader.

use crate::events::{EventView, StepView};
use crate::laws::{elections, logs};
use crate::messages::{AppendEntriesView, InstallSnapshotView};
use crate::model::{NodeView, StorageOpView};
use vstd::prelude::*;

verus! {

/// The node knows the entry before those of the request: there is none to know, it is the
/// last one of the snapshot, or it stands in the log, with the term that the request says.
/// An entry that the log does not have counts as one of term zero.
pub open spec fn knows_the_entry_before<T>(node: NodeView<T>, req: AppendEntriesView) -> bool {
    let prev = req.prev_log_index;
    prev == 0 || req.prev_log_term == (if prev == node.log.snapshot_index {
        node.log.snapshot_term
    } else if logs::filled(node.log, prev as int) {
        logs::entry(node.log, prev as int).term
    } else {
        0
    })
}

/// The node takes part in the term of a leader that has called, and follows it.
pub open spec fn follows_the_leader<T>(
    before: NodeView<T>,
    after: NodeView<T>,
    term: u64,
    leader: u64,
) -> bool {
    &&& after.config == before.config
    &&& after.state is Follower
    &&& after.current_term == term
    &&& after.current_leader == Some(leader)
    &&& after.voted_for == if term == before.current_term {
        before.voted_for
    } else {
        None
    }
    &&& before.leader is None ==> after.leader is None
    &&& term > before.current_term || before.state is Candidate ==> after.leader is None
}

/// What is saved first when a leader calls: the term, if it is a new one, or if the node was
/// a candidate.
pub open spec fn saves_the_term<T>(
    before: NodeView<T>,
    storage: Seq<StorageOpView>,
    term: u64,
    others: int,
) -> bool {
    let saves = term > before.current_term || before.state is Candidate;
    &&& storage.len() == others + if saves {
        1int
    } else {
        0
    }
    &&& saves ==> storage[0] == (StorageOpView::SaveTerm {
        term,
        voted_for: if term == before.current_term {
            before.voted_for
        } else {
            None
        },
    })
}

impl<T> NodeView<T> {
    /// A node can take every request whose indices leave room for one more.
    pub proof fn requests_with_room_can_be_taken(self, req: AppendEntriesView)
        requires
            req.prev_log_index < u64::MAX,
            req.entries.len() > 0 ==> req.entries[req.entries.len() - 1].index < u64::MAX,
        ensures
            self.event_defined(EventView::AppendEntriesReceived(req)),
            self.append_defined(req),
    {
    }

    /// A leader of an earlier term is refused, and nothing changes.
    pub proof fn stale_leader_is_refused(self, req: AppendEntriesView)
        requires
            !(self.state is Leader),
            req.term < self.current_term,
        ensures
            ({
                let event = EventView::<T>::AppendEntriesReceived(req);
                &&& self.after_event(event) == self
                &&& self.reaction(event).step matches StepView::AppendEntries {
                    storage,
                    response,
                    apply,
                } && {
                    &&& storage.len() == 0
                    &&& !apply
                    &&& !response.success
                    &&& response.term == self.current_term
                    &&& response.conflict_index == 0
                    &&& response.last_log_index == logs::end(self.log)
                }
                &&& !self.reaction(event).leave
                &&& self.reaction(event).reset_timer <==> self.state is Follower
            }),
    {
    }

    /// A leader that is not of an earlier term is followed, whatever becomes of its entries;
    /// a candidate gives up.
    pub proof fn leader_is_followed(self, req: AppendEntriesView)
        requires
            !(self.state is Leader),
            req.term >= self.current_term,
        ensures
            ({
                let event = EventView::<T>::AppendEntriesReceived(req);
                let after = self.after_event(event);
                &&& follows_the_leader(self, after, req.term, req.leader_id)
                &&& after.last_applied == self.last_applied
                &&& after.log.snapshot_index == self.log.snapshot_index
                &&& after.log.snapshot_term == self.log.snapshot_term
                &&& self.reaction(event).step matches StepView::AppendEntries { response, .. }
                    && response.term == req.term && response.last_log_index == logs::end(after.log)
                &&& self.reaction(event).leave <==> self.state is Candidate
                &&& self.reaction(event).reset_timer <==> self.state is Follower
            }),
    {
    }

    /// Entries that start inside the snapshot count as known: the answer is success, and
    /// neither the log nor what is committed changes.
    pub proof fn entries_in_the_snapshot_are_known(self, req: AppendEntriesView)
        requires
            !(self.state is Leader),
            req.term >= self.current_term,
            req.prev_log_index < self.log.snapshot_index,
        ensures
            ({
                let event = EventView::<T>::AppendEntriesReceived(req);
                let after = self.after_event(event);
                &&& after.log == self.log
                &&& after.commit_index == self.commit_index
                &&& self.reaction(event).step matches StepView::AppendEntries {
                    storage,
                    response,
                    apply,
                } && {
                    &&& saves_the_term(self, storage, req.term, 0)
                    &&& response.success
                    &&& response.conflict_index == 0
                    &&& !apply
                }
            }),
    {
    }

    /// A node that does not know the entry before those of the request refuses them, names
    /// the index where the logs part, and leaves its log and what is committed alone.
    pub proof fn parting_logs_are_told(self, req: AppendEntriesView)
        requires
            !(self.state is Leader),
            req.term >= self.current_term,
            req.prev_log_index >= self.log.snapshot_index,
            !knows_the_entry_before(self, req),
        ensures
            ({
                let event = EventView::<T>::AppendEntriesReceived(req);
                let after = self.after_event(event);
                &&& after.log == self.log
                &&& after.commit_index == self.commit_index
                &&& self.reaction(event).step matches StepView::AppendEntries {
                    storage,
                    response,
                    apply,
                } && {
                    &&& saves_the_term(self, storage, req.term, 0)
                    &&& !response.success
                    &&& response.conflict_index == req.prev_log_index
                    &&& !apply
                }
            }),
    {
    }

    /// A node that knows the entry before those of the request takes them all, whatever they
    /// are: the answer is success, its log is what it had up to that entry and the new
    /// entries behind it, and those are saved.  A request without entries leaves the log
    /// alone.
    pub proof fn agreeing_node_takes_every_entry(self, req: AppendEntriesView)
        requires
            !(self.state is Leader),
            req.term >= self.current_term,
            req.prev_log_index >= self.log.snapshot_index,
            knows_the_entry_before(self, req),
            req.prev_log_index < u64::MAX,
            req.entries.len() > 0 ==> req.entries[req.entries.len() - 1].index < u64::MAX,
        ensures
            ({
                let event = EventView::<T>::AppendEntriesReceived(req);
                let after = self.after_event(event);
                let next = logs::place(self.log, req.prev_log_index + 1);
                let kept = if next < self.log.slots.len() {
                    next
                } else {
                    self.log.slots.len() as int
                };
                &&& self.event_defined(event)
                &&& self.reaction(event).step matches StepView::AppendEntries {
                    storage,
                    response,
                    ..
                } && {
                    &&& response.success
                    &&& response.conflict_index == 0
                    &&& req.entries.len() == 0 ==> saves_the_term(self, storage, req.term, 0)
                    &&& req.entries.len() > 0 ==> saves_the_term(self, storage, req.term, 1)
                        && storage[storage.len() - 1] is AppendLog
                }
                &&& req.entries.len() == 0 ==> after.log == self.log
                &&& req.entries.len() > 0 ==> {
                    &&& after.log.slots.len() == kept + req.entries.len()
                    &&& forall|k: int|
                        0 <= k < kept ==> #[trigger] after.log.slots[k] == self.log.slots[k]
                    &&& forall|k: int|
                        0 <= k < req.entries.len() ==> #[trigger] req.entries[k]
                            == after.log.slots[kept + k]
                }
            }),
    {
        let next = (req.prev_log_index + 1) as u64;
        let cut = self.log.truncate_from(next);
        if req.entries.len() > 0 {
            assert((cut.slots + req.entries).last() == req.entries.last());
        }
    }

    /// Where the log is in sequence and the entries carry the indices that follow, each stands
    /// at its index afterwards, the log ends with the last of them, and exactly they are
    /// saved.
    pub proof fn entries_stand_at_their_indices(self, req: AppendEntriesView)
        requires
            !(self.state is Leader),
            req.term >= self.current_term,
            req.prev_log_index >= self.log.snapshot_index,
            req.prev_log_index <= logs::end(self.log),
            knows_the_entry_before(self, req),
            logs::in_sequence(self.log),
            req.entries.len() > 0,
            req.prev_log_index + req.entries.len() < u64::MAX,
            forall|k: int|
                0 <= k < req.entries.len() ==> (#[trigger] req.entries[k]).index
                    == req.prev_log_index + 1 + k,
        ensures
            ({
                let event = EventView::<T>::AppendEntriesReceived(req);
                let after = self.after_event(event);
                &&& forall|k: int|
                    0 <= k < req.entries.len() ==> logs::filled(
                        after.log,
                        (#[trigger] req.entries[k]).index as int,
                    ) && logs::entry(after.log, req.entries[k].index as int) == req.entries[k]
                &&& logs::end(after.log) == req.prev_log_index + req.entries.len()
                &&& logs::in_sequence(after.log)
                &&& self.reaction(event).step matches StepView::AppendEntries { storage, .. }
                    && storage[storage.len() - 1] == (StorageOpView::AppendLog {
                    entries: req.entries,
                })
            }),
    {
        let event = EventView::<T>::AppendEntriesReceived(req);
        let after = self.after_event(event).log;
        self.log.sequence_is_contiguity();
        self.log.lemma_contiguous();
        self.agreeing_node_takes_every_entry(req);
        let next = logs::place(self.log, req.prev_log_index + 1);
        assert(next <= self.log.slots.len());
        assert forall|k: int| 0 <= k < after.slots.len() implies logs::place(
            after,
            (#[trigger] after.slots[k]).index as int,
        ) == k by {
            if k < next {
                assert(after.slots[k] == self.log.slots[k]);
            } else {
                assert(after.slots[next + (k - next)] == req.entries[k - next]);
            }
        }
        after.sequence_is_contiguity();
        after.lemma_contiguous();
        assert(after.slots[next + (req.entries.len() - 1)] == req.entries[req.entries.len() - 1]);
        assert(after.range(
            (req.prev_log_index + 1) as u64,
            (after.last_index() + 1) as u64,
        ) =~= req.entries);
    }

    /// A node that takes a request commits what the leader has committed, as far as its log
    /// then goes; it does so, and then applies what is committed, exactly where the leader
    /// has committed more than the node knew of.
    pub proof fn follower_commits_with_the_leader(self, req: AppendEntriesView)
        requires
            !(self.state is Leader),
            req.term >= self.current_term,
            req.prev_log_index >= self.log.snapshot_index,
            knows_the_entry_before(self, req),
        ensures
            ({
                let event = EventView::<T>::AppendEntriesReceived(req);
                let after = self.after_event(event);
                let more = req.leader_commit > self.commit_index;
                &&& self.reaction(event).step matches StepView::AppendEntries { apply, .. } && (
                apply <==> more)
                &&& !more ==> after.commit_index == self.commit_index
                &&& more && req.leader_commit <= logs::end(after.log) ==> after.commit_index
                    == req.leader_commit
                &&& more && req.leader_commit > logs::end(after.log) ==> after.commit_index
                    == logs::end(after.log)
            }),
    {
    }

    /// The same, for a request that is handed to the node itself.
    pub proof fn request_is_taken_alike(self, req: AppendEntriesView)
        requires
            self.state is Follower,
        ensures
            ({
                let event = EventView::<T>::AppendEntriesReceived(req);
                &&& self.after_append_entries(req) == self.after_event(event)
                &&& self.reaction(event).step == (StepView::<T>::AppendEntries {
                    storage: self.append_ops(req),
                    response: self.append_response(req),
                    apply: self.commits_on(req),
                })
            }),
    {
    }

    /// What a request of a leader does to a node does not depend on the role of the node; only
    /// a later term changes the role.
    pub proof fn role_makes_no_difference(self, req: AppendEntriesView, snapshot: InstallSnapshotView)
        ensures
            ({
                let follower = NodeView { state: crate::raft::State::Follower, ..self };
                let role = |term: u64|
                    if term > self.current_term {
                        crate::raft::State::Follower
                    } else {
                        self.state
                    };
                &&& self.after_append_entries(req) == (NodeView {
                    state: role(req.term),
                    ..follower.after_append_entries(req)
                })
                &&& self.append_response(req) == follower.append_response(req)
                &&& self.append_ops(req) == follower.append_ops(req)
                &&& self.append_defined(req) == follower.append_defined(req)
                &&& self.commits_on(req) == follower.commits_on(req)
                &&& self.before_snapshot(snapshot) == (NodeView {
                    state: role(snapshot.term),
                    ..follower.before_snapshot(snapshot)
                })
                &&& self.observe_term_ops(snapshot.term) == follower.observe_term_ops(
                    snapshot.term,
                )
            }),
    {
    }

    /// A snapshot of a leader of an earlier term is refused; any other is taken up, and its
    /// leader is followed.  Nothing of the log changes before it is restored and saved.
    pub proof fn snapshot_is_taken_up(self, req: InstallSnapshotView)
        requires
            !(self.state is Leader),
        ensures
            ({
                let event = EventView::<T>::InstallSnapshotReceived(req);
                let after = self.after_event(event);
                let reaction = self.reaction(event);
                &&& self.event_defined(event)
                &&& req.term < self.current_term ==> {
                    &&& after == self
                    &&& reaction.step matches StepView::RefuseSnapshot { refusal }
                        && !refusal.success && refusal.term == self.current_term
                    &&& !reaction.leave
                }
                &&& req.term >= self.current_term ==> {
                    &&& follows_the_leader(self, after, req.term, req.leader_id)
                    &&& elections::keeps_the_rest(self, after)
                    &&& reaction.step matches StepView::InstallSnapshot { storage, request }
                        && request == req && saves_the_term(self, storage, req.term, 0)
                    &&& reaction.leave <==> self.state is Candidate
                }
                &&& reaction.reset_timer <==> self.state is Follower
            }),
    {
    }

    /// The same, for a follower that is handed the snapshot itself.
    pub proof fn snapshot_is_taken_up_alike(self, req: InstallSnapshotView)
        requires
            self.state is Follower,
            req.term >= self.current_term,
        ensures
            ({
                let event = EventView::<T>::InstallSnapshotReceived(req);
                &&& self.before_snapshot(req) == self.after_event(event)
                &&& self.reaction(event).step == (StepView::<T>::InstallSnapshot {
                    storage: self.observe_term_ops(req.term),
                    request: req,
                })
            }),
    {
    }

    /// A snapshot that is restored and saved stands for every entry up to its end: they are
    /// gone from the log, and count as committed and applied.  What is committed or applied
    /// never goes back with it.
    pub proof fn snapshot_is_installed(self, req: InstallSnapshotView)
        ensures
            ({
                let after = self.after_snapshot(req);
                let index = req.last_included_index;
                &&& after.log == self.log.compact(index, req.last_included_term)
                &&& index > self.log.snapshot_index ==> after.log.snapshot_index == index
                    && after.log.snapshot_term == req.last_included_term
                &&& index <= self.log.snapshot_index ==> after.log == self.log
                &&& after.commit_index >= index && after.commit_index >= self.commit_index
                &&& after.commit_index == index || after.commit_index == self.commit_index
                &&& after.last_applied >= index && after.last_applied >= self.last_applied
                &&& after.last_applied == index || after.last_applied == self.last_applied
                &&& after.current_leader == Some(req.leader_id)
                &&& after.config == self.config
                &&& after.state == self.state
                &&& after.current_term == self.current_term
                &&& after.voted_for == self.voted_for
                &&& after.leader == self.leader
            }),
    {
    }

    /// A follower does nothing with a snapshot of its own or with what is meant for a leader;
    /// a candidate shortens its log by the snapshot.
    pub proof fn what_is_not_for_a_follower(self, event: EventView<T>)
        requires
            !(self.state is Leader),
            event is AppendEntriesResponse || event is InstallSnapshotResponseReceived
                || event is SnapshotCompleted || event is VoteResponse,
        ensures
            self.event_defined(event),
            self.reaction(event).step is Ignore,
            !self.reaction(event).leave && !self.reaction(event).reset_timer,
            !(event is SnapshotCompleted && self.state is Candidate) ==> self.after_event(event)
                == self,
            event matches EventView::SnapshotCompleted(index, term) ==> self.state is Candidate
                ==> self.after_event(event) == (NodeView {
                log: self.log.compact(index, term),
                ..self
            }),
    {
    }

    /// Whatever its role, a node that is told to shut down has only that to do.
    pub proof fn shutdown_is_all_there_is_to_do(self)
        ensures
            self.event_defined(EventView::Shutdown),
            self.after_event(EventView::Shutdown) == self,
            self.reaction(EventView::Shutdown).step is Shutdown,
            !self.reaction(EventView::Shutdown).leave,
            !self.reaction(EventView::Shutdown).reset_timer,
    {
    }
}

} // verus!
