//! What holds of a node between events, and that every event keeps it.

use crate::events::EventView;
use crate::log::EntryView;
use crate::messages::{AppendEntriesView, InstallSnapshotView};
use crate::model::{FollowerMessageView, LeaderView, NodeView};
use crate::raft::State;
use crate::types::{ClientId, ResultView, SeqNum};
use vstd::prelude::*;

verus! {

impl AppendEntriesView {
    /// The request of a node that keeps its log in order: the entries carry the indices
    /// that follow `prev_log_index`, and an entry before them has a term.
    pub open spec fn orderly(self) -> bool {
        &&& self.prev_log_index > 0 ==> self.prev_log_term > 0
        &&& self.prev_log_index + self.entries.len() < u64::MAX
        &&& forall|k: int|
            0 <= k < self.entries.len() ==> (#[trigger] self.entries[k]).index
                == self.prev_log_index + 1 + k
    }
}

impl<T> LeaderView<T> {
    /// What a leader knows of its followers stays within its own log.
    pub open spec fn within(self, last_index: u64) -> bool {
        &&& forall|p: u64| #[trigger]
            self.next_index.contains_key(p) ==> 1 <= self.next_index[p] <= last_index + 1
        &&& forall|p: u64| #[trigger]
            self.match_index.contains_key(p) ==> self.match_index[p] <= last_index
    }
}

impl<T> NodeView<T> {
    /// What holds of a node between events.
    pub open spec fn consistent(self) -> bool {
        &&& self.log.contiguous()
        &&& self.log.snapshot_index <= self.commit_index <= self.last_applied
        &&& self.state is Leader <==> self.leader is Some
        &&& self.leader matches Some(leader) ==> leader.within(self.log.last_index())
    }

    /// The node once everything that is committed is applied.
    pub open spec fn settled(self) -> NodeView<T> {
        NodeView {
            last_applied: crate::model::max_u64(self.last_applied, self.commit_index),
            ..self
        }
    }

    /// An event as correct nodes cause it: answers speak of entries that were sent, a
    /// snapshot of the node itself of entries that are committed.
    pub open spec fn orderly(self, event: EventView<T>) -> bool {
        match event {
            EventView::AppendEntriesReceived(req) => req.orderly(),
            EventView::AppendEntriesResponse(_, _, target) => target <= self.log.last_index(),
            EventView::InstallSnapshotResponseReceived(_, _, index) => index
                <= self.log.last_index(),
            EventView::SnapshotCompleted(index, _) => index <= self.commit_index,
            EventView::ClientRequest(_) => self.leader matches Some(leader)
                ==> leader.last_client_id.0 < u64::MAX,
            _ => true,
        }
    }

    /// Accepting the entries of an orderly request keeps the log in order, and the log
    /// then ends with them.
    pub proof fn lemma_append_keeps_order(self, req: AppendEntriesView)
        requires
            self.log.contiguous(),
            req.orderly(),
        ensures
            self.log_after_append(req).contiguous(),
            self.log_after_append(req).snapshot_index == self.log.snapshot_index,
            self.append_defined(req),
            self.append_verdict(req) is Accepted ==> req.prev_log_index <= self.log.last_index(),
            self.append_verdict(req) is Accepted && req.entries.len() > 0
                ==> self.log_after_append(req).last_index() == req.prev_log_index
                + req.entries.len(),
            self.append_verdict(req) is Accepted && req.entries.len() > 0 ==> forall|k: int|
                0 <= k < req.entries.len() ==> self.log_after_append(req).entry_at(
                    req.prev_log_index + 1 + k,
                ) == Some(#[trigger] req.entries[k]),
            self.append_verdict(req) is Accepted && req.entries.len() > 0 ==> forall|i: int|
                i <= req.prev_log_index ==> #[trigger] self.log_after_append(req).entry_at(i)
                    == self.log.entry_at(i),
    {
        self.log.lemma_contiguous();
        if self.append_verdict(req) is Accepted {
            if req.prev_log_index > 0 && req.prev_log_index != self.log.snapshot_index {
                assert(self.log.entry_at(req.prev_log_index as int) is Some);
            }
            if req.entries.len() > 0 {
                let next = (req.prev_log_index + 1) as u64;
                let cut = self.log.truncate_from(next);
                self.log.lemma_truncate_from(next);
                cut.lemma_contiguous();
                assert(cut.last_index() == req.prev_log_index);
                cut.lemma_append(req.entries);
                let log = self.log_after_append(req);
                assert(cut.base() + cut.slots.len() == next);
                assert forall|k: int| 0 <= k < req.entries.len() implies log.entry_at(
                    req.prev_log_index + 1 + k,
                ) == Some(#[trigger] req.entries[k]) by {}
                assert forall|i: int| i <= req.prev_log_index implies #[trigger] log.entry_at(i)
                    == self.log.entry_at(i) by {
                    assert(cut.entry_at(i) == self.log.entry_at(i));
                }
                assert(req.entries.last().index == req.prev_log_index + req.entries.len());
            }
        }
    }

    /// A follower takes every orderly event, and once what is committed is applied the
    /// node is consistent again.
    pub proof fn follower_stays_consistent(self, event: EventView<T>)
        requires
            self.consistent(),
            self.state is Follower,
            self.orderly(event),
        ensures
            self.event_defined(event),
            self.after_event(event).settled().consistent(),
            self.after_event(event).log.holds_all(
                self.last_applied as int,
                self.after_event(event).commit_index as int,
            ),
            self.after_event(event).state is Follower,
    {
        self.log.lemma_contiguous();
        if let EventView::AppendEntriesReceived(req) = event {
            self.lemma_append_keeps_order(req);
            self.log_after_append(req).lemma_contiguous();
        }
    }

    /// A candidate takes every orderly event, and once what is committed is applied the
    /// node is consistent again.
    pub proof fn candidate_stays_consistent(self, event: EventView<T>)
        requires
            self.consistent(),
            self.state is Candidate,
            self.orderly(event),
        ensures
            self.event_defined(event),
            self.after_event(event).settled().consistent(),
            self.after_event(event).log.holds_all(
                self.last_applied as int,
                self.after_event(event).commit_index as int,
            ),
            !(self.after_event(event).state is Leader),
    {
        self.log.lemma_contiguous();
        if let EventView::AppendEntriesReceived(req) = event {
            let following = self.step_down(req.term);
            following.lemma_append_keeps_order(req);
            following.log_after_append(req).lemma_contiguous();
        }
        if let EventView::SnapshotCompleted(index, term) = event {
            if self.log.snapshot_index < index {
                self.log.lemma_compact(index, term);
            }
        }
    }

    /// A leader whose indices have not run out takes every orderly event.  Once what is
    /// committed is applied, the node is consistent again; if the event calls for it, that
    /// can be done.
    pub proof fn leader_stays_consistent(self, event: EventView<T>)
        requires
            self.consistent(),
            self.state is Leader,
            self.orderly(event),
            self.log.last_index() < u64::MAX,
            self.commit_index < u64::MAX,
        ensures
            self.event_defined(event),
            self.after_event(event).settled().consistent(),
            self.after_event(event).log.holds_all(
                self.last_applied as int,
                self.after_event(event).commit_index as int,
            ),
    {
        self.log.lemma_contiguous();
        match event {
            EventView::ClientRequest(req) => {
                if self.client_verdict(req) is Append {
                    let entry = self.entry_for(req);
                    self.log.lemma_append(seq![entry]);
                    assert(seq![entry].last() == entry);
                }
            },
            EventView::AppendEntriesResponse(resp, follower, target) => {
                if resp.term <= self.current_term && resp.success {
                    let noted = self.with_match(follower, target);
                    noted.lemma_highest_committable(noted.log.last_index() as int);
                    if noted.log.last_index() < noted.commit_index {
                        assert(noted.highest_committable(noted.log.last_index() as int)
                            == noted.commit_index);
                    }
                }
            },
            EventView::SnapshotCompleted(index, term) => {
                if self.log.snapshot_index < index {
                    self.log.lemma_compact(index, term);
                }
            },
            _ => {},
        }
    }

    /// Waiting in vain for a leader, and running for leadership, keep the node
    /// consistent.
    pub proof fn election_stays_consistent(self)
        requires
            self.consistent(),
            !(self.state is Leader),
        ensures
            (NodeView { current_leader: None, state: State::Candidate, ..self }).consistent(),
            self.current_term < u64::MAX ==> self.start_election().consistent(),
    {
    }

    /// A candidate that wins is a consistent leader.
    pub proof fn victory_stays_consistent(
        self,
        last_client_id: ClientId,
        last_seq_nums: Map<u64, SeqNum>,
    )
        requires
            self.consistent(),
            self.state is Candidate,
            self.log.last_index() < u64::MAX,
        ensures
            self.become_leader(last_client_id, last_seq_nums).consistent(),
    {
    }

    /// Installing a snapshot keeps the node consistent.
    pub proof fn snapshot_stays_consistent(self, req: InstallSnapshotView)
        requires
            self.consistent(),
            !(self.state is Leader),
        ensures
            self.after_snapshot(req).consistent(),
    {
        if self.log.snapshot_index < req.last_included_index {
            self.log.lemma_compact(req.last_included_index, req.last_included_term);
        }
    }

    /// A consistent leader can tell what to send to any node.
    pub proof fn leader_can_send(self, follower: u64)
        requires
            self.consistent(),
            self.state is Leader,
            self.log.last_index() < u64::MAX,
        ensures
            self.message_defined(follower),
    {
        self.log.lemma_contiguous();
        let next = self.send_from(follower);
        let prev = self.send_after(follower);
        assert(1 <= next <= self.log.last_index() + 1);
        if prev >= self.log.snapshot_index {
            if prev > self.log.snapshot_index {
                assert(self.log.entry_at(prev as int) is Some);
            }
            self.log.lemma_range(next, (self.log.last_index() + 1) as u64);
        }
    }

    /// The message of a consistent leader is orderly, and brings the follower up to the
    /// end of its log.
    pub proof fn leader_messages_are_orderly(self, follower: u64)
        requires
            self.consistent(),
            self.state is Leader,
            self.log.last_index() < u64::MAX,
            self.has_terms(),
        ensures
            self.message_for(follower) matches FollowerMessageView::AppendEntries {
                request,
                match_target,
            } ==> {
                &&& request.orderly()
                &&& match_target == self.log.last_index()
                &&& match_target == request.prev_log_index + request.entries.len()
                &&& forall|i: int|
                    request.prev_log_index < i <= self.log.last_index() ==> #[trigger] self.log.entry_at(
                        i,
                    ) == Some(request.entries[i - request.prev_log_index - 1])
            },
    {
        self.log.lemma_contiguous();
        let next = self.send_from(follower);
        let prev = self.send_after(follower);
        assert(1 <= next <= self.log.last_index() + 1);
        if prev >= self.log.snapshot_index {
            let entries = self.entries_for(follower);
            self.log.lemma_range(next, (self.log.last_index() + 1) as u64);
            if prev > self.log.snapshot_index {
                assert(self.log.entry_at(prev as int) is Some);
            }
            assert(prev + entries.len() == self.log.last_index());
            assert forall|k: int| 0 <= k < entries.len() implies (#[trigger] entries[k]).index
                == prev + 1 + k by {
                assert(self.log.entry_at(next + k) == Some(entries[k]));
            }
            assert forall|i: int| prev < i <= self.log.last_index() implies #[trigger] self.log.entry_at(
                i,
            ) == Some(entries[i - prev - 1]) by {
                assert(self.log.entry_at(next + (i - prev - 1)) == Some(entries[i - prev - 1]));
            }
        }
    }

    /// Every entry after index zero, and the snapshot, is of a term above zero.
    pub open spec fn has_terms(self) -> bool {
        &&& self.log.snapshot_index > 0 ==> self.log.snapshot_term > 0
        &&& forall|i: int|
            i > 0 ==> ((#[trigger] self.log.entry_at(i)) matches Some(e) ==> e.term > 0)
    }

    /// A consistent leader that has newly committed entries can apply them, and is
    /// consistent afterwards.
    pub proof fn apply_stays_consistent(self, results: Seq<ResultView>)
        requires
            self.log.holds_all(self.last_applied as int, self.commit_index as int),
            self.settled().consistent(),
            self.state is Leader,
        ensures
            (NodeView {
                leader: Some(
                    self.leader->0.record_all(
                        self.log.span(self.last_applied as int, self.commit_index as int),
                        results,
                    ),
                ),
                ..self.settled()
            }).consistent(),
    {
        self.leader->0.lemma_record_all_keeps_progress(
            self.log.span(self.last_applied as int, self.commit_index as int),
            results,
        );
    }
}

impl<T> LeaderView<T> {
    /// Filing results changes nothing of what the leader knows of its followers.
    pub(crate) proof fn lemma_record_all_keeps_progress(
        self,
        entries: Seq<EntryView>,
        results: Seq<ResultView>,
    )
        ensures
            self.record_all(entries, results).next_index == self.next_index,
            self.record_all(entries, results).match_index == self.match_index,
            self.record_all(entries, results).last_client_id == self.last_client_id,
        decreases entries.len(),
    {
        if entries.len() > 0 {
            self.lemma_record_all_keeps_progress(entries.drop_last(), results.drop_last());
        }
    }
}

/// Of entries with indices that follow each other, those above `floor` are the last
/// ones.
pub(crate) proof fn lemma_filter_is_tail(entries: Seq<EntryView>, first: int, floor: u64)
    requires
        forall|k: int| 0 <= k < entries.len() ==> (#[trigger] entries[k]).index == first + k,
    ensures
        ({
            let dropped = if floor + 1 - first <= 0 {
                0
            } else if floor + 1 - first >= entries.len() {
                entries.len() as int
            } else {
                floor + 1 - first
            };
            entries.filter(|e: EntryView| e.index > floor) == entries.skip(dropped)
        }),
    decreases entries.len(),
{
    reveal(Seq::filter);
    let keep = |e: EntryView| e.index > floor;
    if entries.len() > 0 {
        let shorter = entries.drop_last();
        assert forall|k: int| 0 <= k < shorter.len() implies (#[trigger] shorter[k]).index == first
            + k by {
            assert(shorter[k] == entries[k]);
        }
        lemma_filter_is_tail(shorter, first, floor);
        assert(entries.last() == entries[entries.len() - 1]);
        let dropped = if floor + 1 - first <= 0 {
            0
        } else if floor + 1 - first >= entries.len() {
            entries.len() as int
        } else {
            floor + 1 - first
        };
        assert(entries.filter(keep) =~= entries.skip(dropped));
    } else {
        assert(entries.filter(keep) =~= entries.skip(0));
    }
}

/// A node that starts from stored entries with indices that follow each other is
/// consistent, and has every stored entry that the snapshot does not cover.
pub proof fn recovery_is_consistent<T>(
    node: NodeView<T>,
    snapshot: Option<(u64, u64)>,
    entries: Seq<EntryView>,
    first: int,
)
    requires
        forall|k: int| 0 <= k < entries.len() ==> (#[trigger] entries[k]).index == first + k,
        node.log == crate::recovery::recovered_log(snapshot, entries),
        crate::recovery::recovery_error(node.log) is None,
        node.commit_index == node.log.snapshot_index,
        node.last_applied == node.log.snapshot_index,
        node.state is Follower,
        node.leader is None,
    ensures
        node.consistent(),
        forall|k: int|
            0 <= k < entries.len() && (#[trigger] entries[k]).index > node.log.snapshot_index
                ==> node.log.entry_at(entries[k].index as int) == Some(entries[k]),
{
    let log = node.log;
    let floor = log.snapshot_index;
    lemma_filter_is_tail(entries, first, floor);
    let kept = entries.filter(|e: EntryView| e.index > floor);
    assert(log.slots =~= (if floor == 0 {
        seq![EntryView::dummy()]
    } else {
        Seq::empty()
    }) + kept);
    if log.len() > 0 {
        assert(log.first_index() == floor + 1);
        assert(log.entry_at(floor + 1) == Some(kept[0]));
    }
    assert forall|i: int| 0 <= i < log.slots.len() implies (#[trigger] log.slots[i]).index
        == log.base() + i by {
        if floor == 0 && i == 0 {
            assert(log.slots[0] == EntryView::dummy());
        } else {
            let k = if floor == 0 {
                i - 1
            } else {
                i
            };
            assert(log.slots[i] == kept[k]);
        }
    }
}

} // verus!
