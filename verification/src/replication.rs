//! Copying the log from a leader to its followers.

use crate::log::{EntryView, LogEntry};
use crate::messages::{AppendEntriesRequest, AppendEntriesResponse, InstallSnapshotResponse};
use crate::model::{FollowerMessage, SnapshotOffer, StorageOp, StorageOpView};
use crate::raft::RaftNode;
use crate::types::NodeId;
use std::collections::HashMap;
use vstd::prelude::*;

verus! {

broadcast use vstd::std_specs::hash::group_hash_axioms;

/// What a leader does after the answer of a follower.
#[derive(Debug)]
pub enum ProgressOutcome {
    /// The follower is in a later term: the node follows, once this is saved.
    SteppedDown { save: StorageOp },
    /// The follower is to be sent the next message.
    Resend,
    /// There are newly committed entries to apply.
    Committed,
    Nothing,
}

/// The keys of a map of numbers, each once, in no particular order.
fn map_keys(map: &HashMap<NodeId, u64>) -> (r: Vec<NodeId>)
    ensures
        r@.no_duplicates(),
        r@.to_set() == map@.dom(),
{
    let mut found: Vec<NodeId> = Vec::new();
    for k in iter: map.keys()
        invariant
            found@ == iter.seq().unref().take(iter.index() as int),
            iter.seq().no_duplicates(),
            iter.seq().unref().to_set() == map@.dom(),
            iter.index() == iter.seq().len() ==> found@ == iter.seq().unref(),
    {
        found.push(*k);
    }
    found
}

/// How many followers hold the log up to `index`.
fn count_replicas(match_index: &HashMap<NodeId, u64>, index: u64) -> (r: usize)
    ensures
        r == crate::model::replicas(match_index@, index as int),
{
    let keys = map_keys(match_index);
    let ghost holds = |p: NodeId| match_index@[p] >= index;
    let mut count: usize = 0;
    let mut i: usize = 0;
    proof {
        assert(keys@.take(0).to_set() =~= Set::empty());
        assert(Set::<NodeId>::empty().filter(holds) =~= Set::empty());
    }
    while i < keys.len()
        invariant
            keys@.no_duplicates(),
            keys@.to_set() == match_index@.dom(),
            count <= i <= keys.len(),
            count == keys@.take(i as int).to_set().filter(holds).len(),
            holds == (|p: NodeId| match_index@[p] >= index),
        decreases keys.len() - i,
    {
        let key: NodeId = keys[i];
        proof {
            let before = keys@.take(i as int);
            assert(keys@.take(i + 1) =~= before.push(key));
            assert(!before.contains(key));
            before.lemma_push_to_set_commute(key);
            assert(keys@.to_set().contains(key));
            vstd::seq_lib::seq_to_set_is_finite(before);
            if holds(key) {
                assert(before.to_set().insert(key).filter(holds) =~= before.to_set().filter(
                    holds,
                ).insert(key));
            } else {
                assert(before.to_set().insert(key).filter(holds) =~= before.to_set().filter(
                    holds,
                ));
            }
        }
        if let Some(known) = match_index.get(&key) {
            if *known >= index {
                count = count + 1;
            }
        }
        i = i + 1;
    }
    assert(keys@.take(i as int) =~= keys@);
    count
}

impl<T> RaftNode<T> {
    /// The indices in `req` are ones that the log can count with.
    pub fn can_append(&self, req: &AppendEntriesRequest) -> (r: bool)
        ensures
            r == self@.append_defined(req@),
    {
        let n: usize = req.entries.len();
        if n == 0 || req.term < self.current_term {
            return true;
        }
        if req.prev_log_index < self.log.snapshot_index() || !self.agrees_before(req) {
            return true;
        }
        let last: u64 = req.entries[n - 1].index;
        assert(req@.entries.last().index == last);
        req.prev_log_index < u64::MAX && last < u64::MAX
    }

    /// With `req` the node learns that more is committed than it knew.
    pub fn commits_on(&self, req: &AppendEntriesRequest) -> (r: bool)
        ensures
            r == self@.commits_on(req@),
    {
        req.term >= self.current_term && req.prev_log_index >= self.log.snapshot_index()
            && self.agrees_before(req) && req.leader_commit > self.commit_index
    }

    /// The logs agree at the index before the entries of `req`.
    fn agrees_before(&self, req: &AppendEntriesRequest) -> (r: bool)
        ensures
            r == (req.prev_log_index == 0 || self@.term_at(req.prev_log_index)
                == req.prev_log_term),
    {
        if req.prev_log_index == 0 {
            return true;
        }
        let our_term: u64 = if req.prev_log_index == self.log.snapshot_index() {
            self.log.snapshot_term()
        } else {
            match self.log.get(req.prev_log_index) {
                Some(entry) => entry.term,
                None => 0,
            }
        };
        our_term == req.prev_log_term
    }

    /// Takes the entries of a leader.
    ///
    /// The storage operations come first, then the committed entries are applied if
    /// the request tells of new ones, then the response goes out.
    pub fn handle_append_entries(&mut self, req: AppendEntriesRequest) -> (r: (
        AppendEntriesResponse,
        Vec<StorageOp>,
    ))
        requires
            old(self)@.append_defined(req@),
        ensures
            final(self)@ == old(self)@.after_append_entries(req@),
            r.0 == old(self)@.append_response(req@),
            StorageOpView::all(r.1@) == old(self)@.append_ops(req@),
    {
        let mut storage: Vec<StorageOp> = Vec::new();
        if req.term < self.current_term {
            assert(StorageOpView::all(storage@) =~= old(self)@.append_ops(req@));
            return (
                AppendEntriesResponse {
                    term: self.current_term,
                    success: false,
                    conflict_index: 0,
                    last_log_index: self.log.last_index(),
                },
                storage,
            );
        }
        if req.term > self.current_term {
            storage.push(self.become_follower(req.term));
        }
        self.current_leader = Some(req.leader_id);
        let prev_index: u64 = req.prev_log_index;
        if prev_index < self.log.snapshot_index() {
            assert(StorageOpView::all(storage@) =~= old(self)@.append_ops(req@));
            return (
                AppendEntriesResponse {
                    term: self.current_term,
                    success: true,
                    conflict_index: 0,
                    last_log_index: self.log.last_index(),
                },
                storage,
            );
        }
        if !self.agrees_before(&req) {
            assert(StorageOpView::all(storage@) =~= old(self)@.append_ops(req@));
            return (
                AppendEntriesResponse {
                    term: self.current_term,
                    success: false,
                    conflict_index: prev_index,
                    last_log_index: self.log.last_index(),
                },
                storage,
            );
        }
        assert(old(self)@.append_verdict(req@) is Accepted);
        if req.entries.len() > 0 {
            self.log.truncate_from(prev_index + 1);
            self.log.append(req.entries);
            assert(self.log@ == old(self)@.log_after_append(req@));
            assert(self.log@.last_index() == req@.entries.last().index);
            let entries = self.log.get_range(prev_index + 1, self.log.last_index() + 1);
            storage.push(StorageOp::AppendLog { entries });
        }
        assert(StorageOpView::all(storage@) =~= old(self)@.append_ops(req@));
        let last_index: u64 = self.log.last_index();
        if req.leader_commit > self.commit_index {
            self.commit_index = if req.leader_commit <= last_index {
                req.leader_commit
            } else {
                last_index
            };
        }
        (
            AppendEntriesResponse {
                term: self.current_term,
                success: true,
                conflict_index: 0,
                last_log_index: last_index,
            },
            storage,
        )
    }

    /// The index of the first entry to send to `follower`.
    fn first_to_send(&self, follower: NodeId) -> (r: u64)
        requires
            self@.leader is Some,
            self@.log.last_index() < u64::MAX,
        ensures
            r == self@.send_from(follower),
    {
        match &self.leader_state {
            Some(leader) => match leader.next_index.get(&follower) {
                Some(next) => *next,
                None => self.log.last_index() + 1,
            },
            None => self.log.last_index() + 1,
        }
    }

    /// The node can tell what to send to `follower`.
    pub fn can_send_to(&self, follower: NodeId) -> (r: bool)
        ensures
            r == self@.message_defined(follower),
    {
        if self.leader_state.is_none() || self.log.last_index() == u64::MAX {
            return false;
        }
        let next: u64 = self.first_to_send(follower);
        let prev: u64 = if next > 0 {
            next - 1
        } else {
            0
        };
        let snapshot_index: u64 = self.log.snapshot_index();
        if prev < snapshot_index {
            return true;
        }
        if prev != 0 && prev != snapshot_index && self.log.get(prev).is_none() {
            return false;
        }
        let last_index: u64 = self.log.last_index();
        next > last_index || self.log.range_len(next, last_index + 1) <= u64::MAX - prev
    }

    /// The entries from `next` on.
    fn entries_to_send(&self, next: u64) -> (r: Vec<LogEntry>)
        requires
            self@.log.last_index() < u64::MAX,
        ensures
            EntryView::all(r@) == (if next <= self@.log.last_index() {
                self@.log.range(next, (self@.log.last_index() + 1) as u64)
            } else {
                Seq::empty()
            }),
    {
        let last_index: u64 = self.log.last_index();
        if next <= last_index {
            self.log.get_range(next, last_index + 1)
        } else {
            let none: Vec<LogEntry> = Vec::new();
            assert(EntryView::all(none@) =~= Seq::empty());
            none
        }
    }

    /// What the leader sends to `follower`: the entries from its next index on, or
    /// the snapshot where the log does not reach back that far.
    pub fn append_entries_for(&self, follower: NodeId) -> (r: FollowerMessage)
        requires
            self@.message_defined(follower),
        ensures
            r@ == self@.message_for(follower),
    {
        let next: u64 = self.first_to_send(follower);
        let prev_log_index: u64 = if next > 0 {
            next - 1
        } else {
            0
        };
        let snapshot_index: u64 = self.log.snapshot_index();
        if prev_log_index < snapshot_index {
            return FollowerMessage::InstallSnapshot {
                offer: SnapshotOffer {
                    term: self.current_term,
                    leader_id: self.config.node_id,
                    last_included_index: snapshot_index,
                    last_included_term: self.log.snapshot_term(),
                },
            };
        }
        let prev_log_term: u64 = if prev_log_index == 0 {
            0
        } else if prev_log_index == snapshot_index {
            self.log.snapshot_term()
        } else {
            self.log.get(prev_log_index).unwrap().term
        };
        let entries = self.entries_to_send(next);
        assert(EntryView::all(entries@) == self@.entries_for(follower));
        let match_target: u64 = prev_log_index + entries.len() as u64;
        FollowerMessage::AppendEntries {
            request: AppendEntriesRequest {
                term: self.current_term,
                leader_id: self.config.node_id,
                prev_log_index,
                prev_log_term,
                entries,
                leader_commit: self.commit_index,
            },
            match_target,
        }
    }

    /// What the leader sends to each of its peers.
    pub fn broadcast(&self) -> (r: Vec<(NodeId, FollowerMessage)>)
        requires
            forall|i: int|
                0 <= i < self.config.peers@.len() ==> self@.message_defined(
                    #[trigger] self.config.peers@[i],
                ),
        ensures
            r@.len() == self.config.peers@.len(),
            forall|i: int|
                0 <= i < r@.len() ==> (#[trigger] r@[i]).0 == self.config.peers@[i] && r@[i].1@
                    == self@.message_for(self.config.peers@[i]),
    {
        let mut messages: Vec<(NodeId, FollowerMessage)> = Vec::new();
        let mut i: usize = 0;
        while i < self.config.peers.len()
            invariant
                messages@.len() == i <= self.config.peers@.len(),
                forall|j: int|
                    0 <= j < self.config.peers@.len() ==> self@.message_defined(
                        #[trigger] self.config.peers@[j],
                    ),
                forall|j: int|
                    0 <= j < i ==> (#[trigger] messages@[j]).0 == self.config.peers@[j]
                        && messages@[j].1@ == self@.message_for(self.config.peers@[j]),
            decreases self.config.peers.len() - i,
        {
            let peer: NodeId = self.config.peers[i];
            messages.push((peer, self.append_entries_for(peer)));
            i = i + 1;
        }
        messages
    }

    /// The highest index that a majority holds and that the leader may commit, or
    /// what is committed already.
    fn find_commit(&self) -> (r: u64)
        requires
            self@.leader is Some,
            self@.commit_scan_defined(),
        ensures
            r == self@.highest_committable(self@.log.last_index() as int),
    {
        let last_index: u64 = self.log.last_index();
        let majority: usize = self.config.majority();
        if let Some(leader) = &self.leader_state {
            let mut index: u64 = last_index;
            while index > self.commit_index
                invariant
                    self@.leader == Some(leader@),
                    self@.commit_scan_defined(),
                    last_index == self@.log.last_index(),
                    majority == self@.config.majority_view(),
                    self.commit_index <= index <= last_index || index == last_index,
                    self@.highest_committable(last_index as int) == self@.highest_committable(
                        index as int,
                    ),
                decreases index,
            {
                assert(self@.highest_committable(index as int) <= index) by {
                    self@.lemma_highest_committable(index as int);
                }
                let entry = self.log.get(index).unwrap();
                if entry.term == self.current_term {
                    let count: usize = count_replicas(&leader.match_index, index);
                    if count >= majority - 1 {
                        return index;
                    }
                }
                index = index - 1;
            }
        }
        self.commit_index
    }

    /// The index after what `follower` is known to hold can be counted.
    pub(crate) fn can_note_match(&self, follower: NodeId, index: u64) -> (r: bool)
        ensures
            self@.leader is Some ==> r == (self@.match_for(follower) < u64::MAX && index
                < u64::MAX),
    {
        match &self.leader_state {
            Some(leader) => match leader.match_index.get(&follower) {
                Some(known) => *known < u64::MAX && index < u64::MAX,
                None => index < u64::MAX,
            },
            None => false,
        }
    }

    /// Once `follower` is known to agree up to `index`, looking for what to commit meets
    /// no missing entry.
    pub(crate) fn can_find_commit(&self, follower: NodeId, index: u64) -> (r: bool)
        requires
            self@.leader is Some,
        ensures
            r == self@.with_match(follower, index).commit_scan_defined(),
    {
        let ghost noted = self@.with_match(follower, index);
        let last_index: u64 = self.log.last_index();
        let majority: usize = self.config.majority();
        if self.commit_index == u64::MAX {
            return false;
        }
        if let Some(leader) = &self.leader_state {
            let mut match_index: HashMap<NodeId, u64> = leader.match_index.clone();
            let before: u64 = match match_index.get(&follower) {
                Some(known) => *known,
                None => 0,
            };
            let known: u64 = if before >= index {
                before
            } else {
                index
            };
            match_index.insert(follower, known);
            let mut i: u64 = last_index;
            while i > self.commit_index
                invariant
                    noted == self@.with_match(follower, index),
                    noted.leader->0.match_index == match_index@,
                    self.commit_index < u64::MAX,
                    last_index == self@.log.last_index(),
                    majority == self@.config.majority_view(),
                    i <= last_index,
                    self.commit_index <= i || i == last_index,
                    noted.highest_committable(last_index as int) == noted.highest_committable(
                        i as int,
                    ),
                    forall|j: int|
                        i < j <= last_index ==> (#[trigger] noted.log.entry_at(j)) is Some,
                decreases i,
            {
                proof {
                    noted.lemma_highest_committable(i as int);
                }
                match self.log.get(i) {
                    Some(entry) => {
                        if entry.term == self.current_term {
                            let count: usize = count_replicas(&match_index, i);
                            if count >= majority - 1 {
                                assert(noted.committable(i as int));
                                return true;
                            }
                        }
                    },
                    None => {
                        assert(noted.log.entry_at(i as int) is None);
                        return false;
                    },
                }
                assert(!noted.committable(i as int));
                i = i - 1;
            }
        }
        true
    }

    /// Notes how far `follower` agrees with the log.
    fn note_match(&mut self, follower: NodeId, index: u64)
        requires
            old(self)@.leader is Some,
            old(self)@.match_for(follower) < u64::MAX,
            index < u64::MAX,
        ensures
            final(self)@ == old(self)@.with_match(follower, index),
    {
        if let Some(leader) = self.leader_state.as_mut() {
            let before: u64 = match leader.match_index.get(&follower) {
                Some(known) => *known,
                None => 0,
            };
            let known: u64 = if before >= index {
                before
            } else {
                index
            };
            leader.match_index.insert(follower, known);
            leader.next_index.insert(follower, known + 1);
        }
    }

    /// Takes the answer of `follower` to entries up to `match_target`.
    pub fn handle_append_entries_response(
        &mut self,
        resp: AppendEntriesResponse,
        follower: NodeId,
        match_target: u64,
    ) -> (r: ProgressOutcome)
        requires
            old(self)@.append_answer_defined(resp, follower, match_target),
        ensures
            final(self)@ == old(self)@.after_append_answer(resp, follower, match_target),
            if resp.term > old(self).current_term {
                r matches ProgressOutcome::SteppedDown { save } && save@
                    == (StorageOpView::SaveTerm { term: resp.term, voted_for: None })
            } else if resp.success {
                if final(self).commit_index > old(self).commit_index {
                    r is Committed
                } else {
                    r is Nothing
                }
            } else {
                if old(self)@.next_for(follower) <= match_target {
                    r is Resend
                } else {
                    r is Nothing
                }
            },
    {
        if resp.term > self.current_term {
            return ProgressOutcome::SteppedDown { save: self.become_follower(resp.term) };
        }
        if !resp.success {
            let mut resend: bool = false;
            if let Some(leader) = self.leader_state.as_mut() {
                let mut next: u64 = match leader.next_index.get(&follower) {
                    Some(next) => *next,
                    None => 1,
                };
                if next <= match_target {
                    if resp.conflict_index > 0 && resp.conflict_index < next {
                        next = resp.conflict_index;
                    } else if next > 1 {
                        next = next - 1;
                    } else {
                        next = 1;
                    }
                    resend = true;
                }
                leader.next_index.insert(follower, next);
            }
            return if resend {
                ProgressOutcome::Resend
            } else {
                ProgressOutcome::Nothing
            };
        }
        self.note_match(follower, match_target);
        let commit: u64 = self.find_commit();
        if commit > self.commit_index {
            self.commit_index = commit;
            ProgressOutcome::Committed
        } else {
            proof {
                self@.lemma_highest_committable(self@.log.last_index() as int);
            }
            ProgressOutcome::Nothing
        }
    }

    /// Takes the answer of `follower` to the snapshot up to `last_included_index`.
    pub fn handle_install_snapshot_response(
        &mut self,
        resp: InstallSnapshotResponse,
        follower: NodeId,
        last_included_index: u64,
    ) -> (r: ProgressOutcome)
        requires
            old(self)@.snapshot_answer_defined(resp, follower, last_included_index),
        ensures
            resp.term > old(self).current_term ==> {
                &&& final(self)@ == old(self)@.step_down(resp.term)
                &&& r matches ProgressOutcome::SteppedDown { save } && save@
                    == (StorageOpView::SaveTerm { term: resp.term, voted_for: None })
            },
            resp.term <= old(self).current_term && resp.success ==> {
                &&& final(self)@ == old(self)@.with_match(follower, last_included_index)
                &&& r is Resend
            },
            resp.term <= old(self).current_term && !resp.success ==> {
                &&& final(self)@ == old(self)@
                &&& r is Nothing
            },
    {
        if resp.term > self.current_term {
            return ProgressOutcome::SteppedDown { save: self.become_follower(resp.term) };
        }
        if resp.success {
            self.note_match(follower, last_included_index);
            return ProgressOutcome::Resend;
        }
        ProgressOutcome::Nothing
    }
}

} // verus!
