//! What the storage has: that a node which starts again has forgotten neither its vote nor
//! its log.

use crate::cluster::{ClusterStep, ClusterView};
use crate::events::EventView;
use crate::history::Move;
use crate::log::{EntryView, LogView};
use crate::model::{NodeView, StorageOpView};
use crate::types::NodeId;
use vstd::prelude::*;

verus! {

/// The entries with an index above `floor`.
pub open spec fn above(entries: Seq<EntryView>, floor: u64) -> Seq<EntryView> {
    entries.filter(|e: EntryView| e.index > floor)
}

/// The entries with an index below `end`.
pub open spec fn below(entries: Seq<EntryView>, end: u64) -> Seq<EntryView> {
    entries.filter(|e: EntryView| e.index < end)
}

/// The entries that the storage has after the operations.
///
/// What is appended takes the place of every entry from its first index on.  A storage that
/// only adds at the end would give back entries that a leader has replaced.
pub open spec fn saved_log(before: Seq<EntryView>, ops: Seq<StorageOpView>) -> Seq<EntryView>
    decreases ops.len(),
{
    if ops.len() == 0 {
        before
    } else {
        let saved = saved_log(before, ops.drop_last());
        match ops.last() {
            StorageOpView::AppendLog { entries } => if entries.len() == 0 {
                saved
            } else {
                below(saved, entries[0].index) + entries
            },
            StorageOpView::TruncateLog { index } => above(saved, index),
            StorageOpView::SaveTerm { .. } => saved,
        }
    }
}

/// What the storage has of a node, besides its snapshot.
pub struct StorageView {
    /// The term and the vote.
    pub vote: (u64, Option<NodeId>),
    pub log: Seq<EntryView>,
}

impl StorageView {
    /// The storage after the operations.
    pub open spec fn after(self, ops: Seq<StorageOpView>) -> StorageView {
        StorageView {
            vote: crate::history::saved_vote(self.vote, ops),
            log: saved_log(self.log, ops),
        }
    }

    /// The storage has the term, the vote and the log of the node.
    pub open spec fn has<T>(self, node: NodeView<T>) -> bool {
        &&& self.vote == (node.current_term, node.voted_for)
        &&& node.log.is_saved_in(self.log)
    }
}

impl LogView {
    /// The entries after the snapshot.
    pub open spec fn entries(self) -> Seq<EntryView> {
        if self.snapshot_index == 0 {
            self.slots.skip(1)
        } else {
            self.slots
        }
    }

    /// Of the saved entries, those after the snapshot are the entries of the log.
    pub open spec fn is_saved_in(self, saved: Seq<EntryView>) -> bool {
        &&& self.snapshot_index == 0 ==> {
            &&& self.snapshot_term == 0
            &&& self.slots.len() > 0
            &&& self.slots[0] == EntryView::dummy()
        }
        &&& above(saved, self.snapshot_index) == self.entries()
    }
}

// ---- picking entries by index ----

proof fn lemma_above_twice(entries: Seq<EntryView>, low: u64, high: u64)
    requires
        low <= high,
    ensures
        above(above(entries, low), high) == above(entries, high),
        above(above(entries, high), low) == above(entries, high),
    decreases entries.len(),
{
    reveal(Seq::filter);
    if entries.len() > 0 {
        let shorter = entries.drop_last();
        lemma_above_twice(shorter, low, high);
        let e = entries.last();
        assert(above(shorter, low).push(e).drop_last() =~= above(shorter, low));
        assert(above(shorter, high).push(e).drop_last() =~= above(shorter, high));
    }
}

proof fn lemma_above_below(entries: Seq<EntryView>, floor: u64, end: u64)
    ensures
        above(below(entries, end), floor) == below(above(entries, floor), end),
    decreases entries.len(),
{
    reveal(Seq::filter);
    if entries.len() > 0 {
        let shorter = entries.drop_last();
        lemma_above_below(shorter, floor, end);
        let e = entries.last();
        assert(above(shorter, floor).push(e).drop_last() =~= above(shorter, floor));
        assert(below(shorter, end).push(e).drop_last() =~= below(shorter, end));
    }
}

proof fn lemma_all_above(entries: Seq<EntryView>, floor: u64)
    requires
        forall|k: int| 0 <= k < entries.len() ==> (#[trigger] entries[k]).index > floor,
    ensures
        above(entries, floor) == entries,
    decreases entries.len(),
{
    reveal(Seq::filter);
    if entries.len() > 0 {
        let shorter = entries.drop_last();
        assert forall|k: int| 0 <= k < shorter.len() implies (#[trigger] shorter[k]).index
            > floor by {
            assert(shorter[k] == entries[k]);
        }
        lemma_all_above(shorter, floor);
        assert(entries.last() == entries[entries.len() - 1]);
        assert(entries =~= shorter.push(entries.last()));
    }
}

/// Of entries with indices that follow each other, those below `end` are the first ones.
proof fn lemma_below_is_head(entries: Seq<EntryView>, first: int, end: u64)
    requires
        forall|k: int| 0 <= k < entries.len() ==> (#[trigger] entries[k]).index == first + k,
        first <= end <= first + entries.len(),
    ensures
        below(entries, end) == entries.take(end - first),
    decreases entries.len(),
{
    reveal(Seq::filter);
    if entries.len() > 0 {
        let shorter = entries.drop_last();
        assert forall|k: int| 0 <= k < shorter.len() implies (#[trigger] shorter[k]).index == first
            + k by {
            assert(shorter[k] == entries[k]);
        }
        assert(entries.last() == entries[entries.len() - 1]);
        if end < first + entries.len() {
            lemma_below_is_head(shorter, first, end);
            assert(shorter.take(end - first) =~= entries.take(end - first));
        } else {
            lemma_all_below(shorter, end);
            assert(entries =~= shorter.push(entries.last()));
            assert(entries.take(end - first) =~= entries);
        }
    } else {
        assert(entries.take(0) =~= entries);
    }
}

proof fn lemma_all_below(entries: Seq<EntryView>, end: u64)
    requires
        forall|k: int| 0 <= k < entries.len() ==> (#[trigger] entries[k]).index < end,
    ensures
        below(entries, end) == entries,
    decreases entries.len(),
{
    reveal(Seq::filter);
    if entries.len() > 0 {
        let shorter = entries.drop_last();
        assert forall|k: int| 0 <= k < shorter.len() implies (#[trigger] shorter[k]).index
            < end by {
            assert(shorter[k] == entries[k]);
        }
        lemma_all_below(shorter, end);
        assert(entries.last() == entries[entries.len() - 1]);
        assert(entries =~= shorter.push(entries.last()));
    }
}

// ---- the log and its storage change together ----

impl LogView {
    /// The entries of a log carry the indices that follow its snapshot.
    proof fn lemma_entries(self)
        requires
            self.contiguous(),
        ensures
            self.entries().len() == self.len(),
            forall|k: int|
                0 <= k < self.entries().len() ==> (#[trigger] self.entries()[k]).index
                    == self.snapshot_index + 1 + k,
    {
        assert forall|k: int| 0 <= k < self.entries().len() implies (
        #[trigger] self.entries()[k]).index == self.snapshot_index + 1 + k by {
            if self.snapshot_index == 0 {
                assert(self.entries()[k] == self.slots[k + 1]);
            } else {
                assert(self.entries()[k] == self.slots[k]);
            }
        }
    }

    /// A log that a snapshot has shortened is saved, whether or not the storage has dropped
    /// the entries too.
    proof fn lemma_compacted_is_saved(self, saved: Seq<EntryView>, index: u64, term: u64)
        requires
            self.contiguous(),
            self.is_saved_in(saved),
        ensures
            self.compact(index, term).is_saved_in(saved),
            self.compact(index, term).is_saved_in(above(saved, index)),
    {
        let snapshot = self.snapshot_index;
        if snapshot < index {
            let shorter = self.compact(index, term);
            lemma_above_twice(saved, snapshot, index);
            lemma_above_twice(saved, index, index);
            self.lemma_entries();
            self.lemma_contiguous();
            crate::consistency::lemma_filter_is_tail(self.entries(), snapshot + 1, index);
            assert(above(saved, index) == above(self.entries(), index));
            assert(shorter.entries() =~= above(self.entries(), index));
        } else {
            lemma_above_twice(saved, index, snapshot);
        }
    }

    /// A log in which new entries take the place of those after `prev` is saved, if they do
    /// so in the storage.
    proof fn lemma_entered_is_saved(
        self,
        saved: Seq<EntryView>,
        prev: u64,
        entries: Seq<EntryView>,
    )
        requires
            self.contiguous(),
            self.is_saved_in(saved),
            self.snapshot_index <= prev <= self.last_index(),
            prev < u64::MAX,
            forall|k: int|
                0 <= k < entries.len() ==> (#[trigger] entries[k]).index == prev + 1 + k,
        ensures
            self.truncate_from((prev + 1) as u64).append(entries).is_saved_in(
                below(saved, (prev + 1) as u64) + entries,
            ),
    {
        let snapshot = self.snapshot_index;
        let next = (prev + 1) as u64;
        let longer = self.truncate_from(next).append(entries);
        let kept = below(saved, next);
        self.lemma_contiguous();
        self.lemma_entries();
        Seq::filter_distributes_over_add(kept, entries, |e: EntryView| e.index > snapshot);
        assert(above(kept + entries, snapshot) == above(kept, snapshot) + above(entries, snapshot));
        lemma_all_above(entries, snapshot);
        lemma_above_below(saved, snapshot, next);
        lemma_below_is_head(self.entries(), snapshot + 1, next);
        assert(above(kept, snapshot) == self.entries().take(next - snapshot - 1));
        assert(longer.entries() =~= self.entries().take(next - snapshot - 1) + entries);
    }
}

/// Operations that touch no entry leave the log alone.
proof fn lemma_saved_log_stays(before: Seq<EntryView>, ops: Seq<StorageOpView>)
    requires
        forall|k: int| 0 <= k < ops.len() ==> #[trigger] ops[k] is SaveTerm,
    ensures
        saved_log(before, ops) == before,
    decreases ops.len(),
{
    if ops.len() > 0 {
        let shorter = ops.drop_last();
        assert forall|k: int| 0 <= k < shorter.len() implies #[trigger] shorter[k] is SaveTerm by {
            assert(shorter[k] == ops[k]);
        }
        lemma_saved_log_stays(before, shorter);
        assert(ops.last() == ops[ops.len() - 1]);
    }
}

impl<T> NodeView<T> {
    /// The entries that a node takes from a leader are those that it saves.
    proof fn lemma_accepted_is_saved(
        self,
        saved: Seq<EntryView>,
        req: crate::messages::AppendEntriesView,
        earlier: Seq<StorageOpView>,
    )
        requires
            self.log.contiguous(),
            self.log.is_saved_in(saved),
            req.orderly(),
            forall|k: int| 0 <= k < earlier.len() ==> #[trigger] earlier[k] is SaveTerm,
        ensures
            self.log_after_append(req).is_saved_in(
                saved_log(saved, earlier + self.append_ops(req)),
            ),
    {
        let ops = earlier + self.append_ops(req);
        let log = self.log_after_append(req);
        self.lemma_append_keeps_order(req);
        if self.append_verdict(req) is Accepted && req.entries.len() > 0 {
            let next = (req.prev_log_index + 1) as u64;
            let end = (log.last_index() + 1) as u64;
            let range = log.range(next, end);
            log.lemma_contiguous();
            log.lemma_range(next, end);
            assert forall|k: int| 0 <= k < range.len() implies range[k] == req.entries[k] by {
                assert(log.entry_at(next + k) == Some(range[k]));
                assert(log.entry_at(req.prev_log_index + 1 + k) == Some(req.entries[k]));
            }
            assert(range =~= req.entries);
            assert(ops.drop_last() =~= earlier + self.observe_term_ops(req.term));
            lemma_saved_log_stays(saved, ops.drop_last());
            assert(ops.last() == StorageOpView::AppendLog { entries: range });
            self.log.lemma_entered_is_saved(saved, req.prev_log_index, req.entries);
        } else {
            lemma_saved_log_stays(saved, ops);
        }
    }

    /// A node whose log is saved has it saved after the move.
    pub(crate) proof fn lemma_move_saves_log(self, m: Move<T>, saved: Seq<EntryView>)
        requires
            self.log.contiguous(),
            self.log.is_saved_in(saved),
            self.possible(m),
            m matches Move::Event { event: EventView::AppendEntriesReceived(req), .. }
                ==> req.orderly(),
        ensures
            self.after_move(m).log.is_saved_in(saved_log(saved, self.move_ops(m))),
    {
        let ops = self.move_ops(m);
        let none = Seq::<StorageOpView>::empty();
        reveal_with_fuel(saved_log, 2);
        self.lemma_log_after_move(m);
        match m {
            Move::Event { event: EventView::AppendEntriesReceived(req), .. } => {
                if self.state is Follower {
                    self.lemma_accepted_is_saved(saved, req, none);
                    assert(none + self.append_ops(req) =~= ops);
                } else if self.state is Candidate && req.term >= self.current_term {
                    let following = self.step_down(req.term);
                    following.lemma_accepted_is_saved(saved, req, seq![following.save_op()]);
                }
            },
            Move::Event { event: EventView::ClientRequest(req), .. } => {
                if self.state is Leader && self.client_verdict(req) is Append {
                    let e = self.entry_for(req);
                    self.log.lemma_contiguous();
                    self.log.lemma_entered_is_saved(saved, self.log.last_index(), seq![e]);
                    assert(ops.drop_last() =~= none);
                    assert(self.log.truncate_from(e.index) == self.log);
                }
            },
            Move::Event { event: EventView::SnapshotCompleted(index, term), .. } => {
                self.log.lemma_compacted_is_saved(saved, index, term);
                if ops.len() > 0 {
                    assert(ops.drop_last() =~= none);
                }
            },
            Move::Installed { req } => {
                self.log.lemma_compacted_is_saved(
                    saved,
                    req.last_included_index,
                    req.last_included_term,
                );
                assert(ops.drop_last() =~= none);
            },
            _ => {
                lemma_saved_log_stays(saved, ops);
            },
        }
    }

    /// The entries that the storage has after the run.
    pub open spec fn saved_log_after_run(self, before: Seq<EntryView>, run: Seq<Move<T>>) -> Seq<
        EntryView,
    >
        decreases run.len(),
    {
        if run.len() == 0 {
            before
        } else {
            saved_log(
                self.saved_log_after_run(before, run.drop_last()),
                self.after_run(run.drop_last()).move_ops(run.last()),
            )
        }
    }

    /// The storage has the log of the node after every move of an orderly run.
    pub proof fn log_is_saved(self, before: Seq<EntryView>, run: Seq<Move<T>>)
        requires
            self.consistent(),
            self.orderly_run(run),
            self.log.is_saved_in(before),
        ensures
            self.after_run(run).log.is_saved_in(self.saved_log_after_run(before, run)),
        decreases run.len(),
    {
        if run.len() > 0 {
            let node = self.after_run(run.drop_last());
            self.log_is_saved(before, run.drop_last());
            self.run_stays_consistent(run.drop_last());
            node.move_stays_consistent(run.last());
            node.lemma_move_saves_log(
                run.last(),
                self.saved_log_after_run(before, run.drop_last()),
            );
        }
    }
}

// ---- starting again ----

/// A log that is saved comes back from the storage: without the entries that the stored
/// snapshot has taken in, which may be a later one than that with which the log starts, and
/// without what the log remembers of entries that it has dropped.
pub proof fn saved_log_is_recovered(saved: Seq<EntryView>, log: LogView, index: u64, term: u64)
    requires
        log.contiguous(),
        log.is_saved_in(saved),
        log.can_start_from(index, term),
    ensures
        crate::recovery::recovered_log(Some((index, term)), saved) == (LogView {
            dropped_client_id: 0,
            ..log.compact(index, term)
        }),
        crate::recovery::recovery_error(
            crate::recovery::recovered_log(Some((index, term)), saved),
        ) is None,
{
    let shorter = log.compact(index, term);
    let recovered = crate::recovery::recovered_log(Some((index, term)), saved);
    log.lemma_compacted_is_saved(saved, index, term);
    if log.snapshot_index < index {
        log.lemma_compact(index, term);
    }
    assert(shorter.contiguous());
    shorter.lemma_contiguous();
    assert(above(saved, index) == shorter.entries());
    reveal_with_fuel(EntryView::highest_id, 2);
    assert(seq![EntryView::dummy()].drop_last() =~= Seq::empty());
    assert(EntryView::highest_id(seq![EntryView::dummy()], 0) == 0);
    assert(recovered.slots =~= (if index == 0 {
        seq![EntryView::dummy()]
    } else {
        Seq::empty()
    }) + shorter.entries());
    assert(recovered.slots =~= shorter.slots);
    assert(recovered.snapshot_index == shorter.snapshot_index);
    if recovered.len() > 0 {
        assert(shorter.entry_at(shorter.snapshot_index + 1) is Some);
        assert(recovered.entry_at(shorter.snapshot_index + 1) == shorter.entry_at(
            shorter.snapshot_index + 1,
        ));
    }
}

/// A node that starts from a storage that has its term, its vote and its log is the node
/// after a restart.
pub proof fn restart_is_recovery<T>(node: NodeView<T>, storage: StorageView, index: u64, term: u64)
    requires
        node.log.contiguous(),
        storage.has(node),
        node.log.can_start_from(index, term),
    ensures
        ({
            let log = crate::recovery::recovered_log(Some((index, term)), storage.log);
            &&& crate::recovery::recovery_error(log) is None
            &&& crate::recovery::recovered_node::<T>(
                node.config,
                storage.vote.0,
                storage.vote.1,
                log,
            ) == node.restarted(index, term)
        }),
{
    saved_log_is_recovered(storage.log, node.log, index, term);
}

impl<T> ClusterView<T> {
    /// The storage operations of the node with the step.
    pub open spec fn step_ops(self, step: ClusterStep<T>, node: NodeId) -> Seq<StorageOpView> {
        match step {
            ClusterStep::Act { node: n, m } => if n == node {
                self.nodes[node].move_ops(m)
            } else {
                Seq::empty()
            },
            ClusterStep::Campaign { node: n } => if n == node {
                seq![self.nodes[node].campaigning().save_op()]
            } else {
                Seq::empty()
            },
            _ => Seq::empty(),
        }
    }

    /// The storage of a node, which had its term and its vote and no entry at first, after
    /// the steps.
    pub open spec fn storage_after(self, steps: Seq<ClusterStep<T>>, node: NodeId) -> StorageView
        decreases steps.len(),
    {
        if steps.len() == 0 {
            StorageView {
                vote: (self.nodes[node].current_term, self.nodes[node].voted_for),
                log: Seq::empty(),
            }
        } else {
            self.storage_after(steps.drop_last(), node).after(
                self.after_steps(steps.drop_last()).step_ops(steps.last(), node),
            )
        }
    }

    proof fn lemma_step_is_saved(self, step: ClusterStep<T>, node: NodeId, storage: StorageView)
        requires
            self.logs_in_order(),
            self.can_step(step),
            self.nodes.contains_key(node),
            storage.has(self.nodes[node]),
        ensures
            storage.after(self.step_ops(step, node)).has(self.after_step(step).nodes[node]),
    {
        let n = self.nodes[node];
        let ops = self.step_ops(step, node);
        reveal_with_fuel(crate::history::saved_vote, 2);
        assert(n.log.contiguous());
        match step {
            ClusterStep::Act { node: other, m } => {
                if other == node {
                    if let Move::Event { event: EventView::AppendEntriesReceived(req), .. } = m {
                        assert(self.carries_log(req));
                    }
                    n.lemma_move_saves_log(m, storage.log);
                    n.lemma_move_saves_vote(m);
                }
            },
            ClusterStep::Campaign { .. } => {
                lemma_saved_log_stays(storage.log, ops);
            },
            ClusterStep::Restart { node: other, index, term } => {
                if other == node {
                    n.log.lemma_compacted_is_saved(storage.log, index, term);
                    let log = n.log.compact(index, term);
                    assert((LogView { dropped_client_id: 0, ..log }).entries() == log.entries());
                }
            },
            _ => {},
        }
    }

    /// Whatever the steps of a cluster that starts with empty logs and empty storages, the
    /// storage of each node has its term, its vote and its log.  So a node that starts from
    /// it is the node after the restart.
    pub proof fn storage_has_the_nodes(self, steps: Seq<ClusterStep<T>>, node: NodeId)
        requires
            self.blank(),
            self.can_take(steps),
            self.snapshots_fit(steps),
            self.nodes.contains_key(node),
        ensures
            self.storage_after(steps, node).has(self.after_steps(steps).nodes[node]),
            forall|index: u64, term: u64|
                #![trigger self.after_steps(steps).nodes[node].restarted(index, term)]
                self.after_steps(steps).nodes[node].log.can_start_from(index, term) ==> {
                    let storage = self.storage_after(steps, node);
                    let log = crate::recovery::recovered_log(Some((index, term)), storage.log);
                    &&& crate::recovery::recovery_error(log) is None
                    &&& crate::recovery::recovered_node::<T>(
                        self.after_steps(steps).nodes[node].config,
                        storage.vote.0,
                        storage.vote.1,
                        log,
                    ) == self.after_steps(steps).nodes[node].restarted(index, term)
                },
        decreases steps.len(),
    {
        let now = self.after_steps(steps);
        let storage = self.storage_after(steps, node);
        self.logs_stay_in_order(steps);
        self.lemma_same_members(steps);
        assert(now.nodes.contains_key(node));
        if steps.len() > 0 {
            let before = self.after_steps(steps.drop_last());
            self.storage_has_the_nodes(steps.drop_last(), node);
            self.logs_stay_in_order(steps.drop_last());
            self.lemma_same_members(steps.drop_last());
            before.lemma_step_is_saved(
                steps.last(),
                node,
                self.storage_after(steps.drop_last(), node),
            );
        } else {
            reveal(Seq::filter);
            assert(now.nodes[node].log.entries() =~= Seq::empty());
        }
        assert forall|index: u64, term: u64|
            #![trigger now.nodes[node].restarted(index, term)]
            now.nodes[node].log.can_start_from(index, term) implies {
            let log = crate::recovery::recovered_log(Some((index, term)), storage.log);
            &&& crate::recovery::recovery_error(log) is None
            &&& crate::recovery::recovered_node::<T>(
                now.nodes[node].config,
                storage.vote.0,
                storage.vote.1,
                log,
            ) == now.nodes[node].restarted(index, term)
        } by {
            restart_is_recovery(now.nodes[node], storage, index, term);
        }
    }
}

} // verus!
