//! Why two logs that share an entry share everything before it.

use crate::cluster::{ClusterStep, ClusterView};
use crate::events::EventView;
use crate::history::Move;
use crate::log::{EntryView, LogView};
use crate::messages::{AppendEntriesView, InstallSnapshotView};
use crate::model::{NodeView, SnapshotOffer};
use crate::types::NodeId;
use vstd::prelude::*;

verus! {

/// The history of a node holds its log: every index up to the last one, with the entries
/// that are in memory, and the term of the snapshot.
pub open spec fn records(history: Map<int, EntryView>, log: LogView) -> bool {
    &&& log.contiguous()
    &&& log.snapshot_index == 0 ==> log.slots[0].term == 0
    &&& forall|i: int| #[trigger] history.contains_key(i) <==> 0 < i <= log.last_index()
    &&& forall|i: int|
        log.snapshot_index < i <= log.last_index() ==> #[trigger] log.entry_at(i) == Some(
            history[i],
        )
    &&& log.snapshot_index > 0 ==> log.snapshot_term == history[log.snapshot_index as int].term
}

/// Each log of a term is still there, and at least as long.
pub open spec fn extends(
    before: Map<u64, Map<int, EntryView>>,
    after: Map<u64, Map<int, EntryView>>,
) -> bool {
    &&& forall|t: u64| #[trigger] before.contains_key(t) ==> after.contains_key(t)
    &&& forall|t: u64, i: int|
        #![trigger before.contains_key(t), before[t].contains_key(i)]
        before.contains_key(t) && before[t].contains_key(i) ==> after[t].contains_key(i)
            && after[t][i] == before[t][i]
}

impl<T> NodeView<T> {
    /// The log after the move.
    pub open spec fn log_after_move(self, m: Move<T>) -> LogView {
        match m {
            Move::Event { event: EventView::AppendEntriesReceived(req), .. } => {
                if self.state is Leader {
                    self.log
                } else {
                    self.log_after_append(req)
                }
            },
            Move::Event { event: EventView::ClientRequest(req), .. } => {
                if self.state is Leader && self.client_verdict(req) is Append {
                    self.log.append(seq![self.entry_for(req)])
                } else {
                    self.log
                }
            },
            Move::Event { event: EventView::SnapshotCompleted(index, term), .. } => {
                if self.state is Follower {
                    self.log
                } else {
                    self.log.compact(index, term)
                }
            },
            Move::Installed { req } => self.log.compact(
                req.last_included_index,
                req.last_included_term,
            ),
            _ => self.log,
        }
    }

    pub(crate) proof fn lemma_log_after_move(self, m: Move<T>)
        ensures
            self.after_move(m).log == self.log_after_move(m),
    {
    }
}

impl<T> ClusterView<T> {
    /// The entry of `history` at `i` is that of the log of its term, and so is every entry
    /// before it.
    pub open spec fn rooted_at(self, history: Map<int, EntryView>, i: int) -> bool {
        let term = history[i].term;
        &&& term > 0
        &&& self.term_logs.contains_key(term)
        &&& forall|j: int|
            0 < j <= i ==> #[trigger] self.term_logs[term].contains_key(j) && history[j]
                == self.term_logs[term][j]
    }

    pub open spec fn rooted(self, history: Map<int, EntryView>) -> bool {
        forall|i: int| #[trigger] history.contains_key(i) ==> self.rooted_at(history, i)
    }

    /// The request carries a piece of the log of its term.
    pub open spec fn carries_log(self, req: AppendEntriesView) -> bool {
        let log = self.term_logs[req.term];
        &&& req.orderly()
        &&& self.term_logs.contains_key(req.term)
        &&& req.prev_log_index > 0 ==> log.contains_key(req.prev_log_index as int)
            && log[req.prev_log_index as int].term == req.prev_log_term
        &&& forall|k: int| 0 <= k < req.entries.len() ==> #[trigger] self.carries_entry(req, k)
    }

    /// The entry of the request at `k` is that of the log of its term.
    pub open spec fn carries_entry(self, req: AppendEntriesView, k: int) -> bool {
        let log = self.term_logs[req.term];
        let index = req.prev_log_index + 1 + k;
        log.contains_key(index) && log[index] == req.entries[k]
    }

    /// The snapshot ends with an entry of the log of its term.
    pub open spec fn offers_log(self, offer: SnapshotOffer) -> bool {
        let log = self.term_logs[offer.term];
        &&& self.term_logs.contains_key(offer.term)
        &&& log.contains_key(offer.last_included_index as int)
        &&& log[offer.last_included_index as int].term == offer.last_included_term
    }

    /// The logs of the nodes are in order.
    pub open spec fn logs_in_order(self) -> bool {
        &&& self.votes_in_order()
        // the log of a node grew out of those of the terms
        &&& forall|i: NodeId| #[trigger]
            self.nodes.contains_key(i) ==> {
                &&& records(self.histories[i], self.nodes[i].log)
                &&& self.rooted(self.histories[i])
            }
        // only terms above zero have candidates and leaders
        &&& forall|i: NodeId| #[trigger]
            self.nodes.contains_key(i) && !(self.nodes[i].state is Follower)
                ==> self.nodes[i].current_term > 0
        // so did the log of each term, which has no gaps
        &&& forall|t: u64| #[trigger]
            self.term_logs.contains_key(t) ==> {
                &&& t > 0
                &&& self.rooted(self.term_logs[t])
                &&& forall|i: int| #[trigger] self.term_logs[t].contains_key(i) ==> i > 0
                &&& forall|i: int, j: int|
                    #![trigger self.term_logs[t].contains_key(i), self.term_logs[t].contains_key(j)]
                    self.term_logs[t].contains_key(i) && 0 < j <= i
                        ==> self.term_logs[t].contains_key(j)
            }
        // that of the current leader is the log of its term
        &&& forall|i: NodeId| #[trigger]
            self.nodes.contains_key(i) && self.nodes[i].state is Leader
                ==> self.term_logs.contains_key(self.nodes[i].current_term)
                && self.term_logs[self.nodes[i].current_term] == self.histories[i]
        // every term with a log had a leader
        &&& forall|t: u64| #[trigger]
            self.term_logs.contains_key(t) ==> exists|l: NodeId| #[trigger]
                self.leaders.contains_key((t, l))
        // what was sent is a piece of such a log
        &&& forall|req: AppendEntriesView| #[trigger]
            self.sent.contains(req) ==> self.carries_log(req)
        &&& forall|offer: SnapshotOffer| #[trigger]
            self.offers.contains(offer) ==> self.offers_log(offer)
    }

    /// The snapshot with which the step shortens a log ends with an entry of that log.  That
    /// of a leader may go beyond the log.
    pub open spec fn snapshot_fits(self, step: ClusterStep<T>) -> bool {
        match step {
            ClusterStep::Act {
                node,
                m: Move::Event { event: EventView::SnapshotCompleted(index, term), .. },
            } => self.own_snapshot_fits(node, index, term),
            ClusterStep::Restart { node, index, term } => self.own_snapshot_fits(
                node,
                index,
                term,
            ),
            ClusterStep::Act { node, m: Move::Installed { req } } => self.term_fits(
                node,
                req.last_included_index,
                req.last_included_term,
            ),
            _ => true,
        }
    }

    pub open spec fn own_snapshot_fits(self, node: NodeId, index: u64, term: u64) -> bool {
        let log = self.nodes[node].log;
        &&& index > log.snapshot_index ==> index <= log.last_index()
        &&& self.term_fits(node, index, term)
    }

    pub open spec fn term_fits(self, node: NodeId, index: u64, term: u64) -> bool {
        let log = self.nodes[node].log;
        log.snapshot_index < index <= log.last_index() ==> (log.entry_at(index as int)->0).term
            == term
    }

    /// A cluster in which nothing has happened yet and whose logs are empty.
    pub open spec fn blank(self) -> bool {
        &&& self.fresh()
        &&& forall|i: NodeId| #[trigger]
            self.nodes.contains_key(i) ==> {
                &&& self.nodes[i].log == (LogView {
                    snapshot_index: 0,
                    snapshot_term: 0,
                    slots: seq![EntryView::dummy()],
                    dropped_client_id: 0,
                })
                &&& self.nodes[i].commit_index == 0
                &&& self.histories[i] == Map::<int, EntryView>::empty()
            }
    }

    /// In none of the steps does a snapshot replace an entry of another term.
    pub open spec fn snapshots_fit(self, steps: Seq<ClusterStep<T>>) -> bool
        decreases steps.len(),
    {
        steps.len() > 0 ==> {
            &&& self.snapshots_fit(steps.drop_last())
            &&& self.after_steps(steps.drop_last()).snapshot_fits(steps.last())
        }
    }

    proof fn lemma_rooted_stays(self, after: ClusterView<T>, history: Map<int, EntryView>)
        requires
            self.rooted(history),
            extends(self.term_logs, after.term_logs),
            forall|i: int| #[trigger] history.contains_key(i) ==> i > 0,
        ensures
            after.rooted(history),
    {
        assert forall|i: int| #[trigger] history.contains_key(i) implies after.rooted_at(
            history,
            i,
        ) by {
            assert(self.rooted_at(history, i));
            let term = history[i].term;
            assert(self.term_logs[term].contains_key(i));
            assert forall|j: int| 0 < j <= i implies #[trigger] after.term_logs[term].contains_key(
                j,
            ) && history[j] == after.term_logs[term][j] by {
                assert(self.term_logs[term].contains_key(j));
            }
        }
    }

    proof fn lemma_carries_log_stays(self, after: ClusterView<T>, req: AppendEntriesView)
        requires
            self.carries_log(req),
            extends(self.term_logs, after.term_logs),
        ensures
            after.carries_log(req),
    {
        let log = self.term_logs[req.term];
        if req.prev_log_index > 0 {
            assert(log.contains_key(req.prev_log_index as int));
        }
        assert forall|k: int| 0 <= k < req.entries.len() implies #[trigger] after.carries_entry(
            req,
            k,
        ) by {
            assert(self.carries_entry(req, k));
            assert(log.contains_key(req.prev_log_index + 1 + k));
        }
    }
}

// ---- what happens to the history of a node ----

pub(crate) proof fn lemma_history_stays(history: Map<int, EntryView>, log: LogView)
    requires
        records(history, log),
    ensures
        crate::cluster::updated_history(history, log) == history,
{
    log.lemma_contiguous();
    let after = crate::cluster::updated_history(history, log);
    assert forall|i: int| #[trigger] after.contains_key(i) <==> history.contains_key(i) by {}
    assert forall|i: int| #[trigger] after.contains_key(i) implies after[i] == history[i] by {
        if i > log.snapshot_index {
            assert(log.entry_at(i) == Some(history[i]));
        }
    }
    assert(after =~= history);
}

/// What a log remembers of client ids does not matter to its history.
pub(crate) proof fn lemma_history_restarted(history: Map<int, EntryView>, log: LogView)
    requires
        records(history, log),
    ensures
        records(history, (LogView { dropped_client_id: 0, ..log })),
{
    let same = LogView { dropped_client_id: 0, ..log };
    assert(same.contiguous());
    assert forall|i: int|
        same.snapshot_index < i <= same.last_index() implies #[trigger] same.entry_at(i) == Some(
        history[i],
    ) by {
        assert(log.entry_at(i) == Some(history[i]));
    }
}

pub(crate) proof fn lemma_history_compacted(
    history: Map<int, EntryView>,
    log: LogView,
    index: u64,
    term: u64,
)
    requires
        records(history, log),
        log.snapshot_index < index ==> index <= log.last_index() && (log.entry_at(
            index as int,
        )->0).term == term,
    ensures
        records(history, log.compact(index, term)),
{
    if log.snapshot_index < index {
        log.lemma_contiguous();
        log.lemma_compact(index, term);
        assert(log.entry_at(index as int) == Some(history[index as int]));
        let shorter = log.compact(index, term);
        assert forall|i: int|
            shorter.snapshot_index < i <= shorter.last_index() implies #[trigger] shorter.entry_at(
            i,
        ) == Some(history[i]) by {
            assert(shorter.entry_at(i) == log.entry_at(i));
        }
    }
}

pub(crate) proof fn lemma_history_extended(history: Map<int, EntryView>, log: LogView, e: EntryView)
    requires
        records(history, log),
        e.index == log.last_index() + 1,
    ensures
        records(
            crate::cluster::updated_history(history, log.append(seq![e])),
            log.append(seq![e]),
        ),
        crate::cluster::updated_history(history, log.append(seq![e])) == history.insert(
            log.last_index() + 1,
            e,
        ),
{
    let longer = log.append(seq![e]);
    let after = crate::cluster::updated_history(history, longer);
    log.lemma_contiguous();
    log.lemma_append(seq![e]);
    assert(seq![e].last() == e);
    assert(seq![e][0] == e);
    assert(longer.contiguous());
    longer.lemma_contiguous();
    assert(longer.entry_at(log.last_index() + 1) == Some(e));
    assert forall|i: int| 0 < i <= log.last_index() implies longer.entry_at(i) == log.entry_at(
        i,
    ) by {}
    assert forall|i: int| #[trigger]
        after.contains_key(i) <==> history.insert(log.last_index() + 1, e).contains_key(i) by {
        assert(history.contains_key(i) <==> 0 < i <= log.last_index());
    }
    assert forall|i: int| #[trigger] after.contains_key(i) implies after[i] == history.insert(
        log.last_index() + 1,
        e,
    )[i] by {
        if log.snapshot_index < i <= log.last_index() {
            assert(log.entry_at(i) == Some(history[i]));
        }
    }
    assert(after =~= history.insert(log.last_index() + 1, e));
}

impl<T> NodeView<T> {
    pub(crate) proof fn lemma_history_accepts(self, history: Map<int, EntryView>, req: AppendEntriesView)
        requires
            records(history, self.log),
            req.orderly(),
            self.append_verdict(req) is Accepted,
            req.entries.len() > 0,
        ensures
            ({
                let log = self.log_after_append(req);
                let after = crate::cluster::updated_history(history, log);
                &&& records(after, log)
                &&& log.last_index() == req.prev_log_index + req.entries.len()
                &&& forall|i: int|
                    0 < i <= req.prev_log_index ==> #[trigger] after[i] == history[i]
                &&& forall|i: int|
                    req.prev_log_index < i <= log.last_index() ==> #[trigger] after[i]
                        == req.entries[i - req.prev_log_index - 1]
                &&& req.prev_log_index > 0 ==> history.contains_key(req.prev_log_index as int)
                    && history[req.prev_log_index as int].term == req.prev_log_term
            }),
    {
        let log = self.log_after_append(req);
        let after = crate::cluster::updated_history(history, log);
        self.log.lemma_contiguous();
        self.lemma_append_keeps_order(req);
        log.lemma_contiguous();
        let prev = req.prev_log_index as int;
        if prev > self.log.snapshot_index {
            assert(self.log.entry_at(prev) == Some(history[prev]));
        }
        assert forall|i: int| #[trigger] after.contains_key(i) <==> 0 < i <= log.last_index() by {
            assert(history.contains_key(i) <==> 0 < i <= self.log.last_index());
        }
        assert forall|i: int| 0 < i <= prev implies #[trigger] after[i] == history[i] by {
            assert(after.contains_key(i));
            assert(log.entry_at(i) == self.log.entry_at(i));
            if i > self.log.snapshot_index {
                assert(self.log.entry_at(i) == Some(history[i]));
            }
        }
        assert forall|i: int| prev < i <= log.last_index() implies #[trigger] after[i]
            == req.entries[i - prev - 1] by {
            assert(after.contains_key(i));
            assert(log.entry_at(prev + 1 + (i - prev - 1)) == Some(req.entries[i - prev - 1]));
        }
        assert forall|i: int| log.snapshot_index < i <= log.last_index() implies #[trigger] log.entry_at(
            i,
        ) == Some(after[i]) by {
            assert(after.contains_key(i));
        }
        if log.snapshot_index > 0 {
            let s = log.snapshot_index as int;
            assert(after.contains_key(s));
            assert(after[s] == history[s]);
        }
    }
}

// ---- each step keeps the logs in order ----

impl<T> ClusterView<T> {
    /// What has to hold of the new state of one node for the logs to stay in order.
    #[verifier::rlimit(40)]
    proof fn lemma_one_node_changes(self, after: ClusterView<T>, node: NodeId)
        requires
            self.logs_in_order(),
            after.votes_in_order(),
            self.nodes.contains_key(node),
            after.nodes == self.nodes.insert(node, after.nodes[node]),
            after.histories == self.histories.insert(node, after.histories[node]),
            after.sent == self.sent,
            after.offers == self.offers,
            forall|l: (u64, NodeId)| #[trigger]
                self.leaders.contains_key(l) ==> after.leaders.contains_key(l),
            records(after.histories[node], after.nodes[node].log),
            extends(self.term_logs, after.term_logs),
            after.rooted(after.histories[node]),
            !(after.nodes[node].state is Follower) ==> after.nodes[node].current_term > 0,
            after.nodes[node].state is Leader ==> after.term_logs.contains_key(
                after.nodes[node].current_term,
            ) && after.term_logs[after.nodes[node].current_term] == after.histories[node],
            forall|t: u64| #[trigger]
                after.term_logs.contains_key(t) ==> {
                    ||| self.term_logs.contains_key(t) && after.term_logs[t] == self.term_logs[t]
                    ||| after.nodes[node].state is Leader && t == after.nodes[node].current_term
                },
        ensures
            after.logs_in_order(),
    {
        let next = after.nodes[node];
        assert(after.nodes.contains_key(node));
        assert forall|i: NodeId| #[trigger] after.nodes.contains_key(i) implies {
            &&& records(after.histories[i], after.nodes[i].log)
            &&& after.rooted(after.histories[i])
        } by {
            if i != node {
                assert(self.nodes.contains_key(i));
                self.lemma_rooted_stays(after, self.histories[i]);
            }
        }
        assert forall|t: u64| #[trigger] after.term_logs.contains_key(t) implies {
            &&& t > 0
            &&& after.rooted(after.term_logs[t])
            &&& forall|i: int| #[trigger] after.term_logs[t].contains_key(i) ==> i > 0
            &&& forall|i: int, j: int|
                #![trigger after.term_logs[t].contains_key(i), after.term_logs[t].contains_key(j)]
                after.term_logs[t].contains_key(i) && 0 < j <= i
                    ==> after.term_logs[t].contains_key(j)
        } by {
            if !(next.state is Leader && t == next.current_term) {
                self.lemma_rooted_stays(after, self.term_logs[t]);
            }
        }
        assert forall|i: NodeId| #[trigger]
            after.nodes.contains_key(i) && after.nodes[i].state is Leader implies after.term_logs.contains_key(
            after.nodes[i].current_term,
        ) && after.term_logs[after.nodes[i].current_term] == after.histories[i] by {
            if i != node {
                assert(self.nodes.contains_key(i));
                let t = after.nodes[i].current_term;
                assert(self.term_logs.contains_key(t));
                if next.state is Leader && t == next.current_term {
                    after.one_leader_per_term(t, i, node);
                }
            }
        }
        assert forall|t: u64| #[trigger] after.term_logs.contains_key(t) implies exists|l: NodeId|
            #[trigger] after.leaders.contains_key((t, l)) by {
            if next.state is Leader && t == next.current_term {
                assert(after.leaders.contains_key((t, node)));
            } else {
                let l = choose|l: NodeId| #[trigger] self.leaders.contains_key((t, l));
                assert(after.leaders.contains_key((t, l)));
            }
        }
        assert forall|req: AppendEntriesView| #[trigger]
            after.sent.contains(req) implies after.carries_log(req) by {
            assert(self.sent.contains(req));
            self.lemma_carries_log_stays(after, req);
        }
        assert forall|offer: SnapshotOffer| #[trigger]
            after.offers.contains(offer) implies after.offers_log(offer) by {
            assert(self.offers_log(offer));
            assert(self.term_logs[offer.term].contains_key(offer.last_included_index as int));
        }
    }

    /// A node changes without a change of its history.
    proof fn lemma_history_kept(self, after: ClusterView<T>, node: NodeId, next: NodeView<T>)
        requires
            self.logs_in_order(),
            after.votes_in_order(),
            self.nodes.contains_key(node),
            after.nodes == self.with_node(node, next).nodes,
            after.histories == self.with_node(node, next).histories,
            after.term_logs == self.with_node(node, next).term_logs,
            after.sent == self.sent,
            after.offers == self.offers,
            after.leaders == self.leaders,
            records(self.histories[node], next.log),
            next.state is Leader ==> self.nodes[node].state is Leader && next.current_term
                == self.nodes[node].current_term,
            !(next.state is Follower) ==> next.current_term > 0,
        ensures
            after.logs_in_order(),
    {
        let history = self.histories[node];
        lemma_history_stays(history, next.log);
        assert(after.term_logs =~= self.term_logs);
        assert(after.histories =~= self.histories);
        assert(after.nodes[node] == next);
        self.lemma_rooted_stays(after, history);
        self.lemma_one_node_changes(after, node);
    }

    /// A leader enters a request in its log.
    proof fn lemma_entered(self, after: ClusterView<T>, node: NodeId, next: NodeView<T>, e: EntryView)
        requires
            self.logs_in_order(),
            after.votes_in_order(),
            self.nodes.contains_key(node),
            after.nodes == self.with_node(node, next).nodes,
            after.histories == self.with_node(node, next).histories,
            after.term_logs == self.with_node(node, next).term_logs,
            after.sent == self.sent,
            after.offers == self.offers,
            after.leaders == self.leaders,
            self.nodes[node].state is Leader,
            next.state is Leader,
            next.current_term == self.nodes[node].current_term,
            next.log == self.nodes[node].log.append(seq![e]),
            e.term == next.current_term,
            e.index == self.nodes[node].log.last_index() + 1,
        ensures
            after.logs_in_order(),
    {
        let term = next.current_term;
        let before = self.histories[node];
        let history = after.histories[node];
        lemma_history_extended(before, self.nodes[node].log, e);
        assert(history == before.insert(e.index as int, e));
        assert(after.nodes[node] == next);
        assert(after.term_logs == self.term_logs.insert(term, history));
        assert(extends(self.term_logs, after.term_logs));
        self.lemma_rooted_stays(after, before);
        assert forall|i: int| #[trigger] history.contains_key(i) implies after.rooted_at(
            history,
            i,
        ) by {
            let own = history[i].term;
            if i == e.index {
                assert forall|j: int| 0 < j <= i implies #[trigger] after.term_logs[own].contains_key(
                    j,
                ) && history[j] == after.term_logs[own][j] by {
                    assert(j < e.index ==> before.contains_key(j));
                }
            } else {
                assert(before.contains_key(i));
                assert(after.rooted_at(before, i));
                assert(history[i] == before[i] && i < e.index);
                assert forall|j: int| 0 < j <= i implies #[trigger] after.term_logs[own].contains_key(
                    j,
                ) && history[j] == after.term_logs[own][j] by {
                    assert(after.term_logs[own].contains_key(j));
                    assert(history[j] == before[j]);
                }
            }
        }
        self.lemma_one_node_changes(after, node);
    }

    /// The log of a node that takes the entries of a leader is that of the leader as far as
    /// it goes.
    pub(crate) proof fn lemma_accepted_log(self, node: NodeId, req: AppendEntriesView)
        requires
            self.logs_in_order(),
            self.nodes.contains_key(node),
            self.sent.contains(req),
            self.nodes[node].append_verdict(req) is Accepted,
            req.entries.len() > 0,
        ensures
            ({
                let log = self.nodes[node].log_after_append(req);
                let history = crate::cluster::updated_history(self.histories[node], log);
                let tl = self.term_logs[req.term];
                &&& records(history, log)
                &&& log.last_index() == req.prev_log_index + req.entries.len()
                &&& forall|j: int|
                    0 < j <= req.prev_log_index + req.entries.len() ==> #[trigger] tl.contains_key(
                        j,
                    ) && history[j] == tl[j]
            }),
    {
        let before = self.histories[node];
        let log = self.nodes[node].log_after_append(req);
        let history = crate::cluster::updated_history(before, log);
        let prev = req.prev_log_index as int;
        let tl = self.term_logs[req.term];
        assert(self.carries_log(req));
        self.nodes[node].lemma_history_accepts(before, req);
        assert forall|j: int| 0 < j <= prev + req.entries.len() implies #[trigger] tl.contains_key(
            j,
        ) && history[j] == tl[j] by {
            if j > prev {
                assert(self.carries_entry(req, j - prev - 1));
                assert(history[j] == req.entries[j - prev - 1]);
            } else {
                assert(tl.contains_key(prev));
                assert(self.rooted_at(before, prev));
                assert(self.rooted_at(tl, prev));
                assert(history[j] == before[j]);
                assert(self.term_logs[req.prev_log_term].contains_key(j));
            }
        }
    }

    /// A follower or a candidate takes the entries of a leader.
    proof fn lemma_accepted(
        self,
        after: ClusterView<T>,
        node: NodeId,
        next: NodeView<T>,
        req: AppendEntriesView,
    )
        requires
            self.logs_in_order(),
            after.votes_in_order(),
            self.nodes.contains_key(node),
            after.nodes == self.with_node(node, next).nodes,
            after.histories == self.with_node(node, next).histories,
            after.term_logs == self.with_node(node, next).term_logs,
            after.sent == self.sent,
            after.offers == self.offers,
            after.leaders == self.leaders,
            self.sent.contains(req),
            self.nodes[node].append_verdict(req) is Accepted,
            req.entries.len() > 0,
            next.log == self.nodes[node].log_after_append(req),
            !(next.state is Leader),
            !(next.state is Follower) ==> next.current_term > 0,
        ensures
            after.logs_in_order(),
    {
        let before = self.histories[node];
        let history = after.histories[node];
        let tl = self.term_logs[req.term];
        self.lemma_accepted_log(node, req);
        self.nodes[node].lemma_history_accepts(before, req);
        assert(after.term_logs == self.term_logs);
        assert(after.nodes[node] == next);
        assert forall|i: int| #[trigger] history.contains_key(i) implies after.rooted_at(
            history,
            i,
        ) by {
            assert(tl.contains_key(i));
            assert(self.rooted_at(tl, i));
            let term = history[i].term;
            assert forall|j: int| 0 < j <= i implies #[trigger] after.term_logs[term].contains_key(
                j,
            ) && history[j] == after.term_logs[term][j] by {
                assert(tl.contains_key(j));
            }
        }
        self.lemma_one_node_changes(after, node);
    }

    /// The history of a node that installs a snapshot beyond its log is that of the leader
    /// up to the end of the snapshot.
    pub(crate) proof fn lemma_installed_log(self, node: NodeId, req: InstallSnapshotView)
        requires
            self.logs_in_order(),
            self.nodes.contains_key(node),
            self.offers.contains(req.offer()),
            req.last_included_index > self.nodes[node].log.last_index(),
        ensures
            ({
                let log = self.nodes[node].log.compact(
                    req.last_included_index,
                    req.last_included_term,
                );
                let tl = self.term_logs[req.term];
                let history = crate::cluster::updated_history(tl, log);
                &&& records(history, log)
                &&& log.snapshot_index == req.last_included_index
                &&& log.last_index() == req.last_included_index
                &&& self.term_logs.contains_key(req.term)
                &&& forall|j: int|
                    0 < j <= req.last_included_index ==> #[trigger] tl.contains_key(j)
                        && history[j] == tl[j]
            }),
    {
        let before = self.nodes[node].log;
        let log = before.compact(req.last_included_index, req.last_included_term);
        let tl = self.term_logs[req.term];
        let history = crate::cluster::updated_history(tl, log);
        let index = req.last_included_index as int;
        assert(self.offers_log(req.offer()));
        before.lemma_contiguous();
        before.lemma_compact(req.last_included_index, req.last_included_term);
        log.lemma_contiguous();
        assert(tl.contains_key(index));
        assert forall|j: int| 0 < j <= index implies #[trigger] tl.contains_key(j) && history[j]
            == tl[j] by {
            assert(log.entry_at(j) is None);
            assert(history.contains_key(j));
        }
        assert forall|j: int| #[trigger] history.contains_key(j) <==> 0 < j <= log.last_index() by {
            if 0 < j <= index {
                assert(tl.contains_key(j));
            }
        }
    }

    /// A follower installs a snapshot beyond its log.
    proof fn lemma_installed(
        self,
        after: ClusterView<T>,
        node: NodeId,
        next: NodeView<T>,
        req: InstallSnapshotView,
    )
        requires
            self.logs_in_order(),
            after.votes_in_order(),
            self.nodes.contains_key(node),
            after.nodes == self.with_history(node, next, self.term_logs[req.term]).nodes,
            after.histories == self.with_history(node, next, self.term_logs[req.term]).histories,
            after.term_logs == self.term_logs,
            after.sent == self.sent,
            after.offers == self.offers,
            after.leaders == self.leaders,
            self.offers.contains(req.offer()),
            req.last_included_index > self.nodes[node].log.last_index(),
            next.log == self.nodes[node].log.compact(
                req.last_included_index,
                req.last_included_term,
            ),
            next.state is Follower,
        ensures
            after.logs_in_order(),
    {
        let history = after.histories[node];
        let tl = self.term_logs[req.term];
        self.lemma_installed_log(node, req);
        assert(after.nodes[node] == next);
        assert forall|i: int| #[trigger] history.contains_key(i) implies after.rooted_at(
            history,
            i,
        ) by {
            assert(tl.contains_key(i));
            assert(self.rooted_at(tl, i));
            let term = history[i].term;
            assert forall|j: int| 0 < j <= i implies #[trigger] after.term_logs[term].contains_key(
                j,
            ) && history[j] == after.term_logs[term][j] by {
                assert(tl.contains_key(j));
            }
        }
        self.lemma_one_node_changes(after, node);
    }

    #[verifier::rlimit(40)]
    proof fn lemma_act_keeps_logs_in_order(self, node: NodeId, m: Move<T>)
        requires
            self.logs_in_order(),
            self.can_step(ClusterStep::Act { node, m }),
            self.snapshot_fits(ClusterStep::Act { node, m }),
        ensures
            self.after_step(ClusterStep::Act { node, m }).logs_in_order(),
    {
        let step = ClusterStep::Act { node, m };
        let after = self.after_step(step);
        let n = self.nodes[node];
        let next = n.after_move(m);
        let history = self.histories[node];
        self.lemma_step_keeps_votes_in_order(step);
        n.lemma_move_and_vote(m);
        n.lemma_log_after_move(m);
        match m {
            Move::Event { event: EventView::AppendEntriesReceived(req), .. } => {
                if !(n.state is Leader) && n.append_verdict(req) is Accepted && req.entries.len()
                    > 0 {
                    self.lemma_accepted(after, node, next, req);
                } else {
                    self.lemma_history_kept(after, node, next);
                }
            },
            Move::Event { event: EventView::ClientRequest(req), .. } => {
                if n.state is Leader && n.client_verdict(req) is Append {
                    self.lemma_entered(after, node, next, n.entry_for(req));
                } else {
                    self.lemma_history_kept(after, node, next);
                }
            },
            Move::Event { event: EventView::SnapshotCompleted(index, term), .. } => {
                lemma_history_compacted(history, n.log, index, term);
                self.lemma_history_kept(after, node, next);
            },
            Move::Installed { req } => {
                if req.last_included_index > n.log.last_index() {
                    self.lemma_installed(after, node, next, req);
                } else {
                    lemma_history_compacted(
                        history,
                        n.log,
                        req.last_included_index,
                        req.last_included_term,
                    );
                    self.lemma_history_kept(after, node, next);
                }
            },
            _ => {
                self.lemma_history_kept(after, node, next);
            },
        }
    }

    /// The request that a leader sends carries a piece of its log.
    proof fn lemma_sent_carries_log(self, node: NodeId, follower: NodeId)
        requires
            self.logs_in_order(),
            self.can_step(ClusterStep::Send { node, follower }),
            self.nodes[node].message_for(follower) is AppendEntries,
        ensures
            self.carries_log(self.nodes[node].message_for(follower)->request),
    {
        let n = self.nodes[node];
        let req = n.message_for(follower)->request;
        let history = self.histories[node];
        let prev = req.prev_log_index as int;
        let next = n.send_from(follower);
        n.log.lemma_contiguous();
        assert(self.term_logs[n.current_term] == history);
        if prev > 0 {
            if prev > n.log.snapshot_index {
                assert(n.log.entry_at(prev) is Some);
                assert(prev <= n.log.last_index());
                assert(n.log.entry_at(prev) == Some(history[prev]));
            }
            assert(history.contains_key(prev));
            assert(self.rooted_at(history, prev));
        }
        if n.log.snapshot_index < next <= n.log.last_index() {
            n.log.lemma_range(next, (n.log.last_index() + 1) as u64);
        }
        assert forall|k: int| 0 <= k < req.entries.len() implies #[trigger] self.carries_entry(
            req,
            k,
        ) && req.entries[k].index == prev + 1 + k by {
            assert(n.log.entry_at(next + k) == Some(req.entries[k]));
            assert(n.log.entry_at(next + k) == Some(history[next + k]));
            assert(history.contains_key(next + k));
        }
        assert forall|k: int| 0 <= k < req.entries.len() implies (#[trigger] req.entries[k]).index
            == prev + 1 + k by {
            assert(self.carries_entry(req, k));
        }
    }

    #[verifier::rlimit(40)]
    pub(crate) proof fn lemma_step_keeps_logs_in_order(self, step: ClusterStep<T>)
        requires
            self.logs_in_order(),
            self.can_step(step),
            self.snapshot_fits(step),
        ensures
            self.after_step(step).logs_in_order(),
    {
        let after = self.after_step(step);
        self.lemma_step_keeps_votes_in_order(step);
        match step {
            ClusterStep::Act { node, m } => self.lemma_act_keeps_logs_in_order(node, m),
            ClusterStep::Campaign { node } => {
                self.lemma_history_kept(after, node, self.nodes[node].campaigning());
            },
            ClusterStep::Restart { node, index, term } => {
                let n = self.nodes[node];
                lemma_history_compacted(self.histories[node], n.log, index, term);
                lemma_history_restarted(self.histories[node], n.log.compact(index, term));
                self.lemma_history_kept(after, node, n.restarted(index, term));
            },
            ClusterStep::Win { node, .. } => {
                let term = self.nodes[node].current_term;
                let history = self.histories[node];
                lemma_history_stays(history, self.nodes[node].log);
                assert(after.histories =~= self.histories);
                if self.term_logs.contains_key(term) {
                    let l = choose|l: NodeId| #[trigger] self.leaders.contains_key((term, l));
                    assert(after.leaders.contains_key((term, l)));
                    assert(after.leaders.contains_key((term, node)));
                    after.one_leader_per_term(term, l, node);
                }
                assert(after.term_logs == self.term_logs.insert(term, history));
                assert(extends(self.term_logs, after.term_logs));
                self.lemma_rooted_stays(after, history);
                self.lemma_one_node_changes(after, node);
            },
            ClusterStep::Send { node, follower } => {
                assert forall|req: AppendEntriesView| #[trigger]
                    after.sent.contains(req) implies after.carries_log(req) by {
                    if !self.sent.contains(req) {
                        self.lemma_sent_carries_log(node, follower);
                    }
                    self.lemma_carries_log_stays(after, req);
                }
                assert forall|offer: SnapshotOffer| #[trigger]
                    after.offers.contains(offer) implies after.offers_log(offer) by {
                    if self.offers.contains(offer) {
                        assert(self.offers_log(offer));
                    } else {
                        let n = self.nodes[node];
                        n.log.lemma_contiguous();
                        assert(self.histories[node].contains_key(n.log.snapshot_index as int));
                    }
                }
                assert forall|i: NodeId| #[trigger] after.nodes.contains_key(i) implies {
                    &&& records(after.histories[i], after.nodes[i].log)
                    &&& after.rooted(after.histories[i])
                } by {
                    assert(self.nodes.contains_key(i));
                    self.lemma_rooted_stays(after, self.histories[i]);
                }
                assert forall|t: u64| #[trigger] after.term_logs.contains_key(t) implies after.rooted(
                    after.term_logs[t],
                ) by {
                    assert(self.term_logs.contains_key(t));
                    self.lemma_rooted_stays(after, self.term_logs[t]);
                }
            },
        }
    }

    /// Whatever the steps of a cluster that starts with empty logs, the logs are in order,
    /// as long as no snapshot takes the place of an entry of another term.
    pub proof fn logs_stay_in_order(self, steps: Seq<ClusterStep<T>>)
        requires
            self.blank(),
            self.can_take(steps),
            self.snapshots_fit(steps),
        ensures
            self.after_steps(steps).logs_in_order(),
        decreases steps.len(),
    {
        if steps.len() > 0 {
            self.logs_stay_in_order(steps.drop_last());
            self.after_steps(steps.drop_last()).lemma_step_keeps_logs_in_order(steps.last());
        } else {
            self.votes_stay_in_order(steps);
        }
    }

    /// If the logs of two nodes have an entry of the same index and the same term, they
    /// have the same entries up to that index, as far as they are in memory.
    pub proof fn log_matching(
        self,
        steps: Seq<ClusterStep<T>>,
        a: NodeId,
        b: NodeId,
        index: int,
    )
        requires
            self.blank(),
            self.can_take(steps),
            self.snapshots_fit(steps),
            self.nodes.contains_key(a),
            self.nodes.contains_key(b),
            index > 0,
        ensures
            ({
                let log_a = self.after_steps(steps).nodes[a].log;
                let log_b = self.after_steps(steps).nodes[b].log;
                log_a.entry_at(index) is Some && log_b.entry_at(index) is Some
                    && log_a.entry_at(index)->0.term == log_b.entry_at(index)->0.term
                    ==> forall|i: int|
                    0 < i <= index && (#[trigger] log_a.entry_at(i)) is Some && log_b.entry_at(
                        i,
                    ) is Some ==> log_a.entry_at(i) == log_b.entry_at(i)
            }),
    {
        let now = self.after_steps(steps);
        self.logs_stay_in_order(steps);
        self.lemma_same_members(steps);
        let log_a = now.nodes[a].log;
        let log_b = now.nodes[b].log;
        let history_a = now.histories[a];
        let history_b = now.histories[b];
        log_a.lemma_contiguous();
        log_b.lemma_contiguous();
        if log_a.entry_at(index) is Some && log_b.entry_at(index) is Some
            && log_a.entry_at(index)->0.term == log_b.entry_at(index)->0.term {
            assert(log_a.entry_at(index) == Some(history_a[index]));
            assert(log_b.entry_at(index) == Some(history_b[index]));
            assert(history_a.contains_key(index) && history_b.contains_key(index));
            assert(now.rooted_at(history_a, index) && now.rooted_at(history_b, index));
            let term = history_a[index].term;
            assert forall|i: int|
                0 < i <= index && (#[trigger] log_a.entry_at(i)) is Some && log_b.entry_at(
                    i,
                ) is Some implies log_a.entry_at(i) == log_b.entry_at(i) by {
                assert(now.term_logs[term].contains_key(i));
                assert(log_a.entry_at(i) == Some(history_a[i]));
                assert(log_b.entry_at(i) == Some(history_b[i]));
            }
        }
    }

    pub(crate) proof fn lemma_same_members(self, steps: Seq<ClusterStep<T>>)
        requires
            self.can_take(steps),
        ensures
            self.after_steps(steps).nodes.dom() == self.nodes.dom(),
        decreases steps.len(),
    {
        if steps.len() > 0 {
            self.lemma_same_members(steps.drop_last());
            assert(self.after_steps(steps).nodes.dom() =~= self.nodes.dom());
        }
    }
}

} // verus!
