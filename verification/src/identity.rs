//! Why no two clients have the same id.

use crate::cluster::{ClusterStep, ClusterView};
use crate::events::EventView;
use crate::history::Move;
use crate::log::EntryView;
use crate::model::NodeView;
use crate::types::{ClientId, NodeId};
use vstd::prelude::*;

verus! {

/// The log has a registration at the index.
pub open spec fn registers_at(history: Map<int, EntryView>, i: int) -> bool {
    history.contains_key(i) && history[i].command is RegisterClient
}

/// Each registration has a higher id than those before it.
pub open spec fn ids_ascend(history: Map<int, EntryView>) -> bool {
    forall|i: int, j: int|
        i < j && #[trigger] registers_at(history, i) && #[trigger] registers_at(history, j)
            ==> history[i].client_id.0 < history[j].client_id.0
}

/// No registration has an id above `id`.
pub open spec fn ids_up_to(history: Map<int, EntryView>, id: ClientId) -> bool {
    forall|i: int| #[trigger] registers_at(history, i) ==> history[i].client_id.0 <= id.0
}

impl<T> ClusterView<T> {
    /// The logs are in order, and so are the ids in them; a leader goes on from the highest.
    pub open spec fn ids_in_order(self) -> bool {
        &&& self.logs_in_order()
        &&& forall|t: u64| #[trigger]
            self.term_logs.contains_key(t) ==> ids_ascend(self.term_logs[t])
        &&& forall|i: NodeId| #[trigger]
            self.nodes.contains_key(i) && self.nodes[i].state is Leader
                ==> self.nodes[i].leader is Some && ids_up_to(
                self.histories[i],
                self.nodes[i].leader->0.last_client_id,
            )
    }

    /// Who wins an election knows the ids of the registrations in its snapshot, from its
    /// storage or since its log had them.  Those after the snapshot it has in its log.
    pub open spec fn winner_knows_ids(self, step: ClusterStep<T>) -> bool {
        step matches ClusterStep::Win { node, last_client_id, .. } ==> {
            let log = self.nodes[node].log;
            let history = self.histories[node];
            forall|i: int|
                i <= log.snapshot_index && #[trigger] registers_at(history, i)
                    ==> history[i].client_id.0 <= last_client_id.0 || history[i].client_id.0
                    <= log.highest_client_id()
        }
    }

    pub open spec fn winners_know_ids(self, steps: Seq<ClusterStep<T>>) -> bool
        decreases steps.len(),
    {
        steps.len() > 0 ==> {
            &&& self.winners_know_ids(steps.drop_last())
            &&& self.after_steps(steps.drop_last()).winner_knows_ids(steps.last())
        }
    }

    /// What grew out of logs with ascending ids has ascending ids.
    proof fn lemma_rooted_ids_ascend(self, history: Map<int, EntryView>)
        requires
            self.rooted(history),
            forall|t: u64| #[trigger]
                self.term_logs.contains_key(t) ==> ids_ascend(self.term_logs[t]),
            forall|i: int| #[trigger] history.contains_key(i) ==> i > 0,
        ensures
            ids_ascend(history),
    {
        assert forall|i: int, j: int|
            i < j && #[trigger] registers_at(history, i) && #[trigger] registers_at(
                history,
                j,
            ) implies history[i].client_id.0 < history[j].client_id.0 by {
            assert(self.rooted_at(history, j));
            let log = self.term_logs[history[j].term];
            assert(log.contains_key(i) && log.contains_key(j));
            assert(registers_at(log, i) && registers_at(log, j));
        }
    }

    /// A leader that keeps its history and the id that it gave out last.
    proof fn lemma_leader_keeps_ids(self, node: NodeId, m: Move<T>)
        requires
            self.ids_in_order(),
            self.can_step(ClusterStep::Act { node, m }),
            self.snapshot_fits(ClusterStep::Act { node, m }),
            self.nodes[node].after_move(m).state is Leader,
        ensures
            ({
                let after = self.after_step(ClusterStep::Act { node, m });
                let next = after.nodes[node];
                &&& next.leader is Some
                &&& ids_up_to(after.histories[node], next.leader->0.last_client_id)
                &&& ids_ascend(after.histories[node])
            }),
    {
        let n = self.nodes[node];
        let next = n.after_move(m);
        let history = self.histories[node];
        let after = self.after_step(ClusterStep::Act { node, m });
        n.lemma_move_and_vote(m);
        n.lemma_log_after_move(m);
        assert(self.term_logs.contains_key(n.current_term));
        assert(ids_ascend(history));
        assert(after.nodes[node] == next);
        if let Move::Event { event, results } = m {
            n.last_id_never_decreases(event, results);
            let entered = event matches EventView::ClientRequest(req) && n.client_verdict(
                req,
            ) is Append;
            if entered {
                n.lemma_entered_id(history, event, results);
                assert(after.histories[node] == crate::cluster::updated_history(
                    history,
                    next.log,
                ));
            } else {
                if let EventView::SnapshotCompleted(index, term) = event {
                    crate::matching::lemma_history_compacted(history, n.log, index, term);
                }
                crate::matching::lemma_history_stays(history, next.log);
                assert(after.histories[node] == history);
            }
        }
    }

    #[verifier::rlimit(40)]
    pub(crate) proof fn lemma_step_keeps_ids_in_order(self, step: ClusterStep<T>)
        requires
            self.ids_in_order(),
            self.can_step(step),
            self.snapshot_fits(step),
            self.winner_knows_ids(step),
        ensures
            self.after_step(step).ids_in_order(),
    {
        let after = self.after_step(step);
        self.lemma_step_keeps_logs_in_order(step);
        match step {
            ClusterStep::Act { node, m } => {
                let n = self.nodes[node];
                n.lemma_move_and_vote(m);
                if n.after_move(m).state is Leader {
                    self.lemma_leader_keeps_ids(node, m);
                }
            },
            ClusterStep::Win { node, last_client_id, last_seq_nums, .. } => {
                let n = self.nodes[node];
                let history = self.histories[node];
                crate::matching::lemma_history_stays(history, n.log);
                self.lemma_rooted_ids_ascend(history);
                n.log.lemma_contiguous();
                let last = n.become_leader(last_client_id, last_seq_nums).leader->0.last_client_id;
                EntryView::lemma_highest_id(n.log.slots, n.log.dropped_client_id);
                assert forall|i: int| #[trigger] registers_at(
                    history,
                    i,
                ) implies history[i].client_id.0 <= last.0 by {
                    if i > n.log.snapshot_index {
                        assert(n.log.entry_at(i) == Some(history[i]));
                        assert(n.log.slots[i - n.log.base()] == history[i]);
                    }
                }
            },
            _ => {},
        }
    }

    pub(crate) proof fn lemma_steps_keep_ids_in_order(self, steps: Seq<ClusterStep<T>>)
        requires
            self.ids_in_order(),
            self.can_take(steps),
            self.snapshots_fit(steps),
            self.winners_know_ids(steps),
        ensures
            self.after_steps(steps).ids_in_order(),
        decreases steps.len(),
    {
        if steps.len() > 0 {
            self.lemma_steps_keep_ids_in_order(steps.drop_last());
            self.after_steps(steps.drop_last()).lemma_step_keeps_ids_in_order(steps.last());
        }
    }

    /// Whatever the steps of a cluster that starts with empty logs, each registration in a
    /// log has a higher id than those before it, as long as who wins an election knows the
    /// ids in its snapshot.
    pub proof fn ids_stay_in_order(self, steps: Seq<ClusterStep<T>>)
        requires
            self.blank(),
            self.can_take(steps),
            self.snapshots_fit(steps),
            self.winners_know_ids(steps),
        ensures
            self.after_steps(steps).ids_in_order(),
            forall|i: NodeId| #[trigger]
                self.nodes.contains_key(i) ==> ids_ascend(self.after_steps(steps).histories[i]),
    {
        let now = self.after_steps(steps);
        self.logs_stay_in_order(Seq::empty());
        self.lemma_steps_keep_ids_in_order(steps);
        self.lemma_same_members(steps);
        assert forall|i: NodeId| #[trigger] self.nodes.contains_key(i) implies ids_ascend(
            now.histories[i],
        ) by {
            assert(now.nodes.contains_key(i));
            now.lemma_rooted_ids_ascend(now.histories[i]);
        }
    }

    /// No two clients have the same id: registrations at different indices that any two
    /// nodes have committed, at the same time or one later than the other, have different
    /// ids.
    #[verifier::rlimit(40)]
    pub proof fn clients_have_different_ids(
        self,
        steps: Seq<ClusterStep<T>>,
        later: Seq<ClusterStep<T>>,
        a: NodeId,
        b: NodeId,
        i: int,
        j: int,
    )
        requires
            self.blank(),
            self.can_take(steps),
            self.sound_steps(steps),
            self.winners_know_ids(steps),
            self.after_steps(steps).can_take(later),
            self.after_steps(steps).sound_steps(later),
            self.after_steps(steps).winners_know_ids(later),
            self.nodes.contains_key(a),
            self.nodes.contains_key(b),
            0 < i <= self.after_steps(steps).nodes[a].commit_index,
            0 < j <= self.after_steps(steps).after_steps(later).nodes[b].commit_index,
            i != j,
            registers_at(self.after_steps(steps).histories[a], i),
            registers_at(self.after_steps(steps).after_steps(later).histories[b], j),
        ensures
            self.after_steps(steps).histories[a][i].client_id
                != self.after_steps(steps).after_steps(later).histories[b][j].client_id,
    {
        let now = self.after_steps(steps);
        let end = now.after_steps(later);
        self.lemma_sound_steps_fit(steps);
        now.lemma_sound_steps_fit(later);
        self.ids_stay_in_order(steps);
        now.lemma_steps_keep_ids_in_order(later);
        self.lemma_same_members(steps);
        now.lemma_same_members(later);
        assert(end.nodes.contains_key(b));
        end.lemma_rooted_ids_ascend(end.histories[b]);
        if i < j {
            self.state_machine_safety(steps, later, a, b, i);
            assert(registers_at(end.histories[b], i));
        } else {
            self.state_machine_safety(steps, later, a, b, j);
            assert(registers_at(now.histories[a], j));
        }
    }

    proof fn lemma_sound_steps_fit(self, steps: Seq<ClusterStep<T>>)
        requires
            self.sound_steps(steps),
        ensures
            self.snapshots_fit(steps),
        decreases steps.len(),
    {
        if steps.len() > 0 {
            self.lemma_sound_steps_fit(steps.drop_last());
        }
    }
}

impl<T> NodeView<T> {
    /// A registration that a leader enters has an id above those in its log.
    proof fn lemma_entered_id(
        self,
        history: Map<int, EntryView>,
        event: EventView<T>,
        results: Seq<crate::types::ResultView>,
    )
        requires
            self.state is Leader,
            self.leader is Some,
            self.event_defined(event),
            crate::matching::records(history, self.log),
            ids_ascend(history),
            ids_up_to(history, self.leader->0.last_client_id),
            event matches EventView::ClientRequest(req) && self.client_verdict(req) is Append,
        ensures
            ({
                let next = self.after_move(Move::Event { event, results });
                let after = crate::cluster::updated_history(history, next.log);
                &&& next.leader is Some
                &&& ids_ascend(after)
                &&& ids_up_to(after, next.leader->0.last_client_id)
            }),
    {
        if let EventView::ClientRequest(req) = event {
            let m = Move::Event { event, results };
            let next = self.after_move(m);
            let e = self.entry_for(req);
            let after = crate::cluster::updated_history(history, next.log);
            self.lemma_log_after_move(m);
            self.last_id_never_decreases(event, results);
            crate::matching::lemma_history_extended(history, self.log, e);
            let applying = self.after_event(event);
            applying.leader->0.lemma_record_all_keeps_progress(
                applying.log.span(applying.last_applied as int, applying.commit_index as int),
                results,
            );
            assert forall|i: int| #[trigger] registers_at(after, i) implies after[i].client_id.0
                <= next.leader->0.last_client_id.0 && (i <= self.log.last_index() ==> registers_at(
                history,
                i,
            ) && after[i] == history[i]) by {
                if i <= self.log.last_index() {
                    assert(registers_at(history, i));
                }
            }
            assert forall|i: int, j: int|
                i < j && #[trigger] registers_at(after, i) && #[trigger] registers_at(
                    after,
                    j,
                ) implies after[i].client_id.0 < after[j].client_id.0 by {
                assert(registers_at(history, i));
            }
        }
    }
}

} // verus!
