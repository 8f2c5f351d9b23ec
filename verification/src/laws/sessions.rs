//! What a node promises to clients.

use crate::events::{EventView, StepView};
use crate::laws::logs;
use crate::model::{NodeView, StorageOpView};
use crate::raft::State;
use crate::table::RequestTable;
use crate::types::{ClientId, ClientRequestView, CommandView, ResultView, SeqNum};
use vstd::prelude::*;

verus! {

/// The result of the request is still known, and the request does not say that it was
/// received.
pub open spec fn result_is_known<T>(node: NodeView<T>, req: ClientRequestView<T>) -> bool {
    &&& node.leader->0.client_results.contains_key((req.client_id, req.seq_num))
    &&& req.seq_num.0 > req.last_received_seq.0
}

/// A request of the client with this number or a later one was carried out.
pub open spec fn was_carried_out<T>(node: NodeView<T>, req: ClientRequestView<T>) -> bool {
    let last = node.leader->0.last_seq_nums;
    last.contains_key(req.client_id.0) && req.seq_num.0 <= last[req.client_id.0].0
}

/// The request waits for its entry to be committed.
pub open spec fn waits<T>(node: NodeView<T>, req: ClientRequestView<T>) -> bool {
    node.leader->0.pending_clients.contains_key((req.client_id, req.seq_num))
}

/// The request is a new one.
pub open spec fn is_new<T>(node: NodeView<T>, req: ClientRequestView<T>) -> bool {
    !result_is_known(node, req) && !was_carried_out(node, req) && !waits(node, req)
}

impl<T> NodeView<T> {
    /// A leader can take every request but a new one for which there is no index left, or no
    /// id.
    pub proof fn requests_can_be_taken(self, req: ClientRequestView<T>)
        requires
            self.state is Leader,
            self.leader is Some,
        ensures
            self.event_defined(EventView::ClientRequest(req)) <==> (is_new(self, req) ==> {
                &&& logs::end(self.log) < u64::MAX
                &&& req.command is RegisterClient ==> self.leader->0.last_client_id.0 < u64::MAX
            }),
    {
        let key = (req.client_id, req.seq_num);
        assert(req.client_id.requests_up_to(req.last_received_seq).contains(key)
            <==> req.seq_num.0 <= req.last_received_seq.0);
    }

    /// A leader answers a request that is not new at once: with the result, if it is known;
    /// with an empty one, if the request or a later one was carried out; else it says that
    /// the request is under way.  Its log stays as it is.
    pub proof fn old_requests_are_answered(self, req: ClientRequestView<T>)
        requires
            self.state is Leader,
            self.leader is Some,
            !is_new(self, req),
        ensures
            ({
                let event = EventView::<T>::ClientRequest(req);
                let after = self.after_event(event);
                let key = (req.client_id, req.seq_num);
                &&& after.log == self.log
                &&& after.leader->0.pending_clients == self.leader->0.pending_clients
                &&& after.leader->0.last_seq_nums == self.leader->0.last_seq_nums
                &&& after.leader->0.last_client_id == self.leader->0.last_client_id
                &&& self.reaction(event).step matches StepView::Answer { to, result } && {
                    &&& to == req.response_tx
                    &&& result_is_known(self, req) ==> result
                        == self.leader->0.client_results[key]
                    &&& !result_is_known(self, req) && was_carried_out(self, req) ==> result
                        == ResultView::Success(Seq::empty())
                    &&& !result_is_known(self, req) && !was_carried_out(self, req) ==> result
                        == ResultView::Error("Duplicate request is already in progress"@)
                }
            }),
    {
        let key = (req.client_id, req.seq_num);
        assert(req.client_id.requests_up_to(req.last_received_seq).contains(key)
            <==> req.seq_num.0 <= req.last_received_seq.0);
    }

    /// A leader enters a new request behind the last entry of its log, in its own term, saves
    /// the entry and sends it out; the client waits.  A command is entered under the number
    /// of the client, a registration under the next id and the number zero.
    pub proof fn new_requests_are_entered(self, req: ClientRequestView<T>)
        requires
            self.state is Leader,
            self.leader is Some,
            is_new(self, req),
            logs::end(self.log) < u64::MAX,
            req.command is RegisterClient ==> self.leader->0.last_client_id.0 < u64::MAX,
        ensures
            ({
                let event = EventView::<T>::ClientRequest(req);
                let after = self.after_event(event);
                let before = self.leader->0;
                let e = after.log.slots[self.log.slots.len() as int];
                &&& self.event_defined(event)
                &&& after.log.slots.len() == self.log.slots.len() + 1
                &&& forall|k: int|
                    0 <= k < self.log.slots.len() ==> #[trigger] after.log.slots[k]
                        == self.log.slots[k]
                &&& after.log.snapshot_index == self.log.snapshot_index
                &&& after.log.snapshot_term == self.log.snapshot_term
                &&& e.term == self.current_term
                &&& e.index == logs::end(self.log) + 1
                &&& e.command == req.command
                &&& req.command is ClientCommand ==> {
                    &&& e.client_id == req.client_id
                    &&& e.seq_num == req.seq_num
                    &&& after.leader->0.last_client_id == before.last_client_id
                    &&& after.leader->0.last_seq_nums == before.last_seq_nums
                }
                &&& req.command is RegisterClient ==> {
                    &&& e.client_id.0 == before.last_client_id.0 + 1
                    &&& e.seq_num.0 == 0
                    &&& after.leader->0.last_client_id == e.client_id
                    &&& after.leader->0.last_seq_nums == before.last_seq_nums.insert(
                        e.client_id.0,
                        SeqNum(0),
                    )
                }
                &&& after.leader->0.pending_clients == before.pending_clients.insert(
                    (e.client_id, e.seq_num),
                    req.response_tx,
                )
                &&& self.reaction(event).step matches StepView::Replicate { storage }
                    && storage.len() == 1 && storage[0] == (StorageOpView::AppendLog {
                    entries: seq![e],
                })
            }),
    {
        let key = (req.client_id, req.seq_num);
        assert(req.client_id.requests_up_to(req.last_received_seq).contains(key)
            <==> req.seq_num.0 <= req.last_received_seq.0);
    }

    /// With every request a leader drops the results that the client has received, and no
    /// others; whatever the request, it leads on.
    pub proof fn received_results_are_dropped(self, req: ClientRequestView<T>)
        requires
            self.state is Leader,
            self.leader is Some,
        ensures
            ({
                let event = EventView::<T>::ClientRequest(req);
                let after = self.after_event(event);
                let results = after.leader->0.client_results;
                &&& forall|k: (ClientId, SeqNum)| #[trigger]
                    results.contains_key(k) <==> self.leader->0.client_results.contains_key(k) && !(
                    k.0 == req.client_id && k.1.0 <= req.last_received_seq.0)
                &&& forall|k: (ClientId, SeqNum)| #[trigger]
                    results.contains_key(k) ==> results[k] == self.leader->0.client_results[k]
                &&& after.leader is Some
                &&& after.leader->0.next_index == self.leader->0.next_index
                &&& after.leader->0.match_index == self.leader->0.match_index
                &&& after.config == self.config
                &&& after.state == self.state
                &&& after.current_term == self.current_term
                &&& after.voted_for == self.voted_for
                &&& after.commit_index == self.commit_index
                &&& after.last_applied == self.last_applied
                &&& after.current_leader == self.current_leader
                &&& !self.reaction(event).leave && !self.reaction(event).reset_timer
            }),
    {
        let after = self.after_event(EventView::ClientRequest(req)).leader->0.client_results;
        assert forall|k: (ClientId, SeqNum)| #[trigger]
            after.contains_key(k) <==> self.leader->0.client_results.contains_key(k) && !(k.0
                == req.client_id && k.1.0 <= req.last_received_seq.0) by {
            assert(req.client_id.requests_up_to(req.last_received_seq).contains(k) <==> k.0
                == req.client_id && k.1.0 <= req.last_received_seq.0);
        }
    }

    /// A node that does not lead sends a client to the leader that it knows, and says so if it
    /// knows none; a candidate knows none.  Nothing changes.
    pub proof fn clients_are_sent_to_the_leader(self, req: ClientRequestView<T>)
        requires
            !(self.state is Leader) || self.leader is None,
        ensures
            ({
                let event = EventView::<T>::ClientRequest(req);
                &&& self.event_defined(event)
                &&& self.after_event(event) == self
                &&& !self.reaction(event).leave && !self.reaction(event).reset_timer
                &&& self.reaction(event).step matches StepView::Answer { to, result } && {
                    &&& to == req.response_tx
                    &&& self.state is Candidate ==> result == ResultView::Error(
                        "No leader elected yet. Node is currently a candidate"@,
                    )
                    &&& !(self.state is Candidate) && self.current_leader is Some ==> result
                        == ResultView::Redirect(self.current_leader->0)
                    &&& self.state is Follower && self.current_leader is None ==> result
                        == ResultView::Error("Leader is currrently unknown. Try again later."@)
                    &&& self.state is Leader && self.current_leader is None ==> result
                        == ResultView::Error("Node is not a leader"@)
                }
            }),
    {
    }

    /// A request that is handed to the node itself is taken as a leader takes it: what the
    /// role of the node is makes no difference.
    pub proof fn requests_are_taken_alike(self, req: ClientRequestView<T>)
        ensures
            ({
                let event = EventView::<T>::ClientRequest(req);
                let leader = NodeView { state: State::Leader, ..self };
                &&& leader.after_event(event) == (NodeView {
                    state: State::Leader,
                    ..self.after_client_request(req)
                })
                &&& self.after_client_request(req).state == self.state
                &&& self.client_verdict(req) is Append <==> leader.reaction(
                    event,
                ).step is Replicate
                &&& !(self.client_verdict(req) is Append) ==> leader.reaction(event).step == (
                StepView::<T>::Answer { to: req.response_tx, result: self.client_answer(req) })
                &&& self.client_verdict(req) is Append ==> leader.reaction(event).step == (
                StepView::<T>::Replicate {
                    storage: seq![
                        StorageOpView::AppendLog { entries: seq![self.entry_for(req)] },
                    ],
                })
                &&& self.client_request_defined(req) == leader.event_defined(event)
            }),
    {
    }

    /// A client is sent to the leader that the node knows, or told what it is to be told.
    pub proof fn redirection_names_the_leader(self, unknown: Seq<char>)
        ensures
            self.current_leader is Some ==> self.redirect(unknown) == ResultView::Redirect(
                self.current_leader->0,
            ),
            self.current_leader is None ==> self.redirect(unknown) == ResultView::Error(unknown),
    {
    }
}

/// The requests of a client up to a number are its own, and all of them up to there.
pub proof fn requests_are_told_apart(client: ClientId, up_to: SeqNum, key: (ClientId, SeqNum))
    ensures
        client.requests_up_to(up_to).contains(key) <==> key.0 == client && key.1.0 <= up_to.0,
{
}

/// A list of a table has every request of it, with its value, and each once.
pub proof fn lists_are_complete<V>(
    pairs: Seq<((ClientId, SeqNum), V)>,
    table: Map<(ClientId, SeqNum), V>,
    key: (ClientId, SeqNum),
)
    requires
        RequestTable::<V>::lists(pairs, table),
    ensures
        table.contains_key(key) <==> pairs.contains((key, table[key])),
        forall|i: int, j: int|
            0 <= i < pairs.len() && 0 <= j < pairs.len() && (#[trigger] pairs[i]).0 == (
            #[trigger] pairs[j]).0 ==> i == j,
{
    if table.contains_key(key) {
        let i = choose|i: int| 0 <= i < pairs.len() && (#[trigger] pairs[i]).0 == key;
        assert(pairs[i] == (key, table[key]));
    }
}

/// Commands and results are seen whole.
pub proof fn requests_are_seen_whole<T>(req: crate::types::ClientRequest<T>)
    ensures
        req@.client_id == req.client_id && req@.seq_num == req.seq_num,
        req@.last_received_seq == req.last_received_seq,
        req@.response_tx == req.response_tx,
        req.command is RegisterClient ==> req@.command == CommandView::RegisterClient,
        req.command matches crate::types::RaftCommand::ClientCommand(bytes) ==> req@.command
            == CommandView::ClientCommand(bytes@),
{
}

} // verus!
