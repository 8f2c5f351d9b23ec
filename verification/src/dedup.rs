//! What clients can rely on: no request is entered twice, every request that waits is
//! answered with its own result, and every client has an id of its own.

use crate::client::ClientView;
use crate::events::EventView;
use crate::history::Move;
use crate::log::EntryView;
use crate::model::{LeaderView, NodeView};
use crate::types::{ClientId, ClientRequestView, ResultView, SeqNum};
use vstd::prelude::*;

verus! {

impl EntryView {
    /// The request that the entry carries out.
    pub open spec fn key(self) -> (ClientId, SeqNum) {
        (self.client_id, self.seq_num)
    }
}

impl<T> LeaderView<T> {
    /// The leader has seen the request: it waits, its result is known, or the client has
    /// gone on to a later number.
    pub open spec fn knows(self, key: (ClientId, SeqNum)) -> bool {
        ||| self.pending_clients.contains_key(key)
        ||| self.client_results.contains_key(key)
        ||| self.last_seq_nums.contains_key(key.0.0) && key.1.0 <= self.last_seq_nums[key.0.0].0
    }

    /// No request of the client with a number above that of the entry was carried out.
    pub open spec fn in_order(self, e: EntryView) -> bool {
        self.last_seq_nums.contains_key(e.client_id.0) ==> self.last_seq_nums[e.client_id.0].0
            <= e.seq_num.0
    }

    /// The requests of each client are carried out in the order of their numbers.
    pub open spec fn all_in_order(self, entries: Seq<EntryView>, results: Seq<ResultView>) -> bool
        decreases entries.len(),
    {
        entries.len() > 0 ==> {
            &&& self.all_in_order(entries.drop_last(), results.drop_last())
            &&& self.record_all(entries.drop_last(), results.drop_last()).in_order(entries.last())
        }
    }

    /// A request that the leader knows stays known while results are filed in the order of
    /// the numbers of each client.
    pub proof fn filing_keeps_requests_known(
        self,
        entries: Seq<EntryView>,
        results: Seq<ResultView>,
        key: (ClientId, SeqNum),
    )
        requires
            self.knows(key),
            self.all_in_order(entries, results),
        ensures
            self.record_all(entries, results).knows(key),
        decreases entries.len(),
    {
        if entries.len() > 0 {
            self.filing_keeps_requests_known(entries.drop_last(), results.drop_last(), key);
        }
    }

    /// A request that was carried out is known.
    pub proof fn carried_out_requests_are_known(
        self,
        entries: Seq<EntryView>,
        results: Seq<ResultView>,
        k: int,
    )
        requires
            0 <= k < entries.len(),
            self.all_in_order(entries, results),
        ensures
            self.record_all(entries, results).knows(entries[k].key()),
        decreases entries.len(),
    {
        if k < entries.len() - 1 {
            self.carried_out_requests_are_known(entries.drop_last(), results.drop_last(), k);
            let before = self.record_all(entries.drop_last(), results.drop_last());
            assert(before.knows(entries[k].key()));
        }
    }

    /// Filing results takes nobody off the list of those who wait, except with their own
    /// entry.
    proof fn lemma_waits_until_own_entry(
        self,
        entries: Seq<EntryView>,
        results: Seq<ResultView>,
        key: (ClientId, SeqNum),
    )
        ensures
            self.record_all(entries, results).pending_clients.contains_key(key) <==> {
                &&& self.pending_clients.contains_key(key)
                &&& forall|j: int| 0 <= j < entries.len() ==> (#[trigger] entries[j]).key() != key
            },
            self.record_all(entries, results).pending_clients.contains_key(key)
                ==> self.record_all(entries, results).pending_clients[key]
                == self.pending_clients[key],
        decreases entries.len(),
    {
        if entries.len() > 0 {
            let shorter = entries.drop_last();
            self.lemma_waits_until_own_entry(shorter, results.drop_last(), key);
            assert(entries.last() == entries[entries.len() - 1]);
            assert forall|j: int| 0 <= j < shorter.len() implies (#[trigger] shorter[j])
                == entries[j] by {}
            if forall|j: int| 0 <= j < shorter.len() ==> (#[trigger] shorter[j]).key() != key {
                assert forall|j: int| 0 <= j < entries.len() - 1 implies (
                #[trigger] entries[j]).key() != key by {
                    assert(shorter[j].key() != key);
                }
            }
            if forall|j: int| 0 <= j < entries.len() ==> (#[trigger] entries[j]).key() != key {
                assert forall|j: int| 0 <= j < shorter.len() implies (
                #[trigger] shorter[j]).key() != key by {
                    assert(entries[j].key() != key);
                }
            }
        }
    }

    /// The result of an entry stays filed until another entry has the same key.
    proof fn lemma_result_is_filed(
        self,
        entries: Seq<EntryView>,
        results: Seq<ResultView>,
        k: int,
    )
        requires
            0 <= k < entries.len() == results.len(),
            forall|j: int|
                k < j < entries.len() ==> (#[trigger] entries[j]).key() != entries[k].key(),
        ensures
            self.record_all(entries, results).client_results.contains_key(entries[k].key()),
            self.record_all(entries, results).client_results[entries[k].key()] == results[k],
        decreases entries.len(),
    {
        if k < entries.len() - 1 {
            let shorter = entries.drop_last();
            assert(shorter[k] == entries[k] && results.drop_last()[k] == results[k]);
            assert forall|j: int| k < j < shorter.len() implies (#[trigger] shorter[j]).key()
                != shorter[k].key() by {
                assert(entries[j].key() != entries[k].key());
            }
            self.lemma_result_is_filed(shorter, results.drop_last(), k);
            assert(entries[entries.len() - 1].key() != entries[k].key());
        }
    }

    /// A client that waits for an entry is answered with the result of that entry, and
    /// waits no longer.
    pub proof fn waiting_client_is_answered(
        self,
        entries: Seq<EntryView>,
        results: Seq<ResultView>,
        k: int,
    )
        requires
            0 <= k < entries.len() == results.len(),
            self.pending_clients.contains_key(entries[k].key()),
            forall|j: int| 0 <= j < k ==> (#[trigger] entries[j]).key() != entries[k].key(),
        ensures
            self.answers(entries, results).contains(
                (self.pending_clients[entries[k].key()], results[k]),
            ),
            !self.record_all(entries, results).pending_clients.contains_key(entries[k].key()),
        decreases entries.len(),
    {
        let shorter = entries.drop_last();
        let fewer = results.drop_last();
        let key = entries[k].key();
        let answer = (self.pending_clients[key], results[k]);
        let before = self.answers(shorter, fewer);
        let now = self.answers(entries, results);
        if k < entries.len() - 1 {
            assert(shorter[k] == entries[k] && fewer[k] == results[k]);
            assert forall|j: int| 0 <= j < k implies (#[trigger] shorter[j]).key()
                != shorter[k].key() by {
                assert(entries[j].key() != key);
            }
            self.waiting_client_is_answered(shorter, fewer, k);
            let at = choose|at: int| 0 <= at < before.len() && before[at] == answer;
            assert(now[at] == answer);
        } else {
            assert forall|j: int| 0 <= j < shorter.len() implies (#[trigger] shorter[j]).key()
                != key by {
                assert(entries[j].key() != key);
            }
            self.lemma_waits_until_own_entry(shorter, fewer, key);
            assert(now == before.push(answer));
            assert(now[before.len() as int] == answer);
        }
        self.lemma_waits_until_own_entry(entries, results, key);
    }

    /// Nobody is answered but the clients that wait, each with the result of its own entry.
    pub proof fn answers_are_results_of_own_entries(
        self,
        entries: Seq<EntryView>,
        results: Seq<ResultView>,
        answer: (T, ResultView),
    )
        requires
            entries.len() == results.len(),
            self.answers(entries, results).contains(answer),
        ensures
            exists|k: int|
                0 <= k < entries.len() && self.pending_clients.contains_key(
                    (#[trigger] entries[k]).key(),
                ) && answer == (self.pending_clients[entries[k].key()], results[k]),
        decreases entries.len(),
    {
        if entries.len() > 0 {
            let shorter = entries.drop_last();
            let fewer = results.drop_last();
            let before = self.answers(shorter, fewer);
            let now = self.answers(entries, results);
            let at = choose|at: int| 0 <= at < now.len() && now[at] == answer;
            if at < before.len() {
                assert(before[at] == answer);
                self.answers_are_results_of_own_entries(shorter, fewer, answer);
                let k = choose|k: int|
                    0 <= k < shorter.len() && self.pending_clients.contains_key(
                        (#[trigger] shorter[k]).key(),
                    ) && answer == (self.pending_clients[shorter[k].key()], fewer[k]);
                assert(entries[k] == shorter[k]);
            } else {
                self.lemma_waits_until_own_entry(shorter, fewer, entries.last().key());
                assert(entries[entries.len() - 1] == entries.last());
            }
        }
    }
}

impl<T> NodeView<T> {
    /// A leader does not enter a request that it knows again, as long as the request does
    /// not acknowledge its own result.
    pub proof fn known_requests_are_not_entered(self, req: ClientRequestView<T>)
        requires
            self.leader is Some,
            self.leader->0.knows((req.client_id, req.seq_num)),
            req.seq_num.0 > req.last_received_seq.0,
        ensures
            !(self.client_verdict(req) is Append),
            self.after_client_request(req).log == self.log,
    {
        let key = (req.client_id, req.seq_num);
        assert(!req.client_id.requests_up_to(req.last_received_seq).contains(key));
    }

    /// A request whose result is known is answered with that result, as long as it does not
    /// acknowledge it.
    pub proof fn known_result_is_given_again(self, req: ClientRequestView<T>)
        requires
            self.leader is Some,
            self.leader->0.client_results.contains_key((req.client_id, req.seq_num)),
            req.seq_num.0 > req.last_received_seq.0,
        ensures
            self.client_verdict(req) is Cached,
            self.client_answer(req) == self.leader->0.client_results[(
                req.client_id,
                req.seq_num,
            )],
            self.after_client_request(req).log == self.log,
    {
        let key = (req.client_id, req.seq_num);
        assert(!req.client_id.requests_up_to(req.last_received_seq).contains(key));
    }

    /// A command that was carried out and is sent again, since its answer was lost, gets the
    /// result that it had.
    pub proof fn lost_answer_is_given_again(
        self,
        results: Seq<ResultView>,
        k: int,
        again: ClientRequestView<T>,
    )
        requires
            self.leader is Some,
            ({
                let entries = self.log.span(self.last_applied as int, self.commit_index as int);
                &&& 0 <= k < entries.len() == results.len()
                &&& entries[k].key() == (again.client_id, again.seq_num)
                &&& forall|j: int|
                    k < j < entries.len() ==> (#[trigger] entries[j]).key() != entries[k].key()
            }),
            again.seq_num.0 > again.last_received_seq.0,
        ensures
            self.applied(results).client_answer(again) == results[k],
            self.applied(results).after_client_request(again).log == self.log,
    {
        let entries = self.log.span(self.last_applied as int, self.commit_index as int);
        self.leader->0.lemma_result_is_filed(entries, results, k);
        self.applied(results).known_result_is_given_again(again);
    }

    /// A command that was entered is known from then on.
    pub proof fn entered_commands_are_known(self, req: ClientRequestView<T>)
        requires
            self.client_verdict(req) is Append,
            req.command is ClientCommand,
        ensures
            self.after_client_request(req).leader matches Some(leader) && leader.knows(
                (req.client_id, req.seq_num),
            ),
    {
    }

    /// A command is entered at most once: sent again at once, it is turned down as a
    /// duplicate, whatever it acknowledges.
    pub proof fn repeated_command_is_refused(
        self,
        req: ClientRequestView<T>,
        again: ClientRequestView<T>,
    )
        requires
            self.client_verdict(req) is Append,
            req.command is ClientCommand,
            again.client_id == req.client_id,
            again.seq_num == req.seq_num,
        ensures
            self.after_client_request(req).client_verdict(again) is InProgress,
            self.after_client_request(req).client_answer(again) == ResultView::Error(
                "Duplicate request is already in progress"@,
            ),
    {
        let after = self.after_client_request(req);
        let pruned = self.forget_received(req.client_id, req.last_received_seq).leader->0;
        let key = (req.client_id, req.seq_num);
        assert(!pruned.client_results.contains_key(key));
        assert(after.leader->0.client_results == pruned.client_results);
    }

    /// The event is a request of the client by which it acknowledges the result of `key`.
    pub open spec fn acknowledges(self, event: EventView<T>, key: (ClientId, SeqNum)) -> bool {
        event matches EventView::ClientRequest(req) && req.client_id == key.0 && key.1.0
            <= req.last_received_seq.0
    }

    /// A request that the leader knows, of a client whose id it knows to be given out,
    /// stays known whatever other events it takes, as long as no request of the client
    /// acknowledges it.
    pub proof fn events_keep_requests_known(self, event: EventView<T>, key: (ClientId, SeqNum))
        requires
            self.state is Leader,
            self.leader is Some,
            self.leader->0.knows(key),
            key.0.0 <= self.leader->0.last_client_id.0,
            self.event_defined(event),
            !self.acknowledges(event, key),
        ensures
            self.after_event(event).leader matches Some(leader) ==> leader.knows(key),
    {
        if let EventView::ClientRequest(req) = event {
            assert(!req.client_id.requests_up_to(req.last_received_seq).contains(key));
        }
    }
}

impl<T> NodeView<T> {
    /// A registration gets an id that the leader has not given out before, and the client
    /// starts at the number zero.
    pub proof fn registration_gets_a_new_id(self, req: ClientRequestView<T>)
        requires
            self.client_verdict(req) is Append,
            self.client_request_defined(req),
            req.command is RegisterClient,
        ensures
            self.entry_for(req).client_id.0 == self.leader->0.last_client_id.0 + 1,
            self.after_client_request(req).leader->0.last_client_id == self.entry_for(
                req,
            ).client_id,
            self.after_client_request(req).leader->0.last_seq_nums.contains_key(
                self.entry_for(req).client_id.0,
            ),
            self.after_client_request(req).leader->0.last_seq_nums[self.entry_for(
                req,
            ).client_id.0] == SeqNum(0),
    {
    }

    /// The node gives out no id up to this one: its log has had an entry with such an id,
    /// and as a leader it goes on from there.
    pub open spec fn remembers(self, id: ClientId) -> bool {
        &&& self.log.highest_client_id() >= id.0
        &&& self.leader matches Some(leader) ==> leader.last_client_id.0 >= id.0
    }

    /// A node that does not lead remembers the id of every entry of its log, and so does a
    /// node that has just become the leader, whatever its storage had of the clients.
    pub proof fn ids_in_the_log_are_remembered(
        self,
        k: int,
        last_client_id: ClientId,
        last_seq_nums: Map<u64, SeqNum>,
    )
        requires
            0 <= k < self.log.slots.len(),
        ensures
            self.leader is None ==> self.remembers(self.log.slots[k].client_id),
            self.become_leader(last_client_id, last_seq_nums).remembers(
                self.log.slots[k].client_id,
            ),
            (self.become_leader(last_client_id, last_seq_nums).leader->0).last_client_id.0
                >= last_client_id.0,
    {
        EntryView::lemma_highest_id(self.log.slots, self.log.dropped_client_id);
    }

    /// An id that a node remembers is remembered after any run, also when its entry has
    /// gone from the log and when another node has led in between.
    pub proof fn ids_stay_remembered(self, run: Seq<Move<T>>, id: ClientId)
        requires
            self.remembers(id),
            self.possible_run(run),
        ensures
            self.after_run(run).remembers(id),
        decreases run.len(),
    {
        if run.len() > 0 {
            self.ids_stay_remembered(run.drop_last(), id);
            self.after_run(run.drop_last()).lemma_move_remembers(run.last(), id);
        }
    }

    proof fn lemma_move_remembers(self, m: Move<T>, id: ClientId)
        requires
            self.remembers(id),
            self.possible(m),
        ensures
            self.after_move(m).remembers(id),
    {
        let none = Seq::<EntryView>::empty();
        match m {
            Move::Event { event, results } => {
                match event {
                    EventView::AppendEntriesReceived(req) => {
                        let next = (req.prev_log_index + 1) as u64;
                        let cut = self.log.truncate_from(next);
                        self.log.lemma_highest_client_id(none, next, 0);
                        cut.lemma_highest_client_id(req.entries, 0, 0);
                    },
                    EventView::ClientRequest(req) => {
                        self.log.lemma_highest_client_id(seq![self.entry_for(req)], 0, 0);
                    },
                    EventView::SnapshotCompleted(index, term) => {
                        self.log.lemma_highest_client_id(none, index, term);
                    },
                    _ => {},
                }
                let after = self.after_event(event);
                if after.leader is Some {
                    after.leader->0.lemma_record_all_keeps_progress(
                        after.log.span(after.last_applied as int, after.commit_index as int),
                        results,
                    );
                }
            },
            Move::Installed { req } => {
                self.log.lemma_highest_client_id(
                    none,
                    req.last_included_index,
                    req.last_included_term,
                );
            },
            _ => {},
        }
    }

    /// No id that a node has given out or has had in its log is given out by it again: if it
    /// remembers an id now, a registration after any run gets a higher one.
    pub proof fn remembered_ids_are_not_given_out(
        self,
        id: ClientId,
        run: Seq<Move<T>>,
        req: ClientRequestView<T>,
    )
        requires
            self.remembers(id),
            self.possible_run(run),
            self.after_run(run).client_verdict(req) is Append,
            self.after_run(run).client_request_defined(req),
            req.command is RegisterClient,
        ensures
            self.after_run(run).entry_for(req).client_id.0 > id.0,
            self.after_run(run).after_client_request(req).remembers(
                self.after_run(run).entry_for(req).client_id,
            ),
    {
        self.ids_stay_remembered(run, id);
        let later = self.after_run(run);
        let e = later.entry_for(req);
        later.registration_gets_a_new_id(req);
        let log = later.log.append(seq![e]);
        assert(log.slots.last() == e);
        EntryView::lemma_highest_id(log.slots, log.dropped_client_id);
        assert(log.slots[log.slots.len() - 1] == e);
    }

    /// The id that a leader gave out last never goes back while it leads, so that no two
    /// registrations of one leadership get the same id.
    pub proof fn last_id_never_decreases(self, event: EventView<T>, results: Seq<ResultView>)
        requires
            self.state is Leader,
            self.leader is Some,
            self.event_defined(event),
        ensures
            self.after_move(Move::Event { event, results }).leader matches Some(leader)
                ==> leader.last_client_id.0 >= self.leader->0.last_client_id.0,
    {
        let after = self.after_event(event);
        if after.leader is Some {
            after.leader->0.lemma_record_all_keeps_progress(
                after.log.span(after.last_applied as int, after.commit_index as int),
                results,
            );
        }
    }
}

impl<T> NodeView<T> {
    /// A run of events through which the node leads, in which the client does not
    /// acknowledge the result of `key` and the requests of each client are carried out in
    /// the order of their numbers.
    pub open spec fn leads_through(self, run: Seq<Move<T>>, key: (ClientId, SeqNum)) -> bool
        decreases run.len(),
    {
        run.len() > 0 ==> {
            let before = self.after_run(run.drop_last());
            &&& self.leads_through(run.drop_last(), key)
            &&& before.possible(run.last())
            &&& run.last() matches Move::Event { event, results } && {
                let after = before.after_event(event);
                &&& !before.acknowledges(event, key)
                &&& after.state is Leader
                &&& after.leader matches Some(leader) && (before.reaction(event).step.applies()
                    ==> leader.all_in_order(
                    after.log.span(after.last_applied as int, after.commit_index as int),
                    results,
                ))
            }
        }
    }

    /// A command that a leader has entered for a registered client is not entered a second
    /// time while the node leads: sent again after any such run, it leaves the log alone.
    pub proof fn command_is_entered_once(
        self,
        req: ClientRequestView<T>,
        run: Seq<Move<T>>,
        again: ClientRequestView<T>,
    )
        requires
            self.state is Leader,
            self.client_verdict(req) is Append,
            req.command is ClientCommand,
            req.client_id.0 <= self.leader->0.last_client_id.0,
            self.after_client_request(req).leads_through(run, (req.client_id, req.seq_num)),
            again.client_id == req.client_id,
            again.seq_num == req.seq_num,
            again.seq_num.0 > again.last_received_seq.0,
        ensures
            ({
                let later = self.after_client_request(req).after_run(run);
                &&& !(later.client_verdict(again) is Append)
                &&& later.after_client_request(again).log == later.log
            }),
    {
        let key = (req.client_id, req.seq_num);
        let entered = self.after_client_request(req);
        self.entered_commands_are_known(req);
        entered.lemma_known_through(run, key);
        entered.after_run(run).known_requests_are_not_entered(again);
    }

    proof fn lemma_known_through(self, run: Seq<Move<T>>, key: (ClientId, SeqNum))
        requires
            self.state is Leader,
            self.leader is Some,
            self.leader->0.knows(key),
            key.0.0 <= self.leader->0.last_client_id.0,
            self.leads_through(run, key),
        ensures
            self.after_run(run).state is Leader,
            self.after_run(run).leader is Some,
            self.after_run(run).leader->0.knows(key),
            key.0.0 <= self.after_run(run).leader->0.last_client_id.0,
        decreases run.len(),
    {
        if run.len() > 0 {
            let before = self.after_run(run.drop_last());
            self.lemma_known_through(run.drop_last(), key);
            if let Move::Event { event, results } = run.last() {
                before.events_keep_requests_known(event, key);
                before.last_id_never_decreases(event, results);
                let after = before.after_event(event);
                if before.reaction(event).step.applies() {
                    after.leader->0.filing_keeps_requests_known(
                        after.log.span(after.last_applied as int, after.commit_index as int),
                        results,
                        key,
                    );
                }
            }
        }
    }
}

/// The answer to a registration tells the client the id under which it was entered.
pub proof fn registration_tells_the_id<T, S: crate::traits::StateMachine>(
    client: ClientView<T>,
    e: EntryView,
    before: S,
    result: ResultView,
    after: S,
)
    requires
        e.command is RegisterClient,
        crate::apply::executes(before, e, result, after),
    ensures
        after == before,
        result matches ResultView::Success(bytes) && bytes.len() == 8 && client.registered(
            ClientId(crate::bytes::le_value(bytes) as u64),
        ).client_id == Some(e.client_id),
{
    crate::bytes::lemma_le_round_trip(e.client_id.0);
}

impl<T> ClientView<T> {
    /// The next command has a number above that of the last one that was answered.
    pub open spec fn in_step(self) -> bool {
        self.next_seq_num.0 > self.last_received_seq.0
    }

    /// A client numbers its commands one after the other: a session starts in step, each
    /// command moves on by one whether it is answered or given up, and an attempt that is
    /// followed by another changes nothing but the node that is asked.  So no two commands
    /// of a session have the same number, and none acknowledges itself or one that was
    /// given up.
    pub proof fn commands_are_numbered_in_order(self, id: ClientId, reply: ResultView)
        ensures
            self.registered(id).in_step(),
            self.in_step() ==> self.look_elsewhere(reply).in_step(),
            self.look_elsewhere(reply).next_seq_num == self.next_seq_num,
            self.look_elsewhere(reply).client_id == self.client_id,
            self.in_step() && self.next_seq_num.0 < u64::MAX ==> {
                &&& self.answered().in_step()
                &&& self.answered().next_seq_num.0 == self.next_seq_num.0 + 1
                &&& self.answered().last_received_seq == self.next_seq_num
                &&& self.gave_up().in_step()
                &&& self.gave_up().next_seq_num.0 == self.next_seq_num.0 + 1
                &&& self.gave_up().last_received_seq == self.last_received_seq
            },
    {
    }

    /// A client without success asks every peer: from each one it turns to the next, and
    /// from the last one to the first.
    pub proof fn asks_the_peers_in_turn(self, text: Seq<char>, i: int)
        requires
            0 <= i < self.peers.len(),
            self.current_leader == self.peers[i],
            self.peers.no_duplicates(),
        ensures
            self.look_elsewhere(ResultView::Error(text)).current_leader == self.peers[if i + 1
                < self.peers.len() {
                i + 1
            } else {
                0
            }],
    {
        self.lemma_position(0, i);
        if i + 1 < self.peers.len() {
            vstd::arithmetic::div_mod::lemma_small_mod((i + 1) as nat, self.peers.len());
        } else {
            vstd::arithmetic::div_mod::lemma_mod_self_0(self.peers.len() as int);
        }
    }

    proof fn lemma_position(self, start: int, i: int)
        requires
            0 <= start <= i < self.peers.len(),
            self.current_leader == self.peers[i],
            self.peers.no_duplicates(),
        ensures
            self.position_from(start) == i,
        decreases i - start,
    {
        if start < i {
            self.lemma_position(start + 1, i);
        }
    }
}

} // verus!
