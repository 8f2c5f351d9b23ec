use raft::apply::command_result;
use raft::events::{RaftEvent, Step};
use raft::log::LogEntry;
use raft::messages::{
    AppendEntriesRequest, AppendEntriesResponse, InstallSnapshotResponse,
};
use raft::model::{FollowerMessage, StorageOp};
use raft::raft::{RaftNode, State};
use raft::replication::ProgressOutcome;
use raft::traits::StateMachine;
use raft::{ClientId, CommandResult, Config, RaftCommand, SeqNum};

/// Remembers the commands that it was given.  The command `!` fails.
struct Journal {
    seen: Vec<Vec<u8>>,
}

impl StateMachine for Journal {
    fn apply(&mut self, command: &[u8]) -> Result<Vec<u8>, String> {
        if command == b"!" {
            return Err("refused".to_string());
        }
        self.seen.push(command.to_vec());
        Ok(vec![self.seen.len() as u8])
    }

    fn snapshot(&self) -> Result<Vec<u8>, String> {
        Ok(self.seen.concat())
    }

    fn restore(&mut self, snapshot: &[u8]) -> Result<(), String> {
        self.seen = vec![snapshot.to_vec()];
        Ok(())
    }
}

fn journal() -> Journal {
    Journal { seen: vec![] }
}

fn command(term: u64, index: u64, text: &str) -> LogEntry {
    LogEntry::new(
        term,
        index,
        RaftCommand::ClientCommand(text.as_bytes().to_vec()),
        ClientId::new(1),
        SeqNum::new(index),
    )
}

fn config(id: u64) -> Config {
    let peers = (1..=3).filter(|p| *p != id).collect();
    Config { node_id: id, peers, ..Config::default() }
}

fn follower(entries: Vec<LogEntry>) -> RaftNode<u32> {
    RaftNode::new(config(2), 1, None, None, entries).unwrap()
}

fn leader(entries: Vec<LogEntry>) -> RaftNode<u32> {
    let mut n: RaftNode<u32> = RaftNode::new(config(1), 1, None, None, entries).unwrap();
    n.election_timeout();
    n.begin_candidacy();
    n.become_leader(Err(String::new()));
    n
}

fn request(prev: (u64, u64), entries: Vec<LogEntry>, leader_commit: u64) -> AppendEntriesRequest {
    AppendEntriesRequest {
        term: 2,
        leader_id: 1,
        prev_log_index: prev.0,
        prev_log_term: prev.1,
        entries,
        leader_commit,
    }
}

fn accepted(term: u64) -> AppendEntriesResponse {
    AppendEntriesResponse { term, success: true, conflict_index: 0, last_log_index: 0 }
}

fn refused(term: u64, conflict_index: u64) -> AppendEntriesResponse {
    AppendEntriesResponse { term, success: false, conflict_index, last_log_index: 0 }
}

fn appended(op: &StorageOp) -> Vec<u64> {
    match op {
        StorageOp::AppendLog { entries } => entries.iter().map(|e| e.index).collect(),
        other => panic!("{:?}", other),
    }
}

#[test]
fn follower_appends_entries() {
    let mut n = follower(vec![]);
    let (resp, storage) = n.handle_append_entries(request((0, 0), vec![command(2, 1, "a"), command(2, 2, "b")], 0));
    assert_eq!(resp, AppendEntriesResponse { term: 2, success: true, conflict_index: 0, last_log_index: 2 });
    assert_eq!(storage.len(), 2);
    assert!(matches!(storage[0], StorageOp::SaveTerm { term: 2, voted_for: None }));
    assert_eq!(appended(&storage[1]), vec![1, 2]);
    assert_eq!(n.current_leader, Some(1));
    assert_eq!(n.log.last_index(), 2);
}

#[test]
fn stale_leader_is_refused() {
    let mut n = follower(vec![command(1, 1, "a")]);
    n.current_term = 5;
    let (resp, storage) = n.handle_append_entries(request((0, 0), vec![command(2, 1, "b")], 1));
    assert_eq!(resp, AppendEntriesResponse { term: 5, success: false, conflict_index: 0, last_log_index: 1 });
    assert!(storage.is_empty());
    assert_eq!(n.current_leader, None);
    assert_eq!(n.commit_index, 0);
}

#[test]
fn missing_predecessor_is_a_conflict() {
    let mut n = follower(vec![command(1, 1, "a")]);
    let (resp, storage) = n.handle_append_entries(request((4, 2), vec![command(2, 5, "b")], 0));
    assert_eq!(resp, AppendEntriesResponse { term: 2, success: false, conflict_index: 4, last_log_index: 1 });
    assert_eq!(storage.len(), 1);
    assert_eq!(n.log.last_index(), 1);
}

#[test]
fn other_term_before_the_entries_is_a_conflict() {
    let mut n = follower(vec![command(1, 1, "a"), command(1, 2, "b")]);
    let (resp, _) = n.handle_append_entries(request((2, 2), vec![command(2, 3, "c")], 0));
    assert!(!resp.success);
    assert_eq!(resp.conflict_index, 2);
}

#[test]
fn new_entries_replace_conflicting_ones() {
    let mut n = follower(vec![command(1, 1, "a"), command(1, 2, "b"), command(1, 3, "c")]);
    let (resp, storage) = n.handle_append_entries(request((1, 1), vec![command(2, 2, "x")], 0));
    assert!(resp.success);
    assert_eq!(resp.last_log_index, 2);
    assert_eq!(appended(&storage[1]), vec![2]);
    assert_eq!(n.log.get(2).unwrap().term, 2);
    assert!(n.log.get(3).is_none());
}

#[test]
fn heartbeat_leaves_the_log_alone() {
    let mut n = follower(vec![command(1, 1, "a"), command(1, 2, "b")]);
    let (resp, storage) = n.handle_append_entries(request((1, 1), vec![], 0));
    assert!(resp.success);
    assert_eq!(resp.last_log_index, 2);
    assert_eq!(storage.len(), 1);
    assert_eq!(n.log.last_index(), 2);
}

#[test]
fn entries_inside_the_snapshot_are_acknowledged() {
    let mut n = follower(vec![command(1, 1, "a"), command(1, 2, "b"), command(1, 3, "c")]);
    n.log.compact(2, 1);
    let (resp, _) = n.handle_append_entries(request((1, 1), vec![command(2, 2, "x")], 3));
    assert!(resp.success);
    assert_eq!(resp.last_log_index, 3);
    assert_eq!(n.commit_index, 0);
    let (resp, _) = n.handle_append_entries(request((2, 1), vec![command(2, 3, "y")], 0));
    assert!(resp.success);
    assert_eq!(n.log.get(3).unwrap().term, 2);
}

#[test]
fn follower_applies_what_the_leader_has_committed() {
    let mut n = follower(vec![]);
    let mut sm = journal();
    n.handle_append_entries(request((0, 0), vec![command(2, 1, "a"), command(2, 2, "b"), command(2, 3, "c")], 2));
    assert_eq!(n.commit_index, 2);
    assert!(n.can_apply());
    n.apply_committed(&mut sm);
    assert_eq!(n.last_applied, 2);
    assert_eq!(sm.seen, vec![b"a".to_vec(), b"b".to_vec()]);
    n.apply_committed(&mut sm);
    assert_eq!(sm.seen.len(), 2);
    n.handle_append_entries(request((3, 2), vec![], 9));
    assert_eq!(n.commit_index, 3);
    n.apply_committed(&mut sm);
    assert_eq!(sm.seen.len(), 3);
}

#[test]
fn follower_applies_only_when_more_is_committed() {
    let applies = |n: &mut RaftNode<u32>, req: AppendEntriesRequest| {
        assert_eq!(n.commits_on(&req), {
            let told = req.leader_commit > n.commit_index;
            told && req.prev_log_index <= n.log.last_index() && req.term >= n.current_term
        });
        match n.handle_event(RaftEvent::AppendEntriesReceived(req)).step {
            Step::AppendEntries { apply, .. } => apply,
            other => panic!("{:?}", other),
        }
    };
    let mut n = follower(vec![]);
    let entries = vec![command(1, 1, "a"), command(1, 2, "b")];
    assert!(!applies(&mut n, request((0, 0), entries, 0)));
    assert!(applies(&mut n, request((2, 1), vec![], 1)));
    assert_eq!(n.commit_index, 1);
    n.apply_committed(&mut journal());
    assert!(!applies(&mut n, request((2, 1), vec![], 1)));
    assert!(!applies(&mut n, request((9, 1), vec![], 5)));
    assert!(!applies(&mut n, AppendEntriesRequest { term: 0, ..request((2, 1), vec![], 2) }));
    assert!(applies(&mut n, request((2, 1), vec![], 9)));
    assert_eq!(n.commit_index, 2);
}

#[test]
fn registrations_leave_the_state_machine_alone() {
    let mut n = follower(vec![]);
    let mut sm = journal();
    let registration = LogEntry::new(2, 1, RaftCommand::RegisterClient, ClientId::new(1), SeqNum::new(0));
    n.handle_append_entries(request((0, 0), vec![registration], 1));
    n.apply_committed(&mut sm);
    assert_eq!(n.last_applied, 1);
    assert!(sm.seen.is_empty());
}

#[test]
fn unusable_indices_are_told() {
    let mut n = follower(vec![]);
    let mut broken = request((0, 0), vec![command(2, u64::MAX, "a")], 0);
    assert!(!n.can_append(&broken));
    broken.term = 0;
    assert!(n.can_append(&broken));
    let event: RaftEvent<u32> = RaftEvent::AppendEntriesReceived(request((0, 0), vec![command(2, 1, "a")], 0));
    assert!(n.can_handle_event(&event));
    n.handle_event(event);
    n.commit_index = 4;
    assert!(!n.can_apply());
}

#[test]
fn leader_sends_what_follows_the_next_index() {
    let mut n = leader(vec![command(1, 1, "a"), command(1, 2, "b")]);
    assert!(n.can_send_to(2));
    match n.append_entries_for(2) {
        FollowerMessage::AppendEntries { request, match_target } => {
            assert_eq!(request.prev_log_index, 2);
            assert_eq!(request.prev_log_term, 1);
            assert!(request.entries.is_empty());
            assert_eq!(request.term, 2);
            assert_eq!(request.leader_id, 1);
            assert_eq!(match_target, 2);
        }
        other => panic!("{:?}", other),
    }
    n.leader_state.as_mut().unwrap().next_index.insert(2, 1);
    match n.append_entries_for(2) {
        FollowerMessage::AppendEntries { request, match_target } => {
            assert_eq!(request.prev_log_index, 0);
            assert_eq!(request.prev_log_term, 0);
            assert_eq!(request.entries.len(), 2);
            assert_eq!(match_target, 2);
        }
        other => panic!("{:?}", other),
    }
}

#[test]
fn leader_falls_back_on_its_snapshot() {
    let mut n = leader(vec![command(1, 1, "a"), command(1, 2, "b"), command(1, 3, "c")]);
    n.log.compact(2, 1);
    n.leader_state.as_mut().unwrap().next_index.insert(2, 2);
    match n.append_entries_for(2) {
        FollowerMessage::InstallSnapshot { offer } => {
            assert_eq!((offer.last_included_index, offer.last_included_term), (2, 1));
            assert_eq!((offer.term, offer.leader_id), (2, 1));
        }
        other => panic!("{:?}", other),
    }
    n.leader_state.as_mut().unwrap().next_index.insert(2, 3);
    match n.append_entries_for(2) {
        FollowerMessage::AppendEntries { request, match_target } => {
            assert_eq!((request.prev_log_index, request.prev_log_term), (2, 1));
            assert_eq!(match_target, 3);
        }
        other => panic!("{:?}", other),
    }
}

#[test]
fn broadcast_reaches_every_peer() {
    let n = leader(vec![command(1, 1, "a")]);
    let messages = n.broadcast();
    let peers: Vec<u64> = messages.iter().map(|(p, _)| *p).collect();
    assert_eq!(peers, vec![2, 3]);
}

#[test]
fn missing_entry_before_the_next_index_is_told() {
    let mut n = leader(vec![command(1, 1, "a")]);
    n.leader_state.as_mut().unwrap().next_index.insert(2, 9);
    assert!(!n.can_send_to(2));
    assert!(n.can_send_to(3));
    let f = follower(vec![]);
    assert!(!f.can_send_to(1));
}

#[test]
fn leader_commits_once_a_majority_holds_the_entry() {
    let mut n = leader(vec![command(1, 1, "a")]);
    n.log.append(vec![command(2, 2, "b"), command(2, 3, "c")]);
    match n.handle_append_entries_response(accepted(2), 2, 2) {
        ProgressOutcome::Committed => {}
        other => panic!("{:?}", other),
    }
    assert_eq!(n.commit_index, 2);
    let state = n.leader_state.as_ref().unwrap();
    assert_eq!(state.match_index[&2], 2);
    assert_eq!(state.next_index[&2], 3);
    assert!(matches!(n.handle_append_entries_response(accepted(2), 3, 1), ProgressOutcome::Nothing));
    assert!(matches!(n.handle_append_entries_response(accepted(2), 3, 3), ProgressOutcome::Committed));
    assert_eq!(n.commit_index, 3);
}

#[test]
fn entries_of_earlier_terms_are_not_counted() {
    let mut n = leader(vec![command(1, 1, "a"), command(1, 2, "b")]);
    assert!(matches!(n.handle_append_entries_response(accepted(2), 2, 2), ProgressOutcome::Nothing));
    assert_eq!(n.commit_index, 0);
    n.log.append(vec![command(2, 3, "c")]);
    n.handle_append_entries_response(accepted(2), 2, 3);
    assert_eq!(n.commit_index, 3);
}

#[test]
fn match_index_never_goes_back() {
    let mut n = leader(vec![command(1, 1, "a"), command(1, 2, "b")]);
    n.handle_append_entries_response(accepted(2), 2, 2);
    n.handle_append_entries_response(accepted(2), 2, 1);
    let state = n.leader_state.as_ref().unwrap();
    assert_eq!(state.match_index[&2], 2);
    assert_eq!(state.next_index[&2], 3);
}

#[test]
fn refusal_moves_the_next_index_back() {
    let mut n = leader(vec![command(1, 1, "a"), command(1, 2, "b"), command(1, 3, "c")]);
    n.log.append(vec![command(2, 4, "d")]);
    assert!(matches!(n.handle_append_entries_response(refused(2, 3), 2, 4), ProgressOutcome::Resend));
    assert_eq!(n.leader_state.as_ref().unwrap().next_index[&2], 3);
    assert!(matches!(n.handle_append_entries_response(refused(2, 3), 2, 4), ProgressOutcome::Resend));
    assert_eq!(n.leader_state.as_ref().unwrap().next_index[&2], 2);
    n.handle_append_entries_response(refused(2, 0), 2, 4);
    n.handle_append_entries_response(refused(2, 0), 2, 4);
    assert_eq!(n.leader_state.as_ref().unwrap().next_index[&2], 1);
}

#[test]
fn refusal_of_an_old_request_is_ignored() {
    let mut n = leader(vec![command(1, 1, "a"), command(1, 2, "b")]);
    assert!(matches!(n.handle_append_entries_response(refused(2, 1), 2, 1), ProgressOutcome::Nothing));
    assert_eq!(n.leader_state.as_ref().unwrap().next_index[&2], 3);
}

#[test]
fn leader_gives_way_to_a_later_term() {
    let mut n = leader(vec![]);
    match n.handle_append_entries_response(refused(7, 0), 2, 0) {
        ProgressOutcome::SteppedDown { save } => {
            assert!(matches!(save, StorageOp::SaveTerm { term: 7, voted_for: None }));
        }
        other => panic!("{:?}", other),
    }
    assert_eq!(n.state, State::Follower);
    let mut n = leader(vec![]);
    let later = InstallSnapshotResponse { term: 8, success: false };
    let r = n.handle_event(RaftEvent::InstallSnapshotResponseReceived(later, 2, 0));
    assert!(r.leave);
    assert_eq!(n.current_term, 8);
}

#[test]
fn installed_snapshot_counts_as_replicated() {
    let mut n = leader(vec![command(1, 1, "a"), command(1, 2, "b"), command(1, 3, "c")]);
    n.log.compact(2, 1);
    let failed = InstallSnapshotResponse { term: 2, success: false };
    let r = n.handle_event(RaftEvent::InstallSnapshotResponseReceived(failed, 2, 2));
    assert!(matches!(r.step, Step::Ignore));
    let done = InstallSnapshotResponse { term: 2, success: true };
    let r = n.handle_event(RaftEvent::InstallSnapshotResponseReceived(done, 2, 2));
    assert!(matches!(r.step, Step::Resend { follower: 2 }));
    let state = n.leader_state.as_ref().unwrap();
    assert_eq!(state.match_index[&2], 2);
    assert_eq!(state.next_index[&2], 3);
}

#[test]
fn answers_that_cannot_be_counted_are_told() {
    let n = leader(vec![command(1, 1, "a")]);
    let event: RaftEvent<u32> = RaftEvent::AppendEntriesResponse(accepted(2), 2, u64::MAX);
    assert!(!n.can_handle_event(&event));
    let event: RaftEvent<u32> = RaftEvent::AppendEntriesResponse(accepted(2), 2, 1);
    assert!(n.can_handle_event(&event));
}

#[test]
fn leader_ignores_entries_of_others() {
    let mut n = leader(vec![command(1, 1, "a")]);
    let r = n.handle_event(RaftEvent::AppendEntriesReceived(request((0, 0), vec![command(2, 1, "z")], 1)));
    assert!(matches!(r.step, Step::Ignore));
    assert_eq!(n.log.get(1).unwrap().term, 1);
}

#[test]
fn leader_keeps_its_entries_over_events() {
    let mut n = leader(vec![command(1, 1, "a"), command(1, 2, "b")]);
    n.handle_event(RaftEvent::AppendEntriesResponse(accepted(2), 2, 2));
    n.handle_event(RaftEvent::SnapshotCompleted(1, 1));
    assert_eq!(n.log.snapshot_index(), 1);
    assert_eq!(n.log.get(2).unwrap().term, 1);
    assert_eq!(n.log.last_index(), 2);
}

#[test]
fn accepted_message_makes_the_logs_agree() {
    let mut l = leader(vec![command(1, 1, "a"), command(1, 2, "b"), command(1, 3, "c")]);
    let mut f = follower(vec![command(1, 1, "a"), command(1, 2, "x")]);
    f.log.truncate_from(2);
    f.log.append(vec![command(0, 2, "x")]);
    loop {
        let (request, target) = match l.append_entries_for(2) {
            FollowerMessage::AppendEntries { request, match_target } => (request, match_target),
            other => panic!("{:?}", other),
        };
        let (response, _) = f.handle_append_entries(request);
        let done = response.success;
        l.handle_append_entries_response(response, 2, target + if done { 0 } else { 9 });
        if done {
            break;
        }
    }
    for i in 1..=3 {
        assert_eq!(f.log.get(i).unwrap().term, l.log.get(i).unwrap().term);
    }
    assert_eq!(f.log.last_index(), 3);
}

#[test]
fn same_entries_give_the_same_state() {
    let entries = || vec![command(2, 1, "a"), command(2, 2, "!"), command(2, 3, "b")];
    let mut first = follower(vec![]);
    let mut second = follower(vec![]);
    let mut one = journal();
    let mut two = journal();
    first.handle_append_entries(request((0, 0), entries(), 3));
    first.apply_committed(&mut one);
    for commit in 1..=3 {
        second.handle_append_entries(request((0, 0), entries(), commit));
        second.apply_committed(&mut two);
    }
    assert_eq!(one.seen, two.seen);
    assert_eq!(one.seen, vec![b"a".to_vec(), b"b".to_vec()]);
}

#[test]
fn outcome_of_a_command_becomes_its_answer() {
    assert!(matches!(command_result(Ok(vec![4])), CommandResult::Success(b) if b == vec![4]));
    assert!(matches!(command_result(Err("no".to_string())), CommandResult::Error(t) if t == "no"));
}

#[test]
fn older_request_after_a_newer_one_drops_entries() {
    let mut n = follower(vec![]);
    n.handle_append_entries(request((0, 0), vec![command(2, 1, "a"), command(2, 2, "b")], 0));
    assert_eq!(n.log.last_index(), 2);
    let (resp, _) = n.handle_append_entries(request((0, 0), vec![command(2, 1, "a")], 0));
    assert!(resp.success);
    assert_eq!(n.log.last_index(), 1);
}

#[test]
fn commit_index_follows_entries_that_end_before_it() {
    let mut n = follower(vec![]);
    let entries = vec![command(2, 1, "a"), command(2, 2, "b"), command(2, 3, "c")];
    n.handle_append_entries(request((0, 0), entries, 3));
    assert_eq!(n.commit_index, 3);
    n.handle_append_entries(request((0, 0), vec![command(2, 1, "a")], 2));
    assert_eq!(n.commit_index, 3);
    n.handle_append_entries(request((0, 0), vec![command(2, 1, "a")], 4));
    assert_eq!(n.commit_index, 1);
}

#[test]
fn leader_counts_answers_of_earlier_terms() {
    let mut n = leader(vec![command(1, 1, "a")]);
    n.log.append(vec![command(2, 2, "b")]);
    assert!(matches!(n.handle_append_entries_response(accepted(1), 2, 2), ProgressOutcome::Committed));
    assert_eq!(n.commit_index, 2);
}

#[test]
fn applied_index_never_goes_back() {
    let mut n = follower(vec![]);
    let mut sm = journal();
    let entries = vec![command(2, 1, "a"), command(2, 2, "b"), command(2, 3, "c")];
    n.handle_append_entries(request((0, 0), entries, 3));
    n.apply_committed(&mut sm);
    n.handle_append_entries(request((0, 0), vec![command(2, 1, "a")], 4));
    n.apply_committed(&mut sm);
    assert_eq!((n.commit_index, n.last_applied), (1, 3));
    assert_eq!(sm.seen.len(), 3);
}
