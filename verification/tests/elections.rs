use raft::election::VoteOutcome;
use raft::events::{RaftEvent, Step};
use raft::log::LogEntry;
use raft::messages::{
    AppendEntriesRequest, InstallSnapshotRequest, RequestVoteRequest, RequestVoteResponse,
};
use raft::model::StorageOp;
use raft::raft::{RaftNode, State};
use raft::{ClientId, Config, RaftCommand, SeqNum};
use std::collections::HashMap;

fn entry(term: u64, index: u64) -> LogEntry {
    LogEntry::new(term, index, RaftCommand::ClientCommand(vec![]), ClientId::new(1), SeqNum::new(index))
}

fn node(entries: Vec<LogEntry>) -> RaftNode<u32> {
    let config = Config { node_id: 1, peers: vec![2, 3], ..Config::default() };
    RaftNode::new(config, 0, None, None, entries).unwrap()
}

fn vote_request(term: u64, candidate_id: u64, last_log_term: u64, last_log_index: u64) -> RequestVoteRequest {
    RequestVoteRequest { term, candidate_id, last_log_term, last_log_index }
}

fn heartbeat(term: u64) -> AppendEntriesRequest {
    AppendEntriesRequest {
        term,
        leader_id: 2,
        prev_log_index: 0,
        prev_log_term: 0,
        entries: vec![],
        leader_commit: 0,
    }
}

fn saves(op: &StorageOp, term: u64, voted_for: Option<u64>) -> bool {
    matches!(op, StorageOp::SaveTerm { term: t, voted_for: v } if *t == term && *v == voted_for)
}

fn candidate() -> RaftNode<u32> {
    let mut n = node(vec![entry(1, 1), entry(2, 2)]);
    n.current_term = 4;
    n.election_timeout();
    n.begin_candidacy();
    n
}

#[test]
fn election_timeout_lies_within_the_settings() {
    let n = node(vec![]);
    let mut seen: Vec<u64> = Vec::new();
    for _ in 0..200 {
        let t = n.random_election_timeout();
        assert!(150 <= t && t <= 300);
        seen.push(t);
    }
    seen.sort();
    seen.dedup();
    assert!(seen.len() > 1);
    let mut fixed = node(vec![]);
    fixed.config.election_timeout_min = 42;
    fixed.config.election_timeout_max = 42;
    assert_eq!(fixed.random_election_timeout(), 42);
}

#[test]
fn candidacy_asks_for_votes_in_the_next_term() {
    let mut n = node(vec![entry(1, 1), entry(2, 2)]);
    n.current_term = 4;
    n.current_leader = Some(3);
    n.election_timeout();
    assert_eq!(n.state, State::Candidate);
    assert_eq!(n.current_leader, None);
    let start = n.begin_candidacy();
    assert_eq!(start.request, vote_request(5, 1, 2, 2));
    assert!(saves(&start.save, 5, Some(1)));
    assert_eq!(start.votes_granted, 1);
    assert_eq!(n.current_term, 5);
    assert_eq!(n.voted_for, Some(1));
    let again = n.start_new_election();
    assert_eq!(again.request.term, 6);
    assert!(saves(&again.save, 6, Some(1)));
}

#[test]
fn one_vote_of_two_peers_elects() {
    let mut n = candidate();
    let mut votes: usize = 1;
    let refused = RequestVoteResponse { term: 5, vote_granted: false };
    assert!(matches!(n.handle_vote_response(refused, &mut votes), VoteOutcome::Waiting));
    assert_eq!(votes, 1);
    let granted = RequestVoteResponse { term: 5, vote_granted: true };
    assert!(matches!(n.handle_vote_response(granted, &mut votes), VoteOutcome::Elected));
    assert_eq!(votes, 2);
}

#[test]
fn larger_cluster_needs_more_votes() {
    let mut n = candidate();
    n.config.peers = vec![2, 3, 4, 5];
    let granted = RequestVoteResponse { term: 5, vote_granted: true };
    let mut votes: usize = 1;
    assert!(matches!(n.handle_vote_response(granted, &mut votes), VoteOutcome::Waiting));
    assert!(matches!(n.handle_vote_response(granted, &mut votes), VoteOutcome::Elected));
    assert_eq!(votes, 3);
}

#[test]
fn later_term_ends_a_candidacy() {
    let mut n = candidate();
    let mut votes: usize = 1;
    let later = RequestVoteResponse { term: 9, vote_granted: false };
    match n.handle_vote_response(later, &mut votes) {
        VoteOutcome::SteppedDown { save } => assert!(saves(&save, 9, None)),
        other => panic!("{:?}", other),
    }
    assert_eq!(n.state, State::Follower);
    assert_eq!(n.current_term, 9);
    assert_eq!(n.voted_for, None);
}

#[test]
fn follower_does_not_count_votes() {
    let mut n = node(vec![]);
    let mut votes: usize = 1;
    let granted = RequestVoteResponse { term: 0, vote_granted: true };
    assert!(matches!(n.handle_vote_response(granted, &mut votes), VoteOutcome::Waiting));
    assert_eq!(votes, 1);
}

#[test]
fn leader_starts_without_knowledge_of_its_followers() {
    let mut n = candidate();
    let mut numbers = HashMap::new();
    numbers.insert(3, SeqNum::new(8));
    n.become_leader(Ok((ClientId::new(3), numbers)));
    assert_eq!(n.state, State::Leader);
    assert_eq!(n.current_leader, Some(1));
    let leader = n.leader_state.as_ref().unwrap();
    assert_eq!(leader.next_index[&2], 3);
    assert_eq!(leader.next_index[&3], 3);
    assert_eq!(leader.match_index[&2], 0);
    assert_eq!(leader.next_index.len(), 2);
    assert_eq!(leader.last_client_id, ClientId::new(3));
    assert_eq!(leader.last_seq_nums[&3], SeqNum::new(8));
}

#[test]
fn unreadable_client_state_counts_as_none() {
    let mut n = candidate();
    n.become_leader(Err("broken".to_string()));
    let leader = n.leader_state.as_ref().unwrap();
    assert_eq!(leader.last_client_id, ClientId::new(1));
    assert!(leader.last_seq_nums.is_empty());
    let mut n = node(vec![]);
    n.election_timeout();
    n.begin_candidacy();
    n.become_leader(Err("broken".to_string()));
    assert_eq!(n.leader_state.as_ref().unwrap().last_client_id, ClientId::new(0));
}

#[test]
fn vote_goes_to_an_up_to_date_candidate() {
    let mut n = node(vec![entry(1, 1), entry(2, 2)]);
    let (resp, storage) = n.handle_request_vote(vote_request(3, 2, 2, 2));
    assert_eq!(resp, RequestVoteResponse { term: 3, vote_granted: true });
    assert_eq!(storage.len(), 2);
    assert!(saves(&storage[0], 3, None));
    assert!(saves(&storage[1], 3, Some(2)));
    assert_eq!(n.voted_for, Some(2));
}

#[test]
fn outdated_candidates_get_no_vote() {
    let mut n = node(vec![entry(1, 1), entry(2, 2)]);
    let (shorter, storage) = n.handle_request_vote(vote_request(3, 2, 2, 1));
    assert_eq!(shorter, RequestVoteResponse { term: 3, vote_granted: false });
    assert_eq!(storage.len(), 1);
    assert!(saves(&storage[0], 3, None));
    let (older, _) = n.handle_request_vote(vote_request(3, 2, 1, 9));
    assert!(!older.vote_granted);
    let (newer, _) = n.handle_request_vote(vote_request(3, 3, 3, 1));
    assert!(newer.vote_granted);
}

#[test]
fn second_candidate_of_a_term_gets_no_vote() {
    let mut n = node(vec![]);
    assert!(n.handle_request_vote(vote_request(1, 2, 0, 0)).0.vote_granted);
    assert!(!n.handle_request_vote(vote_request(1, 3, 5, 5)).0.vote_granted);
    assert!(n.handle_request_vote(vote_request(1, 2, 0, 0)).0.vote_granted);
    assert!(n.handle_request_vote(vote_request(2, 3, 0, 0)).0.vote_granted);
}

#[test]
fn stale_candidate_is_told_the_term() {
    let mut n = node(vec![]);
    n.current_term = 6;
    let (resp, storage) = n.handle_request_vote(vote_request(5, 2, 9, 9));
    assert_eq!(resp, RequestVoteResponse { term: 6, vote_granted: false });
    assert!(storage.is_empty());
}

#[test]
fn term_never_goes_back_over_events() {
    let mut n = candidate();
    let before = n.current_term;
    n.handle_event(RaftEvent::VoteRequestReceived(vote_request(2, 2, 9, 9)));
    assert_eq!(n.current_term, before);
    let r = n.handle_event(RaftEvent::VoteRequestReceived(vote_request(8, 2, 9, 9)));
    assert_eq!(n.current_term, 8);
    assert!(r.leave);
    assert_eq!(n.state, State::Follower);
    assert_eq!(n.voted_for, Some(2));
    n.handle_event(RaftEvent::AppendEntriesReceived(heartbeat(3)));
    assert_eq!(n.current_term, 8);
    assert_eq!(n.voted_for, Some(2));
}

#[test]
fn candidate_follows_a_leader_of_its_term() {
    let mut n = candidate();
    let r = n.handle_event(RaftEvent::AppendEntriesReceived(heartbeat(5)));
    assert!(r.leave);
    assert!(!r.reset_timer);
    match r.step {
        Step::AppendEntries { storage, response, apply } => {
            assert!(!apply);
            assert_eq!(storage.len(), 1);
            assert!(saves(&storage[0], 5, Some(1)));
            assert!(response.success);
            assert_eq!(response.term, 5);
        }
        other => panic!("{:?}", other),
    }
    assert_eq!(n.state, State::Follower);
    assert_eq!(n.current_leader, Some(2));
    assert_eq!(n.voted_for, Some(1));
}

#[test]
fn candidate_follows_a_leader_of_a_later_term() {
    let mut n = candidate();
    let r = n.handle_event(RaftEvent::AppendEntriesReceived(heartbeat(6)));
    match r.step {
        Step::AppendEntries { storage, .. } => assert!(saves(&storage[0], 6, None)),
        other => panic!("{:?}", other),
    }
    assert_eq!(n.voted_for, None);
}

#[test]
fn candidate_turns_down_a_stale_leader() {
    let mut n = candidate();
    let r = n.handle_event(RaftEvent::AppendEntriesReceived(heartbeat(4)));
    assert!(!r.leave);
    match r.step {
        Step::AppendEntries { storage, response, apply } => {
            assert!(!apply);
            assert!(storage.is_empty());
            assert!(!response.success);
            assert_eq!(response.term, 5);
            assert_eq!(response.conflict_index, 0);
            assert_eq!(response.last_log_index, 2);
        }
        other => panic!("{:?}", other),
    }
    assert_eq!(n.state, State::Candidate);
}

#[test]
fn candidate_takes_or_turns_down_snapshots() {
    let request = |term: u64| InstallSnapshotRequest {
        term,
        leader_id: 3,
        last_included_index: 2,
        last_included_term: 2,
        data: vec![1],
    };
    let mut n = candidate();
    let r = n.handle_event(RaftEvent::InstallSnapshotReceived(request(4)));
    match r.step {
        Step::RefuseSnapshot { refusal } => {
            assert_eq!(refusal.term, 5);
            assert!(!refusal.success);
        }
        other => panic!("{:?}", other),
    }
    let r = n.handle_event(RaftEvent::InstallSnapshotReceived(request(5)));
    assert!(r.leave);
    match r.step {
        Step::InstallSnapshot { storage, request } => {
            assert_eq!(storage.len(), 1);
            assert!(saves(&storage[0], 5, Some(1)));
            assert_eq!(request.last_included_index, 2);
        }
        other => panic!("{:?}", other),
    }
    assert_eq!(n.current_leader, Some(3));
}

#[test]
fn candidate_compacts_its_log() {
    let mut n = candidate();
    let r = n.handle_event(RaftEvent::SnapshotCompleted(1, 1));
    assert!(matches!(r.step, Step::Ignore));
    assert_eq!(n.log.snapshot_index(), 1);
    assert_eq!(n.log.last_index(), 2);
}

#[test]
fn leader_steps_down_for_a_later_term() {
    let mut n = candidate();
    n.become_leader(Err(String::new()));
    let r = n.handle_event(RaftEvent::VoteRequestReceived(vote_request(5, 2, 9, 9)));
    assert!(!r.leave);
    match r.step {
        Step::Vote { storage, vote } => {
            assert!(storage.is_empty());
            assert!(!vote.vote_granted);
        }
        other => panic!("{:?}", other),
    }
    let r = n.handle_event(RaftEvent::VoteRequestReceived(vote_request(6, 2, 9, 9)));
    assert!(r.leave);
    assert_eq!(n.state, State::Follower);
    assert!(n.leader_state.is_none());
}

#[test]
fn follower_reset_of_the_timer() {
    let mut n = node(vec![]);
    assert!(n.handle_event(RaftEvent::VoteRequestReceived(vote_request(1, 2, 0, 0))).reset_timer);
    assert!(!n.handle_event(RaftEvent::VoteRequestReceived(vote_request(1, 3, 0, 0))).reset_timer);
    assert!(n.handle_event(RaftEvent::AppendEntriesReceived(heartbeat(1))).reset_timer);
    assert!(!n.handle_event(RaftEvent::SnapshotCompleted(1, 1)).reset_timer);
}

#[test]
fn candidate_that_hears_from_a_leader_keeps_its_vote() {
    let mut n = candidate();
    assert_eq!(n.voted_for, Some(1));
    n.handle_event(RaftEvent::AppendEntriesReceived(heartbeat(5)));
    let (resp, _) = n.handle_request_vote(vote_request(5, 2, 9, 9));
    assert!(!resp.vote_granted);
    assert_eq!(n.voted_for, Some(1));
    let (resp, _) = n.handle_request_vote(vote_request(6, 2, 9, 9));
    assert!(resp.vote_granted);
    assert_eq!(n.voted_for, Some(2));
}

#[test]
fn stepping_down_keeps_the_vote_only_within_the_term() {
    let mut n = candidate();
    assert!(saves(&n.become_follower(5), 5, Some(1)));
    assert_eq!((n.state, n.voted_for), (State::Follower, Some(1)));
    assert!(saves(&n.become_follower(6), 6, None));
    assert_eq!((n.current_term, n.voted_for), (6, None));
    let mut n = candidate();
    assert!(saves(&n.become_follower(3), 3, None));
    assert_eq!((n.current_term, n.voted_for), (3, None));
}

#[test]
fn lone_node_waits_for_votes() {
    let mut n: RaftNode<u32> = RaftNode::new(Config::default(), 0, None, None, vec![]).unwrap();
    n.election_timeout();
    n.begin_candidacy();
    assert_eq!(n.config.majority(), 1);
    assert_eq!(n.state, State::Candidate);
}
