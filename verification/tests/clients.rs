use raft::client::{ClientStep, RaftClient};
use raft::events::{RaftEvent, Step};
use raft::log::LogEntry;
use raft::messages::AppendEntriesResponse;
use raft::model::StorageOp;
use raft::raft::{RaftNode, State};
use raft::sessions::registration_result;
use raft::traits::StateMachine;
use raft::{ClientId, ClientRequest, CommandResult, Config, RaftCommand, SeqNum};
use std::collections::HashMap;
use std::sync::Arc;

/// Answers every command with its own bytes; the command `!` fails.
struct Echo;

impl StateMachine for Echo {
    fn apply(&mut self, command: &[u8]) -> Result<Vec<u8>, String> {
        if command == b"!" {
            return Err("refused".to_string());
        }
        Ok(command.to_vec())
    }

    fn snapshot(&self) -> Result<Vec<u8>, String> {
        Ok(vec![])
    }

    fn restore(&mut self, _snapshot: &[u8]) -> Result<(), String> {
        Ok(())
    }
}

fn node() -> RaftNode<&'static str> {
    let config = Config { node_id: 1, peers: vec![2, 3], ..Config::default() };
    RaftNode::new(config, 0, None, None, vec![]).unwrap()
}

fn leader() -> RaftNode<&'static str> {
    let mut n = node();
    n.election_timeout();
    n.begin_candidacy();
    n.become_leader(Err(String::new()));
    n
}

fn command(client: u64, seq: u64, received: u64, text: &str, to: &'static str) -> ClientRequest<&'static str> {
    ClientRequest {
        client_id: ClientId::new(client),
        seq_num: SeqNum::new(seq),
        last_received_seq: SeqNum::new(received),
        command: RaftCommand::ClientCommand(text.as_bytes().to_vec()),
        response_tx: to,
    }
}

fn answer(step: Step<&'static str>) -> (&'static str, CommandResult) {
    match step {
        Step::Answer { to, result } => (to, result),
        other => panic!("{:?}", other),
    }
}

fn entered(step: Step<&'static str>) -> LogEntry {
    match step {
        Step::Replicate { mut storage } => {
            assert_eq!(storage.len(), 1);
            match storage.remove(0) {
                StorageOp::AppendLog { mut entries } => {
                    assert_eq!(entries.len(), 1);
                    entries.remove(0)
                }
                other => panic!("{:?}", other),
            }
        }
        other => panic!("{:?}", other),
    }
}

fn acknowledge(n: &mut RaftNode<&'static str>, index: u64) -> Vec<(&'static str, CommandResult)> {
    let resp = AppendEntriesResponse {
        term: n.current_term,
        success: true,
        conflict_index: 0,
        last_log_index: index,
    };
    let r = n.handle_event(RaftEvent::AppendEntriesResponse(resp, 2, index));
    assert!(matches!(r.step, Step::Apply));
    assert!(n.can_apply_as_leader());
    n.apply_committed_as_leader(&mut Echo).answers
}

fn success(result: &CommandResult) -> Vec<u8> {
    match result {
        CommandResult::Success(bytes) => bytes.clone(),
        other => panic!("{:?}", other),
    }
}

fn error(result: &CommandResult) -> String {
    match result {
        CommandResult::Error(text) => text.clone(),
        other => panic!("{:?}", other),
    }
}

#[test]
fn command_is_entered_replicated_and_answered() {
    let mut n = leader();
    let e = entered(n.handle_event(RaftEvent::ClientRequest(command(4, 1, 0, "x", "c4"))).step);
    assert_eq!((e.term, e.index), (1, 1));
    assert_eq!((e.client_id, e.seq_num), (ClientId::new(4), SeqNum::new(1)));
    assert_eq!(n.log.last_index(), 1);
    let answers = acknowledge(&mut n, 1);
    assert_eq!(answers.len(), 1);
    assert_eq!(answers[0].0, "c4");
    assert_eq!(success(&answers[0].1), b"x".to_vec());
    assert_eq!(n.last_applied, 1);
    assert!(n.has_client_state());
}

#[test]
fn each_waiting_client_gets_its_own_result() {
    let mut n = leader();
    n.handle_event(RaftEvent::ClientRequest(command(4, 1, 0, "x", "c4")));
    n.handle_event(RaftEvent::ClientRequest(command(5, 1, 0, "!", "c5")));
    n.handle_event(RaftEvent::ClientRequest(command(6, 1, 0, "z", "c6")));
    let answers = acknowledge(&mut n, 3);
    let to: Vec<&str> = answers.iter().map(|a| a.0).collect();
    assert_eq!(to, vec!["c4", "c5", "c6"]);
    assert_eq!(success(&answers[0].1), b"x".to_vec());
    assert_eq!(error(&answers[1].1), "refused");
    assert_eq!(success(&answers[2].1), b"z".to_vec());
}

#[test]
fn repeated_command_is_in_progress() {
    let mut n = leader();
    n.handle_event(RaftEvent::ClientRequest(command(4, 1, 0, "x", "first")));
    let (to, result) = answer(n.handle_event(RaftEvent::ClientRequest(command(4, 1, 0, "x", "second"))).step);
    assert_eq!(to, "second");
    assert_eq!(error(&result), "Duplicate request is already in progress");
    assert_eq!(n.log.last_index(), 1);
}

#[test]
fn command_that_was_carried_out_is_not_entered_again() {
    let mut n = leader();
    n.handle_event(RaftEvent::ClientRequest(command(4, 1, 0, "x", "first")));
    acknowledge(&mut n, 1);
    let (_, result) = answer(n.handle_event(RaftEvent::ClientRequest(command(4, 1, 0, "x", "again"))).step);
    assert_eq!(success(&result), b"x".to_vec());
    assert_eq!(n.log.last_index(), 1);
    entered(n.handle_event(RaftEvent::ClientRequest(command(4, 2, 1, "y", "next"))).step);
    assert_eq!(n.log.last_index(), 2);
    let (_, result) = answer(n.handle_event(RaftEvent::ClientRequest(command(4, 1, 0, "x", "late"))).step);
    assert_eq!(success(&result), Vec::<u8>::new());
    assert_eq!(n.log.last_index(), 2);
}

#[test]
fn failed_command_fails_again_when_repeated() {
    let mut n = leader();
    n.handle_event(RaftEvent::ClientRequest(command(4, 1, 0, "!", "first")));
    acknowledge(&mut n, 1);
    let (to, result) = answer(n.handle_event(RaftEvent::ClientRequest(command(4, 1, 0, "!", "again"))).step);
    assert_eq!(to, "again");
    assert_eq!(error(&result), "refused");
}

#[test]
fn stored_number_tells_that_a_command_was_carried_out() {
    let mut n = node();
    n.election_timeout();
    n.begin_candidacy();
    n.become_leader(Ok((ClientId::new(4), HashMap::from([(4, SeqNum::new(2))]))));
    for seq in [1, 2] {
        let (_, result) = answer(n.handle_event(RaftEvent::ClientRequest(command(4, seq, 0, "x", "c"))).step);
        assert_eq!(success(&result), Vec::<u8>::new());
    }
    entered(n.handle_event(RaftEvent::ClientRequest(command(4, 3, 0, "x", "c"))).step);
}

#[test]
fn result_of_an_unnumbered_client_is_cached_until_received() {
    let mut n = leader();
    n.handle_event(RaftEvent::ClientRequest(command(0, 5, 0, "x", "first")));
    acknowledge(&mut n, 1);
    let (_, result) = answer(n.handle_event(RaftEvent::ClientRequest(command(0, 5, 4, "x", "again"))).step);
    assert_eq!(success(&result), b"x".to_vec());
    entered(n.handle_event(RaftEvent::ClientRequest(command(0, 5, 5, "x", "forgotten"))).step);
}

#[test]
fn registration_gets_increasing_ids() {
    let mut n = leader();
    let mut ids = vec![];
    for to in ["a", "b", "c"] {
        let req = n.register_client(to).unwrap();
        assert_eq!((req.client_id, req.seq_num), (ClientId::new(0), SeqNum::new(0)));
        let e = entered(n.handle_event(RaftEvent::ClientRequest(req)).step);
        assert_eq!(e.seq_num, SeqNum::new(0));
        ids.push(e.client_id.to_u64());
    }
    assert_eq!(ids, vec![1, 2, 3]);
    let answers = acknowledge(&mut n, 3);
    assert_eq!(success(&answers[1].1), vec![2, 0, 0, 0, 0, 0, 0, 0]);
    let state = n.leader_state.as_ref().unwrap();
    assert_eq!(state.last_client_id, ClientId::new(3));
    assert_eq!(state.last_seq_nums[&2], SeqNum::new(0));
}

#[test]
fn registration_goes_on_from_the_stored_id() {
    let mut n = node();
    n.election_timeout();
    n.begin_candidacy();
    n.become_leader(Ok((ClientId::new(0x0102), HashMap::new())));
    let req = n.register_client("a").unwrap();
    n.handle_event(RaftEvent::ClientRequest(req));
    let answers = acknowledge(&mut n, 1);
    let bytes = success(&answers[0].1);
    assert_eq!(bytes, vec![3, 1, 0, 0, 0, 0, 0, 0]);
    let mut client = RaftClient::new(1, vec![1, 2, 3], Arc::new(()));
    assert!(matches!(
        client.init_session_step(0, CommandResult::Success(bytes)),
        ClientStep::Done { outcome: Ok(()) }
    ));
    assert_eq!(client.command_request(&vec![]).unwrap().client_id, ClientId::new(0x0103));
}

#[test]
fn ids_run_out() {
    let mut n = leader();
    n.leader_state.as_mut().unwrap().last_client_id = ClientId::new(u64::MAX);
    let req = n.register_client("a").unwrap();
    assert!(!n.can_take_request(&req));
    assert!(n.can_take_request(&command(4, 1, 0, "x", "b")));
}

#[test]
fn only_the_leader_registers() {
    let mut n = node();
    assert_eq!(
        error(&n.register_client("a").unwrap_err()),
        "Node is not a leader and current leader is unknown"
    );
    n.current_leader = Some(3);
    assert!(matches!(n.register_client("a").unwrap_err(), CommandResult::Redirect(3)));
}

#[test]
fn registration_that_gets_lost() {
    assert_eq!(error(&registration_result(false, None)), "Node internal error or shutdown");
    assert_eq!(error(&registration_result(true, None)), "Raft core dropped response channel");
    let reply = Some(CommandResult::Success(vec![1]));
    assert_eq!(success(&registration_result(true, reply)), vec![1]);
}

#[test]
fn followers_and_candidates_send_clients_away() {
    let mut n = node();
    let (to, result) = answer(n.handle_event(RaftEvent::ClientRequest(command(4, 1, 0, "x", "c"))).step);
    assert_eq!(to, "c");
    assert_eq!(error(&result), "Leader is currrently unknown. Try again later.");
    n.current_leader = Some(2);
    let (_, result) = answer(n.handle_event(RaftEvent::ClientRequest(command(4, 1, 0, "x", "c"))).step);
    assert!(matches!(result, CommandResult::Redirect(2)));
    n.election_timeout();
    let (_, result) = answer(n.handle_event(RaftEvent::ClientRequest(command(4, 1, 0, "x", "c"))).step);
    assert_eq!(error(&result), "No leader elected yet. Node is currently a candidate");
    assert_eq!(n.log.last_index(), 0);
}

#[test]
fn leader_without_leader_state_redirects() {
    let mut n = node();
    n.state = State::Leader;
    let (_, result) = answer(n.handle_event(RaftEvent::ClientRequest(command(4, 1, 0, "x", "c"))).step);
    assert_eq!(error(&result), "Node is not a leader");
    n.current_leader = Some(3);
    let (_, result) = answer(n.handle_event(RaftEvent::ClientRequest(command(4, 1, 0, "x", "c"))).step);
    assert!(matches!(result, CommandResult::Redirect(3)));
}

#[test]
fn shutdown_answers_everyone_who_waits() {
    let mut n = leader();
    n.handle_event(RaftEvent::ClientRequest(command(4, 1, 0, "x", "c4")));
    n.handle_event(RaftEvent::ClientRequest(command(5, 1, 0, "y", "c5")));
    assert!(matches!(n.handle_event(RaftEvent::Shutdown).step, Step::Shutdown));
    let farewell = n.shutdown();
    let mut waiting: Vec<&str> = farewell.waiting.iter().map(|w| w.1).collect();
    waiting.sort();
    assert_eq!(waiting, vec!["c4", "c5"]);
    assert_eq!(error(&farewell.result), "Node is shutting down");
    assert!(!farewell.save_client_state);
    assert!(matches!(farewell.save_term, StorageOp::SaveTerm { term: 1, voted_for: Some(1) }));
    assert!(n.shutdown().waiting.is_empty());
    let farewell = node().shutdown();
    assert!(farewell.waiting.is_empty());
}

#[test]
fn shutdown_saves_what_is_known_of_clients() {
    let mut n = leader();
    let req = n.register_client("a").unwrap();
    n.handle_event(RaftEvent::ClientRequest(req));
    assert!(n.shutdown().save_client_state);
}

#[test]
fn session_starts_and_counts() {
    let mut client = RaftClient::new(2, vec![1, 2, 3], Arc::new("wire"));
    assert_eq!(client.target(), 2);
    assert_eq!(**client.transport(), "wire");
    assert!(client.has_peers());
    assert_eq!(
        client.command_request(&vec![9]).unwrap_err(),
        "Client session is not initialized. Call init_session first."
    );
    match client.init_session_step(0, CommandResult::Redirect(3)) {
        ClientStep::Retry { target, attempts } => assert_eq!((target, attempts), (3, 1)),
        other => panic!("{:?}", other),
    }
    let reply = CommandResult::Success(vec![0x2a, 1, 0, 0, 0, 0, 0, 0]);
    assert!(matches!(client.init_session_step(1, reply), ClientStep::Done { outcome: Ok(()) }));
    let request = client.command_request(&vec![9]).unwrap();
    assert_eq!(request.client_id, ClientId::new(0x12a));
    assert_eq!((request.seq_num, request.last_received_seq), (SeqNum::new(1), SeqNum::new(0)));
    assert_eq!(request.command, vec![9]);
    assert!(client.can_count_on());
    match client.send_command_step(0, CommandResult::Success(vec![5])) {
        ClientStep::Done { outcome } => assert_eq!(outcome.unwrap(), vec![5]),
        other => panic!("{:?}", other),
    }
    let request = client.command_request(&vec![]).unwrap();
    assert_eq!((request.seq_num, request.last_received_seq), (SeqNum::new(2), SeqNum::new(1)));
}

#[test]
fn command_that_was_given_up_keeps_its_number() {
    let mut client = RaftClient::new(3, vec![1, 2, 3], Arc::new(()));
    client.init_session_step(0, CommandResult::Success(vec![1, 0, 0, 0, 0, 0, 0, 0]));
    let failed = || CommandResult::Error("busy".to_string());
    match client.send_command_step(0, failed()) {
        ClientStep::Retry { target, attempts } => assert_eq!((target, attempts), (1, 1)),
        other => panic!("{:?}", other),
    }
    match client.send_command_step(1, failed()) {
        ClientStep::Retry { target, attempts } => assert_eq!((target, attempts), (2, 2)),
        other => panic!("{:?}", other),
    }
    assert_eq!(client.command_request(&vec![]).unwrap().seq_num, SeqNum::new(1));
    match client.send_command_step(3, failed()) {
        ClientStep::Done { outcome } => assert_eq!(
            outcome.unwrap_err(),
            "Command execution failed: Cluster leader timeout or split-brain"
        ),
        other => panic!("{:?}", other),
    }
    assert_eq!(client.target(), 3);
    let request = client.command_request(&vec![]).unwrap();
    assert_eq!((request.seq_num, request.last_received_seq), (SeqNum::new(2), SeqNum::new(0)));
    client.send_command_step(0, CommandResult::Success(vec![]));
    let request = client.command_request(&vec![]).unwrap();
    assert_eq!((request.seq_num, request.last_received_seq), (SeqNum::new(3), SeqNum::new(2)));
}

#[test]
fn last_attempt_comes_after_one_for_each_peer() {
    let client = RaftClient::new(3, vec![1, 2, 3], Arc::new(()));
    assert!(!client.is_last_attempt(2));
    assert!(client.is_last_attempt(3));
}

#[test]
fn registration_of_a_client_can_fail() {
    let mut client = RaftClient::new(1, vec![1, 2], Arc::new(()));
    match client.init_session_step(0, CommandResult::Success(vec![1, 2, 3])) {
        ClientStep::Done { outcome } => {
            assert_eq!(outcome.unwrap_err(), "Invalid ClientId bytes length from leader")
        }
        other => panic!("{:?}", other),
    }
    match client.init_session_step(2, CommandResult::Redirect(7)) {
        ClientStep::Done { outcome } => {
            assert_eq!(outcome.unwrap_err(), "Failed to register client: Cluster unavailable")
        }
        other => panic!("{:?}", other),
    }
    assert_eq!(client.target(), 7);
}

#[test]
fn next_peer_after_an_unknown_leader() {
    let client = RaftClient::new(9, vec![1, 2, 3], Arc::new(()));
    assert_eq!(client.pick_next_peer(), 2);
    let client = RaftClient::new(3, vec![1, 2, 3], Arc::new(()));
    assert_eq!(client.pick_next_peer(), 1);
    let client = RaftClient::new(9, vec![5], Arc::new(()));
    assert_eq!(client.pick_next_peer(), 5);
}

#[test]
fn new_leader_without_client_state_gives_out_no_id_of_its_log() {
    let mut n = leader();
    let req = n.register_client("a").unwrap();
    let first = entered(n.handle_event(RaftEvent::ClientRequest(req)).step).client_id;
    n.become_follower(7);
    n.election_timeout();
    n.begin_candidacy();
    n.become_leader(Err(String::new()));
    let req = n.register_client("b").unwrap();
    let second = entered(n.handle_event(RaftEvent::ClientRequest(req)).step).client_id;
    assert_eq!(first, ClientId::new(1));
    assert_eq!(second, ClientId::new(2));
}

#[test]
fn id_of_a_dropped_registration_is_not_given_out_again() {
    let registration = |index: u64, client: u64| LogEntry {
        term: 1,
        index,
        command: RaftCommand::RegisterClient,
        client_id: ClientId::new(client),
        seq_num: SeqNum::new(0),
    };
    let mut compacted = node();
    compacted.log.append(vec![registration(1, 6), registration(2, 7)]);
    compacted.log.compact(2, 1);
    let mut overwritten = node();
    overwritten.log.append(vec![registration(1, 6), registration(2, 7)]);
    overwritten.log.truncate_from(1);
    for mut n in [compacted, overwritten] {
        n.election_timeout();
        n.begin_candidacy();
        n.become_leader(Ok((ClientId::new(3), HashMap::new())));
        assert_eq!(n.leader_state.as_ref().unwrap().last_client_id, ClientId::new(7));
        let req = n.register_client("a").unwrap();
        let id = entered(n.handle_event(RaftEvent::ClientRequest(req)).step).client_id;
        assert_eq!(id, ClientId::new(8));
    }
}

#[test]
fn numbers_carried_out_of_order_can_be_entered_again() {
    let mut n = leader();
    n.handle_event(RaftEvent::ClientRequest(command(4, 5, 0, "x", "five")));
    n.handle_event(RaftEvent::ClientRequest(command(4, 3, 0, "y", "three")));
    acknowledge(&mut n, 2);
    let state = n.leader_state.as_ref().unwrap();
    assert_eq!(state.last_seq_nums[&4], SeqNum::new(3));
    let (_, result) = answer(n.handle_event(RaftEvent::ClientRequest(command(4, 5, 3, "x", "again"))).step);
    assert_eq!(success(&result), b"x".to_vec());
    entered(n.handle_event(RaftEvent::ClientRequest(command(4, 5, 5, "x", "forgotten"))).step);
}
