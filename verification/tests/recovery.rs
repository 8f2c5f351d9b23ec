use raft::bytes::{u64_from_le_bytes, u64_to_le_bytes};
use raft::events::{RaftEvent, Step};
use raft::log::LogEntry;
use raft::messages::{AppendEntriesRequest, InstallSnapshotRequest, InstallSnapshotResponse};
use raft::model::{SnapshotOffer, StorageOp};
use raft::raft::{RaftNode, State};
use raft::recovery::restore_snapshot;
use raft::snapshot::{SnapshotLoad, SnapshotStart};
use raft::table::RequestTable;
use raft::text::append_decimal;
use raft::traits::StateMachine;
use raft::{ClientId, Config, RaftCommand, SeqNum};

struct Slot {
    value: Vec<u8>,
}

impl StateMachine for Slot {
    fn apply(&mut self, command: &[u8]) -> Result<Vec<u8>, String> {
        self.value = command.to_vec();
        Ok(vec![])
    }

    fn snapshot(&self) -> Result<Vec<u8>, String> {
        Ok(self.value.clone())
    }

    fn restore(&mut self, snapshot: &[u8]) -> Result<(), String> {
        if snapshot.is_empty() {
            return Err("nothing there".to_string());
        }
        self.value = snapshot.to_vec();
        Ok(())
    }
}

fn entry(term: u64, index: u64) -> LogEntry {
    LogEntry::new(term, index, RaftCommand::ClientCommand(vec![index as u8]), ClientId::new(1), SeqNum::new(index))
}

fn config() -> Config {
    Config { node_id: 1, peers: vec![2, 3], snapshot_threshold: 3, ..Config::default() }
}

fn start(snapshot: Option<(u64, u64)>, indices: &[u64]) -> Result<RaftNode<u32>, String> {
    let entries = indices.iter().map(|i| entry(1, *i)).collect();
    RaftNode::new(config(), 4, Some(2), snapshot, entries)
}

#[test]
fn node_starts_from_an_empty_storage() {
    let n = start(None, &[]).unwrap();
    assert_eq!(n.state, State::Follower);
    assert_eq!((n.current_term, n.voted_for), (4, Some(2)));
    assert_eq!((n.commit_index, n.last_applied), (0, 0));
    assert!(n.leader_state.is_none());
    assert_eq!(n.current_leader, None);
    assert!(n.log.is_empty());
}

#[test]
fn node_starts_from_its_log() {
    let n = start(None, &[1, 2, 3]).unwrap();
    assert_eq!(n.log.last_index(), 3);
    assert_eq!(n.commit_index, 0);
}

#[test]
fn entries_inside_the_snapshot_are_left_out() {
    let n = start(Some((2, 7)), &[1, 2, 3, 4]).unwrap();
    assert_eq!((n.log.snapshot_index(), n.log.snapshot_term()), (2, 7));
    assert_eq!((n.commit_index, n.last_applied), (2, 2));
    assert_eq!(n.log.len(), 2);
    assert_eq!(n.log.get(3).unwrap().index, 3);
    let n = start(Some((9, 7)), &[1, 2]).unwrap();
    assert!(n.log.is_empty());
    assert_eq!(n.log.last_index(), 9);
}

#[test]
fn snapshot_at_zero_stands_for_none() {
    let n = start(Some((0, 5)), &[1]).unwrap();
    assert_eq!(n.log.snapshot_index(), 0);
    assert_eq!(n.log.snapshot_term(), 0);
    assert_eq!(n.log.last_index(), 1);
}

#[test]
fn truncated_log_without_a_snapshot_is_fatal() {
    let err = start(None, &[3, 4]).unwrap_err();
    assert_eq!(
        err,
        "FATAL: Log is truncated, but no snapshot found. Data might be corrupted. Manual recovery required."
    );
}

#[test]
fn gap_after_the_snapshot_is_fatal() {
    let err = start(Some((2, 1)), &[15, 16]).unwrap_err();
    assert_eq!(
        err,
        "FATAL: Log is not consistent: snapshot_index = 2, first_log_index = 15"
    );
    let err = start(None, &[0, 1]);
    assert_eq!(err.unwrap().log.last_index(), 1);
}

#[test]
fn stored_snapshot_is_restored() {
    let mut sm = Slot { value: vec![] };
    assert_eq!(restore_snapshot(&mut sm, None), Ok(None));
    assert_eq!(restore_snapshot(&mut sm, Some((0, 0, vec![1]))), Ok(None));
    assert!(sm.value.is_empty());
    assert_eq!(restore_snapshot(&mut sm, Some((5, 2, vec![8, 9]))), Ok(Some((5, 2))));
    assert_eq!(sm.value, vec![8, 9]);
    assert_eq!(
        restore_snapshot(&mut sm, Some((5, 2, vec![]))),
        Err("StateMachine restore failed: nothing there".to_string())
    );
}

#[test]
fn snapshot_is_installed() {
    let mut n = start(None, &[1, 2, 3, 4]).unwrap();
    let req = InstallSnapshotRequest {
        term: 6,
        leader_id: 3,
        last_included_index: 3,
        last_included_term: 5,
        data: vec![1],
    };
    match n.handle_install_snapshot(&req) {
        SnapshotStart::Proceed { storage } => {
            assert_eq!(storage.len(), 1);
            assert!(matches!(storage[0], StorageOp::SaveTerm { term: 6, voted_for: None }));
        }
        other => panic!("{:?}", other),
    }
    assert_eq!(n.current_leader, Some(3));
    assert_eq!(n.log.snapshot_index(), 0);
    let (response, storage) = n.finish_install_snapshot(&req, false);
    assert_eq!(response, InstallSnapshotResponse { term: 6, success: false });
    assert!(storage.is_empty());
    let (response, storage) = n.finish_install_snapshot(&req, true);
    assert_eq!(response, InstallSnapshotResponse { term: 6, success: true });
    assert!(matches!(storage[0], StorageOp::TruncateLog { index: 3 }));
    assert_eq!((n.log.snapshot_index(), n.log.snapshot_term()), (3, 5));
    assert_eq!(n.log.get(4).unwrap().index, 4);
    assert_eq!((n.commit_index, n.last_applied), (3, 3));
}

#[test]
fn snapshot_of_a_stale_leader_is_refused() {
    let mut n = start(None, &[1]).unwrap();
    let req = InstallSnapshotRequest {
        term: 3,
        leader_id: 3,
        last_included_index: 1,
        last_included_term: 1,
        data: vec![],
    };
    match n.handle_install_snapshot(&req) {
        SnapshotStart::Refused { response } => {
            assert_eq!(response, InstallSnapshotResponse { term: 4, success: false })
        }
        other => panic!("{:?}", other),
    }
    let r = n.handle_event(RaftEvent::InstallSnapshotReceived(req));
    assert!(r.reset_timer);
    assert!(matches!(r.step, Step::RefuseSnapshot { refusal } if !refusal.success));
}

#[test]
fn snapshot_past_the_log_takes_its_place() {
    let mut n = start(None, &[1]).unwrap();
    let req = InstallSnapshotRequest {
        term: 4,
        leader_id: 3,
        last_included_index: 9,
        last_included_term: 4,
        data: vec![1],
    };
    n.handle_install_snapshot(&req);
    n.finish_install_snapshot(&req, true);
    assert_eq!((n.log.snapshot_index(), n.log.snapshot_term()), (9, 4));
    assert_eq!((n.log.last_index(), n.log.last_term()), (9, 4));
    assert!(n.log.is_empty());
    assert_eq!((n.commit_index, n.last_applied), (9, 9));
}

#[test]
fn empty_follower_catches_up_after_a_snapshot() {
    let mut n = start(None, &[]).unwrap();
    let req = InstallSnapshotRequest {
        term: 4,
        leader_id: 3,
        last_included_index: 5,
        last_included_term: 1,
        data: vec![1],
    };
    n.handle_install_snapshot(&req);
    let (response, _) = n.finish_install_snapshot(&req, true);
    assert_eq!(response, InstallSnapshotResponse { term: 4, success: true });
    assert_eq!((n.log.snapshot_index(), n.log.snapshot_term()), (5, 1));
    assert_eq!((n.log.last_index(), n.log.last_term()), (5, 1));
    assert_eq!((n.commit_index, n.last_applied), (5, 5));
    let next = AppendEntriesRequest {
        term: 4,
        leader_id: 3,
        prev_log_index: 5,
        prev_log_term: 1,
        entries: vec![entry(4, 6)],
        leader_commit: 6,
    };
    assert!(n.can_append(&next));
    let (response, _) = n.handle_append_entries(next);
    assert!(response.success);
    assert_eq!(response.last_log_index, 6);
    assert_eq!(n.log.get(6).unwrap().term, 4);
    assert_eq!(n.commit_index, 6);
    assert!(n.can_apply());
}

#[test]
fn leader_checks_the_snapshot_that_it_loads() {
    let offer = SnapshotOffer { term: 4, leader_id: 1, last_included_index: 5, last_included_term: 2 };
    match offer.complete(Ok(Some((5, 2, vec![7])))) {
        SnapshotLoad::Send { request } => {
            assert_eq!((request.term, request.leader_id), (4, 1));
            assert_eq!((request.last_included_index, request.last_included_term), (5, 2));
            assert_eq!(request.data, vec![7]);
        }
        other => panic!("{:?}", other),
    }
    assert!(matches!(
        offer.complete(Ok(Some((6, 2, vec![])))),
        SnapshotLoad::Mismatch { index: 6, term: 2 }
    ));
    assert!(matches!(
        offer.complete(Ok(Some((5, 3, vec![])))),
        SnapshotLoad::Mismatch { index: 5, term: 3 }
    ));
    assert!(matches!(offer.complete(Ok(None)), SnapshotLoad::Missing));
    match offer.complete(Err("disk".to_string())) {
        SnapshotLoad::Unavailable { error } => assert_eq!(error, "disk"),
        other => panic!("{:?}", other),
    }
}

#[test]
fn snapshot_is_due_after_the_threshold() {
    let mut n = start(None, &[1, 2, 3, 4]).unwrap();
    n.last_applied = 2;
    assert_eq!(n.snapshot_due(), None);
    n.last_applied = 3;
    assert_eq!(n.snapshot_due(), Some((3, 1)));
    n.log.compact(1, 1);
    assert_eq!(n.snapshot_due(), None);
    n.last_applied = 4;
    assert_eq!(n.snapshot_due(), Some((4, 1)));
    n.last_applied = 5;
    assert_eq!(n.snapshot_due(), None);
}

#[test]
fn bytes_of_a_number_come_least_significant_first() {
    let bytes = u64_to_le_bytes(0x0102_0304_0506_0708);
    assert_eq!(bytes, vec![8, 7, 6, 5, 4, 3, 2, 1]);
    for x in [0, 1, 255, 256, u64::MAX, 0xdead_beef_0000_0001] {
        assert_eq!(u64_to_le_bytes(x), x.to_le_bytes().to_vec());
        assert_eq!(u64_from_le_bytes(&u64_to_le_bytes(x)), x);
    }
}

#[test]
fn numbers_are_written_in_decimal() {
    for x in [0, 7, 10, 1234567890, u64::MAX] {
        let mut text = "n = ".to_string();
        append_decimal(&mut text, x);
        assert_eq!(text, format!("n = {}", x));
    }
}

#[test]
fn table_of_requests() {
    let key = |c: u64, s: u64| (ClientId::new(c), SeqNum::new(s));
    let mut table: RequestTable<u32> = RequestTable::new();
    for (c, s) in [(1, 1), (1, 2), (1, 3), (2, 1), (u64::MAX, u64::MAX), (0, 1)] {
        let (client, seq) = key(c, s);
        table.insert(client, seq, (s % 100) as u32);
    }
    assert!(table.contains(ClientId::new(u64::MAX), SeqNum::new(u64::MAX)));
    assert!(!table.contains(ClientId::new(2), SeqNum::new(2)));
    assert_eq!(table.get(ClientId::new(1), SeqNum::new(3)), Some(&3));
    table.forget(ClientId::new(1), SeqNum::new(2));
    let mut keys = table.keys();
    keys.sort();
    assert_eq!(keys, vec![key(0, 1), key(1, 3), key(2, 1), key(u64::MAX, u64::MAX)]);
    assert_eq!(table.remove(ClientId::new(2), SeqNum::new(1)), Some(1));
    assert_eq!(table.remove(ClientId::new(2), SeqNum::new(1)), None);
    let mut rest = table.drain();
    rest.sort();
    assert_eq!(rest.len(), 3);
    assert_eq!(rest[1], (key(1, 3), 3));
    assert!(table.keys().is_empty());
}
