use raft::log::{Log, LogEntry};
use raft::{ClientId, Config, RaftCommand, SeqNum};

fn entry(term: u64, index: u64) -> LogEntry {
    LogEntry::new(
        term,
        index,
        RaftCommand::ClientCommand(vec![index as u8]),
        ClientId::new(7),
        SeqNum::new(index),
    )
}

fn log_up_to(last: u64) -> Log {
    let mut log = Log::new();
    log.append((1..=last).map(|i| entry(1, i)).collect());
    log
}

fn indices(entries: &[LogEntry]) -> Vec<u64> {
    entries.iter().map(|e| e.index).collect()
}

#[test]
fn new_log_is_empty() {
    let log = Log::new();
    assert!(log.is_empty());
    assert_eq!(log.len(), 0);
    assert_eq!(log.first_index(), 1);
    assert_eq!(log.last_index(), 0);
    assert_eq!(log.last_term(), 0);
    assert_eq!(log.snapshot_index(), 0);
    assert_eq!(log.snapshot_term(), 0);
    let dummy = log.get(0).unwrap();
    assert_eq!((dummy.term, dummy.index), (0, 0));
    assert!(log.get(1).is_none());
}

#[test]
fn default_log_becomes_usable_with_a_snapshot() {
    let mut log = Log::default();
    assert_eq!(log.last_index(), 0);
    assert!(log.get(0).is_none());
    log.set_snapshot(4, 2);
    assert!(log.is_empty());
    assert_eq!(log.last_index(), 4);
    assert_eq!(log.last_term(), 2);
}

#[test]
fn append_and_get() {
    let mut log = log_up_to(3);
    log.append(vec![entry(2, 4)]);
    assert_eq!(log.len(), 4);
    assert_eq!(log.last_index(), 4);
    assert_eq!(log.last_term(), 2);
    assert_eq!(log.get(2).unwrap().seq_num, SeqNum::new(2));
    assert!(log.get(5).is_none());
    log.append(vec![]);
    assert_eq!(log.len(), 4);
}

#[test]
fn truncation_keeps_what_comes_before() {
    let mut log = log_up_to(5);
    log.truncate_from(3);
    assert_eq!(log.last_index(), 2);
    assert!(log.get(2).is_some());
    assert!(log.get(3).is_none());
    log.truncate_from(9);
    assert_eq!(log.last_index(), 2);
    log.truncate_from(0);
    assert_eq!(log.last_index(), 2);
}

#[test]
fn truncation_stops_at_the_snapshot() {
    let mut log = log_up_to(5);
    log.compact(3, 1);
    log.truncate_from(3);
    assert_eq!(indices(&log.get_range(4, 6)), vec![4, 5]);
    log.truncate_from(5);
    assert_eq!(log.last_index(), 4);
    log.truncate_from(4);
    assert_eq!(log.last_index(), 3);
    assert!(log.is_empty());
}

#[test]
fn range_lists_entries_in_order() {
    let log = log_up_to(5);
    assert_eq!(indices(&log.get_range(2, 4)), vec![2, 3]);
    assert_eq!(indices(&log.get_range(4, 99)), vec![4, 5]);
    assert!(log.get_range(4, 4).is_empty());
    assert!(log.get_range(5, 2).is_empty());
    assert!(log.get_range(6, 9).is_empty());
    assert!(log.get_range(0, 3).is_empty());
    assert_eq!(log.range_len(2, 4), 2);
    assert_eq!(log.range_len(0, 3), 0);
    assert_eq!(log.range_len(4, 99), 2);
}

#[test]
fn range_after_a_snapshot() {
    let mut log = log_up_to(6);
    log.compact(4, 1);
    assert!(log.get_range(4, 7).is_empty());
    assert_eq!(indices(&log.get_range(5, 7)), vec![5, 6]);
    assert_eq!(indices(&log.get_range(6, 7)), vec![6]);
    assert!(log.get_range(6, 5).is_empty());
    assert!(log.get_range(6, 1).is_empty());
    assert_eq!(log.range_len(6, 1), 0);
}

#[test]
fn range_that_ends_inside_the_snapshot_is_empty() {
    let mut log = log_up_to(4);
    log.compact(2, 1);
    assert!(log.get_range(3, 1).is_empty());
    assert_eq!(log.range_len(3, 1), 0);
    assert!(log.get_range(3, 0).is_empty());
    assert!(log.get_range(3, 3).is_empty());
    assert_eq!(log.range_len(3, 4), 1);
}

#[test]
fn log_remembers_the_highest_client_id() {
    let of_client = |client: u64, index: u64| LogEntry {
        client_id: ClientId::new(client),
        ..entry(1, index)
    };
    let mut log = Log::new();
    assert_eq!(log.highest_client_id(), 0);
    log.append(vec![of_client(3, 1), of_client(9, 2), of_client(4, 3)]);
    assert_eq!(log.highest_client_id(), 9);
    log.truncate_from(2);
    assert_eq!(log.highest_client_id(), 9);
    log.append(vec![of_client(12, 2), of_client(1, 3)]);
    log.compact(2, 1);
    assert_eq!(log.highest_client_id(), 12);
    log.compact(8, 1);
    assert_eq!(log.highest_client_id(), 12);
    log.append(vec![of_client(20, 9)]);
    log.set_snapshot(9, 1);
    assert_eq!(log.highest_client_id(), 20);
}

#[test]
fn compaction_keeps_later_entries() {
    let mut log = log_up_to(6);
    log.compact(4, 9);
    assert_eq!(log.snapshot_index(), 4);
    assert_eq!(log.snapshot_term(), 9);
    assert_eq!(log.first_index(), 5);
    assert_eq!(log.last_index(), 6);
    assert_eq!(log.len(), 2);
    assert!(log.get(4).is_none());
    assert!(log.get(0).is_none());
    assert_eq!(log.get(5).unwrap().index, 5);
    log.compact(6, 9);
    assert!(log.is_empty());
    assert_eq!(log.last_index(), 6);
    assert_eq!(log.last_term(), 9);
    assert_eq!(log.first_index(), 7);
}

#[test]
fn compaction_past_the_log_leaves_only_the_snapshot() {
    for mut log in [Log::new(), log_up_to(3)] {
        log.compact(7, 2);
        assert_eq!((log.snapshot_index(), log.snapshot_term()), (7, 2));
        assert_eq!((log.last_index(), log.last_term()), (7, 2));
        assert_eq!(log.first_index(), 8);
        assert!(log.is_empty());
        assert!(log.get(3).is_none());
        assert!(log.get(7).is_none());
        log.append(vec![entry(2, 8)]);
        assert_eq!(log.get(8).unwrap().term, 2);
        assert_eq!(log.last_index(), 8);
    }
}

#[test]
fn compaction_inside_the_snapshot_changes_nothing() {
    let mut log = log_up_to(3);
    log.compact(0, 5);
    assert_eq!((log.snapshot_index(), log.snapshot_term()), (0, 0));
    log.compact(2, 1);
    log.compact(2, 5);
    log.compact(1, 5);
    assert_eq!(log.snapshot_index(), 2);
    assert_eq!(log.snapshot_term(), 1);
    assert_eq!(indices(&log.get_range(3, 4)), vec![3]);
}

#[test]
fn holds_all_tells_missing_entries() {
    let mut log = log_up_to(5);
    assert!(log.holds_all(0, 5));
    assert!(!log.holds_all(0, 6));
    assert!(log.holds_all(5, 5));
    assert!(log.holds_all(9, 3));
    log.compact(2, 1);
    assert!(!log.holds_all(1, 4));
    assert!(log.holds_all(2, 5));
}

#[test]
fn ids_and_numbers() {
    assert_eq!(ClientId::new(5).to_u64(), 5);
    assert_eq!(SeqNum::new(6).to_u64(), 6);
    let id = ClientId::new(8);
    assert_eq!(ClientId::new(id.to_u64()), id);
    for (x, y) in [(1, 2), (2, 1), (3, 3), (0, u64::MAX)] {
        assert_eq!(ClientId::new(x) == ClientId::new(y), x == y);
        assert_eq!(ClientId::new(x) < ClientId::new(y), x < y);
        assert_eq!(ClientId::new(x) <= ClientId::new(y), x <= y);
        assert_eq!(ClientId::new(x).cmp(&ClientId::new(y)), x.cmp(&y));
        assert_eq!(SeqNum::new(x) == SeqNum::new(y), x == y);
        assert_eq!(SeqNum::new(x) < SeqNum::new(y), x < y);
        assert_eq!(SeqNum::new(x) <= SeqNum::new(y), x <= y);
        assert_eq!(SeqNum::new(x).partial_cmp(&SeqNum::new(y)), x.partial_cmp(&y));
    }
}

#[test]
fn default_settings() {
    let config = Config::default();
    assert_eq!(config.node_id, 1);
    assert!(config.peers.is_empty());
    assert_eq!(config.election_timeout_min, 150);
    assert_eq!(config.election_timeout_max, 300);
    assert_eq!(config.heartbeat_interval, 50);
    assert_eq!(config.snapshot_threshold, 500);
    assert_eq!(config.listen_addr, "127.0.0.1:50051");
    let copy = config.clone();
    assert_eq!(copy.listen_addr, config.listen_addr);
}

#[test]
fn majority_is_more_than_half() {
    let expected = [(0, 1), (1, 2), (2, 2), (3, 3), (4, 3), (5, 4), (6, 4)];
    for (peers, majority) in expected {
        let config = Config { peers: (2..2 + peers).collect(), ..Config::default() };
        assert_eq!(config.majority(), majority);
    }
}
