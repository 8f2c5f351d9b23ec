//! What a node starts with, and how numbers are written.

use crate::laws::logs;
use crate::log::{EntryView, LogView};
use crate::messages::{
    AppendEntriesRequest, ClientCommandRequest, InstallSnapshotRequest,
};
use crate::model::{NodeView, SnapshotOffer, StorageOp, StorageOpView};
use crate::types::{Config, NodeId};
use vstd::prelude::*;

verus! {

/// A node starts with the snapshot of its storage, if there is one, and with every stored
/// entry that the snapshot does not hold, in their order.  Without a snapshot the log starts
/// with the dummy entry.
pub proof fn log_is_built_from_the_storage(snapshot: Option<(u64, u64)>, entries: Seq<EntryView>)
    ensures
        ({
            let log = crate::recovery::recovered_log(snapshot, entries);
            let held = match snapshot {
                Some((index, _)) => index,
                None => 0,
            };
            let kept = entries.filter(|e: EntryView| e.index > held);
            &&& log.snapshot_index == held
            &&& held > 0 ==> log.snapshot_term == (snapshot->0).1 && log.slots == kept
            &&& held == 0 ==> log.snapshot_term == 0 && log.slots.len() == kept.len() + 1
                && log.slots[0] == EntryView::dummy() && forall|k: int|
                0 <= k < kept.len() ==> #[trigger] kept[k] == log.slots[k + 1]
            &&& log.dropped_client_id == 0
        }),
{
    let log = crate::recovery::recovered_log(snapshot, entries);
    let held = match snapshot {
        Some((index, _)) => index,
        None => 0,
    };
    reveal_with_fuel(EntryView::highest_id, 2);
    assert(seq![EntryView::dummy()].drop_last() =~= Seq::empty());
    assert(EntryView::highest_id(seq![EntryView::dummy()], 0) == 0);
    assert((|e: EntryView| e.index > held) =~= (|e: EntryView| e.index > log.snapshot_index));
    if held > 0 {
        assert(log.slots =~= entries.filter(|e: EntryView| e.index > held));
    }
}

/// A node does not start from a log whose first entry does not follow the snapshot, and says
/// why; from any other it does.
pub proof fn broken_log_is_told(log: LogView)
    ensures
        ({
            let first = if logs::filled(log, log.snapshot_index + 1) {
                logs::entry(log, log.snapshot_index + 1).index as int
            } else {
                log.snapshot_index + 1
            };
            let error = crate::recovery::recovery_error(log);
            &&& log.snapshot_index == 0 && first > 1 ==> error == Some(
                "FATAL: Log is truncated, but no snapshot found. Data might be corrupted. Manual recovery required."@,
            )
            &&& log.snapshot_index > 0 && log.slots.len() > 0 && first != log.snapshot_index + 1
                ==> error == Some(
                "FATAL: Log is not consistent: snapshot_index = "@ + crate::text::decimal(
                    log.snapshot_index as nat,
                ) + ", first_log_index = "@ + crate::text::decimal(first as nat),
            )
            &&& first == log.snapshot_index + 1 ==> error is None
        }),
{
}

/// A node that starts follows, knows no leader, and has committed and applied what its
/// snapshot holds.
pub proof fn node_starts_as_a_follower<T>(
    config: Config,
    term: u64,
    voted_for: Option<NodeId>,
    log: LogView,
)
    ensures
        ({
            let node: NodeView<T> = crate::recovery::recovered_node(config, term, voted_for, log);
            &&& node.config == config
            &&& node.state is Follower
            &&& node.current_term == term
            &&& node.voted_for == voted_for
            &&& node.log == log
            &&& node.commit_index == log.snapshot_index
            &&& node.last_applied == log.snapshot_index
            &&& node.leader is None
            &&& node.current_leader is None
        }),
{
}

/// A snapshot travels with what was offered and its data.
pub proof fn offer_becomes_a_request(offer: SnapshotOffer, data: Seq<u8>)
    ensures
        offer.with_data(data).term == offer.term,
        offer.with_data(data).leader_id == offer.leader_id,
        offer.with_data(data).last_included_index == offer.last_included_index,
        offer.with_data(data).last_included_term == offer.last_included_term,
        offer.with_data(data).data == data,
        offer.with_data(data).offer() == offer,
{
}

/// Messages and storage operations are seen whole.
pub proof fn messages_are_seen_whole(
    request: AppendEntriesRequest,
    snapshot: InstallSnapshotRequest,
    command: ClientCommandRequest,
    op: StorageOp,
)
    ensures
        request@.term == request.term && request@.leader_id == request.leader_id,
        request@.prev_log_index == request.prev_log_index,
        request@.prev_log_term == request.prev_log_term,
        request@.leader_commit == request.leader_commit,
        request@.entries.len() == request.entries@.len(),
        forall|k: int|
            0 <= k < request.entries@.len() ==> request@.entries[k]
                == #[trigger] request.entries@[k]@,
        snapshot@.term == snapshot.term && snapshot@.leader_id == snapshot.leader_id,
        snapshot@.last_included_index == snapshot.last_included_index,
        snapshot@.last_included_term == snapshot.last_included_term,
        snapshot@.data == snapshot.data@,
        command@.client_id == command.client_id && command@.seq_num == command.seq_num,
        command@.last_received_seq == command.last_received_seq,
        command@.command == command.command@,
        op matches StorageOp::SaveTerm { term, voted_for } ==> op@ == (StorageOpView::SaveTerm {
            term,
            voted_for,
        }),
        op matches StorageOp::TruncateLog { index } ==> op@ == (StorageOpView::TruncateLog {
            index,
        }),
        op matches StorageOp::AppendLog { entries } ==> op@ == (StorageOpView::AppendLog {
            entries: EntryView::all(entries@),
        }),
{
}

/// Eight bytes stand for the number that is the sum of each byte times its weight, and only
/// the bytes of a number stand for it.
pub proof fn bytes_of_a_number_are_its_own(x: u64, s: Seq<u8>)
    requires
        s.len() == 8,
    ensures
        crate::bytes::le_value(s) == s[0] + 0x100 * (s[1] + 0x100 * (s[2] + 0x100 * (s[3] + 0x100
            * (s[4] + 0x100 * (s[5] + 0x100 * (s[6] + 0x100 * s[7])))))),
        crate::bytes::le_bytes(x).len() == 8,
        crate::bytes::le_value(s) == x <==> s == crate::bytes::le_bytes(x),
{
    crate::bytes::lemma_le_round_trip(x);
    let t = crate::bytes::le_bytes(x);
    if crate::bytes::le_value(s) == x {
        let s7 = s[7] as int;
        let s6 = s[6] + 0x100 * s7;
        let s5 = s[5] + 0x100 * s6;
        let s4 = s[4] + 0x100 * s5;
        let s3 = s[3] + 0x100 * s4;
        let s2 = s[2] + 0x100 * s3;
        let s1 = s[1] + 0x100 * s2;
        let t7 = t[7] as int;
        let t6 = t[6] + 0x100 * t7;
        let t5 = t[5] + 0x100 * t6;
        let t4 = t[4] + 0x100 * t5;
        let t3 = t[3] + 0x100 * t4;
        let t2 = t[2] + 0x100 * t3;
        let t1 = t[1] + 0x100 * t2;
        assert(s[0] + 0x100 * s1 == t[0] + 0x100 * t1);
        assert(s1 == t1 && s2 == t2 && s3 == t3 && s4 == t4 && s5 == t5 && s6 == t6 && s7 == t7);
        assert(s =~= t);
    }
}

/// Eight bytes stand for a number of sixty-four bits.
pub proof fn bytes_stand_for_a_number(s: Seq<u8>)
    requires
        s.len() == 8,
    ensures
        0 <= crate::bytes::le_value(s) <= u64::MAX,
{
}

/// A number is written with the digits of its tenth and its last digit, which stand in the
/// order of the numbers from `0` on.
pub proof fn numbers_are_written_in_decimal(n: nat)
    ensures
        n < 10 ==> crate::text::decimal(n) == seq![crate::text::digit(n)],
        n >= 10 ==> crate::text::decimal(n) == crate::text::decimal(n / 10).push(
            crate::text::digit(n % 10),
        ),
        crate::text::digit(0) == '0',
        n < 10 ==> crate::text::digit(n) as u32 == '0' as u32 + n,
{
}

} // verus!
