//! What the log promises.

use crate::log::{EntryView, LogEntry, LogView};
use vstd::prelude::*;

verus! {

/// The place of `index` among the slots: without a snapshot slot zero stands for index zero,
/// else for the index after the snapshot.
pub open spec fn place(log: LogView, index: int) -> int {
    if log.snapshot_index == 0 {
        index
    } else {
        index - log.snapshot_index - 1
    }
}

/// The log has a slot for `index`.
pub open spec fn filled(log: LogView, index: int) -> bool {
    0 <= place(log, index) < log.slots.len()
}

/// What stands in the slot for `index`.
pub open spec fn entry(log: LogView, index: int) -> EntryView {
    log.slots[place(log, index)]
}

/// The index of the last slot, or of the snapshot where there is none.
pub open spec fn end(log: LogView) -> u64 {
    if log.slots.len() == 0 {
        log.snapshot_index
    } else {
        log.slots[log.slots.len() - 1].index
    }
}

/// The term of the last slot, or of the snapshot where there is none.
pub open spec fn end_term(log: LogView) -> u64 {
    if log.slots.len() == 0 {
        log.snapshot_term
    } else {
        log.slots[log.slots.len() - 1].term
    }
}

/// Every slot holds an entry of the index that it stands for, and a log without a snapshot
/// has the slot for index zero.
pub open spec fn in_sequence(log: LogView) -> bool {
    &&& log.snapshot_index == 0 ==> log.slots.len() > 0
    &&& forall|k: int|
        0 <= k < log.slots.len() ==> place(log, (#[trigger] log.slots[k]).index as int) == k
}

/// The highest client id among the slots and what was dropped before.
pub open spec fn is_highest_id(log: LogView, id: u64) -> bool {
    &&& id >= log.dropped_client_id
    &&& forall|k: int| 0 <= k < log.slots.len() ==> id >= (#[trigger] log.slots[k]).client_id.0
    &&& id == log.dropped_client_id || exists|k: int|
        0 <= k < log.slots.len() && (#[trigger] log.slots[k]).client_id.0 == id
}

impl LogView {
    /// Looking an index up gives what stands in its slot.
    pub proof fn entries_stand_in_their_slots(self, index: int)
        ensures
            filled(self, index) ==> self.entry_at(index) == Some(entry(self, index)),
            !filled(self, index) ==> self.entry_at(index) is None,
    {
    }

    /// The log ends with its last slot, and begins after its snapshot.
    pub proof fn log_ends_with_its_last_slot(self)
        ensures
            self.last_index() == end(self),
            self.last_term() == end_term(self),
            self.len() == self.slots.len() - if self.snapshot_index == 0 {
                1int
            } else {
                0
            },
            self.first_index() == if filled(self, self.snapshot_index + 1) {
                entry(self, self.snapshot_index + 1).index as int
            } else {
                self.snapshot_index + 1
            },
    {
    }

    /// A log in sequence is contiguous, and one that is contiguous is in sequence.
    pub proof fn sequence_is_contiguity(self)
        ensures
            in_sequence(self) <==> self.contiguous(),
    {
        if in_sequence(self) {
            assert forall|i: int| 0 <= i < self.slots.len() implies (
            #[trigger] self.slots[i]).index == self.base() + i by {
                assert(place(self, self.slots[i].index as int) == i);
            }
        }
    }

    /// Appending puts the entries behind the slots that are there.
    pub proof fn appended_entries_follow(self, entries: Seq<EntryView>)
        ensures
            self.append(entries).slots == self.slots + entries,
            self.append(entries).snapshot_index == self.snapshot_index,
            self.append(entries).snapshot_term == self.snapshot_term,
            self.append(entries).dropped_client_id == self.dropped_client_id,
    {
    }

    /// Truncation keeps exactly the slots before that of the index; what a snapshot holds
    /// cannot be truncated.
    pub proof fn truncation_keeps_what_comes_before(self, index: u64)
        ensures
            self.truncate_from(index).snapshot_index == self.snapshot_index,
            self.truncate_from(index).snapshot_term == self.snapshot_term,
            index <= self.snapshot_index ==> self.truncate_from(index) == self,
            index > self.snapshot_index ==> {
                let cut = self.truncate_from(index);
                &&& cut.slots.len() == if filled(self, index as int) {
                    place(self, index as int)
                } else {
                    self.slots.len() as int
                }
                &&& forall|k: int|
                    0 <= k < cut.slots.len() ==> #[trigger] cut.slots[k] == self.slots[k]
            },
            is_highest_id(self, self.truncate_from(index).highest_client_id()),
    {
        self.highest_id_is_found();
        self.lemma_highest_client_id(Seq::empty(), index, 0);
    }

    /// A range lists the entries of the indices from `start` on and before `end` that have a
    /// slot, one after the other.
    pub proof fn range_lists_its_indices(self, start: u64, end: u64)
        ensures
            start <= self.snapshot_index || end <= start ==> self.range(start, end).len() == 0,
            start > self.snapshot_index && start < end ==> {
                let found = self.range(start, end);
                &&& forall|i: int|
                    start <= i < end && filled(self, i) ==> i - start < found.len() && found[i - start]
                        == #[trigger] entry(self, i)
                &&& found.len() <= end - start
                &&& forall|k: int| 0 <= k < found.len() ==> #[trigger] filled(self, start + k)
            },
    {
    }

    /// A snapshot up to `index` takes the place of every entry up to there, and of no other.
    /// Where the log has such a snapshot already, nothing changes.
    pub proof fn compaction_drops_what_the_snapshot_holds(self, index: u64, term: u64)
        ensures
            index <= self.snapshot_index ==> self.compact(index, term) == self,
            index > self.snapshot_index ==> {
                let shorter = self.compact(index, term);
                &&& shorter.snapshot_index == index
                &&& shorter.snapshot_term == term
                &&& index > end(self) ==> shorter.slots.len() == 0
                &&& forall|i: int|
                    i > index && index <= end(self) ==> (#[trigger] filled(shorter, i) <==> filled(
                        self,
                        i,
                    )) && (filled(self, i) ==> entry(shorter, i) == entry(self, i))
                &&& forall|i: int| i <= index ==> !#[trigger] filled(shorter, i)
            },
            is_highest_id(self, self.compact(index, term).highest_client_id()),
    {
        self.highest_id_is_found();
        self.lemma_highest_client_id(Seq::empty(), index, term);
    }

    /// A log that is set to a snapshot has no slot; an index of zero means no snapshot and
    /// leaves the slots alone.
    pub proof fn log_starts_after_its_snapshot(self, index: u64, term: u64)
        ensures
            self.set_snapshot(index, term).snapshot_index == index,
            self.set_snapshot(index, term).snapshot_term == term,
            index > 0 ==> self.set_snapshot(index, term).slots.len() == 0,
            index == 0 ==> self.set_snapshot(index, term).slots == self.slots,
            is_highest_id(self, self.set_snapshot(index, term).highest_client_id()),
    {
        self.highest_id_is_found();
        self.lemma_highest_client_id(Seq::empty(), index, term);
    }

    /// The highest client id is one that the log has or has had, and none is higher.
    pub proof fn highest_id_is_found(self)
        ensures
            is_highest_id(self, self.highest_client_id()),
    {
        EntryView::lemma_highest_id(self.slots, self.dropped_client_id);
    }

    /// Entries are all there if each has its slot; a span lists them.
    pub proof fn span_lists_what_is_there(self, from: int, to: int)
        ensures
            self.holds_all(from, to) <==> forall|i: int|
                from < i <= to ==> #[trigger] filled(self, i),
            self.span(from, to).len() == if from < to {
                to - from
            } else {
                0
            },
            forall|i: int|
                from < i <= to && filled(self, i) ==> self.span(from, to)[i - from - 1] == #[trigger] entry(
                    self,
                    i,
                ),
    {
        if self.holds_all(from, to) {
            assert forall|i: int| from < i <= to implies #[trigger] filled(self, i) by {
                assert(self.entry_at(i) is Some);
            }
        }
        if forall|i: int| from < i <= to ==> #[trigger] filled(self, i) {
            assert forall|i: int| from < i <= to implies (#[trigger] self.entry_at(i)) is Some by {
                assert(filled(self, i));
            }
        }
    }
}

/// The dummy entry carries nothing; an entry is seen with all that it carries.
pub proof fn entries_are_seen_whole(e: LogEntry, entries: Seq<LogEntry>, k: int)
    requires
        0 <= k < entries.len(),
    ensures
        e@.term == e.term && e@.index == e.index && e@.command == e.command@,
        e@.client_id == e.client_id && e@.seq_num == e.seq_num,
        EntryView::all(entries).len() == entries.len(),
        EntryView::all(entries)[k] == entries[k]@,
        EntryView::dummy().term == 0 && EntryView::dummy().index == 0,
        EntryView::dummy().client_id.0 == 0 && EntryView::dummy().seq_num.0 == 0,
{
}

} // verus!
