//! The in-memory log of a node.

use crate::types::{ClientId, CommandView, RaftCommand, SeqNum};
use vstd::prelude::*;

verus! {

/// One entry of the log.
#[derive(Debug)]
pub struct LogEntry {
    pub term: u64,
    pub index: u64,
    pub command: RaftCommand,
    pub client_id: ClientId,
    pub seq_num: SeqNum,
}

/// A log entry as a mathematical value.
pub struct EntryView {
    pub term: u64,
    pub index: u64,
    pub command: CommandView,
    pub client_id: ClientId,
    pub seq_num: SeqNum,
}

impl View for LogEntry {
    type V = EntryView;

    open spec fn view(&self) -> EntryView {
        EntryView {
            term: self.term,
            index: self.index,
            command: self.command@,
            client_id: self.client_id,
            seq_num: self.seq_num,
        }
    }
}

impl Clone for LogEntry {
    fn clone(&self) -> (r: Self)
        ensures
            r@ == self@,
    {
        LogEntry {
            term: self.term,
            index: self.index,
            command: self.command.clone(),
            client_id: self.client_id,
            seq_num: self.seq_num,
        }
    }
}

impl EntryView {
    /// The views of a sequence of entries.
    pub open spec fn all(entries: Seq<LogEntry>) -> Seq<EntryView> {
        entries.map_values(|e: LogEntry| e@)
    }

    /// The highest client id in the entries, or `floor` where none is higher.
    pub open spec fn highest_id(entries: Seq<EntryView>, floor: u64) -> u64
        decreases entries.len(),
    {
        if entries.len() == 0 {
            floor
        } else {
            let before = EntryView::highest_id(entries.drop_last(), floor);
            if entries.last().client_id.0 > before {
                entries.last().client_id.0
            } else {
                before
            }
        }
    }

    /// What [`EntryView::highest_id`] finds: nothing below `floor` or the id of any entry,
    /// and one of these.
    pub proof fn lemma_highest_id(entries: Seq<EntryView>, floor: u64)
        ensures
            EntryView::highest_id(entries, floor) >= floor,
            forall|i: int|
                0 <= i < entries.len() ==> (#[trigger] entries[i]).client_id.0
                    <= EntryView::highest_id(entries, floor),
            EntryView::highest_id(entries, floor) == floor || exists|i: int|
                0 <= i < entries.len() && (#[trigger] entries[i]).client_id.0
                    == EntryView::highest_id(entries, floor),
        decreases entries.len(),
    {
        if entries.len() > 0 {
            let shorter = entries.drop_last();
            EntryView::lemma_highest_id(shorter, floor);
            assert(entries.last() == entries[entries.len() - 1]);
            assert forall|i: int| 0 <= i < entries.len() implies (#[trigger] entries[i]).client_id.0
                <= EntryView::highest_id(entries, floor) by {
                if i < shorter.len() {
                    assert(shorter[i] == entries[i]);
                }
            }
            let before = EntryView::highest_id(shorter, floor);
            if before != floor {
                let i = choose|i: int|
                    0 <= i < shorter.len() && (#[trigger] shorter[i]).client_id.0 == before;
                assert(entries[i] == shorter[i]);
            }
        }
    }

    /// The entry that stands at index zero of a log without a snapshot.
    pub open spec fn dummy() -> EntryView {
        EntryView {
            term: 0,
            index: 0,
            command: CommandView::ClientCommand(Seq::empty()),
            client_id: ClientId(0),
            seq_num: SeqNum(0),
        }
    }
}

impl LogEntry {
    pub fn new(
        term: u64,
        index: u64,
        command: RaftCommand,
        client_id: ClientId,
        seq_num: SeqNum,
    ) -> (r: Self)
        ensures
            r == (LogEntry { term, index, command, client_id, seq_num }),
    {
        LogEntry { term, index, command, client_id, seq_num }
    }
}

/// The entries that follow the last snapshot, in memory.
///
/// Without a snapshot (`snapshot_index == 0`) the first slot holds a dummy entry
/// that stands for index zero.
#[derive(Debug)]
pub struct Log {
    entries: Vec<LogEntry>,
    snapshot_index: u64,
    snapshot_term: u64,
    /// The highest client id that the log had when it last dropped entries.
    dropped_client_id: u64,
}

/// A log as a mathematical value.
///
/// `slots` holds what is in memory.  Slot zero stands for index [`LogView::base`],
/// each further slot for the next index.
pub struct LogView {
    pub snapshot_index: u64,
    pub snapshot_term: u64,
    pub slots: Seq<EntryView>,
    /// The highest client id that the log had when it last dropped entries.
    pub dropped_client_id: u64,
}

impl LogView {
    /// The index that slot zero stands for.
    pub open spec fn base(self) -> int {
        if self.snapshot_index == 0 {
            0
        } else {
            self.snapshot_index + 1
        }
    }

    /// The slot of the dummy entry is there wherever it has to be.
    pub open spec fn well_formed(self) -> bool {
        self.snapshot_index == 0 ==> self.slots.len() > 0
    }

    /// Every entry carries the index that its slot stands for.
    pub open spec fn contiguous(self) -> bool {
        &&& self.well_formed()
        &&& forall|i: int|
            0 <= i < self.slots.len() ==> (#[trigger] self.slots[i]).index == self.base() + i
    }

    /// The entry in memory that stands for `index`.
    pub open spec fn entry_at(self, index: int) -> Option<EntryView> {
        if 0 <= index - self.base() < self.slots.len() {
            Some(self.slots[index - self.base()])
        } else {
            None
        }
    }

    /// Entries after `from` and up to `to` are all in memory.
    pub open spec fn holds_all(self, from: int, to: int) -> bool {
        forall|i: int| from < i <= to ==> (#[trigger] self.entry_at(i)) is Some
    }

    /// The entries after `from` and up to `to`.
    pub open spec fn span(self, from: int, to: int) -> Seq<EntryView> {
        Seq::new(
            if from < to {
                (to - from) as nat
            } else {
                0
            },
            |i: int| self.entry_at(from + 1 + i)->0,
        )
    }

    /// How many entries are in memory, the dummy not counted.
    pub open spec fn len(self) -> int {
        if self.snapshot_index == 0 {
            self.slots.len() - 1
        } else {
            self.slots.len() as int
        }
    }

    /// The index that the first entry after the snapshot carries.
    pub open spec fn first_index(self) -> int {
        match self.entry_at(self.snapshot_index + 1) {
            Some(e) => e.index as int,
            None => self.snapshot_index + 1,
        }
    }

    pub open spec fn last_index(self) -> u64 {
        if self.slots.len() > 0 {
            self.slots.last().index
        } else {
            self.snapshot_index
        }
    }

    pub open spec fn last_term(self) -> u64 {
        if self.slots.len() > 0 {
            self.slots.last().term
        } else {
            self.snapshot_term
        }
    }

    /// The highest client id in the entries that the log has or has had.
    pub open spec fn highest_client_id(self) -> u64 {
        EntryView::highest_id(self.slots, self.dropped_client_id)
    }

    pub open spec fn set_snapshot(self, index: u64, term: u64) -> LogView {
        LogView {
            snapshot_index: index,
            snapshot_term: term,
            slots: if index > 0 {
                Seq::empty()
            } else {
                self.slots
            },
            dropped_client_id: if index > 0 {
                self.highest_client_id()
            } else {
                self.dropped_client_id
            },
        }
    }

    pub open spec fn append(self, entries: Seq<EntryView>) -> LogView {
        LogView { slots: self.slots + entries, ..self }
    }

    /// The log without the entries from `index` on.
    pub open spec fn truncate_from(self, index: u64) -> LogView {
        if self.snapshot_index < index && index - self.base() < self.slots.len() {
            LogView {
                slots: self.slots.take(index - self.base()),
                dropped_client_id: self.highest_client_id(),
                ..self
            }
        } else {
            self
        }
    }

    /// The entries in memory that stand for an index in `start..end`.
    pub open spec fn range(self, start: u64, end: u64) -> Seq<EntryView> {
        let from = start - self.base();
        let to = if end - self.base() < self.slots.len() {
            end - self.base()
        } else {
            self.slots.len() as int
        };
        if self.snapshot_index < start && from < to {
            self.slots.subrange(from, to)
        } else {
            Seq::empty()
        }
    }

    /// A node with this log can find a snapshot of this index and term in its storage: that
    /// with which the log starts, or a later one that the log has not been shortened by.
    pub open spec fn can_start_from(self, index: u64, term: u64) -> bool {
        &&& index >= self.snapshot_index
        &&& index == self.snapshot_index ==> term == self.snapshot_term
    }

    /// The log that starts after a snapshot up to `index`, without the entries up to there.
    /// An index inside the snapshot that the log has already changes nothing.
    pub open spec fn compact(self, index: u64, term: u64) -> LogView {
        if self.snapshot_index < index {
            LogView {
                snapshot_index: index,
                snapshot_term: term,
                slots: if index <= self.last_index() && index - self.base() < self.slots.len() {
                    self.slots.skip(index - self.base() + 1)
                } else {
                    Seq::empty()
                },
                dropped_client_id: self.highest_client_id(),
            }
        } else {
            self
        }
    }
}

// ---- laws of the log ----

impl LogView {
    /// In a contiguous log every index after the snapshot and up to the last one has its
    /// entry, which carries that index, and no other index after the snapshot has one.
    pub proof fn lemma_contiguous(self)
        requires
            self.contiguous(),
        ensures
            self.last_index() == self.snapshot_index + self.len(),
            forall|i: int|
                self.snapshot_index < i <= self.last_index() ==> (#[trigger] self.entry_at(i))
                    is Some && (self.entry_at(i)->0).index == i,
            forall|i: int| i > self.last_index() ==> (#[trigger] self.entry_at(i)) is None,
    {
        if self.slots.len() > 0 {
            assert(self.slots[self.slots.len() - 1].index == self.base() + self.slots.len() - 1);
        }
    }

    /// Truncation keeps what comes before the index and drops the rest.
    pub proof fn lemma_truncate_from(self, index: u64)
        requires
            self.snapshot_index < index,
        ensures
            forall|i: int| i < index ==> #[trigger] self.truncate_from(index).entry_at(i)
                == self.entry_at(i),
            forall|i: int| i >= index ==> (#[trigger] self.truncate_from(index).entry_at(i)) is None,
            self.contiguous() ==> self.truncate_from(index).contiguous(),
            self.contiguous() ==> self.truncate_from(index).last_index() == if index
                <= self.last_index() {
                index - 1
            } else {
                self.last_index() as int
            },
    {
        let cut = self.truncate_from(index);
        if self.contiguous() {
            assert forall|i: int| 0 <= i < cut.slots.len() implies (#[trigger] cut.slots[i]).index
                == cut.base() + i by {
                assert(cut.slots[i] == self.slots[i]);
            }
            self.lemma_contiguous();
            cut.lemma_contiguous();
        }
    }

    /// Appending keeps every entry and puts the new ones behind the last slot.
    pub proof fn lemma_append(self, entries: Seq<EntryView>)
        ensures
            forall|i: int|
                i < self.base() + self.slots.len() ==> #[trigger] self.append(entries).entry_at(i)
                    == self.entry_at(i),
            forall|k: int|
                0 <= k < entries.len() ==> self.append(entries).entry_at(
                    self.base() + self.slots.len() + k,
                ) == Some(#[trigger] entries[k]),
            entries.len() > 0 ==> self.append(entries).last_index() == entries.last().index,
            self.contiguous() && (forall|k: int|
                0 <= k < entries.len() ==> (#[trigger] entries[k]).index == self.last_index() + 1
                    + k) ==> self.append(entries).contiguous() && self.append(entries).last_index()
                == self.last_index() + entries.len(),
    {
        let longer = self.append(entries);
        if self.contiguous() && (forall|k: int|
            0 <= k < entries.len() ==> (#[trigger] entries[k]).index == self.last_index() + 1 + k) {
            self.lemma_contiguous();
            assert forall|i: int| 0 <= i < longer.slots.len() implies (
            #[trigger] longer.slots[i]).index == longer.base() + i by {
                if i < self.slots.len() {
                    assert(longer.slots[i] == self.slots[i]);
                } else {
                    assert(longer.slots[i] == entries[i - self.slots.len()]);
                }
            }
            longer.lemma_contiguous();
        }
    }

    /// Compaction keeps every entry after the index and drops the rest.  The end of the log
    /// stays where it is, or moves on to the index if that is later.
    pub proof fn lemma_compact(self, index: u64, term: u64)
        requires
            self.snapshot_index < index,
        ensures
            self.compact(index, term).snapshot_index == index,
            self.compact(index, term).snapshot_term == term,
            index <= self.last_index() || self.contiguous() ==> forall|i: int|
                i > index ==> #[trigger] self.compact(index, term).entry_at(i) == self.entry_at(i),
            forall|i: int|
                i <= index ==> (#[trigger] self.compact(index, term).entry_at(i)) is None,
            index > self.last_index() ==> self.compact(index, term).slots.len() == 0,
            self.contiguous() ==> self.compact(index, term).contiguous(),
            self.contiguous() ==> self.compact(index, term).last_index() == if index
                <= self.last_index() {
                self.last_index()
            } else {
                index
            },
    {
        let shorter = self.compact(index, term);
        if self.contiguous() {
            self.lemma_contiguous();
            assert forall|i: int| 0 <= i < shorter.slots.len() implies (
            #[trigger] shorter.slots[i]).index == shorter.base() + i by {
                assert(shorter.slots[i] == self.slots[i + index - self.base() + 1]);
            }
            shorter.lemma_contiguous();
        }
    }

    /// The log never forgets the highest client id that it has had: what is appended can
    /// raise it, and dropping entries leaves it as it is.
    pub proof fn lemma_highest_client_id(
        self,
        entries: Seq<EntryView>,
        index: u64,
        term: u64,
    )
        ensures
            forall|i: int|
                0 <= i < self.slots.len() ==> (#[trigger] self.slots[i]).client_id.0
                    <= self.highest_client_id(),
            self.append(entries).highest_client_id() >= self.highest_client_id(),
            self.truncate_from(index).highest_client_id() == self.highest_client_id(),
            self.compact(index, term).highest_client_id() == self.highest_client_id(),
            self.set_snapshot(index, term).highest_client_id() == self.highest_client_id(),
    {
        let top = self.highest_client_id();
        EntryView::lemma_highest_id(self.slots, self.dropped_client_id);
        let longer = self.append(entries);
        EntryView::lemma_highest_id(longer.slots, longer.dropped_client_id);
        if top != self.dropped_client_id {
            let i = choose|i: int|
                0 <= i < self.slots.len() && (#[trigger] self.slots[i]).client_id.0 == top;
            assert(longer.slots[i] == self.slots[i]);
        }
        let cut = self.truncate_from(index);
        if self.snapshot_index < index && index - self.base() < self.slots.len() {
            lemma_nothing_higher(self, cut, top);
        }
        let shorter = self.compact(index, term);
        if self.snapshot_index < index {
            lemma_nothing_higher(self, shorter, top);
        }
    }

    /// A range lists the entries of its indices, one after the other.
    pub proof fn lemma_range(self, start: u64, end: u64)
        requires
            self.snapshot_index < start,
        ensures
            forall|k: int|
                0 <= k < self.range(start, end).len() ==> self.entry_at(start + k) == Some(
                    #[trigger] self.range(start, end)[k],
                ),
            self.contiguous() && start <= end <= self.last_index() + 1 ==> self.range(
                start,
                end,
            ).len() == end - start,
    {
        if self.contiguous() {
            self.lemma_contiguous();
        }
    }
}

/// Among entries that a log had before, none has a higher id.
proof fn lemma_nothing_higher(before: LogView, after: LogView, top: u64)
    requires
        top == before.highest_client_id(),
        after.dropped_client_id == top,
        forall|i: int|
            0 <= i < after.slots.len() ==> before.slots.contains(#[trigger] after.slots[i]),
    ensures
        after.highest_client_id() == top,
{
    EntryView::lemma_highest_id(before.slots, before.dropped_client_id);
    EntryView::lemma_highest_id(after.slots, after.dropped_client_id);
    if after.highest_client_id() != top {
        let i = choose|i: int|
            0 <= i < after.slots.len() && (#[trigger] after.slots[i]).client_id.0
                == after.highest_client_id();
        let j = choose|j: int| 0 <= j < before.slots.len() && before.slots[j] == after.slots[i];
        assert(before.slots[j].client_id.0 <= top);
    }
}

impl View for Log {
    type V = LogView;

    closed spec fn view(&self) -> LogView {
        LogView {
            snapshot_index: self.snapshot_index,
            snapshot_term: self.snapshot_term,
            slots: EntryView::all(self.entries@),
            dropped_client_id: self.dropped_client_id,
        }
    }
}

impl Default for Log {
    /// A log without slots: it becomes well-formed once a snapshot is set.
    fn default() -> (r: Self)
        ensures
            r@ == (LogView {
                snapshot_index: 0,
                snapshot_term: 0,
                slots: Seq::empty(),
                dropped_client_id: 0,
            }),
    {
        let log = Log {
            entries: Vec::new(),
            snapshot_index: 0,
            snapshot_term: 0,
            dropped_client_id: 0,
        };
        assert(log@.slots =~= Seq::empty());
        log
    }
}

impl Log {
    pub fn new() -> (r: Self)
        ensures
            r@ == (LogView {
                snapshot_index: 0,
                snapshot_term: 0,
                slots: seq![EntryView::dummy()],
                dropped_client_id: 0,
            }),
    {
        let mut entries: Vec<LogEntry> = Vec::new();
        entries.push(
            LogEntry::new(
                0,
                0,
                RaftCommand::ClientCommand(Vec::new()),
                ClientId(0),
                SeqNum(0),
            ),
        );
        let log = Log { entries, snapshot_index: 0, snapshot_term: 0, dropped_client_id: 0 };
        assert(log@.slots =~= seq![EntryView::dummy()]);
        log
    }

    /// Starts the log after a snapshot.  An index of zero means that there is none.
    pub fn set_snapshot(&mut self, index: u64, term: u64)
        ensures
            final(self)@ == old(self)@.set_snapshot(index, term),
    {
        if index > 0 {
            self.dropped_client_id = self.highest_client_id();
            self.entries.clear();
        }
        self.snapshot_index = index;
        self.snapshot_term = term;
        assert(self@.slots =~= old(self)@.set_snapshot(index, term).slots);
    }

    pub fn snapshot_index(&self) -> (r: u64)
        ensures
            r == self@.snapshot_index,
    {
        self.snapshot_index
    }

    pub fn snapshot_term(&self) -> (r: u64)
        ensures
            r == self@.snapshot_term,
    {
        self.snapshot_term
    }

    /// The highest client id in the entries that the log has or has had.
    pub fn highest_client_id(&self) -> (r: u64)
        ensures
            r == self@.highest_client_id(),
    {
        let ghost slots = self@.slots;
        let mut highest: u64 = self.dropped_client_id;
        let mut i: usize = 0;
        assert(slots.take(0) =~= Seq::empty());
        while i < self.entries.len()
            invariant
                i <= self.entries@.len(),
                slots == EntryView::all(self.entries@),
                highest == EntryView::highest_id(slots.take(i as int), self.dropped_client_id),
            decreases self.entries.len() - i,
        {
            let id: u64 = self.entries[i].client_id.0;
            assert(slots.take(i + 1).drop_last() =~= slots.take(i as int));
            if id > highest {
                highest = id;
            }
            i = i + 1;
        }
        assert(slots.take(i as int) =~= slots);
        highest
    }

    /// The position in `entries` of the slot for `index`.
    fn slot(&self, index: u64) -> (r: u64)
        requires
            self@.snapshot_index < index,
        ensures
            r == index - self@.base(),
    {
        if self.snapshot_index == 0 {
            index
        } else {
            index - self.snapshot_index - 1
        }
    }

    /// The index of the first entry after the snapshot.
    pub fn first_index(&self) -> (r: u64)
        requires
            self@.snapshot_index < u64::MAX,
        ensures
            r == self@.first_index(),
    {
        let idx: usize = if self.snapshot_index == 0 {
            1
        } else {
            0
        };
        if idx < self.entries.len() {
            self.entries[idx].index
        } else {
            self.snapshot_index + 1
        }
    }

    pub fn is_empty(&self) -> (r: bool)
        requires
            self@.well_formed(),
        ensures
            r == (self@.len() == 0),
    {
        self.len() == 0
    }

    /// How many entries follow the snapshot.
    pub fn len(&self) -> (r: usize)
        requires
            self@.well_formed(),
        ensures
            r == self@.len(),
    {
        if self.snapshot_index == 0 {
            self.entries.len() - 1
        } else {
            self.entries.len()
        }
    }

    /// The index of the last entry, or that of the snapshot where no entry follows it.
    pub fn last_index(&self) -> (r: u64)
        ensures
            r == self@.last_index(),
    {
        let n: usize = self.entries.len();
        if n > 0 {
            self.entries[n - 1].index
        } else {
            self.snapshot_index
        }
    }

    /// The term of the last entry, or that of the snapshot where no entry follows it.
    pub fn last_term(&self) -> (r: u64)
        ensures
            r == self@.last_term(),
    {
        let n: usize = self.entries.len();
        if n > 0 {
            self.entries[n - 1].term
        } else {
            self.snapshot_term
        }
    }

    /// The entry for `index`, if it is in memory.
    pub fn get(&self, index: u64) -> (r: Option<&LogEntry>)
        ensures
            match r {
                Some(e) => self@.entry_at(index as int) == Some(e@),
                None => self@.entry_at(index as int) is None,
            },
    {
        if index < self.snapshot_index || (index == self.snapshot_index && index != 0) {
            return None;
        }
        let pos: u64 = if index == 0 {
            0
        } else {
            self.slot(index)
        };
        if pos < self.entries.len() as u64 {
            Some(&self.entries[pos as usize])
        } else {
            None
        }
    }

    /// The entries after `from` and up to `to` are all in memory.
    pub fn holds_all(&self, from: u64, to: u64) -> (r: bool)
        ensures
            r == self@.holds_all(from as int, to as int),
    {
        if from >= to {
            return true;
        }
        proof {
            assert(self@.holds_all(from as int, to as int) ==> self@.entry_at(from + 1) is Some
                && self@.entry_at(to as int) is Some);
        }
        self.get(from + 1).is_some() && self.get(to).is_some()
    }

    pub fn append(&mut self, entries: Vec<LogEntry>)
        ensures
            final(self)@ == old(self)@.append(EntryView::all(entries@)),
    {
        let mut tail = entries;
        self.entries.append(&mut tail);
        assert(self@.slots =~= old(self)@.append(EntryView::all(entries@)).slots);
    }

    /// Deletes the entries from `index` on.
    pub fn truncate_from(&mut self, index: u64)
        ensures
            final(self)@ == old(self)@.truncate_from(index),
    {
        if index <= self.snapshot_index {
            return;
        }
        let pos: u64 = self.slot(index);
        if pos < self.entries.len() as u64 {
            self.dropped_client_id = self.highest_client_id();
            self.entries.truncate(pos as usize);
        }
        assert(self@.slots =~= old(self)@.truncate_from(index).slots);
    }

    /// How many entries have an index in `start..end`.
    pub fn range_len(&self, start: u64, end: u64) -> (r: u64)
        ensures
            r == self@.range(start, end).len(),
    {
        if start <= self.snapshot_index || end <= start {
            return 0;
        }
        let len: u64 = self.entries.len() as u64;
        let from: u64 = self.slot(start);
        let to: u64 = if self.snapshot_index == 0 {
            end
        } else {
            end - self.snapshot_index - 1
        };
        let to: u64 = if to < len {
            to
        } else {
            len
        };
        if from < to {
            to - from
        } else {
            0
        }
    }

    /// The entries with an index in `start..end`.
    pub fn get_range(&self, start: u64, end: u64) -> (r: Vec<LogEntry>)
        ensures
            EntryView::all(r@) == self@.range(start, end),
    {
        let mut found: Vec<LogEntry> = Vec::new();
        if start <= self.snapshot_index || end <= start {
            assert(EntryView::all(found@) =~= Seq::empty());
            return found;
        }
        let len: u64 = self.entries.len() as u64;
        let from: u64 = self.slot(start);
        let to: u64 = if self.snapshot_index == 0 {
            end
        } else {
            end - self.snapshot_index - 1
        };
        let to: u64 = if to < len {
            to
        } else {
            len
        };
        let mut next: u64 = from;
        assert(EntryView::all(found@) =~= Seq::empty());
        while next < to
            invariant
                from <= next,
                next <= to || from >= to,
                to <= len,
                len == self.entries.len(),
                from < to ==> EntryView::all(found@) == EntryView::all(self.entries@).subrange(from as int, next as int),
                from >= to ==> found@.len() == 0 && next == from,
            decreases to - next,
        {
            let copy = self.entries[next as usize].clone();
            let ghost before = found@;
            found.push(copy);
            next = next + 1;
            assert(EntryView::all(found@) =~= EntryView::all(before).push(copy@));
            assert(EntryView::all(found@) =~= EntryView::all(self.entries@).subrange(from as int, next as int));
        }
        assert(EntryView::all(found@) =~= self@.range(start, end));
        found
    }

    /// Deletes the entries up to `index`, which a snapshot has taken in.
    pub fn compact(&mut self, index: u64, term: u64)
        ensures
            final(self)@ == old(self)@.compact(index, term),
    {
        if index <= self.snapshot_index {
            return;
        }
        let last_index: u64 = self.last_index();
        self.dropped_client_id = self.highest_client_id();
        let pos: u64 = self.slot(index);
        if index <= last_index && pos < self.entries.len() as u64 {
            self.entries = self.entries.split_off(pos as usize + 1);
        } else {
            self.entries.clear();
        }
        self.snapshot_index = index;
        self.snapshot_term = term;
        assert(self@.slots =~= old(self)@.compact(index, term).slots);
    }
}

} // verus!
