//! The replicated log: an ordered sequence of entries with contiguous
//! indices starting at 1. Appends happen at the end only; a suffix may be
//! truncated during conflict resolution on a follower.
use vstd::prelude::*;

use crate::types::{LogEntry, LogEntryV, LogIndex, Term};

verus! {

/// In-memory image of the replicated log. Durability (flushing the entries
/// to disk) is the caller's concern; the library only dictates the order of
/// operations.
pub struct Log {
    entries: Vec<LogEntry>,
}

impl View for Log {
    type V = Seq<LogEntryV>;

    closed spec fn view(&self) -> Seq<LogEntryV> {
        self.entries@.map_values(|e: LogEntry| e@)
    }
}

/// A log is well formed when entry `i` (counting from 0) carries index
/// `i + 1`: indices are contiguous and start at 1.
pub open spec fn log_wf(log: Seq<LogEntryV>) -> bool {
    forall|i: int| 0 <= i < log.len() ==> #[trigger] log[i].index == i + 1
}

/// Term of the entry at one-based `index`, or 0 for the empty prefix.
pub open spec fn spec_term_at(log: Seq<LogEntryV>, index: LogIndex) -> Term {
    if 1 <= index <= log.len() {
        log[index - 1].term
    } else {
        0
    }
}

/// Term of the last entry, or 0 for an empty log.
pub open spec fn spec_last_term(log: Seq<LogEntryV>) -> Term {
    spec_term_at(log, log.len() as LogIndex)
}

impl Log {
    pub open spec fn wf(&self) -> bool {
        log_wf(self@)
    }

    /// A log with no entries.
    pub fn empty() -> (r: Log)
        ensures
            r@ == Seq::<LogEntryV>::empty(),
            r.wf(),
    {
        let log = Log { entries: Vec::new() };
        proof {
            assert(log@ =~= Seq::<LogEntryV>::empty());
        }
        log
    }

    /// Index of the last entry; 0 when the log is empty.
    pub fn last_index(&self) -> (r: LogIndex)
        ensures
            r == self@.len(),
    {
        self.entries.len() as u64
    }

    /// Term of the last entry; 0 when the log is empty.
    pub fn last_term(&self) -> (r: Term)
        ensures
            r == spec_last_term(self@),
    {
        let n = self.entries.len();
        if n == 0 {
            0
        } else {
            self.entries[n - 1].term
        }
    }

    /// The entry stored at one-based `index`, if the log reaches it.
    pub fn entry_at(&self, index: LogIndex) -> (r: Option<&LogEntry>)
        ensures
            match r {
                Some(e) => 1 <= index <= self@.len() && e@ == self@[index - 1],
                None => index == 0 || index > self@.len(),
            },
    {
        if index >= 1 && index <= self.entries.len() as u64 {
            Some(&self.entries[(index - 1) as usize])
        } else {
            None
        }
    }

    /// Term of the entry at one-based `index`; `None` when out of range.
    pub fn term_at(&self, index: LogIndex) -> (r: Option<Term>)
        ensures
            match r {
                Some(t) => 1 <= index <= self@.len() && t == spec_term_at(self@, index),
                None => index == 0 || index > self@.len(),
            },
    {
        match self.entry_at(index) {
            Some(e) => Some(e.term),
            None => None,
        }
    }

    /// Appends one entry at the end. The entry's index must be the next
    /// free one, so indices stay contiguous.
    pub fn append(&mut self, e: LogEntry)
        requires
            old(self).wf(),
            e@.index == old(self)@.len() + 1,
        ensures
            final(self)@ == old(self)@.push(e@),
            final(self).wf(),
    {
        let ghost pre = self@;
        let ghost ev = e@;
        self.entries.push(e);
        proof {
            assert(self@ =~= pre.push(ev));
        }
    }

    /// Drops every entry with an index greater than `index`. Entries at or
    /// below `index` are untouched.
    pub fn truncate_after(&mut self, index: LogIndex)
        requires
            old(self).wf(),
        ensures
            final(self)@ == old(self)@.subrange(
                0,
                if index < old(self)@.len() { index as int } else { old(self)@.len() as int },
            ),
            final(self).wf(),
    {
        let ghost pre = self@;
        if index < self.entries.len() as u64 {
            self.entries.truncate(index as usize);
            proof {
                assert(self@ =~= pre.subrange(0, index as int));
            }
        } else {
            proof {
                assert(self@ =~= pre.subrange(0, pre.len() as int));
            }
        }
    }
}

} // verus!
