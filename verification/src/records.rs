//! The result store of one competitor: for each event, the best single
//! result and optionally the best average result.
//!
//! An average may only be attached to a pair that already has a single
//! result; attaching one without is refused, never silently ignored.

use vstd::prelude::*;

use crate::assoc::assoc_at;
use crate::assoc::assoc_has;
use crate::assoc::assoc_position;
use crate::assoc::keys_unique;
use crate::assoc::lemma_assoc_idx_unique;
use crate::assoc::lemma_assoc_insert;
use crate::assoc::lemma_assoc_update;
use crate::assoc::Keyed;
use crate::strings::str_eq;
use crate::types::CompResult;
use crate::types::Record;

verus! {

/// One event's record.
pub struct EventRecordEntry {
    pub event_id: String,
    pub record: Record,
}

impl Keyed for EventRecordEntry {
    open spec fn key(&self) -> Seq<char> {
        self.event_id@
    }

    fn key_matches(&self, k: &str) -> (r: bool) {
        str_eq(self.event_id.as_str(), k)
    }
}

/// The records of one competitor, keyed by event identifier.
pub struct EventRecords {
    entries: Vec<EventRecordEntry>,
}

impl EventRecords {
    /// The entries, for specification purposes.
    pub closed spec fn entries_seq(self) -> Seq<EventRecordEntry> {
        self.entries@
    }

    /// Event identifiers are unique.
    pub open spec fn wf(self) -> bool {
        keys_unique(self.entries_seq())
    }

    /// There is a record for event `e`.
    pub open spec fn has_event(self, e: Seq<char>) -> bool {
        assoc_has(self.entries_seq(), e)
    }

    /// The record for event `e`, if any.
    pub open spec fn record_of(self, e: Seq<char>) -> Option<Record> {
        if self.has_event(e) {
            Some(assoc_at(self.entries_seq(), e).record)
        } else {
            None
        }
    }

    /// An empty record store.
    pub fn new() -> (r: EventRecords)
        ensures
            r.wf(),
            forall|e: Seq<char>| !r.has_event(e),
    {
        EventRecords { entries: Vec::new() }
    }

    /// The entries, one per event, in insertion order.
    pub fn entries(&self) -> (r: &Vec<EventRecordEntry>)
        ensures
            r@ == self.entries_seq(),
    {
        &self.entries
    }

    /// Looks up the record for an event.
    pub fn get(&self, event_id: &String) -> (r: Option<&Record>)
        requires
            self.wf(),
        ensures
            match r {
                Some(rec) => self.record_of(event_id@) == Some(*rec),
                None => self.record_of(event_id@) is None,
            },
    {
        match assoc_position(&self.entries, event_id.as_str()) {
            Some(i) => {
                proof {
                    lemma_assoc_idx_unique(self.entries@, event_id@, i as int);
                }
                Some(&self.entries[i].record)
            },
            None => None,
        }
    }

    /// Creates or overwrites the single result for an event. Overwriting a
    /// record that already carries an average would corrupt it, so such a
    /// call is ruled out: single results are ingested before averages.
    pub fn set_single(&mut self, event_id: String, time: u32)
        requires
            old(self).wf(),
            match old(self).record_of(event_id@) {
                Some(r) => r.average is None,
                None => true,
            },
        ensures
            final(self).wf(),
            final(self).record_of(event_id@) == Some(
                Record { single: CompResult { time }, average: None },
            ),
            forall|e: Seq<char>|
                e != event_id@ ==> #[trigger] final(self).record_of(e) == old(self).record_of(e),
    {
        let record = Record { single: CompResult { time }, average: None };
        let ghost s1 = self.entries@;
        match assoc_position(&self.entries, event_id.as_str()) {
            Some(i) => {
                let mut entry = self.entries.remove(i);
                entry.record = record;
                self.entries.insert(i, entry);
                proof {
                    assert(self.entries@ =~= s1.update(i as int, self.entries@[i as int]));
                    lemma_assoc_update(s1, self.entries@, i as int);
                    lemma_assoc_idx_unique(s1, event_id@, i as int);
                }
            },
            None => {
                self.entries.push(EventRecordEntry { event_id, record });
                proof {
                    assert(self.entries@ =~= s1.insert(s1.len() as int, self.entries@.last()));
                    lemma_assoc_insert(s1, s1.len() as int, self.entries@.last());
                }
            },
        }
    }

    /// Attaches the average result for an event that already has a single
    /// result; reports whether one did. Without a prior single result
    /// nothing is stored: the caller turns that into an error.
    pub fn set_average(&mut self, event_id: &String, time: u32) -> (ok: bool)
        requires
            old(self).wf(),
        ensures
            final(self).wf(),
            ok == old(self).has_event(event_id@),
            match old(self).record_of(event_id@) {
                Some(r) => final(self).record_of(event_id@) == Some(
                    Record { single: r.single, average: Some(CompResult { time }) },
                ),
                None => final(self).record_of(event_id@) is None,
            },
            forall|e: Seq<char>|
                e != event_id@ ==> #[trigger] final(self).record_of(e) == old(self).record_of(e),
    {
        let ghost s1 = self.entries@;
        match assoc_position(&self.entries, event_id.as_str()) {
            Some(i) => {
                let mut entry = self.entries.remove(i);
                entry.record = Record {
                    single: entry.record.single,
                    average: Some(CompResult { time }),
                };
                self.entries.insert(i, entry);
                proof {
                    assert(self.entries@ =~= s1.update(i as int, self.entries@[i as int]));
                    lemma_assoc_update(s1, self.entries@, i as int);
                    lemma_assoc_idx_unique(s1, event_id@, i as int);
                }
                true
            },
            None => false,
        }
    }
}

} // verus!
