//! A bounded in-memory log of tagged messages.

use vstd::prelude::*;

use std::collections::VecDeque;

verus! {

/// Severity of a log entry.
#[derive(Clone, Copy, Debug, PartialEq, Eq, Structural)]
pub enum Tag {
    Success,
    Error,
    Debug,
}

/// Maximum number of entries a [`Log`] retains.
pub const MAX_ENTRIES: usize = 1024;

/// Bounded message log: the oldest entry is dropped when full.
pub struct Log {
    /// Whether the log window is shown.
    pub open: bool,
    entries: VecDeque<(Tag, String)>,
}

impl Log {
    pub closed spec fn spec_entries(&self) -> Seq<(Tag, String)> {
        self.entries@
    }

    pub closed spec fn spec_open(&self) -> bool {
        self.open
    }

    /// The log never holds more than [`MAX_ENTRIES`] entries.
    pub open spec fn wf(&self) -> bool {
        self.spec_entries().len() <= MAX_ENTRIES
    }

    pub fn new() -> (r: Log)
        ensures
            r.wf(),
            r.spec_entries() =~= Seq::<(Tag, String)>::empty(),
            !r.spec_open(),
    {
        Log { open: false, entries: VecDeque::new() }
    }

    /// Append an entry, dropping the oldest when the log is full.
    pub fn push(&mut self, tag: Tag, entry: String)
        requires
            old(self).wf(),
        ensures
            final(self).wf(),
            final(self).spec_open() == old(self).spec_open(),
            old(self).spec_entries().len() < MAX_ENTRIES ==> final(self).spec_entries() == old(
                self,
            ).spec_entries().push((tag, entry)),
            old(self).spec_entries().len() >= MAX_ENTRIES ==> final(self).spec_entries() == old(
                self,
            ).spec_entries().drop_first().push((tag, entry)),
            final(self).spec_entries().len() <= old(self).spec_entries().len() + 1,
    {
        if self.entries.len() >= MAX_ENTRIES {
            let _ = self.entries.pop_front();
        }
        self.entries.push_back((tag, entry));
    }

    /// Number of retained entries.
    pub fn len(&self) -> (r: usize)
        ensures
            r == self.spec_entries().len(),
    {
        self.entries.len()
    }

    /// The entry at the given position, oldest first.
    pub fn entry(&self, index: usize) -> (r: Option<&(Tag, String)>)
        ensures
            match r {
                Some(e) => index < self.spec_entries().len() && *e == self.spec_entries()[index as int],
                None => index >= self.spec_entries().len(),
            },
    {
        if index < self.entries.len() {
            Some(&self.entries[index])
        } else {
            None
        }
    }
}

impl Default for Log {
    fn default() -> (r: Self)
        ensures
            r.wf(),
            r.spec_entries() =~= Seq::<(Tag, String)>::empty(),
            !r.spec_open(),
    {
        Log::new()
    }
}

} // verus!
