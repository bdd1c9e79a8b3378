//! The reference context provider: what becomes of a diagnostic.
//!
//! Diagnostics vanish until somebody observes them; from then on each one is
//! delivered before the next is taken, and dropping the context closes the
//! stream for good.

use vstd::prelude::*;

verus! {

/// What the two ends of a context share. The stream itself lives with
/// whoever drives this.
#[derive(Debug, Clone, Copy, PartialEq, Eq, Structural)]
pub struct Shared {
    /// Is the writing end here, to be taken by the next diagnostic?
    pub writer: bool,
    pub observed: bool,
    /// Was the context dropped?
    pub closed: bool,
}

impl Default for Shared {
    fn default() -> (r: Self)
        ensures
            r == (Shared { writer: false, observed: false, closed: false }),
    {
        Shared { writer: false, observed: false, closed: false }
    }
}

impl Shared {
    /// Somebody observes the diagnostics, for the first and only time: the
    /// writing end of a new stream is put here.
    pub fn observe(&mut self)
        requires
            !old(self).observed,
        ensures
            *final(self) == (Shared { writer: true, observed: true, closed: old(self).closed }),
    {
        self.observed = true;
        self.writer = true;
    }

    /// A diagnostic arrives. True where it takes the writing end and is
    /// written; otherwise it vanishes. While one is being written, others
    /// vanish.
    pub fn begin(&mut self) -> (write: bool)
        ensures
            write == old(self).writer,
            *final(self) == (Shared { writer: false, ..*old(self) }),
    {
        let write = self.writer;
        self.writer = false;
        write
    }

    /// The diagnostic was delivered, or refused because the reader hung up.
    /// True where the writing end goes back; otherwise it is dropped.
    pub fn delivered(&mut self, accepted: bool) -> (keep: bool)
        ensures
            keep == (accepted && old(self).observed && !old(self).closed && !old(self).writer),
            *final(self) == after_delivery(*old(self), accepted),
    {
        let keep = accepted && self.observed && !self.closed && !self.writer;
        if keep {
            self.writer = true;
        }
        keep
    }

    /// The context is dropped: the reader sees the end of the stream.
    pub fn close(&mut self)
        ensures
            *final(self) == (Shared { writer: false, closed: true, observed: old(self).observed }),
    {
        self.writer = false;
        self.closed = true;
    }
}

/// What delivering a diagnostic does to the shared state.
pub open spec fn after_delivery(s: Shared, accepted: bool) -> Shared {
    Shared {
        writer: s.writer || (accepted && s.observed && !s.closed),
        ..s
    }
}

/// A stream that was closed while a diagnostic was being written stays
/// closed: the delivery does not bring the writing end back.
pub proof fn law_closed_stays_closed(s: Shared, accepted: bool)
    requires
        s.closed,
        !s.writer,
    ensures
        !after_delivery(s, accepted).writer,
        after_delivery(s, accepted).closed,
{
}

/// A reader that hung up gets nothing more.
pub proof fn law_hung_up_vanishes(s: Shared)
    requires
        !s.writer,
    ensures
        !after_delivery(s, false).writer,
{
}

} // verus!
