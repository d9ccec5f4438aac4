//! The time-stepped input front door of the engine.

use vstd::prelude::*;
use crate::collection::Collection;
use crate::update::{Pair, Update};

verus! {

/// What can go wrong when driving the engine. Records are typed, so a
/// malformed record cannot reach a collection in the first place, and
/// observer-side failures stay outside the engine; the one runtime error is
/// an ordering violation of the logical clock.
#[derive(Clone, Copy, PartialEq, Eq, Debug)]
pub enum Error {
    /// The caller asked to advance the logical clock to a time strictly
    /// earlier than the session's current time. Fatal to the operation; the
    /// session and its target collection are left untouched.
    OrderingViolation,
}

/// A mutable front door that accumulates inserts and removals of records at a
/// *current* logical time and flushes them into a [`Collection`] when the
/// time advances. Time only moves forward.
pub struct InputSession {
    /// The current logical time; monotonically non-decreasing.
    pub time: usize,
    /// The staged updates, each tagged with the time at which it was staged.
    pub pending: Vec<Update<Pair>>,
}

impl InputSession {
    /// Every staged update carries the session's current time, so a flushed
    /// batch is tagged with monotonically non-decreasing times over the
    /// session's life.
    pub open spec fn wf(&self) -> bool {
        forall|i: int|
            0 <= i < self.pending@.len() ==> (#[trigger] self.pending@[i]).time == self.time
    }

    /// A fresh session at logical time zero with nothing staged.
    pub fn new() -> (s: Self)
        ensures
            s.time == 0,
            s.pending@.len() == 0,
            s.wf(),
    {
        InputSession { time: 0, pending: Vec::new() }
    }

    /// Stages `(record, current time, +1)`: one more occurrence of `rec`.
    pub fn insert(&mut self, rec: Pair)
        ensures
            final(self).time == old(self).time,
            final(self).pending@ == old(self).pending@.push(
                Update { rec, time: old(self).time, diff: 1i64 },
            ),
            old(self).wf() ==> final(self).wf(),
    {
        let t = self.time;
        self.pending.push(Update { rec, time: t, diff: 1 });
    }

    /// Stages `(record, current time, -1)`: one occurrence of `rec` retracted.
    pub fn remove(&mut self, rec: Pair)
        ensures
            final(self).time == old(self).time,
            final(self).pending@ == old(self).pending@.push(
                Update { rec, time: old(self).time, diff: -1i64 },
            ),
            old(self).wf() ==> final(self).wf(),
    {
        let t = self.time;
        self.pending.push(Update { rec, time: t, diff: -1 });
    }

    /// Flushes the staged batch into `target` — the updates keep the time at
    /// which they were staged, not the new time — clears the staging buffer
    /// and sets the clock to `t`. Advancing to the unchanged current time is
    /// a valid no-op flush. A strictly decreasing `t` is rejected with
    /// [`Error::OrderingViolation`] and leaves both the session and the
    /// target exactly as they were: no partial batch is ever flushed.
    pub fn advance_to(&mut self, t: usize, target: &mut Collection<Pair>) -> (r: Result<
        (),
        Error,
    >)
        ensures
            t < old(self).time ==> r == Err::<(), Error>(Error::OrderingViolation)
                && *final(self) == *old(self) && *final(target) == *old(target),
            t >= old(self).time ==> r == Ok::<(), Error>(()) && final(self).time == t
                && final(self).pending@.len() == 0 && final(target)@ == old(target)@
                + old(self).pending@,
            old(self).wf() ==> final(self).wf(),
    {
        if t < self.time {
            return Err(Error::OrderingViolation);
        }
        target.updates.append(&mut self.pending);
        self.time = t;
        Ok(())
    }
}

} // verus!
