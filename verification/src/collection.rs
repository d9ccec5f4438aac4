//! An append-structured change log of updates.

use vstd::prelude::*;
use crate::update::Update;

verus! {

/// An in-memory multiset of records, each tagged with a logical timestamp and
/// a signed multiplicity. Logically a collection denotes the function
/// `(record, time) -> diff` given by [`crate::update::net`] over its updates;
/// the sequence records the order in which batches were appended.
pub struct Collection<R> {
    pub updates: Vec<Update<R>>,
}

impl<R> View for Collection<R> {
    type V = Seq<Update<R>>;

    open spec fn view(&self) -> Seq<Update<R>> {
        self.updates@
    }
}

impl<R> Collection<R> {
    /// The empty change log.
    pub fn new() -> (c: Self)
        ensures
            c@.len() == 0,
    {
        Collection { updates: Vec::new() }
    }

    /// The number of updates appended so far.
    pub fn len(&self) -> (n: usize)
        ensures
            n == self@.len(),
    {
        self.updates.len()
    }

    /// Appends a batch of updates; no deduplication is performed here.
    pub fn append(&mut self, batch: Vec<Update<R>>)
        ensures
            final(self)@ == old(self)@ + batch@,
    {
        let mut b = batch;
        self.updates.append(&mut b);
    }

    /// The update at position `i` of the log.
    pub fn get(&self, i: usize) -> (u: &Update<R>)
        requires
            i < self@.len(),
        ensures
            *u == self@[i as int],
    {
        &self.updates[i]
    }
}

} // verus!
