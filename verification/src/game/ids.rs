//! Unique identifiers for tiles, units, regions and players.

use vstd::prelude::*;

verus! {

pub type ID = u32;

/// The identifier that is never issued.
pub const NO_ID: ID = 0;

/// Issues identifiers in increasing order, starting at one.
#[derive(Clone, PartialEq, Eq, Debug)]
pub struct IdProducer {
    last_issued_id: ID,
}

impl IdProducer {
    /// The identifier issued last, or `NO_ID` if none was issued yet.
    pub closed spec fn last_issued(&self) -> ID {
        self.last_issued_id
    }

    /// How many identifiers can still be issued.
    pub open spec fn remaining(&self) -> int {
        u32::MAX - self.last_issued()
    }

    /// A producer whose next identifier is the one after `last`.
    pub fn starting_after(last: ID) -> (p: Self)
        ensures
            p.last_issued() == last,
    {
        IdProducer { last_issued_id: last }
    }

    pub fn last_issued_id(&self) -> (id: ID)
        ensures
            id == self.last_issued(),
    {
        self.last_issued_id
    }

    /// Makes sure that every identifier issued from now on is greater than
    /// `id`.
    pub fn skip_past(&mut self, id: ID)
        ensures
            final(self).last_issued() == if id > old(self).last_issued() {
                id
            } else {
                old(self).last_issued()
            },
    {
        if id > self.last_issued_id {
            self.last_issued_id = id;
        }
    }

    /// Issues the next identifier: one more than the last.
    pub fn next_id(&mut self) -> (id: ID)
        requires
            old(self).last_issued() < u32::MAX,
        ensures
            id == old(self).last_issued() + 1,
            final(self).last_issued() == id,
            id != NO_ID,
    {
        self.last_issued_id += 1;
        self.last_issued_id
    }
}

impl Default for IdProducer {
    fn default() -> (p: Self)
        ensures
            p.last_issued() == NO_ID,
    {
        IdProducer { last_issued_id: 0 }
    }
}

} // verus!
