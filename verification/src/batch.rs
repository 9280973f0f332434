//! The parse result: an ordered list of decoded records.

use vstd::prelude::*;
use crate::entry::Entry;

verus! {

/// The completed parse result: its records, in input order.
#[derive(Debug, PartialEq, Eq)]
pub struct Batch {
    pub entries: Vec<Entry>,
}

impl View for Batch {
    type V = Seq<Seq<(Seq<char>, Seq<char>)>>;

    /// A batch is the sequence of its records' field sequences.
    open spec fn view(&self) -> Seq<Seq<(Seq<char>, Seq<char>)>> {
        self.entries@.map_values(|e: Entry| e@)
    }
}

impl Batch {
    /// Builds an empty batch.
    pub fn new() -> (r: Batch)
        ensures
            r@ == Seq::<Seq<(Seq<char>, Seq<char>)>>::empty(),
    {
        let r = Batch { entries: Vec::new() };
        proof {
            assert(r@ =~= Seq::<Seq<(Seq<char>, Seq<char>)>>::empty());
        }
        r
    }

    /// Appends one completed record at the end of the batch.
    pub fn add_entry(&mut self, entry: Entry)
        ensures
            final(self)@ == old(self)@.push(entry@),
    {
        let ghost pre = self.entries@;
        self.entries.push(entry);
        proof {
            assert(self@ =~= pre.map_values(|e: Entry| e@).push(entry@));
        }
    }

    /// The records of the batch, in input order.
    pub fn get_entries(&self) -> (r: &Vec<Entry>)
        ensures
            r@ == self.entries@,
    {
        &self.entries
    }
}

} // verus!
