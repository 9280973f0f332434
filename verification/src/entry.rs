//! One record of the stream: an ordered list of decoded fields.

use vstd::prelude::*;
use crate::line::Line;

verus! {

/// One decoded record: its fields, in input order.
#[derive(Clone, Debug, PartialEq, Eq)]
pub struct Entry {
    pub lines: Vec<Line>,
}

impl View for Entry {
    type V = Seq<(Seq<char>, Seq<char>)>;

    /// A record is the sequence of its fields' key/value texts.
    open spec fn view(&self) -> Seq<(Seq<char>, Seq<char>)> {
        self.lines@.map_values(|l: Line| l@)
    }
}

impl Entry {
    /// Builds an empty record.
    pub fn new() -> (r: Entry)
        ensures
            r@ == Seq::<(Seq<char>, Seq<char>)>::empty(),
    {
        let r = Entry { lines: Vec::new() };
        proof {
            assert(r@ =~= Seq::<(Seq<char>, Seq<char>)>::empty());
        }
        r
    }

    /// Appends one field at the end of the record.
    pub fn add_line(&mut self, line: Line)
        ensures
            final(self)@ == old(self)@.push(line@),
    {
        let ghost pre = self.lines@;
        self.lines.push(line);
        proof {
            assert(self@ =~= pre.map_values(|l: Line| l@).push(line@));
        }
    }

    /// The fields of the record, in input order.
    pub fn get_lines(&self) -> (r: &Vec<Line>)
        ensures
            r@ == self.lines@,
    {
        &self.lines
    }
}

} // verus!
