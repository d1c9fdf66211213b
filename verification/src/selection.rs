//! Rows forced in or out of the sample by their identifier.

use crate::record::{field, record_fields, same_text};
use csv::StringRecord;
use vstd::prelude::*;

verus! {

/// Whether `id` is one of `ids`.
pub open spec fn listed(ids: Seq<String>, id: Seq<char>) -> bool {
    exists|i: int| 0 <= i < ids.len() && (#[trigger] ids[i])@ == id
}

/// Whether `id` is one of `ids`.
pub fn contains_id(ids: &Vec<String>, id: &str) -> (out: bool)
    ensures
        out == listed(ids@, id@),
{
    let mut i: usize = 0;
    while i < ids.len()
        invariant
            i <= ids.len(),
            forall|j: int| 0 <= j < i ==> (#[trigger] ids@[j])@ != id@,
        decreases ids.len() - i,
    {
        if same_text(ids[i].as_str(), id) {
            return true;
        }
        i += 1;
    }
    false
}

/// How the identifier of a row stands with the two lists.
#[derive(Clone, Copy, Debug, PartialEq, Eq, Structural)]
pub enum Standing {
    /// The identifier is on the exclude list: the row is never considered,
    /// whether or not the include list names it too.
    Excluded,
    /// The identifier is on the include list only: the row is to survive.
    Forced,
    /// The identifier is on neither list: the row competes by its key.
    Ordinary,
}

/// The identifiers to force in and out, and the column that holds a row's
/// identifier.
#[derive(Debug)]
pub struct Selection {
    pub forced: Vec<String>,
    pub excluded: Vec<String>,
    pub id_column: usize,
}

impl Selection {
    /// The identifier of a record: the field at the identifier column, where
    /// the record reaches that far.
    pub open spec fn id_of(&self, record: StringRecord) -> Option<Seq<char>> {
        if self.id_column < record_fields(record).len() {
            Some(record_fields(record)[self.id_column as int])
        } else {
            None
        }
    }

    /// How a record stands: excluded before forced, and nothing for a record
    /// without an identifier.
    pub open spec fn standing_of(&self, record: StringRecord) -> Option<Standing> {
        match self.id_of(record) {
            None => None,
            Some(id) => if listed(self.excluded@, id) {
                Some(Standing::Excluded)
            } else if listed(self.forced@, id) {
                Some(Standing::Forced)
            } else {
                Some(Standing::Ordinary)
            },
        }
    }

    /// A selection over the identifier column `id_column`.
    pub fn new(forced: Vec<String>, excluded: Vec<String>, id_column: usize) -> (out: Selection)
        ensures
            out.forced == forced,
            out.excluded == excluded,
            out.id_column == id_column,
    {
        Selection { forced, excluded, id_column }
    }

    /// Tells how a record stands with the two lists.
    pub fn standing(&self, record: &StringRecord) -> (out: Option<Standing>)
        ensures
            out == self.standing_of(*record),
    {
        match field(record, self.id_column) {
            None => None,
            Some(id) => {
                if contains_id(&self.excluded, id) {
                    Some(Standing::Excluded)
                } else if contains_id(&self.forced, id) {
                    Some(Standing::Forced)
                } else {
                    Some(Standing::Ordinary)
                }
            },
        }
    }
}

} // verus!
