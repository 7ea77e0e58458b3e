//! One value per document, read by document id.

use vstd::prelude::*;
use vstd::std_specs::convert::FromSpecImpl;
use crate::docset::DocId;

verus! {

/// Random access to one unsigned value per document, such as the
/// fieldnorm: the encoded length of a field in that document.
pub struct FastFieldReader {
    values: Vec<u32>,
}

impl FastFieldReader {
    /// The value of each document, by `DocId`.
    pub closed spec fn values(&self) -> Seq<u32> {
        self.values@
    }

    /// Returns the number of documents that the reader has a value for.
    pub fn len(&self) -> (len: usize)
        ensures
            len == self.values().len(),
    {
        self.values.len()
    }

    /// Returns the value of document `doc`, which the reader must cover.
    pub fn get(&self, doc: DocId) -> (value: u32)
        requires
            doc < self.values().len(),
        ensures
            value == self.values()[doc as int],
    {
        self.values[doc as usize]
    }
}

impl FromSpecImpl<Vec<u32>> for FastFieldReader {
    open spec fn obeys_from_spec() -> bool {
        true
    }

    closed spec fn from_spec(values: Vec<u32>) -> FastFieldReader {
        FastFieldReader { values }
    }
}

impl From<Vec<u32>> for FastFieldReader {
    /// A reader that holds `values[doc]` for each document `doc`.
    fn from(values: Vec<u32>) -> (reader: FastFieldReader)
        ensures
            reader.values() == values@,
    {
        FastFieldReader { values }
    }
}

} // verus!
