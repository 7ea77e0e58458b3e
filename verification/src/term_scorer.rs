//! The scorer of a single term.

use vstd::prelude::*;
use crate::docset::{DocId, DocSet, Postings, SkipResult};
use crate::fastfield::FastFieldReader;

verus! {

/// The postings of one term together with what scores them: the weight of
/// the term, computed before iteration starts and carried here as it is,
/// and, where the field stores its lengths, a reader of fieldnorms.
///
/// As a `DocSet` it is its postings, unchanged.
pub struct TermScorer<TWeight, TPostings: Postings> {
    pub idf: TWeight,
    pub fieldnorm_reader_opt: Option<FastFieldReader>,
    pub postings: TPostings,
}

/// The fieldnorm by which the score of document `doc` is normalised: the
/// reader's value for it, or none where there is no reader.
pub open spec fn fieldnorm_of(reader: Option<FastFieldReader>, doc: DocId) -> Option<u32> {
    match reader {
        Some(reader) => Some(reader.values()[doc as int]),
        None => None,
    }
}

impl<TWeight, TPostings: Postings> TermScorer<TWeight, TPostings> {
    /// Returns the postings that the scorer walks.
    pub fn postings(&self) -> (postings: &TPostings)
        ensures
            *postings == self.postings,
    {
        &self.postings
    }

    /// Returns the fieldnorm of the current document, by which its score
    /// is to be normalised, or `None` where the scorer has no fieldnorm
    /// reader and the weight stands as the score.
    pub fn fieldnorm(&self) -> (norm: Option<u32>)
        requires
            self.inv(),
            self.current() matches Some(doc) && (self.fieldnorm_reader_opt matches Some(reader)
                ==> doc < reader.values().len()),
        ensures
            norm == fieldnorm_of(self.fieldnorm_reader_opt, self.current().unwrap()),
    {
        match &self.fieldnorm_reader_opt {
            Some(fieldnorm_reader) => {
                let doc = self.postings.doc();
                Some(fieldnorm_reader.get(doc))
            },
            None => None,
        }
    }
}

impl<TWeight, TPostings: Postings> DocSet for TermScorer<TWeight, TPostings> {
    open spec fn upcoming(&self) -> Seq<DocId> {
        self.postings.upcoming()
    }

    open spec fn current(&self) -> Option<DocId> {
        self.postings.current()
    }

    open spec fn estimate(&self) -> u32 {
        self.postings.estimate()
    }

    open spec fn inv(&self) -> bool {
        self.postings.inv()
    }

    proof fn lemma_inv_ordered(&self) {
        self.postings.lemma_inv_ordered();
    }

    fn advance(&mut self) -> (more: bool)
        ensures
            final(self).idf == old(self).idf,
            final(self).fieldnorm_reader_opt == old(self).fieldnorm_reader_opt,
    {
        self.postings.advance()
    }

    fn skip_next(&mut self, target: DocId) -> (result: SkipResult)
        ensures
            final(self).idf == old(self).idf,
            final(self).fieldnorm_reader_opt == old(self).fieldnorm_reader_opt,
    {
        self.postings.skip_next(target)
    }

    fn doc(&self) -> (doc: DocId) {
        self.postings.doc()
    }

    fn size_hint(&self) -> (hint: u32) {
        self.postings.size_hint()
    }
}

impl<TWeight, TPostings: Postings> Postings for TermScorer<TWeight, TPostings> {
    open spec fn frequency(&self) -> u32 {
        self.postings.frequency()
    }

    fn term_freq(&self) -> (freq: u32) {
        self.postings.term_freq()
    }
}

} // verus!
