//! A document set in memory.

use vstd::prelude::*;
use vstd::std_specs::convert::FromSpecImpl;
use crate::docset::{DocId, DocSet, Postings, SkipResult};
use crate::ordered::{increasing, lemma_landing_is_first, lemma_passed_over};

verus! {

/// A document set held in memory: a cursor over a vector of `DocId`s.
pub struct VecDocSet {
    doc_ids: Vec<DocId>,
    /// Index of the next document to visit.
    cursor: usize,
    /// Whether the cursor is parked on `doc_ids[cursor - 1]`.
    parked: bool,
}

impl VecDocSet {
    /// All the documents of the set, visited or not.
    pub closed spec fn docs(&self) -> Seq<DocId> {
        self.doc_ids@
    }

    /// How many documents the cursor has gone past, the current one included.
    pub closed spec fn position(&self) -> int {
        self.cursor as int
    }

    /// Whether the cursor is parked on a document.
    pub closed spec fn is_parked(&self) -> bool {
        self.parked
    }
}

impl FromSpecImpl<Vec<DocId>> for VecDocSet {
    open spec fn obeys_from_spec() -> bool {
        true
    }

    closed spec fn from_spec(doc_ids: Vec<DocId>) -> VecDocSet {
        VecDocSet { doc_ids, cursor: 0, parked: false }
    }
}

impl From<Vec<DocId>> for VecDocSet {
    /// A cursor over `doc_ids`, not yet parked on any of them.
    fn from(doc_ids: Vec<DocId>) -> (set: VecDocSet)
        ensures
            set.docs() == doc_ids@,
            set.position() == 0,
            !set.is_parked(),
            set.inv() <==> increasing(doc_ids@),
    {
        VecDocSet { doc_ids, cursor: 0, parked: false }
    }
}

impl DocSet for VecDocSet {
    open spec fn upcoming(&self) -> Seq<DocId> {
        self.docs().skip(self.position())
    }

    open spec fn current(&self) -> Option<DocId> {
        if self.is_parked() {
            Some(self.docs()[self.position() - 1])
        } else {
            None
        }
    }

    open spec fn estimate(&self) -> u32 {
        if self.docs().len() <= u32::MAX {
            self.docs().len() as u32
        } else {
            u32::MAX
        }
    }

    open spec fn inv(&self) -> bool {
        &&& increasing(self.docs())
        &&& 0 <= self.position() <= self.docs().len()
        &&& self.is_parked() ==> self.position() >= 1
    }

    proof fn lemma_inv_ordered(&self) {
    }

    fn advance(&mut self) -> (more: bool)
        ensures
            final(self).docs() == old(self).docs(),
    {
        if self.cursor < self.doc_ids.len() {
            self.cursor = self.cursor + 1;
            self.parked = true;
            true
        } else {
            self.parked = false;
            false
        }
    }

    fn skip_next(&mut self, target: DocId) -> (result: SkipResult)
        ensures
            final(self).docs() == old(self).docs(),
    {
        let ghost before = old(self).docs().skip(old(self).position());
        let ghost start = self.position();
        proof {
            lemma_landing_is_first(before, target);
        }
        while self.cursor < self.doc_ids.len() && self.doc_ids[self.cursor] < target
            invariant
                self.doc_ids@ == old(self).doc_ids@,
                0 <= start <= self.cursor <= self.doc_ids.len(),
                before == self.doc_ids@.skip(start),
                forall|j: int| 0 <= j < self.cursor - start ==> before[j] < target,
            decreases self.doc_ids.len() - self.cursor,
        {
            assert(before[self.cursor - start] == self.doc_ids@[self.cursor as int]);
            self.cursor = self.cursor + 1;
        }
        proof {
            lemma_passed_over(before, target, self.cursor - start);
        }
        if self.cursor < self.doc_ids.len() {
            let doc = self.doc_ids[self.cursor];
            self.cursor = self.cursor + 1;
            self.parked = true;
            if doc == target {
                SkipResult::Reached
            } else {
                SkipResult::OverStep
            }
        } else {
            self.parked = false;
            SkipResult::End
        }
    }

    fn doc(&self) -> (doc: DocId) {
        self.doc_ids[self.cursor - 1]
    }

    fn size_hint(&self) -> (hint: u32) {
        let len = self.doc_ids.len();
        if len <= u32::MAX as usize {
            len as u32
        } else {
            u32::MAX
        }
    }
}

impl Postings for VecDocSet {
    /// A plain list of documents records no frequencies: each document
    /// counts as one occurrence.
    open spec fn frequency(&self) -> u32 {
        1
    }

    fn term_freq(&self) -> (freq: u32) {
        1
    }
}

} // verus!
