//! The iteration interface that every postings source and every composed
//! iterator implements, and what a skip over a sequence of documents
//! does, as functions on sequences.

use vstd::prelude::*;
use crate::ordered::{increasing, passed_over};

verus! {

/// Identifier of a document inside one segment.
pub type DocId = u32;

/// Outcome of moving a cursor forward to a target document.
#[derive(Clone, Copy, Debug, PartialEq, Eq, Structural)]
pub enum SkipResult {
    /// The cursor is parked exactly on the target.
    Reached,
    /// The target is absent; the cursor is parked on the first document after it.
    OverStep,
    /// No document at or after the target is left.
    End,
}

/// The document on which a skip to `target` parks a cursor whose upcoming
/// documents are `docs`: the first one at or after `target`, if there is one.
pub open spec fn skip_landing(docs: Seq<DocId>, target: DocId) -> Option<DocId> {
    let k = passed_over(docs, target) as int;
    if k < docs.len() {
        Some(docs[k])
    } else {
        None
    }
}

/// The documents still to visit after a skip to `target`.
pub open spec fn skip_rest(docs: Seq<DocId>, target: DocId) -> Seq<DocId> {
    let k = passed_over(docs, target) as int;
    if k < docs.len() {
        docs.skip(k + 1)
    } else {
        Seq::empty()
    }
}

/// What a skip to `target` returns.
pub open spec fn skip_result(docs: Seq<DocId>, target: DocId) -> SkipResult {
    match skip_landing(docs, target) {
        None => SkipResult::End,
        Some(d) => if d == target {
            SkipResult::Reached
        } else {
            SkipResult::OverStep
        },
    }
}

/// A cursor that is parked on `before` and moves to `now` has moved
/// forward. Nothing is asked of a cursor that was not parked, or is not.
pub open spec fn moves_forward(before: Option<DocId>, now: Option<DocId>) -> bool {
    match (before, now) {
        (Some(before), Some(now)) => before < now,
        _ => true,
    }
}

/// A cursor over an increasing sequence of documents, which moves forward
/// only, one document at a time or by skipping to a target.
///
/// A new cursor is parked on no document: it has to be moved once, by
/// `advance` or `skip_next`, before `doc` can be read.
pub trait DocSet {
    /// The documents that the cursor has yet to visit, in visiting order.
    spec fn upcoming(&self) -> Seq<DocId>;

    /// The document that the cursor is parked on, if it is parked on one.
    spec fn current(&self) -> Option<DocId>;

    /// The value that `size_hint` returns.
    spec fn estimate(&self) -> u32;

    /// Well-formedness of the cursor.
    spec fn inv(&self) -> bool;

    /// The upcoming documents of a well-formed cursor increase, and all of
    /// them lie after the current document.
    proof fn lemma_inv_ordered(&self)
        requires
            self.inv(),
        ensures
            increasing(self.upcoming()),
            self.current() matches Some(d) ==> forall|i: int|
                0 <= i < self.upcoming().len() ==> d < #[trigger] self.upcoming()[i],
    ;

    /// Moves to the next document. Returns false when there is none left;
    /// the cursor is then parked on no document, and every later call
    /// returns false again.
    fn advance(&mut self) -> (more: bool)
        requires
            old(self).inv(),
        ensures
            final(self).inv(),
            more == (old(self).upcoming().len() > 0),
            more ==> final(self).current() == Some(old(self).upcoming()[0]),
            more ==> final(self).upcoming() == old(self).upcoming().skip(1),
            !more ==> final(self).current() is None,
            !more ==> final(self).upcoming() == old(self).upcoming(),
            moves_forward(old(self).current(), final(self).current()),
    ;

    /// Moves to the first upcoming document at or after `target`, and says
    /// whether that document is the target itself. The cursor always
    /// leaves the document it was parked on, whatever the target. Where no
    /// upcoming document lies at or after the target, the cursor runs out.
    fn skip_next(&mut self, target: DocId) -> (result: SkipResult)
        requires
            old(self).inv(),
        ensures
            final(self).inv(),
            result == skip_result(old(self).upcoming(), target),
            final(self).current() == skip_landing(old(self).upcoming(), target),
            final(self).upcoming() == skip_rest(old(self).upcoming(), target),
            result == SkipResult::Reached ==> final(self).current() == Some(target),
            result == SkipResult::OverStep ==> (final(self).current() matches Some(d) && d > target
                && forall|x: DocId| target <= x < d ==> !old(self).upcoming().contains(x)),
            result == SkipResult::End ==> forall|x: DocId|
                x >= target ==> !old(self).upcoming().contains(x),
            moves_forward(old(self).current(), final(self).current()),
    ;

    /// Returns the document that the cursor is parked on.
    fn doc(&self) -> (doc: DocId)
        requires
            self.inv(),
            self.current() is Some,
        ensures
            self.current() == Some(doc),
    ;

    /// Returns an estimate of the number of documents in the set. It
    /// serves to order document sets by selectivity and is not exact.
    fn size_hint(&self) -> (hint: u32)
        ensures
            hint == self.estimate(),
    ;
}

/// A document set that lists the documents of one term, and knows how
/// often the term occurs in each.
pub trait Postings: DocSet {
    /// How often the term occurs in the current document.
    spec fn frequency(&self) -> u32;

    /// Returns the number of occurrences of the term in the current
    /// document; 1 where the postings do not record frequencies.
    fn term_freq(&self) -> (freq: u32)
        requires
            self.inv(),
            self.current() is Some,
        ensures
            freq == self.frequency(),
    ;
}

/// A boxed document set is the document set in the box: every operation
/// is handed on to it.
impl<TDocSet: DocSet> DocSet for Box<TDocSet> {
    open spec fn upcoming(&self) -> Seq<DocId> {
        (**self).upcoming()
    }

    open spec fn current(&self) -> Option<DocId> {
        (**self).current()
    }

    open spec fn estimate(&self) -> u32 {
        (**self).estimate()
    }

    open spec fn inv(&self) -> bool {
        (**self).inv()
    }

    proof fn lemma_inv_ordered(&self) {
        (**self).lemma_inv_ordered();
    }

    fn advance(&mut self) -> (more: bool) {
        let unboxed: &mut TDocSet = &mut **self;
        unboxed.advance()
    }

    fn skip_next(&mut self, target: DocId) -> (result: SkipResult) {
        let unboxed: &mut TDocSet = &mut **self;
        unboxed.skip_next(target)
    }

    fn doc(&self) -> (doc: DocId) {
        let unboxed: &TDocSet = &**self;
        unboxed.doc()
    }

    fn size_hint(&self) -> (hint: u32) {
        let unboxed: &TDocSet = &**self;
        unboxed.size_hint()
    }
}

impl<TPostings: Postings> Postings for Box<TPostings> {
    open spec fn frequency(&self) -> u32 {
        (**self).frequency()
    }

    fn term_freq(&self) -> (freq: u32) {
        let unboxed: &TPostings = &**self;
        unboxed.term_freq()
    }
}

/// A mutable reference to a document set is the document set behind it:
/// every operation is handed on to it.
impl<'a, TDocSet: DocSet> DocSet for &'a mut TDocSet {
    open spec fn upcoming(&self) -> Seq<DocId> {
        (**self).upcoming()
    }

    open spec fn current(&self) -> Option<DocId> {
        (**self).current()
    }

    open spec fn estimate(&self) -> u32 {
        (**self).estimate()
    }

    open spec fn inv(&self) -> bool {
        (**self).inv()
    }

    proof fn lemma_inv_ordered(&self) {
        (**self).lemma_inv_ordered();
    }

    fn advance(&mut self) -> (more: bool) {
        let unref: &mut TDocSet = &mut **self;
        unref.advance()
    }

    fn skip_next(&mut self, target: DocId) -> (result: SkipResult) {
        let unref: &mut TDocSet = &mut **self;
        unref.skip_next(target)
    }

    fn doc(&self) -> (doc: DocId) {
        let unref: &TDocSet = &**self;
        unref.doc()
    }

    fn size_hint(&self) -> (hint: u32) {
        let unref: &TDocSet = &**self;
        unref.size_hint()
    }
}

impl<'a, TPostings: Postings> Postings for &'a mut TPostings {
    open spec fn frequency(&self) -> u32 {
        (**self).frequency()
    }

    fn term_freq(&self) -> (freq: u32) {
        let unref: &TPostings = &**self;
        unref.term_freq()
    }
}

} // verus!
