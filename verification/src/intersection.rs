//! The intersection of document sets: the documents that all of them hold,
//! found by letting each child skip to the candidate of the others.

use vstd::prelude::*;
use crate::docset::{DocId, DocSet, SkipResult, skip_landing, skip_rest};
use crate::ordered::{
    above, common, in_all, in_members, increasing, lemma_above_all, lemma_common_after,
    lemma_common_empty, lemma_common_is_intersection, lemma_common_none,
    lemma_common_same_lists, lemma_filter_members, lemma_landing_is_first, lemma_passed_over,
    lemma_skip_narrows,
};

verus! {

/// The upcoming documents of each of `docsets`, in the same order.
pub open spec fn upcoming_lists<TDocSet: DocSet>(docsets: Seq<TDocSet>) -> Seq<Seq<DocId>> {
    Seq::new(docsets.len(), |i: int| docsets[i].upcoming())
}

/// The members of `docsets` whose size estimate is `estimate`, in order.
pub open spec fn with_estimate<TDocSet: DocSet>(docsets: Seq<TDocSet>, estimate: u32) -> Seq<
    TDocSet,
> {
    docsets.filter(has_estimate(estimate))
}

/// The test that a document set's size estimate is `estimate`.
pub open spec fn has_estimate<TDocSet: DocSet>(estimate: u32) -> spec_fn(TDocSet) -> bool {
    |docset: TDocSet| docset.estimate() == estimate
}

/// The size estimates of `docsets` never go down from one member to a
/// later one.
pub open spec fn ascending_estimates<TDocSet: DocSet>(docsets: Seq<TDocSet>) -> bool {
    forall|i: int, j: int|
        0 <= i < j < docsets.len() ==> docsets[i].estimate() <= docsets[j].estimate()
}

/// Each of `after` is parked on `doc` and has yet to visit the documents
/// after `doc` that the document set at its place in `before` had yet to
/// visit.
pub open spec fn parked_on<TDocSet: DocSet>(
    before: Seq<TDocSet>,
    after: Seq<TDocSet>,
    doc: DocId,
) -> bool {
    &&& after.len() == before.len()
    &&& forall|i: int|
        0 <= i < after.len() ==> (#[trigger] after[i]).current() == Some(doc) && after[i].upcoming()
            == above(before[i].upcoming(), doc as int)
}

/// `least` is the smallest size estimate among `docsets`, or 0 when there
/// are none.
pub open spec fn is_least_estimate<TDocSet: DocSet>(docsets: Seq<TDocSet>, least: u32) -> bool {
    if docsets.len() == 0 {
        least == 0
    } else {
        &&& exists|i: int| 0 <= i < docsets.len() && (#[trigger] docsets[i]).estimate() == least
        &&& forall|i: int| 0 <= i < docsets.len() ==> least <= (#[trigger] docsets[i]).estimate()
    }
}

/// The smallest size estimate among `docsets`.
pub open spec fn least_estimate<TDocSet: DocSet>(docsets: Seq<TDocSet>) -> u32 {
    choose|least: u32| is_least_estimate(docsets, least)
}

/// Reorders `docsets` by ascending size hint.
///
/// Calls `sort_by_key` of the standard library on the vector, with
/// `size_hint` as the key. The contract states what that function is
/// documented to do: the vector keeps its length, afterwards the keys
/// ascend, and, the sort being stable, the members with any one key are
/// the same as before and in the same order.
#[verifier::external_body]
fn sort_by_size_hint<TDocSet: DocSet>(docsets: &mut Vec<TDocSet>)
    ensures
        final(docsets)@.len() == old(docsets)@.len(),
        ascending_estimates(final(docsets)@),
        forall|estimate: u32|
            with_estimate(final(docsets)@, estimate) == with_estimate(old(docsets)@, estimate),
{
    docsets.sort_by_key(|docset| docset.size_hint());
}

/// A stable reordering keeps every member: each member of one sequence
/// occurs in the other.
proof fn lemma_same_members<TDocSet: DocSet>(a: Seq<TDocSet>, b: Seq<TDocSet>)
    requires
        forall|estimate: u32| with_estimate(a, estimate) == with_estimate(b, estimate),
    ensures
        forall|i: int| 0 <= i < a.len() ==> b.contains(#[trigger] a[i]),
        forall|j: int| 0 <= j < b.len() ==> a.contains(#[trigger] b[j]),
{
    assert forall|i: int| 0 <= i < a.len() implies b.contains(#[trigger] a[i]) by {
        let estimate = a[i].estimate();
        let pred = has_estimate::<TDocSet>(estimate);
        a.lemma_filter_contains(pred, i);
        assert(with_estimate(b, estimate).contains(a[i]));
        b.lemma_filter_contains_rev(pred, a[i]);
    }
    assert forall|j: int| 0 <= j < b.len() implies a.contains(#[trigger] b[j]) by {
        let estimate = b[j].estimate();
        let pred = has_estimate::<TDocSet>(estimate);
        b.lemma_filter_contains(pred, j);
        assert(with_estimate(a, estimate).contains(b[j]));
        a.lemma_filter_contains_rev(pred, b[j]);
    }
}

/// The documents of an intersection are those that every child has yet to
/// visit, each once and in increasing order.
pub proof fn lemma_intersection_is_exact<TDocSet: DocSet>(docsets: Seq<TDocSet>)
    requires
        docsets.len() >= 2,
        forall|i: int| 0 <= i < docsets.len() ==> (#[trigger] docsets[i]).inv(),
    ensures
        increasing(common(upcoming_lists(docsets))),
        forall|d: DocId|
            common(upcoming_lists(docsets)).contains(d) <==> forall|i: int|
                0 <= i < docsets.len() ==> (#[trigger] docsets[i]).upcoming().contains(d),
{
    let lists = upcoming_lists(docsets);
    docsets[0].lemma_inv_ordered();
    lemma_common_is_intersection(lists);
    assert forall|d: DocId| in_all(lists, d) <==> forall|i: int|
        0 <= i < docsets.len() ==> (#[trigger] docsets[i]).upcoming().contains(d) by {
        if in_all(lists, d) {
            assert forall|i: int| 0 <= i < docsets.len() implies (
            #[trigger] docsets[i]).upcoming().contains(d) by {
                assert(lists[i].contains(d));
            }
        }
    }
}

/// Each of the document sets that `members` picks by position has `doc`
/// among its upcoming documents.
pub open spec fn upcoming_in_each<TDocSet: DocSet>(
    docsets: Seq<TDocSet>,
    members: Set<int>,
    doc: DocId,
) -> bool {
    forall|i: int| members.contains(i) ==> (#[trigger] docsets[i]).upcoming().contains(doc)
}

/// Where some of the children, two or more or all of them, have no
/// upcoming document in common, the intersection has no document: the
/// first `advance` on it returns false.
pub proof fn lemma_empty_combination<TDocSet: DocSet>(docsets: Seq<TDocSet>, members: Set<int>)
    requires
        forall|i: int| members.contains(i) ==> 0 <= i < docsets.len(),
        forall|d: DocId| !#[trigger] upcoming_in_each(docsets, members, d),
    ensures
        common(upcoming_lists(docsets)).len() == 0,
{
    let lists = upcoming_lists(docsets);
    assert forall|d: DocId| !#[trigger] in_members(lists, members, d) by {
        assert(!upcoming_in_each(docsets, members, d));
        let i = choose|i: int|
            members.contains(i) && !(#[trigger] docsets[i]).upcoming().contains(d);
        assert(!lists[i].contains(d));
    }
    lemma_common_empty(lists, members);
}

/// The documents of an intersection do not depend on the order in which
/// its children are given.
pub proof fn lemma_order_is_irrelevant<TDocSet: DocSet>(a: Seq<TDocSet>, b: Seq<TDocSet>)
    requires
        a.to_multiset() == b.to_multiset(),
        forall|i: int| 0 <= i < a.len() ==> (#[trigger] a[i]).inv(),
    ensures
        common(upcoming_lists(a)) == common(upcoming_lists(b)),
{
    a.to_multiset_ensures();
    b.to_multiset_ensures();
    let la = upcoming_lists(a);
    let lb = upcoming_lists(b);
    if a.len() > 0 {
        assert forall|i: int| 0 <= i < la.len() implies increasing(#[trigger] la[i]) && lb.contains(
            la[i],
        ) by {
            a[i].lemma_inv_ordered();
            assert(a.contains(a[i]));
            assert(a.to_multiset().count(a[i]) > 0);
            assert(b.to_multiset().count(a[i]) > 0);
            let j = choose|j: int| 0 <= j < b.len() && b[j] == a[i];
            assert(lb[j] == la[i]);
        }
        assert forall|j: int| 0 <= j < lb.len() implies la.contains(#[trigger] lb[j]) by {
            assert(b.contains(b[j]));
            assert(b.to_multiset().count(b[j]) > 0);
            assert(a.to_multiset().count(b[j]) > 0);
            let i = choose|i: int| 0 <= i < a.len() && a[i] == b[j];
            assert(la[i] == lb[j]);
        }
        lemma_common_same_lists(la, lb);
    }
}

/// A `DocSet` that walks through the documents that all of its children
/// hold.
pub struct Intersection<TDocSet: DocSet> {
    docsets: Vec<TDocSet>,
    finished: bool,
    doc: DocId,
}

impl<TDocSet: DocSet> Intersection<TDocSet> {
    /// The child document sets, in the order fixed at construction.
    pub closed spec fn children(&self) -> Seq<TDocSet> {
        self.docsets@
    }

    /// Whether a child has run out, so that no document is left.
    pub closed spec fn is_finished(&self) -> bool {
        self.finished
    }

    /// The last document that the intersection stopped on; 0 before the
    /// first.
    pub closed spec fn last_doc(&self) -> DocId {
        self.doc
    }

    /// Builds the intersection of `docsets`, which it reorders by ascending
    /// size hint, so that the most selective child drives the skipping.
    /// The documents of the intersection do not depend on that order.
    pub fn from(docsets: Vec<TDocSet>) -> (intersection: Intersection<TDocSet>)
        requires
            docsets@.len() >= 2,
            forall|i: int| 0 <= i < docsets@.len() ==> (#[trigger] docsets@[i]).inv(),
        ensures
            intersection.inv(),
            !intersection.is_finished(),
            intersection.last_doc() == 0,
            intersection.upcoming() == common(upcoming_lists(docsets@)),
            intersection.children().len() == docsets@.len(),
            ascending_estimates(intersection.children()),
            forall|estimate: u32|
                with_estimate(intersection.children(), estimate) == with_estimate(
                    docsets@,
                    estimate,
                ),
    {
        let mut docsets = docsets;
        let ghost given = docsets@;
        sort_by_size_hint(&mut docsets);
        proof {
            lemma_same_members(given, docsets@);
            let a = upcoming_lists(given);
            let b = upcoming_lists(docsets@);
            assert forall|i: int| 0 <= i < docsets@.len() implies (#[trigger] docsets@[i]).inv() by {
                let j = choose|j: int| 0 <= j < given.len() && given[j] == docsets@[i];
            }
            assert forall|i: int| 0 <= i < a.len() implies increasing(#[trigger] a[i])
                && b.contains(a[i]) by {
                given[i].lemma_inv_ordered();
                let j = choose|j: int| 0 <= j < docsets@.len() && docsets@[j] == given[i];
                assert(b[j] == a[i]);
            }
            assert forall|j: int| 0 <= j < b.len() implies a.contains(#[trigger] b[j]) by {
                let i = choose|i: int| 0 <= i < given.len() && given[i] == docsets@[j];
                assert(a[i] == b[j]);
            }
            lemma_common_same_lists(a, b);
        }
        Intersection { docsets, finished: false, doc: 0u32 }
    }

    /// Returns the underlying `DocSet`s of the intersection. While the
    /// intersection is parked on a document they are parked on it too, so
    /// that a caller can read what they hold for it.
    pub fn docsets(&self) -> (children: &[TDocSet])
        ensures
            children@ == self.children(),
    {
        self.docsets.as_slice()
    }

    /// Moves every child to the first document at or after `seed` that all
    /// of them hold, and parks the intersection there; finishes the
    /// intersection when a child runs out first.
    fn narrow(&mut self, seed: DocId) -> (found: Option<DocId>)
        requires
            (*old(self)).inv(),
            !old(self).is_finished(),
        ensures
            (*final(self)).inv(),
            final(self).children().len() == old(self).children().len(),
            found == skip_landing((*old(self)).upcoming(), seed),
            (*final(self)).upcoming() == skip_rest((*old(self)).upcoming(), seed),
            (*final(self)).current() == found,
            final(self).is_finished() == (found is None),
            found is None ==> final(self).last_doc() == old(self).last_doc(),
            found matches Some(doc) ==> final(self).last_doc() == doc && parked_on(
                old(self).children(),
                final(self).children(),
                doc,
            ),
    {
        let n = self.docsets.len();
        let ghost start = self.docsets@;
        let ghost lists = upcoming_lists(start);
        let ghost mut bounds = Seq::new(n as nat, |i: int| -1int);
        let mut candidate_doc = seed;
        let mut candidate_ord = n;
        let mut ord: usize = 0;
        proof {
            assert forall|i: int| 0 <= i < n implies increasing(#[trigger] lists[i]) && (
            #[trigger] self.docsets@[i]).upcoming() == above(lists[i], bounds[i]) by {
                start[i].lemma_inv_ordered();
                lemma_above_all(lists[i]);
            }
        }
        while ord < n
            invariant
                n == self.docsets@.len(),
                start == old(self).docsets@,
                !old(self).finished,
                n == start.len(),
                n >= 2,
                lists == upcoming_lists(start),
                bounds.len() == n,
                !self.finished,
                self.doc == old(self).doc,
                ord <= n,
                candidate_ord <= n,
                seed <= candidate_doc,
                forall|i: int| 0 <= i < n ==> increasing(#[trigger] lists[i]),
                forall|i: int| 0 <= i < n ==> (#[trigger] self.docsets@[i]).inv(),
                forall|i: int|
                    0 <= i < n ==> (#[trigger] self.docsets@[i]).upcoming() == above(
                        lists[i],
                        bounds[i],
                    ),
                forall|i: int|
                    0 <= i < n && (i < ord || i == candidate_ord) ==> {
                        &&& #[trigger] bounds[i] == candidate_doc
                        &&& self.docsets@[i].current() == Some(candidate_doc)
                        &&& lists[i].contains(candidate_doc)
                    },
                forall|i: int|
                    0 <= i < n && i >= ord && i != candidate_ord ==> #[trigger] bounds[i]
                        < candidate_doc,
                forall|d: DocId| in_all(lists, d) && d >= seed ==> d >= candidate_doc,
            decreases u32::MAX - candidate_doc, n - ord,
        {
            if ord != candidate_ord {
                // The child at `candidate_ord` is already parked on the
                // candidate: skipping it again would move it past.
                let ghost bound = bounds[ord as int];
                proof {
                    lemma_skip_narrows(lists[ord as int], bound, candidate_doc);
                }
                match self.docsets[ord].skip_next(candidate_doc) {
                    SkipResult::Reached => {
                        proof {
                            bounds = bounds.update(ord as int, candidate_doc as int);
                        }
                        ord = ord + 1;
                    },
                    SkipResult::OverStep => {
                        // Not in the intersection: the child's document is
                        // the next candidate.
                        let ghost previous = candidate_doc;
                        candidate_doc = self.docsets[ord].doc();
                        candidate_ord = ord;
                        proof {
                            bounds = bounds.update(ord as int, candidate_doc as int);
                            assert forall|d: DocId|
                                in_all(lists, d) && d >= seed implies d >= candidate_doc by {
                                assert(lists[ord as int].contains(d));
                                assert(d >= previous);
                            }
                        }
                        ord = 0;
                    },
                    SkipResult::End => {
                        self.finished = true;
                        proof {
                            assert forall|d: DocId| in_all(lists, d) implies d < seed by {
                                assert(lists[ord as int].contains(d));
                            }
                            lemma_common_none(lists, seed);
                        }
                        return None;
                    },
                }
            } else {
                ord = ord + 1;
            }
        }
        self.doc = candidate_doc;
        proof {
            let after = upcoming_lists(self.docsets@);
            assert(in_all(lists, candidate_doc)) by {
                assert forall|i: int| 0 <= i < lists.len() implies (#[trigger] lists[i]).contains(
                    candidate_doc,
                ) by {
                    assert(bounds[i] == candidate_doc);
                }
            }
            assert forall|i: int| 0 <= i < n implies #[trigger] after[i] == above(
                lists[i],
                candidate_doc as int,
            ) by {
                assert(bounds[i] == candidate_doc);
                assert(self.docsets@[i].upcoming() == above(lists[i], bounds[i]));
            }
            lemma_common_after(lists, after, seed, candidate_doc);
            assert forall|i: int| 0 <= i < n implies (#[trigger] self.docsets@[i]).current()
                == Some(candidate_doc) by {
                assert(bounds[i] == candidate_doc);
            }
            assert forall|d: DocId| in_all(after, d) implies d >= candidate_doc by {
                assert(after[0].contains(d));
                lemma_filter_members(lists[0], |x: DocId| x > candidate_doc as int);
            }
        }
        Some(candidate_doc)
    }
}

impl<TDocSet: DocSet> DocSet for Intersection<TDocSet> {
    /// The documents that all the children have yet to visit; none once
    /// the intersection is finished.
    open spec fn upcoming(&self) -> Seq<DocId> {
        if self.is_finished() {
            Seq::empty()
        } else {
            common(upcoming_lists(self.children()))
        }
    }

    /// The last document, while the intersection is not finished and every
    /// child is parked on that document.
    open spec fn current(&self) -> Option<DocId> {
        if !self.is_finished() && forall|i: int|
            0 <= i < self.children().len() ==> (#[trigger] self.children()[i]).current() == Some(
                self.last_doc(),
            ) {
            Some(self.last_doc())
        } else {
            None
        }
    }

    open spec fn estimate(&self) -> u32 {
        least_estimate(self.children())
    }

    /// There are two children or more, each of them well-formed, and, until
    /// the intersection is finished, no document that all of them have yet
    /// to visit lies before the last document.
    open spec fn inv(&self) -> bool {
        &&& self.children().len() >= 2
        &&& forall|i: int|
            0 <= i < self.children().len() ==> (#[trigger] self.children()[i]).inv()
        &&& !self.is_finished() ==> forall|d: DocId|
            in_all(upcoming_lists(self.children()), d) ==> d >= self.last_doc()
    }

    proof fn lemma_inv_ordered(&self) {
        if !self.is_finished() {
            let lists = upcoming_lists(self.children());
            self.children()[0].lemma_inv_ordered();
            lemma_common_is_intersection(lists);
            if self.current() is Some {
                assert forall|i: int| 0 <= i < self.upcoming().len() implies self.last_doc()
                    < #[trigger] self.upcoming()[i] by {
                    let d = self.upcoming()[i];
                    assert(self.upcoming().contains(d));
                    assert(lists[0].contains(d));
                    let j = choose|j: int| 0 <= j < lists[0].len() && lists[0][j] == d;
                    assert(self.children()[0].upcoming()[j] == d);
                }
            }
        }
    }

    /// Moves to the next document that every child holds. Once a child has
    /// run out the intersection is finished: it returns false, now and on
    /// every later call, keeps its last document, and leaves its children
    /// as they are.
    fn advance(&mut self) -> (more: bool)
        ensures
            final(self).children().len() == old(self).children().len(),
            more ==> parked_on(
                old(self).children(),
                final(self).children(),
                final(self).last_doc(),
            ),
            !more ==> final(self).is_finished() && final(self).last_doc() == old(self).last_doc(),
            old(self).is_finished() ==> *final(self) == *old(self),
    {
        if self.finished {
            return false;
        }
        let seed = self.doc;
        proof {
            let docs = (*old(self)).upcoming();
            old(self).children()[0].lemma_inv_ordered();
            lemma_common_is_intersection(upcoming_lists(old(self).children()));
            if docs.len() > 0 {
                assert(docs.contains(docs[0]));
            }
            lemma_passed_over(docs, seed, 0);
        }
        match self.narrow(seed) {
            Some(_) => true,
            None => false,
        }
    }

    /// Moves to the first upcoming document at or after `target` that
    /// every child holds. The children end up parked on that document;
    /// where one of them runs out first, the intersection is finished.
    fn skip_next(&mut self, target: DocId) -> (result: SkipResult)
        ensures
            final(self).children().len() == old(self).children().len(),
            result != SkipResult::End ==> parked_on(
                old(self).children(),
                final(self).children(),
                final(self).last_doc(),
            ),
            result == SkipResult::End ==> final(self).is_finished() && final(self).last_doc()
                == old(self).last_doc(),
            old(self).is_finished() ==> *final(self) == *old(self),
    {
        proof {
            (*old(self)).lemma_inv_ordered();
            lemma_landing_is_first((*old(self)).upcoming(), target);
        }
        if self.finished {
            return SkipResult::End;
        }
        match self.narrow(target) {
            Some(doc) => {
                if doc == target {
                    SkipResult::Reached
                } else {
                    SkipResult::OverStep
                }
            },
            None => SkipResult::End,
        }
    }

    fn doc(&self) -> (doc: DocId) {
        self.doc
    }

    /// Returns the smallest of the children's size hints: the
    /// intersection holds no more documents than its smallest child.
    fn size_hint(&self) -> (hint: u32)
        ensures
            is_least_estimate(self.children(), hint),
    {
        let n = self.docsets.len();
        if n == 0 {
            assert(is_least_estimate(self.docsets@, 0));
            return 0;
        }
        let mut least = self.docsets[0].size_hint();
        let mut ord: usize = 1;
        while ord < n
            invariant
                n == self.docsets@.len(),
                1 <= ord <= n,
                exists|i: int| 0 <= i < ord && (#[trigger] self.docsets@[i]).estimate() == least,
                forall|i: int| 0 <= i < ord ==> least <= (#[trigger] self.docsets@[i]).estimate(),
            decreases n - ord,
        {
            let hint = self.docsets[ord].size_hint();
            if hint < least {
                least = hint;
            }
            ord = ord + 1;
        }
        assert(is_least_estimate(self.docsets@, least));
        least
    }
}

} // verus!
