//! Increasing sequences of documents: skipping over one, and the
//! documents that several of them have in common.

use vstd::prelude::*;
use crate::docset::{DocId, skip_landing, skip_rest};

verus! {

/// Every document is smaller than the ones that follow it.
pub open spec fn increasing(docs: Seq<DocId>) -> bool {
    forall|i: int, j: int| 0 <= i < j < docs.len() ==> docs[i] < docs[j]
}

/// How many documents of `docs` lie before `target`.
pub open spec fn passed_over(docs: Seq<DocId>, target: DocId) -> nat {
    docs.filter(|d: DocId| d < target).len()
}

/// `k` is the position of the first document at or after `target`, or the
/// length of `docs` when every document lies before `target`.
pub open spec fn lands_at(docs: Seq<DocId>, target: DocId, k: int) -> bool {
    &&& 0 <= k <= docs.len()
    &&& forall|j: int| 0 <= j < k ==> docs[j] < target
    &&& k < docs.len() ==> docs[k] >= target
}

/// The documents of `docs` after `bound`.
pub open spec fn above(docs: Seq<DocId>, bound: int) -> Seq<DocId> {
    docs.filter(|d: DocId| d > bound)
}

/// `doc` occurs in every one of `lists`.
pub open spec fn in_all(lists: Seq<Seq<DocId>>, doc: DocId) -> bool {
    forall|i: int| 0 <= i < lists.len() ==> (#[trigger] lists[i]).contains(doc)
}

/// `doc` occurs in each of the lists that `members` picks by position.
pub open spec fn in_members(lists: Seq<Seq<DocId>>, members: Set<int>, doc: DocId) -> bool {
    forall|i: int| members.contains(i) ==> (#[trigger] lists[i]).contains(doc)
}

/// The documents that occur in every one of `lists`, in the order in which
/// the first list holds them. No list, no document.
pub open spec fn common(lists: Seq<Seq<DocId>>) -> Seq<DocId> {
    if lists.len() == 0 {
        Seq::empty()
    } else {
        lists[0].filter(|d: DocId| in_all(lists, d))
    }
}

/// Filtering keeps exactly the members that satisfy the predicate.
pub proof fn lemma_filter_members(docs: Seq<DocId>, pred: spec_fn(DocId) -> bool)
    ensures
        forall|d: DocId| docs.filter(pred).contains(d) <==> docs.contains(d) && pred(d),
{
    assert forall|d: DocId| docs.filter(pred).contains(d) <==> docs.contains(d) && pred(d) by {
        if docs.filter(pred).contains(d) {
            docs.lemma_filter_contains_rev(pred, d);
            let i = choose|i: int| 0 <= i < docs.filter(pred).len() && docs.filter(pred)[i] == d;
            docs.lemma_filter_pred(pred, i);
        }
        if docs.contains(d) && pred(d) {
            let i = choose|i: int| 0 <= i < docs.len() && docs[i] == d;
            docs.lemma_filter_contains(pred, i);
        }
    }
}

/// Filtering an increasing sequence leaves an increasing sequence.
pub proof fn lemma_filter_increasing(docs: Seq<DocId>, pred: spec_fn(DocId) -> bool)
    requires
        increasing(docs),
    ensures
        increasing(docs.filter(pred)),
    decreases docs.len(),
{
    reveal(Seq::filter);
    if docs.len() > 0 {
        let front = docs.drop_last();
        lemma_filter_increasing(front, pred);
        let kept = front.filter(pred);
        assert forall|i: int| 0 <= i < kept.len() implies kept[i] < docs.last() by {
            assert(kept.contains(kept[i]));
            front.lemma_filter_contains_rev(pred, kept[i]);
            let j = choose|j: int| 0 <= j < front.len() && front[j] == kept[i];
            assert(docs[j] == kept[i]);
        }
    }
}

/// Two increasing sequences with the same members are the same sequence.
pub proof fn lemma_increasing_same_members(a: Seq<DocId>, b: Seq<DocId>)
    requires
        increasing(a),
        increasing(b),
        forall|d: DocId| a.contains(d) <==> b.contains(d),
    ensures
        a == b,
    decreases a.len(),
{
    if a.len() == 0 {
        if b.len() > 0 {
            assert(b.contains(b[0]));
        }
        assert(a =~= b);
    } else {
        assert(a.contains(a.last()));
        let jb = choose|j: int| 0 <= j < b.len() && b[j] == a.last();
        assert(b.contains(b.last()));
        let ja = choose|j: int| 0 <= j < a.len() && a[j] == b.last();
        assert(a.last() == b.last());
        let a0 = a.drop_last();
        let b0 = b.drop_last();
        assert forall|d: DocId| a0.contains(d) <==> b0.contains(d) by {
            if a0.contains(d) {
                let i = choose|i: int| 0 <= i < a0.len() && a0[i] == d;
                assert(a[i] == d);
                assert(a.contains(d));
                let j = choose|j: int| 0 <= j < b.len() && b[j] == d;
                assert(b0[j] == d);
            }
            if b0.contains(d) {
                let i = choose|i: int| 0 <= i < b0.len() && b0[i] == d;
                assert(b[i] == d);
                assert(b.contains(d));
                let j = choose|j: int| 0 <= j < a.len() && a[j] == d;
                assert(a0[j] == d);
            }
        }
        lemma_increasing_same_members(a0, b0);
        assert(a =~= a0.push(a.last()));
        assert(b =~= b0.push(b.last()));
    }
}

/// Some position satisfies `lands_at`, whatever the sequence.
pub proof fn lemma_landing_exists(docs: Seq<DocId>, target: DocId) -> (k: int)
    ensures
        lands_at(docs, target, k),
    decreases docs.len(),
{
    if docs.len() == 0 {
        0
    } else {
        let k0 = lemma_landing_exists(docs.drop_last(), target);
        if k0 < docs.len() - 1 {
            assert(docs.drop_last()[k0] == docs[k0]);
            assert forall|j: int| 0 <= j < k0 implies docs[j] < target by {
                assert(docs.drop_last()[j] == docs[j]);
            }
            k0
        } else {
            assert forall|j: int| 0 <= j < k0 implies docs[j] < target by {
                assert(docs.drop_last()[j] == docs[j]);
            }
            if docs.last() < target {
                docs.len() as int
            } else {
                k0
            }
        }
    }
}

/// In an increasing sequence the documents before `target` are the ones
/// in front of the landing position.
pub proof fn lemma_passed_over(docs: Seq<DocId>, target: DocId, k: int)
    requires
        increasing(docs),
        lands_at(docs, target, k),
    ensures
        passed_over(docs, target) == k,
    decreases docs.len(),
{
    reveal(Seq::filter);
    if docs.len() > 0 {
        let front = docs.drop_last();
        if k == docs.len() {
            lemma_passed_over(front, target, k - 1);
        } else {
            lemma_passed_over(front, target, k);
        }
    }
}

/// A skip over an increasing sequence passes only documents before the
/// target, and nothing lies between the target and the landing document.
pub proof fn lemma_landing_is_first(docs: Seq<DocId>, target: DocId)
    requires
        increasing(docs),
    ensures
        lands_at(docs, target, passed_over(docs, target) as int),
        forall|x: DocId|
            docs.contains(x) && x >= target ==> passed_over(docs, target) < docs.len()
                && docs[passed_over(docs, target) as int] <= x,
{
    let k = lemma_landing_exists(docs, target);
    lemma_passed_over(docs, target, k);
    assert forall|x: DocId| docs.contains(x) && x >= target implies k < docs.len() && docs[k]
        <= x by {
        let i = choose|i: int| 0 <= i < docs.len() && docs[i] == x;
        assert(i >= k);
    }
}

/// Dropping the first `k + 1` documents of an increasing sequence leaves
/// the documents after `docs[k]`.
pub proof fn lemma_skip_is_above(docs: Seq<DocId>, k: int)
    requires
        increasing(docs),
        0 <= k < docs.len(),
    ensures
        docs.skip(k + 1) == above(docs, docs[k] as int),
{
    let rest = docs.skip(k + 1);
    let pred = |d: DocId| d > docs[k] as int;
    lemma_filter_increasing(docs, pred);
    lemma_filter_members(docs, pred);
    assert forall|d: DocId| rest.contains(d) <==> above(docs, docs[k] as int).contains(d) by {
        if rest.contains(d) {
            let i = choose|i: int| 0 <= i < rest.len() && rest[i] == d;
            assert(docs[k + 1 + i] == d);
            assert(docs.contains(d));
            assert(pred(d));
        }
        if docs.contains(d) && pred(d) {
            let i = choose|i: int| 0 <= i < docs.len() && docs[i] == d;
            assert(i > k);
            assert(rest[i - k - 1] == d);
        }
    }
    lemma_increasing_same_members(rest, above(docs, docs[k] as int));
}

/// Nothing lies at or before a bound below every document.
pub proof fn lemma_above_all(docs: Seq<DocId>)
    requires
        increasing(docs),
    ensures
        above(docs, -1) == docs,
{
    let pred = |d: DocId| d > -1;
    lemma_filter_increasing(docs, pred);
    lemma_filter_members(docs, pred);
    assert forall|d: DocId| docs.contains(d) <==> above(docs, -1).contains(d) by {
        assert(pred(d));
    }
    lemma_increasing_same_members(above(docs, -1), docs);
}

/// A skip to `target` over the documents of `docs` after `bound`, where
/// `bound` lies before `target`, leaves the documents of `docs` after the
/// landing document.
pub proof fn lemma_skip_narrows(docs: Seq<DocId>, bound: int, target: DocId)
    requires
        increasing(docs),
        bound < target,
    ensures
        match skip_landing(above(docs, bound), target) {
            Some(e) => {
                &&& e >= target
                &&& docs.contains(e)
                &&& skip_rest(above(docs, bound), target) == above(docs, e as int)
                &&& forall|d: DocId| docs.contains(d) && d >= target ==> d >= e
            },
            None => forall|d: DocId| docs.contains(d) ==> d < target,
        },
{
    let left = above(docs, bound);
    let kept = |d: DocId| d > bound;
    lemma_filter_increasing(docs, kept);
    lemma_filter_members(docs, kept);
    lemma_landing_is_first(left, target);
    let k = passed_over(left, target) as int;
    assert forall|d: DocId| docs.contains(d) && d >= target implies left.contains(d) by {
        assert(kept(d));
    }
    if k < left.len() {
        let e = left[k];
        assert(left.contains(e));
        lemma_skip_is_above(left, k);
        let past = |d: DocId| d > e as int;
        lemma_filter_increasing(left, past);
        lemma_filter_members(left, past);
        lemma_filter_increasing(docs, past);
        lemma_filter_members(docs, past);
        assert forall|d: DocId| above(left, e as int).contains(d) <==> above(docs, e as int).contains(
            d,
        ) by {
            if docs.contains(d) && past(d) {
                assert(kept(d));
            }
        }
        lemma_increasing_same_members(above(left, e as int), above(docs, e as int));
    } else {
        assert forall|d: DocId| docs.contains(d) implies d < target by {
            if d >= target {
                assert(left.contains(d));
            }
        }
    }
}

/// The common documents of increasing lists are the intersection of the
/// lists as sets, in increasing order.
pub proof fn lemma_common_is_intersection(lists: Seq<Seq<DocId>>)
    requires
        lists.len() > 0,
        increasing(lists[0]),
    ensures
        increasing(common(lists)),
        forall|d: DocId| common(lists).contains(d) <==> in_all(lists, d),
{
    let pred = |d: DocId| in_all(lists, d);
    lemma_filter_increasing(lists[0], pred);
    lemma_filter_members(lists[0], pred);
    assert forall|d: DocId| common(lists).contains(d) <==> in_all(lists, d) by {
        if in_all(lists, d) {
            assert(lists[0].contains(d));
            assert(pred(d));
        }
    }
}

/// When every list has been cut down to its documents after `doc`, a
/// document common to all of them and first among the common documents at
/// or after `seed`, what is common afterwards is what a skip to `seed`
/// over the common documents leaves.
pub proof fn lemma_common_after(
    before: Seq<Seq<DocId>>,
    after: Seq<Seq<DocId>>,
    seed: DocId,
    doc: DocId,
)
    requires
        before.len() > 0,
        after.len() == before.len(),
        forall|i: int| 0 <= i < before.len() ==> increasing(#[trigger] before[i]),
        forall|i: int| 0 <= i < before.len() ==> #[trigger] after[i] == above(before[i], doc as int),
        in_all(before, doc),
        doc >= seed,
        forall|d: DocId| in_all(before, d) && d >= seed ==> d >= doc,
    ensures
        skip_landing(common(before), seed) == Some(doc),
        skip_rest(common(before), seed) == common(after),
{
    let docs = common(before);
    lemma_common_is_intersection(before);
    assert(docs.contains(doc));
    let k = choose|k: int| 0 <= k < docs.len() && docs[k] == doc;
    assert forall|j: int| 0 <= j < k implies docs[j] < seed by {
        assert(docs.contains(docs[j]));
    }
    lemma_passed_over(docs, seed, k);
    lemma_skip_is_above(docs, k);
    let past = |d: DocId| d > doc as int;
    lemma_filter_increasing(docs, past);
    lemma_filter_members(docs, past);
    assert(increasing(after[0])) by {
        lemma_filter_increasing(before[0], past);
    }
    lemma_common_is_intersection(after);
    assert forall|d: DocId| above(docs, doc as int).contains(d) <==> common(after).contains(d) by {
        if docs.contains(d) && past(d) {
            assert forall|i: int| 0 <= i < after.len() implies (#[trigger] after[i]).contains(
                d,
            ) by {
                lemma_filter_members(before[i], past);
                assert(before[i].contains(d));
            }
        }
        if in_all(after, d) {
            assert forall|i: int| 0 <= i < before.len() implies (#[trigger] before[i]).contains(
                d,
            ) by {
                lemma_filter_members(before[i], past);
                assert(after[i].contains(d));
            }
            lemma_filter_members(before[0], past);
            assert(after[0].contains(d));
            assert(past(d));
        }
    }
    lemma_increasing_same_members(above(docs, doc as int), common(after));
}

/// Where no common document lies at or after `seed`, a skip to `seed` over
/// the common documents finds nothing.
pub proof fn lemma_common_none(lists: Seq<Seq<DocId>>, seed: DocId)
    requires
        lists.len() > 0,
        increasing(lists[0]),
        forall|d: DocId| in_all(lists, d) ==> d < seed,
    ensures
        skip_landing(common(lists), seed) is None,
        skip_rest(common(lists), seed) == Seq::<DocId>::empty(),
{
    let docs = common(lists);
    lemma_common_is_intersection(lists);
    assert forall|j: int| 0 <= j < docs.len() implies docs[j] < seed by {
        assert(docs.contains(docs[j]));
    }
    lemma_passed_over(docs, seed, docs.len() as int);
}

/// The common documents depend on which lists there are, not on their
/// order or on how often each occurs.
pub proof fn lemma_common_same_lists(a: Seq<Seq<DocId>>, b: Seq<Seq<DocId>>)
    requires
        a.len() > 0,
        b.len() > 0,
        forall|i: int| 0 <= i < a.len() ==> increasing(#[trigger] a[i]),
        forall|i: int| 0 <= i < a.len() ==> b.contains(#[trigger] a[i]),
        forall|j: int| 0 <= j < b.len() ==> a.contains(#[trigger] b[j]),
    ensures
        common(a) == common(b),
{
    assert(a.contains(b[0]));
    lemma_common_is_intersection(a);
    lemma_common_is_intersection(b);
    assert forall|d: DocId| in_all(a, d) <==> in_all(b, d) by {
        if in_all(a, d) {
            assert forall|j: int| 0 <= j < b.len() implies (#[trigger] b[j]).contains(d) by {
                assert(a.contains(b[j]));
                let i = choose|i: int| 0 <= i < a.len() && a[i] == b[j];
                assert(a[i].contains(d));
            }
        }
        if in_all(b, d) {
            assert forall|i: int| 0 <= i < a.len() implies (#[trigger] a[i]).contains(d) by {
                assert(b.contains(a[i]));
                let j = choose|j: int| 0 <= j < b.len() && b[j] == a[i];
                assert(b[j].contains(d));
            }
        }
    }
    lemma_increasing_same_members(common(a), common(b));
}

/// Where some of the lists have no document in common, all of them have
/// none.
pub proof fn lemma_common_empty(lists: Seq<Seq<DocId>>, members: Set<int>)
    requires
        forall|i: int| members.contains(i) ==> 0 <= i < lists.len(),
        forall|d: DocId| !#[trigger] in_members(lists, members, d),
    ensures
        common(lists).len() == 0,
{
    if lists.len() > 0 {
        let pred = |d: DocId| in_all(lists, d);
        lemma_filter_members(lists[0], pred);
        if common(lists).len() > 0 {
            let d = common(lists)[0];
            assert(common(lists).contains(d));
            assert(pred(d));
            assert(in_members(lists, members, d));
        }
    }
}

} // verus!
