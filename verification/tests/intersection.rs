use docsets::docset::{DocId, DocSet, SkipResult};
use docsets::intersection::Intersection;
use docsets::vec_docset::VecDocSet;

/// Skips by stepping: the behaviour every `skip_next` has to match.
fn unoptimized_skip_next<TDocSet: DocSet>(docset: &mut TDocSet, target: DocId) -> SkipResult {
    if !docset.advance() {
        return SkipResult::End;
    }
    loop {
        let doc = docset.doc();
        if doc < target {
            if !docset.advance() {
                return SkipResult::End;
            }
        } else if doc == target {
            return SkipResult::Reached;
        } else {
            return SkipResult::OverStep;
        }
    }
}

fn test_skip_against_unoptimized<TDocSet: DocSet, F: Fn() -> TDocSet>(
    postings_factory: F,
    targets: Vec<u32>,
) {
    for target in targets {
        let mut postings_opt = postings_factory();
        let mut postings_unopt = postings_factory();
        let skip_result_opt = postings_opt.skip_next(target);
        let skip_result_unopt = unoptimized_skip_next(&mut postings_unopt, target);
        assert_eq!(
            skip_result_unopt, skip_result_opt,
            "Failed while skipping to {}",
            target
        );
        match skip_result_opt {
            SkipResult::Reached => assert_eq!(postings_opt.doc(), target),
            SkipResult::OverStep => assert!(postings_opt.doc() > target),
            SkipResult::End => {
                assert!(!postings_opt.advance());
                assert!(!postings_unopt.advance());
                continue;
            }
        }
        while postings_opt.advance() {
            assert!(postings_unopt.advance());
            assert_eq!(
                postings_opt.doc(),
                postings_unopt.doc(),
                "Failed while skipping to {}",
                target
            );
        }
        assert!(!postings_unopt.advance());
    }
}

fn collect<TDocSet: DocSet>(docset: &mut TDocSet) -> Vec<DocId> {
    let mut docs = Vec::new();
    while docset.advance() {
        docs.push(docset.doc());
    }
    docs
}

fn intersect_naively(lists: &[Vec<DocId>]) -> Vec<DocId> {
    let mut docs = Vec::new();
    for &doc in lists[0].iter() {
        if lists.iter().all(|list| list.contains(&doc)) {
            docs.push(doc);
        }
    }
    docs
}

fn intersection_of(lists: &[Vec<DocId>]) -> Intersection<VecDocSet> {
    let docsets: Vec<VecDocSet> = lists.iter().map(|list| VecDocSet::from(list.clone())).collect();
    Intersection::from(docsets)
}

#[test]
fn test_intersection() {
    {
        let left = VecDocSet::from(vec![1, 3, 9]);
        let right = VecDocSet::from(vec![3, 4, 9, 18]);
        let mut intersection = Intersection::from(vec![left, right]);
        assert!(intersection.advance());
        assert_eq!(intersection.doc(), 3);
        assert!(intersection.advance());
        assert_eq!(intersection.doc(), 9);
        assert!(!intersection.advance());
    }
    {
        let a = VecDocSet::from(vec![1, 3, 9]);
        let b = VecDocSet::from(vec![3, 4, 9, 18]);
        let c = VecDocSet::from(vec![1, 5, 9, 111]);
        let mut intersection = Intersection::from(vec![a, b, c]);
        assert!(intersection.advance());
        assert_eq!(intersection.doc(), 9);
        assert!(!intersection.advance());
    }
}

#[test]
fn test_intersection_zero() {
    let left = VecDocSet::from(vec![0]);
    let right = VecDocSet::from(vec![0]);
    let mut intersection = Intersection::from(vec![left, right]);
    assert!(intersection.advance());
    assert_eq!(intersection.doc(), 0);
}

#[test]
fn test_intersection_skip() {
    let left = VecDocSet::from(vec![0, 1, 2, 4]);
    let right = VecDocSet::from(vec![2, 5]);
    let mut intersection = Intersection::from(vec![left, right]);
    assert_eq!(intersection.skip_next(2), SkipResult::Reached);
    assert_eq!(intersection.doc(), 2);
}

#[test]
fn test_intersection_skip_against_unoptimized() {
    test_skip_against_unoptimized(
        || {
            let left = VecDocSet::from(vec![4]);
            let right = VecDocSet::from(vec![2, 5]);
            Box::new(Intersection::from(vec![left, right]))
        },
        vec![0, 2, 4, 5, 6],
    );
    test_skip_against_unoptimized(
        || {
            let mut left = VecDocSet::from(vec![1, 4, 5, 6]);
            let mut right = VecDocSet::from(vec![2, 5, 10]);
            left.advance();
            right.advance();
            Box::new(Intersection::from(vec![left, right]))
        },
        vec![0, 1, 2, 3, 4, 5, 6, 7, 10, 11],
    );
    test_skip_against_unoptimized(
        || {
            Box::new(Intersection::from(vec![
                VecDocSet::from(vec![1, 4, 5, 6]),
                VecDocSet::from(vec![1, 2, 5, 6]),
                VecDocSet::from(vec![1, 4, 5, 6]),
                VecDocSet::from(vec![1, 5, 6]),
                VecDocSet::from(vec![2, 4, 5, 7, 8]),
            ]))
        },
        vec![0, 1, 2, 3, 4, 5, 6, 7, 10, 11],
    );
}

#[test]
fn test_intersection_empty() {
    let a = VecDocSet::from(vec![1, 3]);
    let b = VecDocSet::from(vec![1, 4]);
    let c = VecDocSet::from(vec![3, 9]);
    let mut intersection = Intersection::from(vec![a, b, c]);
    assert!(!intersection.advance());
}

#[test]
fn test_intersection_is_sorted_set_intersection() {
    let lists = vec![
        vec![1, 2, 3, 5, 8, 13, 21, 34],
        vec![0, 2, 3, 4, 8, 9, 21, 22, 34, 35],
    ];
    let mut intersection = intersection_of(&lists);
    let docs = collect(&mut intersection);
    assert_eq!(docs, vec![2, 3, 8, 21, 34]);
    assert_eq!(docs, intersect_naively(&lists));
    for doc in docs.iter() {
        assert!(lists[0].contains(doc));
        assert!(lists[1].contains(doc));
    }
}

#[test]
fn test_intersection_yields_strictly_increasing_docs() {
    let lists = vec![
        vec![0, 1, 2, 3, 4, 5, 6, 7, 8, 9, 10],
        vec![0, 2, 4, 6, 8, 10],
        vec![0, 4, 8, 10, 12],
    ];
    let mut intersection = intersection_of(&lists);
    let docs = collect(&mut intersection);
    assert_eq!(docs, vec![0, 4, 8, 10]);
    for pair in docs.windows(2) {
        assert!(pair[0] < pair[1]);
    }
}

#[test]
fn test_intersection_empty_pair_among_many() {
    // The first two children share nothing, whatever the third holds.
    let lists = vec![vec![1, 3, 5, 7], vec![2, 4, 6, 8], vec![1, 2, 3, 4, 5, 6, 7, 8]];
    let mut intersection = intersection_of(&lists);
    assert!(!intersection.advance());
    let mut intersection = intersection_of(&lists);
    assert_eq!(intersection.skip_next(0), SkipResult::End);
}

#[test]
fn test_intersection_with_empty_child() {
    let lists = vec![vec![1, 2, 3], vec![]];
    let mut intersection = intersection_of(&lists);
    assert!(!intersection.advance());
    assert!(!intersection.advance());
}

#[test]
fn test_intersection_skip_reached_and_overstep() {
    let lists = vec![vec![1, 4, 5, 6, 20], vec![1, 2, 5, 6, 20, 30]];
    let common = intersect_naively(&lists);
    assert_eq!(common, vec![1, 5, 6, 20]);
    for target in 0..25u32 {
        let mut intersection = intersection_of(&lists);
        let first_at_or_after = common.iter().cloned().find(|&doc| doc >= target);
        match intersection.skip_next(target) {
            SkipResult::Reached => {
                assert_eq!(intersection.doc(), target);
                assert_eq!(first_at_or_after, Some(target));
            }
            SkipResult::OverStep => {
                let doc = intersection.doc();
                assert!(doc > target);
                assert_eq!(first_at_or_after, Some(doc));
                for between in target..doc {
                    assert!(!common.contains(&between));
                }
            }
            SkipResult::End => {
                assert_eq!(first_at_or_after, None);
            }
        }
    }
}

#[test]
fn test_intersection_skip_then_advance() {
    let lists = vec![vec![1, 4, 5, 6, 20], vec![1, 2, 5, 6, 20, 30]];
    let mut intersection = intersection_of(&lists);
    assert_eq!(intersection.skip_next(3), SkipResult::OverStep);
    assert_eq!(intersection.doc(), 5);
    assert!(intersection.advance());
    assert_eq!(intersection.doc(), 6);
    assert_eq!(intersection.skip_next(20), SkipResult::Reached);
    assert_eq!(intersection.doc(), 20);
    assert_eq!(intersection.skip_next(21), SkipResult::End);
}

#[test]
fn test_intersection_skip_moves_past_current_doc() {
    // A skip always moves forward, also when the target is the document
    // that the cursor is parked on.
    let lists = vec![vec![2, 5, 7], vec![2, 5, 7, 9]];
    let mut intersection = intersection_of(&lists);
    assert_eq!(intersection.skip_next(2), SkipResult::Reached);
    assert_eq!(intersection.skip_next(2), SkipResult::OverStep);
    assert_eq!(intersection.doc(), 5);
}

#[test]
fn test_intersection_advance_after_exhaustion() {
    let lists = vec![vec![1, 3, 9], vec![3, 4, 9, 18]];
    let mut intersection = intersection_of(&lists);
    assert_eq!(collect(&mut intersection), vec![3, 9]);
    for _ in 0..5 {
        assert!(!intersection.advance());
        assert_eq!(intersection.doc(), 9);
    }
    assert_eq!(intersection.skip_next(0), SkipResult::End);
    assert_eq!(intersection.skip_next(100), SkipResult::End);
    assert_eq!(intersection.doc(), 9);
    assert!(!intersection.advance());
}

#[test]
fn test_intersection_leaves_children_alone_once_finished() {
    let lists = vec![vec![1, 2], vec![2, 3, 4, 5]];
    let mut intersection = intersection_of(&lists);
    assert_eq!(collect(&mut intersection), vec![2]);
    // The longer child stopped where the shorter one ran out.
    let positions: Vec<DocId> = intersection.docsets().iter().map(|docset| docset.doc()).collect();
    assert!(!intersection.advance());
    assert_eq!(intersection.skip_next(4), SkipResult::End);
    let positions_after: Vec<DocId> =
        intersection.docsets().iter().map(|docset| docset.doc()).collect();
    assert_eq!(positions, positions_after);
}

#[test]
fn test_intersection_does_not_depend_on_child_order() {
    let a = vec![1, 4, 5, 6, 9, 12];
    let b = vec![1, 2, 5, 6, 12];
    let c = vec![0, 1, 5, 7, 12, 13, 14];
    let orders = vec![
        vec![a.clone(), b.clone(), c.clone()],
        vec![a.clone(), c.clone(), b.clone()],
        vec![b.clone(), a.clone(), c.clone()],
        vec![b.clone(), c.clone(), a.clone()],
        vec![c.clone(), a.clone(), b.clone()],
        vec![c.clone(), b.clone(), a.clone()],
    ];
    for lists in orders.iter() {
        let mut intersection = intersection_of(lists);
        assert_eq!(collect(&mut intersection), vec![1, 5, 12]);
        for target in 0..15u32 {
            let mut skipped = intersection_of(lists);
            let mut reference = intersection_of(&orders[0]);
            assert_eq!(skipped.skip_next(target), reference.skip_next(target));
            assert_eq!(collect(&mut skipped), collect(&mut reference));
        }
    }
}

#[test]
fn test_intersection_orders_children_by_size_hint() {
    let intersection = intersection_of(&vec![
        vec![1, 2, 3, 4, 5],
        vec![1, 2],
        vec![1, 2, 3],
        vec![1],
    ]);
    let hints: Vec<u32> = intersection.docsets().iter().map(|docset| docset.size_hint()).collect();
    assert_eq!(hints, vec![1, 2, 3, 5]);
}

#[test]
fn test_intersection_keeps_order_of_children_with_equal_hints() {
    let lists = vec![vec![7, 8, 9], vec![5, 9, 11], vec![9], vec![3, 9, 20]];
    let mut children: Vec<VecDocSet> =
        lists.iter().map(|list| VecDocSet::from(list.clone())).collect();
    // Parked on its first document, each child can be told from the others.
    for child in children.iter_mut() {
        assert!(child.advance());
    }
    let intersection = Intersection::from(children);
    let docs: Vec<DocId> = intersection.docsets().iter().map(|docset| docset.doc()).collect();
    assert_eq!(docs, vec![9, 7, 5, 3]);
}

#[test]
fn test_intersection_size_hint_is_smallest_child_hint() {
    let intersection = intersection_of(&vec![vec![1, 2, 3, 4, 5], vec![1, 2], vec![1, 2, 3]]);
    assert_eq!(intersection.size_hint(), 2);
    let intersection = intersection_of(&vec![vec![1, 2, 3], vec![]]);
    assert_eq!(intersection.size_hint(), 0);
}

#[test]
fn test_intersection_children_are_parked_on_its_doc() {
    let mut intersection = intersection_of(&vec![vec![1, 3, 9], vec![3, 4, 9, 18], vec![3, 9]]);
    while intersection.advance() {
        let doc = intersection.doc();
        assert_eq!(intersection.docsets().len(), 3);
        for docset in intersection.docsets() {
            assert_eq!(docset.doc(), doc);
        }
    }
}

#[test]
fn test_intersection_of_intersections() {
    let inner_left = intersection_of(&vec![vec![1, 2, 3, 4, 5, 6], vec![2, 4, 6, 8]]);
    let inner_right = intersection_of(&vec![vec![0, 4, 6, 9], vec![4, 5, 6, 7]]);
    let mut outer = Intersection::from(vec![inner_left, inner_right]);
    assert_eq!(collect(&mut outer), vec![4, 6]);
}

#[test]
fn test_intersection_at_largest_doc() {
    let max = u32::MAX;
    let lists = vec![vec![0, max], vec![max]];
    let mut intersection = intersection_of(&lists);
    assert_eq!(intersection.skip_next(max), SkipResult::Reached);
    assert_eq!(intersection.doc(), max);
    assert!(!intersection.advance());
}
