use docsets::docset::{DocId, DocSet, Postings, SkipResult};
use docsets::intersection::Intersection;
use docsets::vec_docset::VecDocSet;

fn drain<TDocSet: DocSet>(docset: &mut TDocSet) -> Vec<DocId> {
    let mut docs = Vec::new();
    while docset.advance() {
        docs.push(docset.doc());
    }
    docs
}

#[test]
fn test_vec_docset_advance() {
    let mut docset = VecDocSet::from(vec![1, 3, 9]);
    assert!(docset.advance());
    assert_eq!(docset.doc(), 1);
    assert!(docset.advance());
    assert_eq!(docset.doc(), 3);
    assert!(docset.advance());
    assert_eq!(docset.doc(), 9);
    assert!(!docset.advance());
    assert!(!docset.advance());
    assert!(!docset.advance());
}

#[test]
fn test_vec_docset_empty() {
    let mut docset = VecDocSet::from(vec![]);
    assert_eq!(docset.size_hint(), 0);
    assert!(!docset.advance());
    assert_eq!(docset.skip_next(0), SkipResult::End);
    assert!(!docset.advance());
}

#[test]
fn test_vec_docset_skip_next() {
    let mut docset = VecDocSet::from(vec![0, 1, 2, 4, 10]);
    assert_eq!(docset.skip_next(2), SkipResult::Reached);
    assert_eq!(docset.doc(), 2);
    assert_eq!(docset.skip_next(3), SkipResult::OverStep);
    assert_eq!(docset.doc(), 4);
    assert_eq!(docset.skip_next(10), SkipResult::Reached);
    assert_eq!(docset.doc(), 10);
    assert_eq!(docset.skip_next(11), SkipResult::End);
    assert_eq!(docset.skip_next(0), SkipResult::End);
    assert!(!docset.advance());
}

#[test]
fn test_vec_docset_skip_next_to_zero_from_start() {
    let mut docset = VecDocSet::from(vec![0, 5]);
    assert_eq!(docset.skip_next(0), SkipResult::Reached);
    assert_eq!(docset.doc(), 0);
    let mut docset = VecDocSet::from(vec![3, 5]);
    assert_eq!(docset.skip_next(0), SkipResult::OverStep);
    assert_eq!(docset.doc(), 3);
}

#[test]
fn test_vec_docset_skip_next_always_steps() {
    let mut docset = VecDocSet::from(vec![2, 5, 7]);
    assert!(docset.advance());
    assert_eq!(docset.doc(), 2);
    // The target is the current document: the cursor moves on all the same.
    assert_eq!(docset.skip_next(2), SkipResult::OverStep);
    assert_eq!(docset.doc(), 5);
    // The target lies behind the cursor.
    assert_eq!(docset.skip_next(0), SkipResult::OverStep);
    assert_eq!(docset.doc(), 7);
    assert_eq!(docset.skip_next(0), SkipResult::End);
}

#[test]
fn test_vec_docset_skip_then_advance() {
    let mut docset = VecDocSet::from(vec![1, 4, 5, 6]);
    assert_eq!(docset.skip_next(4), SkipResult::Reached);
    assert_eq!(drain(&mut docset), vec![5, 6]);
}

#[test]
fn test_vec_docset_size_hint_is_its_length() {
    let mut docset = VecDocSet::from(vec![1, 4, 5, 6]);
    assert_eq!(docset.size_hint(), 4);
    assert!(docset.advance());
    assert_eq!(docset.size_hint(), 4);
}

#[test]
fn test_vec_docset_term_freq_is_one() {
    let mut docset = VecDocSet::from(vec![1, 4]);
    assert!(docset.advance());
    assert_eq!(docset.term_freq(), 1);
    assert!(docset.advance());
    assert_eq!(docset.term_freq(), 1);
}

#[test]
fn test_vec_docset_into() {
    let mut docset: VecDocSet = vec![8, 9].into();
    assert_eq!(drain(&mut docset), vec![8, 9]);
}

#[test]
fn test_skip_result_equality() {
    assert_eq!(SkipResult::Reached, SkipResult::Reached);
    assert_ne!(SkipResult::Reached, SkipResult::OverStep);
    assert_ne!(SkipResult::OverStep, SkipResult::End);
    assert_eq!(format!("{:?}", SkipResult::End), "End");
}

#[test]
fn test_boxed_docset_forwards() {
    let mut boxed = Box::new(VecDocSet::from(vec![0, 1, 2, 4]));
    assert_eq!(boxed.size_hint(), 4);
    assert!(boxed.advance());
    assert_eq!(boxed.doc(), 0);
    assert_eq!(boxed.term_freq(), 1);
    assert_eq!(boxed.skip_next(3), SkipResult::OverStep);
    assert_eq!(boxed.doc(), 4);
    assert!(!boxed.advance());
}

#[test]
fn test_borrowed_docset_forwards() {
    let mut left = VecDocSet::from(vec![1, 3, 9]);
    let mut right = VecDocSet::from(vec![3, 4, 9, 18]);
    {
        let mut intersection = Intersection::from(vec![&mut left, &mut right]);
        assert_eq!(intersection.size_hint(), 3);
        assert!(intersection.advance());
        assert_eq!(intersection.doc(), 3);
        assert_eq!(intersection.docsets()[0].term_freq(), 1);
    }
    // The borrowed sets were moved, not copies of them.
    assert_eq!(left.doc(), 3);
    assert_eq!(right.doc(), 3);
    assert_eq!(drain(&mut left), vec![9]);
    assert_eq!(drain(&mut right), vec![4, 9, 18]);
}

#[test]
fn test_boxed_intersection() {
    let docsets = vec![
        Box::new(VecDocSet::from(vec![1, 3, 9])),
        Box::new(VecDocSet::from(vec![3, 4, 9, 18])),
    ];
    let mut intersection = Box::new(Intersection::from(docsets));
    assert_eq!(intersection.skip_next(4), SkipResult::OverStep);
    assert_eq!(intersection.doc(), 9);
    assert!(!intersection.advance());
}
