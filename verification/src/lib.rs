//! Boolean-AND evaluation over postings lists.
//!
//! A [`DocSet`] is a forward-only cursor over an increasing sequence of
//! document ids. An [`Intersection`] composes two or more of them into the
//! cursor over the documents that all of them hold, and is a `DocSet`
//! itself. A [`TermScorer`] decorates the postings of one term with what is
//! needed to score its documents.

pub mod docset;
pub mod fastfield;
pub mod intersection;
pub mod ordered;
pub mod term_scorer;
pub mod vec_docset;

pub use crate::docset::{DocId, DocSet, Postings, SkipResult};
pub use crate::fastfield::FastFieldReader;
pub use crate::intersection::Intersection;
pub use crate::term_scorer::TermScorer;
pub use crate::vec_docset::VecDocSet;
