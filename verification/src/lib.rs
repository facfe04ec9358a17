//! Text segmentation and chunk dispatch for relaying oversized documents.
//!
//! The segmenter splits one document into a target number of chunks,
//! preferring to cut at line breaks, then at `.`, then at `?`, and never
//! dropping trailing content.  The dispatch policy decides whether a
//! document needs segmenting at all, with what chunk count, and how the
//! per-chunk replies are assembled into an ordered output record.

pub mod policy;
pub mod segmenter;
pub mod split;
