//! Verified core of a library organizer for FL Studio project files.
//!
//! The crate decodes the `.flp` chunk-and-event container into metadata,
//! keeps a content-addressed index of scanned files, and proposes clusters
//! of files that likely are revisions of the same song.  All quantities that
//! the similarity pipeline works with are exact integers: tempos are kept in
//! milli-BPM and confidences in thousandths, so every rule is provable.

pub mod matcher;
pub mod normalize;
pub mod outside;
pub mod parser;
pub mod scan;
pub mod score;
pub mod store;
pub mod text;
pub mod union_find;
