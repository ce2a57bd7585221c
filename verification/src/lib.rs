//! Code folding for a text editor: which regions of a document can be folded, which of them
//! the user closed, and how those closed folds hide text and follow edits.
//!
//! * [`text`] models a document as a sequence of chars split into lines.
//! * [`fold`] computes fold spans and keeps the set of closed folds.
//! * [`search`] finds characters while skipping the text hidden by closed folds.
//! * [`changes`] describes edits and maps char positions through them.
pub mod changes;
pub mod fold;
pub mod search;
pub mod text;
