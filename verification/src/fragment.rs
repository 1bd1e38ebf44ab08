//! Bounded reconstruction of indexed PDF object fragments.
//!
//! A format handler supplies the exact source span of every indirect object
//! and the intended page order. Page order is never inferred from object
//! numbers, and stream payloads are never searched for PDF delimiters.

pub mod record;
pub mod inspection;
pub mod index;
pub mod contents;
pub mod page_tree;
pub mod accepted;
pub mod refusals;
pub mod evidence;
pub mod structure;
pub mod texts;
pub mod layout;
pub mod output;
pub mod emit;
pub mod outline;
pub mod written;
pub mod file_words;
