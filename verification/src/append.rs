//! Bounded pass-through and append-only outline updates for inspected PDFs.
//!
//! Page contents are never reserialized. An inspected PDF's prefix is copied,
//! and only changed dictionaries, new outline items, a sparse xref, and a new
//! trailer are appended.

pub mod patches;
pub mod trailer_id;
pub mod hash_changes;
pub mod id_words;
pub mod index;
pub mod writer;
pub mod update;
pub mod update_words;
pub mod prefix;
pub mod corrections;
pub mod appender;
pub mod catalog_words;
pub mod refusals;
