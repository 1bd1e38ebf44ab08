//! Bounded PDF assembly: new documents, append-only outline updates, and
//! reconstruction of indexed object fragments.
//!
//! The library decides and computes; it performs no input or output. A caller
//! reads the ranges it is asked for, hands the bytes or their inspection back,
//! and sends the bytes it is handed to a sink, in order.

pub mod types;
pub mod counting;
pub mod fallible;
pub mod pieces;
pub mod reading;
pub mod sorting;
pub mod text;
pub mod outline_order;
pub mod fragment;
pub mod append;
pub mod outline;
pub mod outline_words;
pub mod writer;
pub mod writer_words;
pub mod document;
