//! Bounded page and outline assembly over the forward-only PDF writer.

pub mod image;
pub mod texts;
pub mod image_words;
pub mod page_words;
pub mod finish_words;
pub mod refusals;
pub mod pages;
pub mod emit;
pub mod building;
pub mod image_page;
pub mod bilevel;
pub mod bookmarks;
pub mod finish;
