//! What inspecting a PDF reveals about its structure.

use vstd::prelude::*;
use crate::append::patches::GapPatch;
use crate::types::{Error, PdfRange, PdfRef};

verus! {

/// One entry of the catalog dictionary.
#[derive(Debug)]
pub struct CatalogEntry {
    pub name: Vec<u8>,
    /// The name and the value as they stand in the source.
    pub raw_pair: Vec<u8>,
}

/// An object that is rewritten to repair the document.
#[derive(Debug)]
pub struct RepairObject {
    pub reference: PdfRef,
    pub body: Vec<u8>,
}

/// The validated structure of one PDF in a larger input.
#[derive(Debug)]
pub struct PdfIndex {
    /// The bytes of the input that hold the PDF.
    pub range: PdfRange,
    /// How many of them are copied; an opaque tail is not.
    pub logical_end: u64,
    pub catalog: PdfRef,
    pub catalog_entries: Vec<CatalogEntry>,
    pub pages: Vec<PdfRef>,
    pub has_outlines: bool,
    /// The first number that no object has, or why there is none.
    pub next_free_object_number: Result<u32, Error>,
    pub repair_objects: Vec<RepairObject>,
    pub stream_separator_patches: Vec<u64>,
    pub gap_patches: Vec<GapPatch>,
    pub xref_offset: u64,
    pub trailer_size: u32,
    pub trailer_info: Option<PdfRef>,
    pub trailer_id: Option<Vec<u8>>,
}

impl PdfIndex {
    /// The raw ID of the trailer.
    pub open spec fn id_view(self) -> Option<Seq<u8>> {
        match self.trailer_id {
            Some(id) => Some(id@),
            None => None,
        }
    }
}

} // verus!
