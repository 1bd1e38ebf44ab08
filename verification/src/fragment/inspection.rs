//! What inspecting one indirect object reveals.

use vstd::prelude::*;
use crate::types::PdfRef;

verus! {

/// The role an object plays in the page tree.
#[derive(Debug)]
#[allow(inconsistent_fields)]
pub enum FragmentKind {
    Page { parent: PdfRef, has_media_box: bool },
    Pages { parent: Option<PdfRef>, count: u32, kids: Vec<PdfRef>, has_media_box: bool },
    Catalog { pages: PdfRef },
    Other,
}

/// The facts about one indirect object that reconstruction depends on.
#[derive(Debug)]
pub struct FragmentInspection {
    pub reference: PdfRef,
    pub max_referenced_object: u32,
    /// Every indirect reference in the object, in source order.
    pub references: Vec<PdfRef>,
    /// The page an outline item names.
    pub destination: Option<PdfRef>,
    pub kind: FragmentKind,
    /// The references of a Page's `/Contents`.
    pub contents: Option<Vec<PdfRef>>,
    pub contents_is_direct_array: bool,
    /// The references of an object that is an array of references.
    pub scalar_reference_array: Option<Vec<PdfRef>>,
    pub is_stream: bool,
}

} // verus!
