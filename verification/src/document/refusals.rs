//! When a document refuses what it is asked to hold.

use vstd::prelude::*;
use vstd::layout::size_of;
use crate::document::image::{range_failure, ImageEncoding, ImageSpec};
use crate::document::image_words::law_image_bytes_are_counted;
use crate::document::pages::PdfDocument;
use crate::document::texts::{PageSpec, MAX_PAGE_MICROPOINTS, MIN_PAGE_MICROPOINTS};
use crate::fallible::{element_bytes, growth_failure};
use crate::fragment::texts::header_text;
use crate::outline::{depths, lemma_levels_held, title_bytes, OpenOutline};
use crate::reading::lemma_ascii;
use crate::types::{Bookmark, Error, Limits};
use crate::writer::ObjectId;

verus! {

/// A list may hold one more item exactly where the number of its items and the
/// bytes that they take stay within their limits.
pub proof fn law_lists_grow_unless_for_cause<T>(
    len: nat,
    maximum: u64,
    limits: Limits,
    resource: &'static str,
)
    ensures
        growth_failure::<T>(len, maximum, limits, resource) is None <==> {
            &&& len + 1 <= usize::MAX
            &&& len + 1 <= maximum
            &&& (len + 1) * element_bytes::<T>() <= limits.max_allocation_bytes
        },
{
}

/// The bytes of an image are accepted exactly where they lie in a source that may
/// be read, and a PDF integer and the count of the input can count them.
pub proof fn law_ranges_are_refused_for_cause(
    limits: Limits,
    input_bytes_read: u64,
    source_size: u64,
    offset: u64,
    length: u64,
)
    ensures
        range_failure(limits, input_bytes_read, source_size, offset, length) is None <==> {
            &&& source_size <= limits.max_input_bytes
            &&& length <= 2_147_483_647
            &&& offset + length <= source_size
            &&& input_bytes_read + length <= u64::MAX
        },
{
}

/// Whether a document may have one more page.
pub open spec fn may_add_page(document: PdfDocument) -> bool {
    let pages = document.page_ids@.len() + 1;
    &&& pages <= document.limits.max_pages
    &&& pages <= 16_777_216
    &&& pages <= usize::MAX
    &&& pages * element_bytes::<ObjectId>() <= document.limits.max_allocation_bytes
}

/// Whether a page may have a size: up to 14400 points, in millionths.
pub open spec fn may_have_size(page: PageSpec) -> bool {
    &&& 1 <= page.width_micropoints <= 14_400_000_000
    &&& 1 <= page.height_micropoints <= 14_400_000_000
}

/// A page is accepted exactly where it shows an image, has a size that a page may
/// have, and neither the pages nor their index pass the limits.
pub proof fn law_pages_are_refused_for_cause(document: PdfDocument, page: PageSpec, images: nat)
    requires
        document.well_formed(),
    ensures
        document.page_refusal(page, images) is None <==> images > 0 && may_have_size(page)
            && may_add_page(document),
{
    assert(MIN_PAGE_MICROPOINTS == 1 && MAX_PAGE_MICROPOINTS == 14_400_000_000);
}

/// A page with one image is accepted exactly where the page is, the image has the
/// bytes that its sizes ask for, and they lie in their source.
pub proof fn law_image_pages_are_refused_for_cause(
    document: PdfDocument,
    source_size: u64,
    offset: u64,
    length: u64,
    page: PageSpec,
    image: ImageSpec,
)
    requires
        document.well_formed(),
    ensures
        document.image_page_refusal(source_size, offset, length, page, image) is None <==> {
            let pixels = image.pixel_width * image.pixel_height;
            &&& may_have_size(page)
            &&& may_add_page(document)
            &&& 0 < image.pixel_width <= 2_147_483_647
            &&& 0 < image.pixel_height <= 2_147_483_647
            &&& match image.encoding {
                ImageEncoding::Gray8 => length == pixels,
                ImageEncoding::Rgb8 => length == 3 * pixels,
                ImageEncoding::JpegGray8 | ImageEncoding::JpegRgb8 => length > 0,
            }
            &&& source_size <= document.limits.max_input_bytes
            &&& length <= 2_147_483_647
            &&& offset + length <= source_size
            &&& document.input_bytes_read + length <= u64::MAX
        },
{
    law_image_bytes_are_counted(image, length);
    law_pages_are_refused_for_cause(document, page, 1);
}

/// A bookmark is accepted exactly where its page has been written, its depth is at
/// most one below the last entry's, and neither the bookmarks nor the memory pass
/// the limits.
pub proof fn law_bookmarks_are_refused_for_cause(
    document: PdfDocument,
    bookmark: Bookmark,
    title_capacity: u64,
)
    requires
        document.well_formed(),
        !document.outline_failed,
    ensures
        ({
            let entries = document.outline.entries@;
            let deepest: int = if entries.len() == 0 {
                0
            } else {
                entries.last().depth as int + 1
            };
            let most = document.limits.max_allocation_bytes;
            let held = title_bytes(document.outline.open@, bookmark.depth as int) + title_capacity
                + (bookmark.depth + 1) * size_of::<OpenOutline>();
            document.bookmark_refusal(bookmark, title_capacity) is None <==> {
                &&& bookmark.page_index < document.page_ids@.len()
                &&& entries.len() + 1 <= document.limits.max_bookmarks
                &&& bookmark.depth <= deepest
                &&& held <= most
                &&& bookmark.depth == deepest ==> {
                    &&& deepest + 1 <= usize::MAX
                    &&& deepest + 1 <= document.limits.max_bookmarks
                    &&& (deepest + 1) * element_bytes::<OpenOutline>() <= most
                }
            }
        }),
{
    lemma_levels_held(document.outline);
    let order = depths(document.outline.entries@);
    if order.len() > 0 {
        assert(order.last() == document.outline.entries@.last().depth);
    }
    if bookmark.depth <= document.outline.open@.len() {
        lemma_titles_held(document.outline.open@, bookmark.depth as int);
        assert(0 <= (bookmark.depth + 1) * size_of::<OpenOutline>()) by (nonlinear_arith);
    }
}

/// Titles take no less than nothing.
proof fn lemma_titles_held(open: Seq<OpenOutline>, levels: int)
    requires
        levels <= open.len(),
    ensures
        title_bytes(open, levels) >= 0,
    decreases levels,
{
    if levels > 0 {
        lemma_titles_held(open, levels - 1);
    }
}

/// A document is finished, as far as its content decides, exactly where it has a
/// page and no bookmark was left half written, and it is begun exactly where its
/// limits allow a chunk and its first line.
pub proof fn law_documents_begin_and_end_unless_for_cause(document: PdfDocument, limits: Limits)
    ensures
        document.finish_refusal() is None <==> document.pages_written > 0
            && !document.outline_failed,
        PdfDocument::start_failure(limits) is None <==> 0 < limits.io_chunk_bytes
            && limits.io_chunk_bytes <= limits.max_allocation_bytes && 15
            <= limits.max_output_bytes,
{
    reveal_strlit("%PDF-1.7\n%");
    assert(vstd::string::is_ascii("%PDF-1.7\n%"));
    lemma_ascii("%PDF-1.7\n%");
    assert(header_text().len() == 15);
}

/// A refused range says what is wrong with it: a source that may not be read, a
/// length that no PDF integer holds, or bytes that the source does not have.
pub proof fn law_refused_ranges_say_why(
    limits: Limits,
    input_bytes_read: u64,
    source_size: u64,
    offset: u64,
    length: u64,
)
    ensures
        ({
            let refusal = range_failure(limits, input_bytes_read, source_size, offset, length);
            let readable = source_size <= limits.max_input_bytes;
            let sized = length <= 2_147_483_647;
            &&& !readable ==> refusal == Some(
                Error::LimitExceeded {
                    resource: "input bytes",
                    limit: limits.max_input_bytes,
                    attempted: source_size,
                },
            )
            &&& readable && !sized ==> refusal == Some(
                Error::LimitExceeded {
                    resource: "PDF image stream bytes",
                    limit: 2_147_483_647,
                    attempted: length,
                },
            )
            &&& readable && sized && offset > source_size ==> refusal == Some(
                Error::InvalidInput { reason: "image range starts beyond source size" },
            )
            &&& readable && sized && offset <= source_size < offset + length ==> refusal == Some(
                Error::TruncatedInput {
                    offset,
                    expected: length,
                    available: (source_size - offset) as u64,
                },
            )
        }),
{
}

/// A refused page says why: it shows nothing, has no size that a page may have, or
/// is one too many.
pub proof fn law_refused_pages_say_why(document: PdfDocument, page: PageSpec, images: nat)
    requires
        document.well_formed(),
    ensures
        ({
            let refusal = document.page_refusal(page, images);
            let pages = document.page_ids@.len() + 1;
            &&& images == 0 ==> refusal == Some(
                Error::InvalidInput { reason: "PDF page requires at least one image" },
            )
            &&& images > 0 && !may_have_size(page) ==> refusal == Some(
                Error::InvalidInput {
                    reason: "page dimension must be finite and within 0.000001..=14400 points",
                },
            )
            &&& images > 0 && may_have_size(page) && pages > document.limits.max_pages ==> refusal
                == Some(
                Error::LimitExceeded {
                    resource: "pages",
                    limit: document.limits.max_pages as u64,
                    attempted: pages as u64,
                },
            )
        }),
{
    assert(MIN_PAGE_MICROPOINTS == 1 && MAX_PAGE_MICROPOINTS == 14_400_000_000);
}

/// A refused bookmark says why: an earlier one was left half written, its page has
/// not been written, it is one too many, or it skips a level.
pub proof fn law_refused_bookmarks_say_why(
    document: PdfDocument,
    bookmark: Bookmark,
    title_capacity: u64,
)
    requires
        document.well_formed(),
    ensures
        ({
            let refusal = document.bookmark_refusal(bookmark, title_capacity);
            let entries = document.outline.entries@;
            let written = bookmark.page_index < document.page_ids@.len();
            let allowed = entries.len() + 1 <= document.limits.max_bookmarks;
            let deepest: int = if entries.len() == 0 {
                0
            } else {
                entries.last().depth as int + 1
            };
            &&& document.outline_failed ==> refusal == Some(
                Error::InvalidInput {
                    reason: "PDF outline cannot continue after a failed bookmark operation",
                },
            )
            &&& !document.outline_failed && !written ==> refusal == Some(
                Error::InvalidInput { reason: "bookmark destination page has not been emitted" },
            )
            &&& !document.outline_failed && written && entries.len() < u32::MAX && !allowed
                ==> refusal == Some(
                Error::LimitExceeded {
                    resource: "bookmarks",
                    limit: document.limits.max_bookmarks as u64,
                    attempted: (entries.len() + 1) as u64,
                },
            )
            &&& !document.outline_failed && written && allowed && bookmark.depth > deepest
                ==> refusal == Some(
                Error::InvalidInput { reason: "bookmark depth skips a parent" },
            )
        }),
{
    if !document.outline_failed {
        lemma_levels_held(document.outline);
        let order = depths(document.outline.entries@);
        if order.len() > 0 {
            assert(order.last() == document.outline.entries@.last().depth);
        }
    }
}

} // verus!
