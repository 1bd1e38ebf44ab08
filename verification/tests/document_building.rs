//! Building documents page by page, driven with in-memory sources and sinks.

use std::cell::Cell;

use caj2pdf_core::document::image::{BilevelImageSpec, ImageEncoding, ImageObject, ImageSpec};
use caj2pdf_core::document::pages::{PdfDocument, MAX_TREE_PAGES, PAGE_TREE_FANOUT};
use caj2pdf_core::document::texts::PageSpec;
use caj2pdf_core::fallible::reserve_bounded;
use caj2pdf_core::types::{
    Bookmark, ConversionReport, Error, Limits, MAX_CLASSIC_PDF_BYTES, MAX_PDF_INTEGER,
};

/// Cancels once it has been asked `allowed` times.
struct CancelAfter {
    allowed: u64,
    asked: Cell<u64>,
}

impl CancelAfter {
    fn new(allowed: u64) -> Self {
        Self {
            allowed,
            asked: Cell::new(0),
        }
    }

    fn never() -> Self {
        Self::new(u64::MAX)
    }

    fn is_cancelled(&self) -> bool {
        let asked = self.asked.get();
        self.asked.set(asked + 1);
        asked >= self.allowed
    }

    fn check(&self) -> Result<(), Failure> {
        if self.is_cancelled() {
            return Err(Failure::Library(Error::Cancelled));
        }
        Ok(())
    }
}

/// What stops a document: the library, or the sink.
#[derive(Debug)]
enum Failure {
    Library(Error),
    Io(&'static str),
}

impl From<Error> for Failure {
    fn from(error: Error) -> Self {
        Self::Library(error)
    }
}

/// A source whose bytes are all `0x5A`, optionally claiming to have read
/// one byte more than the caller requested.
struct FilledSource {
    size: u64,
    over_report: bool,
}

impl FilledSource {
    fn new(size: u64) -> Self {
        Self {
            size,
            over_report: false,
        }
    }

    fn read_at(&mut self, offset: u64, destination: &mut [u8]) -> usize {
        let available = self.size.saturating_sub(offset);
        let copied = destination.len().min(available as usize);
        destination[..copied].fill(0x5a);
        copied + usize::from(self.over_report)
    }
}

trait SequentialSink {
    fn write(&mut self, bytes: &[u8]) -> Result<usize, Failure>;
}

/// Takes at most 64 bytes at a time.
#[derive(Default)]
struct VecSink {
    bytes: Vec<u8>,
    writes: usize,
    fail_at_write: Option<usize>,
}

impl SequentialSink for VecSink {
    fn write(&mut self, bytes: &[u8]) -> Result<usize, Failure> {
        self.writes += 1;
        if self.fail_at_write == Some(self.writes) {
            return Err(Failure::Io("injected sink failure"));
        }
        let count = bytes.len().min(64);
        self.bytes.extend_from_slice(&bytes[..count]);
        Ok(count)
    }
}

/// Hand what a document has queued to a sink, in the pieces that it takes.
fn drain<W: SequentialSink>(
    document: &mut PdfDocument,
    sink: &mut W,
    cancellation: &CancelAfter,
) -> Result<(), Failure> {
    let pending = document.writer.take_output();
    let mut done = 0;
    while done < pending.len() {
        cancellation.check()?;
        match sink.write(&pending[done..]) {
            Ok(count) => done += count,
            Err(failure) => {
                document.writer.fail();
                return Err(failure);
            }
        }
    }
    Ok(())
}

fn begin<W: SequentialSink>(
    sink: &mut W,
    limits: &Limits,
    cancellation: &CancelAfter,
) -> Result<PdfDocument, Failure> {
    let mut document = PdfDocument::new(limits)?;
    drain(&mut document, sink, cancellation)?;
    Ok(document)
}

/// Add a page that one image of a source fills.
fn add_image_page<W: SequentialSink>(
    document: &mut PdfDocument,
    sink: &mut W,
    source: &mut FilledSource,
    length: u64,
    image: ImageSpec,
    cancellation: &CancelAfter,
) -> Result<u32, Failure> {
    let mut buffer = Vec::new();
    let begun = document.add_image_page(source.size, 0, length, page(), image, &mut buffer);
    drain(document, sink, cancellation)?;
    let mut open = begun?;
    while let Some((offset, count)) = open.next_chunk(buffer.len()) {
        let mut done = 0;
        while done < count {
            cancellation.check()?;
            let read = source.read_at(offset + done as u64, &mut buffer[done..count]);
            document.count_image_read(count - done, read)?;
            done += read;
        }
        open.accept(document, &buffer[..count])?;
        drain(document, sink, cancellation)?;
    }
    let finished = open.finish(document);
    drain(document, sink, cancellation)?;
    Ok(finished?)
}

fn add_page<W: SequentialSink>(
    document: &mut PdfDocument,
    sink: &mut W,
    images: &[ImageObject],
    cancellation: &CancelAfter,
) -> Result<u32, Failure> {
    let added = document.add_page(page(), images);
    drain(document, sink, cancellation)?;
    Ok(added?)
}

fn add_bookmark<W: SequentialSink>(
    document: &mut PdfDocument,
    sink: &mut W,
    bookmark: Bookmark,
    cancellation: &CancelAfter,
) -> Result<(), Failure> {
    let added = document.add_bookmark(bookmark);
    drain(document, sink, cancellation)?;
    Ok(added?)
}

fn finish<W: SequentialSink>(
    document: &mut PdfDocument,
    sink: &mut W,
    cancellation: &CancelAfter,
) -> Result<ConversionReport, Failure> {
    let finished = document.finish();
    drain(document, sink, cancellation)?;
    let mut table = finished?;
    loop {
        let complete = table.next(&mut document.writer)?;
        drain(document, sink, cancellation)?;
        if complete {
            break;
        }
    }
    Ok(document.report(cancellation.is_cancelled())?)
}

fn page() -> PageSpec {
    PageSpec {
        width_micropoints: 100_000_000,
        height_micropoints: 50_000_000,
    }
}

fn gray_pixels(pixel_width: u32) -> ImageSpec {
    ImageSpec {
        pixel_width,
        pixel_height: 1,
        encoding: ImageEncoding::Gray8,
    }
}

fn bookmark(depth: u32, title: &str) -> Bookmark {
    Bookmark {
        depth,
        title: title.into(),
        page_index: 0,
    }
}

/// The text of an object, found through the xref table.
fn object_text(file: &[u8], number: u32) -> String {
    let text = String::from_utf8_lossy(file).into_owned();
    let start: usize = text
        .rsplit("startxref\n")
        .next()
        .and_then(|tail| tail.lines().next())
        .and_then(|line| line.parse().ok())
        .unwrap();
    let table = &file[start..];
    assert!(table.starts_with(b"xref\n0 "));
    let rows = table.iter().skip(5).position(|byte| *byte == b'\n').unwrap() + 6;
    let row = &table[rows + 20 * number as usize..][..20];
    assert_eq!(row[17], b'n');
    let offset: usize = String::from_utf8_lossy(&row[..10]).parse().unwrap();
    let object = String::from_utf8_lossy(&file[offset..]).into_owned();
    assert!(object.starts_with(&format!("{number} 0 obj\n")));
    object[..object.find("\nendobj").unwrap()].to_string()
}

fn number_after(text: &str, key: &str) -> Option<u32> {
    let at = text.find(key)? + key.len();
    text[at..].split(' ').next()?.parse().ok()
}

/// Whether a finished file has an outline whose top-level items are linked
/// both ways.
fn has_outlines(file: &[u8]) -> bool {
    let text = String::from_utf8_lossy(file).into_owned();
    let trailer = text.rsplit("trailer\n").next().unwrap();
    let catalog = object_text(file, number_after(trailer, "/Root ").unwrap());
    let Some(root) = number_after(&catalog, "/Outlines ") else {
        return false;
    };
    let root_text = object_text(file, root);
    let last = number_after(&root_text, "/Last ").unwrap();
    let mut current = number_after(&root_text, "/First ").unwrap();
    let mut previous = None;
    loop {
        let item = object_text(file, current);
        assert_eq!(number_after(&item, "/Parent "), Some(root));
        assert_eq!(number_after(&item, "/Prev "), previous);
        match number_after(&item, "/Next ") {
            Some(next) => {
                previous = Some(current);
                current = next;
            }
            None => {
                assert_eq!(current, last);
                return true;
            }
        }
    }
}

fn write_sample<W: SequentialSink>(
    sink: &mut W,
    limits: &Limits,
    cancellation: &CancelAfter,
) -> Result<ConversionReport, Failure> {
    let mut source = FilledSource::new(3);
    let mut document = begin(sink, limits, cancellation)?;
    for _ in 0..2 {
        add_image_page(&mut document, sink, &mut source, 3, gray_pixels(3), cancellation)?;
    }
    add_bookmark(&mut document, sink, bookmark(0, "Root"), cancellation)?;
    add_bookmark(&mut document, sink, bookmark(1, "Child"), cancellation)?;
    add_bookmark(&mut document, sink, bookmark(0, "Next"), cancellation)?;
    finish(&mut document, sink, cancellation)
}

#[test]
fn image_source_that_over_reports_is_rejected() {
    let mut source = FilledSource {
        over_report: true,
        ..FilledSource::new(4)
    };
    let mut sink = VecSink::default();
    let limits = Limits::default();
    let never = CancelAfter::never();
    let mut document = begin(&mut sink, &limits, &never).unwrap();
    let error =
        add_image_page(&mut document, &mut sink, &mut source, 4, gray_pixels(4), &never).unwrap_err();
    assert!(matches!(
        error,
        Failure::Library(Error::InvalidInput {
            reason: "image source reported more bytes than requested"
        })
    ));
}

#[test]
fn jpeg_stream_longer_than_a_pdf_integer_is_rejected_before_reading() {
    let length = MAX_PDF_INTEGER + 1;
    let mut source = FilledSource::new(length);
    let mut sink = VecSink::default();
    let limits = Limits::default();
    let never = CancelAfter::never();
    let mut document = begin(&mut sink, &limits, &never).unwrap();
    let header_bytes = document.writer.position();
    let image = ImageSpec {
        pixel_width: 10,
        pixel_height: 10,
        encoding: ImageEncoding::JpegRgb8,
    };
    let error =
        add_image_page(&mut document, &mut sink, &mut source, length, image, &never).unwrap_err();
    assert_eq!(document.input_bytes_read, 0);
    assert!(matches!(
        error,
        Failure::Library(Error::LimitExceeded {
            resource: "PDF image stream bytes",
            limit: MAX_PDF_INTEGER,
            attempted,
        }) if attempted == length
    ));
    assert_eq!(sink.bytes.len() as u64, header_bytes);
}

#[test]
fn page_tree_capacity_is_checked_before_any_page_output() {
    let mut source = FilledSource::new(1);
    let mut sink = VecSink::default();
    let limits = Limits {
        max_pages: u32::MAX,
        ..Limits::default()
    };
    let never = CancelAfter::never();
    let mut document = begin(&mut sink, &limits, &never).unwrap();
    document.pages_written = MAX_TREE_PAGES as u32;
    let error =
        add_image_page(&mut document, &mut sink, &mut source, 1, gray_pixels(1), &never).unwrap_err();
    assert!(matches!(
        error,
        Failure::Library(Error::LimitExceeded {
            resource: "PDF page-tree capacity",
            limit: MAX_TREE_PAGES,
            attempted,
        }) if attempted == MAX_TREE_PAGES + 1
    ));
}

/// Counts output bytes and keeps only page-tree node objects, so a very
/// large document can be checked without retaining or rescanning it.
#[derive(Default)]
struct PageTreeSink {
    written: u64,
    object: Vec<u8>,
    page_nodes: Vec<Vec<u8>>,
}

impl SequentialSink for PageTreeSink {
    fn write(&mut self, bytes: &[u8]) -> Result<usize, Failure> {
        self.written += bytes.len() as u64;
        for line in bytes.split_inclusive(|byte| *byte == b'\n') {
            // Page-tree nodes are small; larger runs (the xref table) are
            // never page-tree objects and need not be retained.
            if self.object.len() > 64 * 1024 {
                self.object.clear();
            }
            self.object.extend_from_slice(line);
            if self.object.ends_with(b"\nendobj\n") {
                let body = self
                    .object
                    .iter()
                    .position(|byte| *byte == b'\n')
                    .map_or(&[][..], |header| &self.object[header + 1..]);
                if body.starts_with(b"<< /Type /Pages ") {
                    self.page_nodes.push(body.to_vec());
                }
                self.object.clear();
            }
        }
        Ok(bytes.len())
    }
}

/// A one-pixel image that many pages can share, which keeps documents with
/// full page-tree nodes cheap to build.
fn shared_image(document: &mut PdfDocument) -> ImageObject {
    let mut writer = document
        .begin_bilevel_image(BilevelImageSpec {
            pixel_width: 1,
            pixel_height: 1,
            row_stride: 1,
        })
        .unwrap();
    writer.write(document, &[0]).unwrap();
    writer.finish(document).unwrap()
}

#[test]
fn full_middle_node_starts_a_second_root_kid() {
    const PER_MIDDLE: usize = PAGE_TREE_FANOUT * PAGE_TREE_FANOUT;
    const PAGES: u32 = PER_MIDDLE as u32 + 1;
    let mut sink = PageTreeSink::default();
    let limits = Limits::default();
    let never = CancelAfter::never();
    let mut document = begin(&mut sink, &limits, &never).unwrap();
    let image = shared_image(&mut document);
    for expected in 0..PAGES {
        let index = add_page(&mut document, &mut sink, &[image], &never).unwrap();
        assert_eq!(index, expected);
    }
    assert_eq!(document.root_children.len(), 1);
    let report = finish(&mut document, &mut sink, &never).unwrap();
    assert_eq!(report.pages_converted, PAGES);
    assert_eq!(report.output_bytes_written, sink.written);
    // 257 leaves, two middle nodes, and the root.
    assert_eq!(sink.page_nodes.len(), 257 + 2 + 1);
    let root_prefix = format!("<< /Type /Pages /Count {PAGES} /Kids [");
    let roots: Vec<_> = sink
        .page_nodes
        .iter()
        .filter(|node| node.starts_with(root_prefix.as_bytes()))
        .collect();
    assert_eq!(roots.len(), 1);
    let root_kids = roots[0]
        .windows(b" 0 R".len())
        .filter(|window| *window == b" 0 R")
        .count();
    assert_eq!(root_kids, 2);
    let full_middle = format!("/Count {PER_MIDDLE} /Kids [");
    let full_middles = sink
        .page_nodes
        .iter()
        .filter(|node| {
            node.windows(full_middle.len())
                .any(|window| window == full_middle.as_bytes())
        })
        .count();
    assert_eq!(full_middles, 1);
}

#[test]
fn page_nodes_lost_to_failed_writes_make_finish_fail() {
    const PER_MIDDLE: usize = PAGE_TREE_FANOUT * PAGE_TREE_FANOUT;
    let mut sink = PageTreeSink::default();
    let limits = Limits::default();
    let never = CancelAfter::never();
    let mut document = begin(&mut sink, &limits, &never).unwrap();
    let image = shared_image(&mut document);
    for _ in 0..PER_MIDDLE {
        add_page(&mut document, &mut sink, &[image], &never).unwrap();
    }
    // Writing a closed node would pass the classic xref limit, which
    // fails before the sink sees a byte and leaves the writer usable.
    let position = document.writer.position();
    document.writer.position = MAX_CLASSIC_PDF_BYTES;
    // The full leaf is detached before its write fails, and on the
    // next page the full middle node is.
    let leaf_failure = add_page(&mut document, &mut sink, &[image], &never);
    let middle_failure = add_page(&mut document, &mut sink, &[image], &never);
    document.writer.position = position;
    let finish = finish(&mut document, &mut sink, &never);
    for failure in [leaf_failure.map(|_| ()), middle_failure.map(|_| ())] {
        assert!(matches!(
            failure,
            Err(Failure::Library(Error::LimitExceeded {
                resource: "classic PDF file bytes",
                ..
            }))
        ));
    }
    // Neither lost node is written, so no PDF with dangling kids completes.
    assert!(matches!(
        finish,
        Err(Failure::Library(Error::InvalidInput {
            reason: "a reserved PDF object has not been written"
        }))
    ));
}

#[test]
fn outline_titles_are_chunked_and_empty_titles_stay_well_formed() {
    let long_title = "\u{4E2D}".repeat(3000);
    let mut source = FilledSource::new(1);
    let mut sink = VecSink::default();
    let limits = Limits::default();
    let never = CancelAfter::never();
    let mut document = begin(&mut sink, &limits, &never).unwrap();
    add_image_page(&mut document, &mut sink, &mut source, 1, gray_pixels(1), &never).unwrap();
    add_bookmark(&mut document, &mut sink, bookmark(0, &long_title), &never).unwrap();
    add_bookmark(&mut document, &mut sink, bookmark(1, ""), &never).unwrap();
    let report = finish(&mut document, &mut sink, &never).unwrap();
    assert_eq!(report.bookmarks_written, 2);
    let text = String::from_utf8_lossy(&sink.bytes);
    assert!(text.contains(&format!("/Title <FEFF{}>", "4E2D".repeat(3000))));
    assert!(text.contains("/Title <FEFF> /Parent"));
    assert!(text.contains(" /Count 1 >>"));
    assert!(has_outlines(&sink.bytes));
}

#[test]
fn every_sink_failure_point_returns_the_io_error() {
    let limits = Limits::default();
    let never = CancelAfter::never();
    let mut clean = VecSink::default();
    write_sample(&mut clean, &limits, &never).unwrap();
    assert!(clean.writes > 20);
    for fail_at in 1..=clean.writes {
        let mut sink = VecSink {
            fail_at_write: Some(fail_at),
            ..VecSink::default()
        };
        let result = write_sample(&mut sink, &limits, &never);
        assert!(
            matches!(&result, Err(Failure::Io(error)) if *error == "injected sink failure"),
            "write {fail_at}: {result:?}"
        );
        assert_eq!(sink.writes, fail_at);
        assert!(clean.bytes.starts_with(&sink.bytes));
    }
}

#[test]
fn tests_cancellation_at_every_checkpoint_never_reports_success() {
    let limits = Limits::default();
    let mut allowed = 0;
    loop {
        let mut sink = VecSink::default();
        let cancellation = CancelAfter::new(allowed);
        let report = match write_sample(&mut sink, &limits, &cancellation) {
            Err(Failure::Library(Error::Cancelled)) => {
                allowed += 1;
                continue;
            }
            result => result.expect("only cancellation may stop the run"),
        };
        assert!(allowed >= 20, "only {allowed} cancellation checks");
        assert_eq!(report.output_bytes_written, sink.bytes.len() as u64);
        break;
    }
}

#[test]
fn reserve_bounded_enforces_item_and_byte_ceilings() {
    let limits = Limits {
        io_chunk_bytes: 16,
        max_allocation_bytes: 64,
        ..Limits::default()
    };
    let mut values: Vec<u64> = Vec::new();
    for _ in 0..3 {
        reserve_bounded(&mut values, 3, &limits, "test items").unwrap();
        values.push(0);
    }
    assert!(matches!(
        reserve_bounded(&mut values, 3, &limits, "test items"),
        Err(Error::LimitExceeded {
            resource: "test items",
            limit: 3,
            attempted: 4,
        })
    ));

    let mut wide: Vec<[u8; 40]> = vec![[0; 40]];
    assert!(matches!(
        reserve_bounded(&mut wide, 10, &limits, "wide items"),
        Err(Error::LimitExceeded {
            resource: "allocation bytes",
            limit: 64,
            attempted: 80,
        })
    ));
    assert_eq!(wide.len(), 1);
}

#[test]
fn a_refused_bookmark_leaves_earlier_outline_items_writable() {
    // Walk the allocation ceiling across every refusal point of a nested
    // outline. Whenever a bookmark is refused, the items accepted before it
    // must still finish as a valid outline tree.
    let titles = [(0, "A"), (1, "B"), (2, "C"), (1, "D"), (0, "E"), (1, "F")];
    let never = CancelAfter::never();
    let mut refusals_checked = 0;
    for max_allocation_bytes in (64..4096).step_by(8) {
        let limits = Limits {
            io_chunk_bytes: 16,
            max_allocation_bytes,
            ..Limits::default()
        };
        let mut source = FilledSource::new(1);
        let mut sink = VecSink::default();
        let Ok(mut document) = begin(&mut sink, &limits, &never) else {
            continue;
        };
        if add_image_page(&mut document, &mut sink, &mut source, 1, gray_pixels(1), &never).is_err() {
            continue;
        }
        let mut accepted = 0;
        for (depth, title) in titles {
            if add_bookmark(&mut document, &mut sink, bookmark(depth, title), &never).is_err() {
                break;
            }
            accepted += 1;
        }
        let Ok(report) = finish(&mut document, &mut sink, &never) else {
            continue;
        };
        if (1..titles.len()).contains(&accepted) {
            assert_eq!(report.bookmarks_written, accepted as u32);
            assert!(has_outlines(&sink.bytes));
            refusals_checked += 1;
        }
    }
    assert!(refusals_checked > 0);
}

#[test]
fn a_bookmark_that_fails_while_closing_items_stops_the_outline() {
    let limits = Limits::default();
    let never = CancelAfter::never();
    let mut source = FilledSource::new(1);
    let mut sink = VecSink::default();
    let mut document = begin(&mut sink, &limits, &never).unwrap();
    add_image_page(&mut document, &mut sink, &mut source, 1, gray_pixels(1), &never).unwrap();
    add_bookmark(&mut document, &mut sink, bookmark(0, "A"), &never).unwrap();
    add_bookmark(&mut document, &mut sink, bookmark(1, "B"), &never).unwrap();
    // Writing the closed items would pass the classic xref limit, which
    // fails before the sink sees a byte and so leaves the writer usable.
    let position = document.writer.position();
    document.writer.position = MAX_CLASSIC_PDF_BYTES;
    let failed = add_bookmark(&mut document, &mut sink, bookmark(0, "C"), &never);
    document.writer.position = position;
    let retry = add_bookmark(&mut document, &mut sink, bookmark(0, "D"), &never);
    let finish = finish(&mut document, &mut sink, &never);
    assert!(matches!(
        failed,
        Err(Failure::Library(Error::LimitExceeded {
            resource: "classic PDF file bytes",
            ..
        }))
    ));
    for result in [retry, finish.map(|_| ())] {
        assert!(matches!(
            result,
            Err(Failure::Library(Error::InvalidInput {
                reason: "PDF outline cannot continue after a failed bookmark operation"
            }))
        ));
    }
    assert!(!sink.bytes.ends_with(b"%%EOF\n"));
}
