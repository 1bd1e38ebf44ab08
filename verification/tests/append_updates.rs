//! Copying PDFs and appending outlines, driven with in-memory sources and
//! sinks.

use std::cell::Cell;

use caj2pdf_core::append::appender::PdfOutlineAppender;
use caj2pdf_core::append::index::{CatalogEntry, PdfIndex};
use caj2pdf_core::append::patches::{CopyPatches, GapPatch};
use caj2pdf_core::append::trailer_id::{first_id_string, fnv128, FNV128_BASIS};
use caj2pdf_core::append::writer::{AppendWriter, XrefEntry};
use caj2pdf_core::document::image::{ImageEncoding, ImageSpec};
use caj2pdf_core::document::pages::PdfDocument;
use caj2pdf_core::document::texts::PageSpec;
use caj2pdf_core::fragment::outline::MAX_OUTLINE_DEPTH;
use caj2pdf_core::types::{
    Bookmark, ConversionReport, Error, Limits, PdfErrorKind, PdfRange, PdfRef,
    MAX_CLASSIC_PDF_BYTES,
};

/// Cancels once it has been asked `allowed` times.
struct CancelAfter {
    allowed: u64,
    asked: Cell<u64>,
}

impl CancelAfter {
    fn new(allowed: u64) -> Self {
        Self {
            allowed,
            asked: Cell::new(0),
        }
    }

    fn never() -> Self {
        Self::new(u64::MAX)
    }

    fn queries(&self) -> u64 {
        self.asked.get()
    }

    fn is_cancelled(&self) -> bool {
        let asked = self.asked.get();
        self.asked.set(asked + 1);
        asked >= self.allowed
    }

    fn check(&self) -> Result<(), Failure> {
        if self.is_cancelled() {
            return Err(Failure::Library(Error::Cancelled));
        }
        Ok(())
    }
}

/// What stops a copy: the library, or the sink.
#[derive(Debug)]
enum Failure {
    Library(Error),
    Io(&'static str),
}

impl From<Error> for Failure {
    fn from(error: Error) -> Self {
        Self::Library(error)
    }
}

trait SequentialSink {
    fn write(&mut self, bytes: &[u8]) -> Result<usize, Failure>;
    fn flush(&mut self) -> Result<(), Failure>;
}

#[derive(Default)]
struct RecordingSink {
    bytes: Vec<u8>,
    flushes: u32,
}

impl SequentialSink for RecordingSink {
    fn write(&mut self, bytes: &[u8]) -> Result<usize, Failure> {
        self.bytes.extend_from_slice(bytes);
        Ok(bytes.len())
    }

    fn flush(&mut self) -> Result<(), Failure> {
        self.flushes += 1;
        Ok(())
    }
}

struct FailingSink {
    accepted: usize,
    remaining: usize,
    fail_flush: bool,
}

impl SequentialSink for FailingSink {
    fn write(&mut self, bytes: &[u8]) -> Result<usize, Failure> {
        if self.remaining == 0 {
            return Err(Failure::Io("injected sink failure"));
        }
        let count = bytes.len().min(self.remaining).min(7);
        self.remaining -= count;
        self.accepted += count;
        Ok(count)
    }

    fn flush(&mut self) -> Result<(), Failure> {
        if self.fail_flush {
            return Err(Failure::Io("injected flush failure"));
        }
        Ok(())
    }
}

/// Hand what a writer has queued to a sink, in the pieces that it takes.
fn drain<W: SequentialSink>(
    writer: &mut AppendWriter,
    sink: &mut W,
    cancellation: &CancelAfter,
) -> Result<(), Failure> {
    let pending = writer.take_output();
    let mut done = 0;
    while done < pending.len() {
        cancellation.check()?;
        match sink.write(&pending[done..]) {
            Ok(count) => done += count,
            Err(failure) => {
                writer.fail();
                return Err(failure);
            }
        }
    }
    Ok(())
}

/// Copy the PDF that bookmarks are appended to.
fn begin<'a, W: SequentialSink>(
    source: &[u8],
    sink: &mut W,
    index: &'a PdfIndex,
    limits: &Limits,
    cancellation: &CancelAfter,
) -> Result<PdfOutlineAppender<'a>, Failure> {
    let (mut copy, mut buffer) = PdfOutlineAppender::begin(index, limits, source.len() as u64)?;
    while let Some((offset, count)) = copy.next() {
        cancellation.check()?;
        buffer.clear();
        buffer.extend_from_slice(&source[offset as usize..offset as usize + count]);
        copy.accept(&mut buffer)?;
        drain(&mut copy.writer, sink, cancellation)?;
    }
    Ok(copy.finish()?)
}

fn add_bookmark<W: SequentialSink>(
    appender: &mut PdfOutlineAppender<'_>,
    sink: &mut W,
    bookmark: Bookmark,
    cancellation: &CancelAfter,
) -> Result<(), Failure> {
    let added = appender.add_bookmark(bookmark);
    drain(&mut appender.writer, sink, cancellation)?;
    Ok(added?)
}

fn finish<W: SequentialSink>(
    appender: &mut PdfOutlineAppender<'_>,
    sink: &mut W,
    cancellation: &CancelAfter,
) -> Result<ConversionReport, Failure> {
    let finished = appender.finish();
    drain(&mut appender.writer, sink, cancellation)?;
    finished?;
    appender.ready_to_flush(cancellation.is_cancelled())?;
    sink.flush()?;
    Ok(appender.report(cancellation.is_cancelled())?)
}

fn copy_pdf_range<W: SequentialSink>(
    source: &[u8],
    sink: &mut W,
    range: PdfRange,
    limits: &Limits,
    cancellation: &CancelAfter,
) -> Result<ConversionReport, Failure> {
    let index = open_range(source, range);
    let mut appender = begin(source, sink, &index, limits, cancellation)?;
    finish(&mut appender, sink, cancellation)
}

fn copy_pdf<W: SequentialSink>(
    source: &[u8],
    sink: &mut W,
    limits: &Limits,
    cancellation: &CancelAfter,
) -> Result<ConversionReport, Failure> {
    let range = PdfRange {
        offset: 0,
        length: source.len() as u64,
    };
    copy_pdf_range(source, sink, range, limits, cancellation)
}

/// The tokens of a small PDF value.
fn tokens(text: &str) -> Vec<String> {
    let mut spaced = String::new();
    for c in text.chars() {
        match c {
            '[' | ']' => {
                spaced.push(' ');
                spaced.push(c);
                spaced.push(' ');
            }
            _ => spaced.push(c),
        }
    }
    spaced.split_whitespace().map(String::from).collect()
}

fn reference_at(tokens: &[String], at: usize) -> Option<PdfRef> {
    let number = tokens.get(at)?.parse().ok()?;
    let generation = tokens.get(at + 1)?.parse().ok()?;
    if tokens.get(at + 2)? != "R" {
        return None;
    }
    Some(PdfRef { number, generation })
}

fn value_of(tokens: &[String], key: &str) -> Option<usize> {
    tokens.iter().position(|token| token == key).map(|at| at + 1)
}

/// The offset of an object, by the xref sections from the newest on.
fn object_offset(pdf: &[u8], number: u32) -> usize {
    let text = String::from_utf8_lossy(pdf).into_owned();
    let mut start: usize = text
        .rsplit("startxref\n")
        .next()
        .and_then(|tail| tail.lines().next())
        .and_then(|line| line.parse().ok())
        .unwrap();
    loop {
        let section = String::from_utf8_lossy(&pdf[start..]).into_owned();
        let mut lines = section.lines().skip(1);
        let mut current = lines.next().unwrap().to_string();
        while current != "trailer" {
            let mut parts = current.split(' ');
            let first: u32 = parts.next().unwrap().parse().unwrap();
            let count: u32 = parts.next().unwrap().parse().unwrap();
            for row in 0..count {
                let line = lines.next().unwrap();
                if first + row == number && line.as_bytes()[17] == b'n' {
                    return line[..10].parse().unwrap();
                }
            }
            current = lines.next().unwrap().to_string();
        }
        let trailer = tokens(lines.next().unwrap());
        start = trailer[value_of(&trailer, "/Prev").unwrap()].parse().unwrap();
    }
}

fn object_value(pdf: &[u8], number: u32) -> String {
    let offset = object_offset(pdf, number);
    let text = String::from_utf8_lossy(&pdf[offset..]).into_owned();
    assert!(text.starts_with(&format!("{number} 0 obj\n")));
    let start = text.find("obj\n").unwrap() + 4;
    let end = start + text[start..].find("\nendobj").unwrap();
    text[start..end].to_string()
}

fn collect_pages(pdf: &[u8], number: u32, pages: &mut Vec<PdfRef>) {
    let value = tokens(&object_value(pdf, number));
    match value_of(&value, "/Kids") {
        Some(at) => {
            let end = at + value[at..].iter().position(|token| token == "]").unwrap();
            for kid in (at..end).filter_map(|at| reference_at(&value, at)) {
                collect_pages(pdf, kid.number, pages);
            }
        }
        None => pages.push(PdfRef {
            number,
            generation: 0,
        }),
    }
}

/// The entries of a flat dictionary, each as it stands.
fn dictionary_entries(value: &[String]) -> Vec<CatalogEntry> {
    let mut entries = Vec::new();
    let mut at = 1;
    while at + 1 < value.len() {
        let mut end = at + 2;
        while !value[at + 1].starts_with('/') && !value[end].starts_with('/') && value[end] != ">>" {
            end += 1;
        }
        entries.push(CatalogEntry {
            name: value[at].as_bytes()[1..].to_vec(),
            raw_pair: value[at..end].join(" ").into_bytes(),
        });
        at = end;
    }
    entries
}

/// What a reader reveals about a classic-xref PDF in a larger input.
fn open_range(source: &[u8], range: PdfRange) -> PdfIndex {
    let pdf = &source[range.offset as usize..][..range.length as usize];
    let text = String::from_utf8_lossy(pdf).into_owned();
    let trailer_text = text.rsplit("trailer\n").next().unwrap();
    let trailer = tokens(trailer_text);
    let catalog = reference_at(&trailer, value_of(&trailer, "/Root").unwrap()).unwrap();
    let size: u32 = trailer[value_of(&trailer, "/Size").unwrap()].parse().unwrap();
    let catalog_value = tokens(&object_value(pdf, catalog.number));
    let tree = reference_at(&catalog_value, value_of(&catalog_value, "/Pages").unwrap()).unwrap();
    let mut pages = Vec::new();
    collect_pages(pdf, tree.number, &mut pages);
    let has_outlines = value_of(&catalog_value, "/Outlines").is_some_and(|at| {
        let root = reference_at(&catalog_value, at).unwrap();
        object_value(pdf, root.number).contains("/First ")
    });
    let xref_offset: u64 = text
        .rsplit("startxref\n")
        .next()
        .and_then(|tail| tail.lines().next())
        .and_then(|line| line.parse().ok())
        .unwrap();
    let trailer_id = trailer_text.find("/ID ").map(|at| {
        let end = at + trailer_text[at..].find(']').unwrap() + 1;
        trailer_text.as_bytes()[at + 4..end].to_vec()
    });
    PdfIndex {
        range,
        logical_end: range.length,
        catalog,
        catalog_entries: dictionary_entries(&catalog_value),
        pages,
        has_outlines,
        next_free_object_number: Ok(size),
        repair_objects: Vec::new(),
        stream_separator_patches: Vec::new(),
        gap_patches: Vec::new(),
        xref_offset,
        trailer_size: size,
        trailer_info: value_of(&trailer, "/Info").and_then(|at| reference_at(&trailer, at)),
        trailer_id,
    }
}

fn open_index(pdf: &[u8]) -> PdfIndex {
    open_range(
        pdf,
        PdfRange {
            offset: 0,
            length: pdf.len() as u64,
        },
    )
}

fn bookmark(depth: u32, title: &str, page_index: u32) -> Bookmark {
    Bookmark {
        depth,
        title: title.into(),
        page_index,
    }
}

/// A PDF with one page and no outline.
fn unoutlined_pdf() -> Vec<u8> {
    let limits = Limits::default();
    let mut pdf = PdfDocument::new(&limits).unwrap();
    let mut buffer = Vec::new();
    let mut image = pdf
        .add_image_page(
            1,
            0,
            1,
            PageSpec {
                width_micropoints: 72_000_000,
                height_micropoints: 72_000_000,
            },
            ImageSpec {
                pixel_width: 1,
                pixel_height: 1,
                encoding: ImageEncoding::Gray8,
            },
            &mut buffer,
        )
        .unwrap();
    image.accept(&mut pdf, &[0x7f]).unwrap();
    image.finish(&mut pdf).unwrap();
    let mut table = pdf.finish().unwrap();
    while !table.next(&mut pdf.writer).unwrap() {}
    pdf.writer.take_output()
}

fn with_id(mut pdf: Vec<u8>) -> Vec<u8> {
    let needle = b" >>\nstartxref\n";
    let marker = pdf
        .windows(needle.len())
        .rposition(|window| window == needle)
        .expect("generated trailer has a closing dictionary");
    pdf.splice(
        marker..marker + needle.len(),
        b" /ID [<00112233445566778899AABBCCDDEEFF> <00112233445566778899AABBCCDDEEFF>] >>\nstartxref\n"
            .iter()
            .copied(),
    );
    pdf
}

fn import_one(pdf: &[u8], title: &str) -> Vec<u8> {
    let mut sink = RecordingSink::default();
    let limits = Limits::default();
    let never = CancelAfter::never();
    let index = open_index(pdf);
    let mut appender = begin(pdf, &mut sink, &index, &limits, &never).unwrap();
    add_bookmark(&mut appender, &mut sink, bookmark(0, title, 0), &never).unwrap();
    let report = finish(&mut appender, &mut sink, &never).unwrap();
    assert_eq!(report.pages_converted, 1);
    assert_eq!(report.bookmarks_written, 1);
    sink.bytes
}

fn final_id(pdf: &[u8]) -> &[u8] {
    let trailer = pdf
        .windows(b"trailer\n".len())
        .rposition(|window| window == b"trailer\n")
        .expect("output trailer exists");
    let tail = &pdf[trailer..];
    let id = tail
        .windows(b" /ID [".len())
        .position(|window| window == b" /ID [")
        .expect("output ID exists");
    &tail[id..]
}

/// A classic-xref PDF whose objects are numbered `1..=objects.len()`.
/// `gap` is inserted immediately before object `gap.0`.
fn classic_pdf(objects: &[&str], gap: Option<(u32, &[u8])>, trailer_extra: &str) -> Vec<u8> {
    let mut pdf = b"%PDF-1.7\n".to_vec();
    let mut offsets = Vec::new();
    for (index, body) in objects.iter().enumerate() {
        let number = index as u32 + 1;
        if let Some((_, bytes)) = gap.filter(|(before, _)| *before == number) {
            pdf.extend_from_slice(bytes);
        }
        offsets.push(pdf.len());
        pdf.extend_from_slice(format!("{number} 0 obj\n{body}\nendobj\n").as_bytes());
    }
    let xref = pdf.len();
    let size = objects.len() + 1;
    pdf.extend_from_slice(format!("xref\n0 {size}\n0000000000 65535 f \n").as_bytes());
    for offset in offsets {
        pdf.extend_from_slice(format!("{offset:010} 00000 n \n").as_bytes());
    }
    pdf.extend_from_slice(
        format!(
            "trailer\n<< /Size {size} /Root 1 0 R {trailer_extra} >>\nstartxref\n{xref}\n%%EOF\n"
        )
        .as_bytes(),
    );
    pdf
}

const CATALOG: &str = "<< /Type /Catalog /Pages 2 0 R >>";
const PAGES: &str = "<< /Type /Pages /Kids [3 0 R] /Count 1 >>";
const PAGE: &str = "<< /Type /Page /Parent 2 0 R /MediaBox [0 0 100 200] >>";

/// A PDF with two pages and a nested outline.
fn nested_outline_pdf() -> Vec<u8> {
    classic_pdf(
        &[
            "<< /Type /Catalog /Pages 2 0 R /Outlines 5 0 R >>",
            "<< /Type /Pages /Kids [3 0 R 4 0 R] /Count 2 >>",
            PAGE,
            PAGE,
            "<< /Type /Outlines /First 6 0 R /Last 6 0 R /Count 2 >>",
            "<< /Title (One) /Parent 5 0 R /Dest [3 0 R /Fit] /First 7 0 R /Last 7 0 R /Count 1 >>",
            "<< /Title (Two) /Parent 6 0 R /Dest [4 0 R /Fit] >>",
        ],
        None,
        "",
    )
}

fn invalid(reason: &'static str) -> impl Fn(&Result<(), Error>) -> bool {
    move |result| matches!(result, Err(Error::InvalidInput { reason: actual }) if *actual == reason)
}

fn copy_patches<'a>(separators: &'a [u64], gaps: &'a [GapPatch]) -> CopyPatches<'a> {
    CopyPatches {
        separators,
        gaps,
        next_separator: 0,
        next_gap: 0,
    }
}

#[test]
fn append_direct_id_parser_accepts_hex_literal_and_comments() {
    direct_id_parser_accepts_hex_literal_and_comments();
}

#[test]
fn tests_direct_id_parser_accepts_hex_literal_and_comments() {
    direct_id_parser_accepts_hex_literal_and_comments();
}

fn direct_id_parser_accepts_hex_literal_and_comments() {
    assert_eq!(
        first_id_string(b" [ % comment\r\n <0123> (second) ] ", 0).unwrap(),
        b"<0123>"
    );
    assert_eq!(
        first_id_string(br"[(first\)id) <ABCD>]", 0).unwrap(),
        br"(first\)id)"
    );
}

#[test]
fn append_direct_id_parser_rejects_indirect_and_unterminated_values() {
    direct_id_parser_rejects_indirect_and_unterminated_values();
}

#[test]
fn tests_direct_id_parser_rejects_indirect_and_unterminated_values() {
    direct_id_parser_rejects_indirect_and_unterminated_values();
}

fn direct_id_parser_rejects_indirect_and_unterminated_values() {
    for raw in [
        b"[1 0 R <00>]".as_slice(),
        b"[<00> <11>".as_slice(),
        b"[(unterminated <11>]".as_slice(),
    ] {
        assert!(matches!(
            first_id_string(raw, 123),
            Err(Error::Pdf {
                offset: 123,
                kind: PdfErrorKind::UnsupportedFeature,
                ..
            })
        ));
    }
}

#[test]
fn append_update_id_hash_changes_with_update_bytes() {
    update_id_hash_changes_with_update_bytes();
}

#[test]
fn tests_update_id_hash_changes_with_update_bytes() {
    update_id_hash_changes_with_update_bytes();
}

fn update_id_hash_changes_with_update_bytes() {
    let first = fnv128(FNV128_BASIS, b"[<first> <old>]");
    assert_ne!(fnv128(first, b"outline A"), fnv128(first, b"outline B"));
}

#[test]
fn append_clean_existing_outline_is_copied_byte_for_byte() {
    clean_existing_outline_is_copied_byte_for_byte();
}

#[test]
fn tests_clean_existing_outline_is_copied_byte_for_byte() {
    clean_existing_outline_is_copied_byte_for_byte();
}

fn clean_existing_outline_is_copied_byte_for_byte() {
    let original = nested_outline_pdf();
    let mut sink = RecordingSink::default();
    let never = CancelAfter::never();
    let report = copy_pdf(&original, &mut sink, &Limits::default(), &never).unwrap();
    assert_eq!(sink.bytes, original);
    assert_eq!(report.output_bytes_written, original.len() as u64);
    assert!(report.input_bytes_read >= original.len() as u64);
    assert_eq!(report.pages_converted, 2);
    assert_eq!(report.bookmarks_written, 0);
}

#[test]
fn append_importing_into_existing_outline_preserves_original_navigation() {
    importing_into_existing_outline_preserves_original_navigation();
}

#[test]
fn tests_importing_into_existing_outline_preserves_original_navigation() {
    importing_into_existing_outline_preserves_original_navigation();
}

fn importing_into_existing_outline_preserves_original_navigation() {
    let original = nested_outline_pdf();
    let mut sink = RecordingSink::default();
    let limits = Limits::default();
    let never = CancelAfter::never();
    let index = open_index(&original);
    let mut appender = begin(&original, &mut sink, &index, &limits, &never).unwrap();
    assert!(appender.preserves_existing_outlines());
    add_bookmark(&mut appender, &mut sink, bookmark(0, "New title", 999), &never).unwrap();
    let report = finish(&mut appender, &mut sink, &never).unwrap();
    assert_eq!(report.bookmarks_written, 0);
    assert_eq!(sink.bytes, original);
}

#[test]
fn append_embedded_pdf_range_is_copied_without_container_bytes() {
    embedded_pdf_range_is_copied_without_container_bytes();
}

#[test]
fn tests_embedded_pdf_range_is_copied_without_container_bytes() {
    embedded_pdf_range_is_copied_without_container_bytes();
}

fn embedded_pdf_range_is_copied_without_container_bytes() {
    let original = nested_outline_pdf();
    let prefix = b"container bytes before embedded PDF";
    let mut container = prefix.to_vec();
    container.extend_from_slice(&original);
    container.extend_from_slice(b"container suffix");
    let mut sink = RecordingSink::default();
    let report = copy_pdf_range(
        &container,
        &mut sink,
        PdfRange {
            offset: prefix.len() as u64,
            length: original.len() as u64,
        },
        &Limits::default(),
        &CancelAfter::never(),
    )
    .unwrap();
    assert_eq!(sink.bytes, original);
    assert_eq!(report.pages_converted, 2);
}

#[test]
fn append_new_outline_update_preserves_pdf_prefix_and_changes_id_by_title() {
    new_outline_update_preserves_pdf_prefix_and_changes_id_by_title();
}

#[test]
fn tests_new_outline_update_preserves_pdf_prefix_and_changes_id_by_title() {
    new_outline_update_preserves_pdf_prefix_and_changes_id_by_title();
}

fn new_outline_update_preserves_pdf_prefix_and_changes_id_by_title() {
    let original = with_id(unoutlined_pdf());
    let one = import_one(&original, "AA");
    let two = import_one(&original, "BB");
    assert!(one.starts_with(&original));
    assert!(two.starts_with(&original));
    assert_ne!(final_id(&one), final_id(&two));
    assert!(String::from_utf8_lossy(&one).contains("/Title <FEFF00410041>"));
    assert!(String::from_utf8_lossy(&two).contains("/Title <FEFF00420042>"));
}

#[test]
fn append_nested_siblings_and_long_title_reopen_as_one_outline_tree() {
    nested_siblings_and_long_title_reopen_as_one_outline_tree();
}

#[test]
fn tests_nested_siblings_and_long_title_reopen_as_one_outline_tree() {
    nested_siblings_and_long_title_reopen_as_one_outline_tree();
}

fn nested_siblings_and_long_title_reopen_as_one_outline_tree() {
    let original = unoutlined_pdf();
    let mut sink = RecordingSink::default();
    let limits = Limits::default();
    let never = CancelAfter::never();
    let index = open_index(&original);
    let mut appender = begin(&original, &mut sink, &index, &limits, &never).unwrap();
    for (depth, title) in [
        (0, "Root".to_owned()),
        (1, "A".repeat(3000)),
        (1, "第二章".to_owned()),
        (0, "After".to_owned()),
    ] {
        add_bookmark(&mut appender, &mut sink, bookmark(depth, &title, 0), &never).unwrap();
    }
    let report = finish(&mut appender, &mut sink, &never).unwrap();
    assert_eq!(report.bookmarks_written, 4);
    let pdf = sink.bytes;
    let text = String::from_utf8_lossy(&pdf);
    assert!(text.contains("/Title <FEFF7B2C4E8C7AE0>"));
    assert_eq!(text.matches(" /Next ").count(), 2);
    assert_eq!(text.matches(" /Prev ").count(), 3); // two item links + trailer
    let index = open_index(&pdf);
    assert!(index.has_outlines);
    assert_eq!(index.pages.len(), 1);
}

#[test]
fn append_bookmark_limits_reject_input_before_new_objects() {
    bookmark_limits_reject_input_before_new_objects();
}

#[test]
fn tests_bookmark_limits_reject_input_before_new_objects() {
    bookmark_limits_reject_input_before_new_objects();
}

fn bookmark_limits_reject_input_before_new_objects() {
    let original = unoutlined_pdf();
    let mut sink = RecordingSink::default();
    let limits = Limits {
        max_bookmarks: 1,
        max_allocation_bytes: 256 * 1024,
        ..Limits::default()
    };
    let never = CancelAfter::never();
    let index = open_index(&original);
    let mut appender = begin(&original, &mut sink, &index, &limits, &never).unwrap();
    assert!(matches!(
        appender.add_bookmark(bookmark(0, "too far", 1)),
        Err(Error::InvalidInput { .. })
    ));
    assert!(matches!(
        appender.add_bookmark(bookmark(0, "", 0)),
        Err(Error::InvalidInput { .. })
    ));
    assert!(matches!(
        appender.add_bookmark(bookmark(MAX_OUTLINE_DEPTH, "deep", 0)),
        Err(Error::LimitExceeded {
            resource: "PDF outline depth",
            ..
        })
    ));
    assert!(matches!(
        appender.add_bookmark(bookmark(0, &"X".repeat(300_000), 0)),
        Err(Error::LimitExceeded { .. })
    ));
    appender.add_bookmark(bookmark(0, "Allowed", 0)).unwrap();
    assert!(matches!(
        appender.add_bookmark(bookmark(0, "second", 0)),
        Err(Error::LimitExceeded {
            resource: "bookmarks",
            ..
        })
    ));
}

#[test]
fn append_copy_output_limit_is_checked_before_sink_writes() {
    copy_output_limit_is_checked_before_sink_writes();
}

#[test]
fn tests_copy_output_limit_is_checked_before_sink_writes() {
    copy_output_limit_is_checked_before_sink_writes();
}

fn copy_output_limit_is_checked_before_sink_writes() {
    let original = nested_outline_pdf();
    let mut sink = RecordingSink::default();
    let limits = Limits {
        max_output_bytes: original.len() as u64 - 1,
        ..Limits::default()
    };
    assert!(matches!(
        copy_pdf(&original, &mut sink, &limits, &CancelAfter::never()),
        Err(Failure::Library(Error::PdfLimitExceeded {
            resource: "output bytes",
            object: Some((1, 0)),
            ..
        }))
    ));
    assert!(sink.bytes.is_empty());
}

#[test]
fn append_invalid_bookmark_rejects_without_claiming_success() {
    invalid_bookmark_rejects_without_claiming_success();
}

#[test]
fn tests_invalid_bookmark_rejects_without_claiming_success() {
    invalid_bookmark_rejects_without_claiming_success();
}

fn invalid_bookmark_rejects_without_claiming_success() {
    let original = unoutlined_pdf();
    let mut sink = RecordingSink::default();
    let limits = Limits::default();
    let index = open_index(&original);
    let mut appender =
        begin(&original, &mut sink, &index, &limits, &CancelAfter::never()).unwrap();
    assert!(matches!(
        appender.add_bookmark(bookmark(1, "orphan", 0)),
        Err(Error::InvalidInput { .. })
    ));
}

#[test]
fn append_sink_failure_has_no_success_report() {
    sink_failure_has_no_success_report();
}

#[test]
fn tests_sink_failure_has_no_success_report() {
    sink_failure_has_no_success_report();
}

fn sink_failure_has_no_success_report() {
    let original = nested_outline_pdf();
    let mut sink = FailingSink {
        accepted: 0,
        remaining: 35,
        fail_flush: false,
    };
    let result = copy_pdf(&original, &mut sink, &Limits::default(), &CancelAfter::never());
    assert!(matches!(result, Err(Failure::Io(_))));
    assert_eq!(sink.accepted, 35);
}

#[test]
fn append_flush_failure_has_no_success_report() {
    flush_failure_has_no_success_report();
}

#[test]
fn tests_flush_failure_has_no_success_report() {
    flush_failure_has_no_success_report();
}

fn flush_failure_has_no_success_report() {
    let original = nested_outline_pdf();
    let mut sink = FailingSink {
        accepted: 0,
        remaining: original.len(),
        fail_flush: true,
    };
    let result = copy_pdf(&original, &mut sink, &Limits::default(), &CancelAfter::never());
    assert!(matches!(result, Err(Failure::Io(_))));
    assert_eq!(sink.accepted, original.len());

    // The same short-write sink succeeds once its flush does.
    let mut sink = FailingSink {
        accepted: 0,
        remaining: original.len(),
        fail_flush: false,
    };
    let report =
        copy_pdf(&original, &mut sink, &Limits::default(), &CancelAfter::never()).unwrap();
    assert_eq!(report.output_bytes_written, original.len() as u64);
    assert_eq!(sink.accepted, original.len());
}

#[test]
fn append_id_parser_rejects_non_arrays_trailing_values_and_bad_strings() {
    id_parser_rejects_non_arrays_trailing_values_and_bad_strings();
}

#[test]
fn tests_id_parser_rejects_non_arrays_trailing_values_and_bad_strings() {
    id_parser_rejects_non_arrays_trailing_values_and_bad_strings();
}

fn id_parser_rejects_non_arrays_trailing_values_and_bad_strings() {
    for raw in [
        b"<00> <11>".as_slice(),
        b"[<00> <11>] junk",
        b"[<0G> <11>]",
        b"[<00> <11",
        br"[(ends with escape\",
        b"[(unbalanced (nested) <11>]",
        b"[<< >> <11>]",
    ] {
        assert!(
            matches!(
                first_id_string(raw, 77),
                Err(Error::Pdf {
                    offset: 77,
                    object: None,
                    kind: PdfErrorKind::UnsupportedFeature,
                    reason: "unsupported PDF trailer ID syntax",
                })
            ),
            "accepted {raw:?}"
        );
    }
    assert_eq!(
        first_id_string(b"[(a (nested) b) < 0a 1B >]", 0).unwrap(),
        b"(a (nested) b)"
    );
    assert_eq!(
        first_id_string(b"[<00 11\n22> (x)] % trailing comment", 0).unwrap(),
        b"<00 11\n22>"
    );
}

#[test]
fn append_update_keeps_trailer_info_and_replaces_an_empty_outline_root() {
    update_keeps_trailer_info_and_replaces_an_empty_outline_root();
}

#[test]
fn tests_update_keeps_trailer_info_and_replaces_an_empty_outline_root() {
    update_keeps_trailer_info_and_replaces_an_empty_outline_root();
}

fn update_keeps_trailer_info_and_replaces_an_empty_outline_root() {
    let original = classic_pdf(
        &[
            "<< /Type /Catalog /Pages 2 0 R /Outlines 4 0 R /PageMode /UseNone >>",
            PAGES,
            PAGE,
            "<< /Type /Outlines /Count 0 >>",
            "<< /Producer (unit test) >>",
        ],
        None,
        "/Info 5 0 R",
    );
    let limits = Limits::default();
    let never = CancelAfter::never();
    let index = open_index(&original);
    assert!(!index.has_outlines);
    let mut sink = RecordingSink::default();
    let mut appender = begin(&original, &mut sink, &index, &limits, &never).unwrap();
    assert!(!appender.preserves_existing_outlines());
    add_bookmark(&mut appender, &mut sink, bookmark(0, "Only", 0), &never).unwrap();
    let report = finish(&mut appender, &mut sink, &never).unwrap();
    assert_eq!(report.bookmarks_written, 1);
    assert_eq!(report.input_bytes_read, original.len() as u64);
    let pdf = sink.bytes;
    assert_eq!(report.output_bytes_written, pdf.len() as u64);
    assert!(pdf.starts_with(&original));
    let update = String::from_utf8_lossy(&pdf[original.len()..]);
    assert!(
        update.contains(
            "1 0 obj\n<< /Type /Catalog /Pages 2 0 R /PageMode /UseNone /Outlines 6 0 R >>"
        ),
        "{update}"
    );
    assert!(!update.contains("/Outlines 4 0 R"), "{update}");
    assert!(update.contains("6 0 obj\n<< /Type /Outlines /First 7 0 R /Last 7 0 R /Count 1 >>"));
    let xref = original
        .windows(5)
        .position(|window| window == b"xref\n")
        .unwrap();
    assert!(
        update.contains(&format!(
            "trailer\n<< /Size 8 /Root 1 0 R /Prev {xref} /Info 5 0 R >>"
        )),
        "{update}"
    );
    let reopened = open_index(&pdf);
    assert!(reopened.has_outlines);
    assert_eq!(reopened.trailer_info, index.trailer_info);
}

#[test]
fn append_orphan_gap_scrubbing_spans_small_copy_chunks() {
    orphan_gap_scrubbing_spans_small_copy_chunks();
}

#[test]
fn tests_orphan_gap_scrubbing_spans_small_copy_chunks() {
    orphan_gap_scrubbing_spans_small_copy_chunks();
}

fn orphan_gap_scrubbing_spans_small_copy_chunks() {
    let gap = b"4 0 obj\r<\r\n";
    let original = classic_pdf(
        &[CATALOG, PAGES, PAGE, "(live but unreferenced)"],
        Some((4, gap)),
        "",
    );
    let at = original
        .windows(gap.len())
        .position(|window| window == gap)
        .unwrap();
    let limits = Limits {
        io_chunk_bytes: 4,
        ..Limits::default()
    };
    let mut index = open_index(&original);
    index.gap_patches.push(GapPatch {
        offset: at as u64,
        original: gap.to_vec(),
    });
    assert_eq!(index.gap_patches.len(), 1, "expected one orphan gap patch");
    let patch = &index.gap_patches[0];
    let start = patch.offset as usize;
    let end = start + patch.original.len();
    assert!(start <= at && patch.original.ends_with(gap));
    assert!(original[end..].starts_with(b"4 0 obj\n("));
    // More than two 4-byte chunks, so the scrub crosses chunk boundaries.
    assert!(patch.original.len() > 8);
    let mut sink = RecordingSink::default();
    let never = CancelAfter::never();
    let mut appender = begin(&original, &mut sink, &index, &limits, &never).unwrap();
    let report = finish(&mut appender, &mut sink, &never).unwrap();
    let mut expected = original.clone();
    expected[start..end].fill(b' ');
    assert_eq!(sink.bytes, expected);
    assert_eq!(report.output_bytes_written, expected.len() as u64);
    assert_eq!(report.bookmarks_written, 0);
}

#[test]
fn append_writer_refuses_new_bookmarks_after_an_output_failure() {
    writer_refuses_new_bookmarks_after_an_output_failure();
}

#[test]
fn tests_writer_refuses_new_bookmarks_after_an_output_failure() {
    writer_refuses_new_bookmarks_after_an_output_failure();
}

fn writer_refuses_new_bookmarks_after_an_output_failure() {
    let original = unoutlined_pdf();
    let limits = Limits::default();
    let never = CancelAfter::never();
    let index = open_index(&original);
    let mut sink = FailingSink {
        accepted: 0,
        remaining: original.len() + 3,
        fail_flush: false,
    };
    let mut appender = begin(&original, &mut sink, &index, &limits, &never).unwrap();
    add_bookmark(&mut appender, &mut sink, bookmark(0, "first", 0), &never).unwrap();
    // The second sibling emits the first item and exhausts the sink.
    assert!(matches!(
        add_bookmark(&mut appender, &mut sink, bookmark(0, "second", 0), &never),
        Err(Failure::Io(_))
    ));
    let retry = add_bookmark(&mut appender, &mut sink, bookmark(0, "third", 0), &never);
    let finish = finish(&mut appender, &mut sink, &never);
    for result in [retry, finish.map(|_| ())] {
        assert!(matches!(
            result,
            Err(Failure::Library(Error::InvalidInput {
                reason: "PDF append writer cannot continue after an output failure"
            }))
        ));
    }
    assert_eq!(sink.accepted, original.len() + 3);
}

#[test]
fn append_cancellation_around_the_final_flush_prevents_a_success_report() {
    cancellation_around_the_final_flush_prevents_a_success_report();
}

#[test]
fn tests_cancellation_around_the_final_flush_prevents_a_success_report() {
    cancellation_around_the_final_flush_prevents_a_success_report();
}

fn cancellation_around_the_final_flush_prevents_a_success_report() {
    let original = nested_outline_pdf();
    let copy = |allowed: u64| -> (Result<ConversionReport, Failure>, RecordingSink, u64) {
        let mut sink = RecordingSink::default();
        let cancellation = CancelAfter::new(allowed);
        let result = copy_pdf(&original, &mut sink, &Limits::default(), &cancellation);
        (result, sink, cancellation.queries())
    };
    let (result, sink, checks) = copy(u64::MAX);
    result.unwrap();
    assert_eq!(sink.bytes, original);
    assert_eq!(sink.flushes, 1);

    // The penultimate check precedes the flush; the last one follows it.
    let (before_flush, sink, _) = copy(checks - 2);
    assert!(matches!(
        before_flush,
        Err(Failure::Library(Error::Cancelled))
    ));
    assert_eq!(sink.bytes, original);
    assert_eq!(sink.flushes, 0);

    let (after_flush, sink, _) = copy(checks - 1);
    assert!(matches!(
        after_flush,
        Err(Failure::Library(Error::Cancelled))
    ));
    assert_eq!(sink.flushes, 1);
}

#[test]
fn append_append_writer_rejects_misordered_object_calls() {
    append_writer_rejects_misordered_object_calls();
}

#[test]
fn tests_append_writer_rejects_misordered_object_calls() {
    append_writer_rejects_misordered_object_calls();
}

fn append_writer_rejects_misordered_object_calls() {
    let limits = Limits::default();
    let reference = PdfRef {
        number: 7,
        generation: 0,
    };
    let mut writer = AppendWriter::new(&limits);
    let misuse = invalid("invalid PDF append object state or number");
    assert!(misuse(&writer.begin_object(PdfRef {
        number: 0,
        generation: 0,
    })));
    assert!(invalid("no PDF append object is open")(&writer.end_object()));
    writer.begin_object(reference).unwrap();
    assert!(misuse(&writer.begin_object(reference)));
    let open = invalid("PDF append object remains open");
    assert!(open(&writer.finish_copy(false)));
    writer.end_object().unwrap();
    assert_eq!(writer.take_output(), b"\n7 0 obj\n\nendobj\n");
}

#[test]
fn append_append_update_rejects_open_duplicate_and_oversized_state() {
    append_update_rejects_open_duplicate_and_oversized_state();
}

#[test]
fn tests_append_update_rejects_open_duplicate_and_oversized_state() {
    append_update_rejects_open_duplicate_and_oversized_state();
}

fn append_update_rejects_open_duplicate_and_oversized_state() {
    let limits = Limits::default();
    let index = open_index(&classic_pdf(&[CATALOG, PAGES, PAGE], None, ""));
    let reference = PdfRef {
        number: 4,
        generation: 0,
    };
    let mut writer = AppendWriter::new(&limits);
    writer.begin_object(reference).unwrap();
    assert!(invalid("PDF append object remains open")(
        &writer.finish_update(&index)
    ));
    writer.end_object().unwrap();
    writer.begin_object(reference).unwrap();
    writer.end_object().unwrap();
    assert!(invalid("PDF update defines an object twice")(
        &writer.finish_update(&index)
    ));

    let mut writer = AppendWriter::new(&limits);
    writer.position = MAX_CLASSIC_PDF_BYTES + 1;
    let oversized = writer.finish_update(&index);
    assert!(matches!(
        oversized,
        Err(Error::LimitExceeded {
            resource: "classic PDF file bytes",
            attempted,
            ..
        }) if attempted == MAX_CLASSIC_PDF_BYTES + 1
    ));

    let mut writer = AppendWriter::new(&limits);
    writer.entries.push(XrefEntry {
        reference,
        offset: MAX_CLASSIC_PDF_BYTES + 1,
    });
    let far_object = writer.finish_update(&index);
    assert!(matches!(
        far_object,
        Err(Error::LimitExceeded {
            resource: "classic PDF object offset",
            ..
        })
    ));
}

#[test]
fn copy_patches_rewrite_verified_bytes_across_chunks() {
    let gaps = [GapPatch {
        offset: 3,
        original: b"1 0".to_vec(),
    }];
    let mut patches = copy_patches(&[1], &gaps);
    let mut first = *b"a\rx1";
    patches.apply(&mut first, 0).unwrap();
    assert_eq!(&first, b"a\nx ");
    // The gap continues into the next chunk and must not be skipped.
    assert!(invalid("PDF orphan gap patch exceeds copied prefix")(
        &patches.check_consumed()
    ));
    let mut second = *b" 0z";
    patches.apply(&mut second, 4).unwrap();
    assert_eq!(&second, b"  z");
    patches.check_consumed().unwrap();
}

#[test]
fn copy_patches_refuse_changed_or_uncopied_bytes() {
    let expect = |result: Result<(), Error>, reason: &'static str| {
        assert!(invalid(reason)(&result), "{result:?}");
    };
    let mut patches = copy_patches(&[1], &[]);
    expect(
        patches.apply(&mut b"a\n".to_owned(), 0),
        "PDF stream separator changed after inspection",
    );
    let mut patches = copy_patches(&[4], &[]);
    patches.apply(&mut b"abc".to_owned(), 0).unwrap();
    expect(
        patches.check_consumed(),
        "PDF stream separator patch exceeds copied prefix",
    );

    let gaps = [GapPatch {
        offset: 1,
        original: b"xy".to_vec(),
    }];
    let mut patches = copy_patches(&[], &gaps);
    expect(
        patches.apply(&mut b"axz".to_owned(), 0),
        "PDF orphan gap changed after inspection",
    );
    let gaps = [GapPatch {
        offset: 8,
        original: b"xy".to_vec(),
    }];
    let mut patches = copy_patches(&[], &gaps);
    patches.apply(&mut b"abc".to_owned(), 0).unwrap();
    expect(
        patches.check_consumed(),
        "PDF orphan gap patch exceeds copied prefix",
    );
}

#[test]
fn refused_calls_write_nothing_and_refused_pieces_end_the_output() {
    let reference = PdfRef {
        number: 7,
        generation: 0,
    };
    let limits = Limits {
        max_output_bytes: 12,
        ..Limits::default()
    };
    let mut writer = AppendWriter::new(&limits);
    assert!(writer.end_object().is_err());
    assert_eq!(writer.take_output(), b"");
    let pieces = vec![b"ab".to_vec(), b"cd".to_vec(), b"e".to_vec()];
    assert_eq!(
        writer.write_object(reference, &pieces),
        Err(Error::LimitExceeded {
            resource: "output bytes",
            limit: 12,
            attempted: 13,
        })
    );
    assert_eq!(writer.take_output(), b"\n7 0 obj\nab");
    assert!(writer.write_object(reference, &pieces).is_err());
    assert_eq!(writer.take_output(), b"");
}

#[test]
fn a_changed_chunk_is_not_copied() {
    let original = unoutlined_pdf();
    let mut index = open_index(&original);
    index.stream_separator_patches = vec![10];
    let limits = Limits {
        io_chunk_bytes: 8,
        ..Limits::default()
    };
    let (mut copy, _) =
        PdfOutlineAppender::begin(&index, &limits, original.len() as u64).unwrap();
    let mut first = original[..8].to_vec();
    copy.accept(&mut first).unwrap();
    let mut second = original[8..16].to_vec();
    assert_ne!(second[2], b'\r');
    assert!(matches!(
        copy.accept(&mut second),
        Err(Error::InvalidInput {
            reason: "PDF stream separator changed after inspection"
        })
    ));
    assert_eq!(copy.writer.take_output(), original[..8].to_vec());
}

#[test]
fn a_failed_appender_finishes_without_output() {
    let original = unoutlined_pdf();
    let index = open_index(&original);
    let never = CancelAfter::never();
    let mut sink = RecordingSink::default();
    let mut appender = begin(&original, &mut sink, &index, &Limits::default(), &never).unwrap();
    appender.add_bookmark(bookmark(0, "kept", 0)).unwrap();
    appender.writer.fail();
    assert!(matches!(
        appender.finish(),
        Err(Error::InvalidInput {
            reason: "PDF append writer cannot continue after an output failure"
        })
    ));
    assert_eq!(appender.writer.take_output(), b"");
}
