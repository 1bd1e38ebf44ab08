//! Rebuilding PDFs from fragments, driven with in-memory sources and sinks.

use std::cell::Cell;

use caj2pdf_core::counting::count_pdf_read;
use caj2pdf_core::fragment::index::reconstruct_fragment_with_bookmarks;
use caj2pdf_core::fragment::inspection::{FragmentInspection, FragmentKind};
use caj2pdf_core::fragment::outline::MAX_OUTLINE_DEPTH;
use caj2pdf_core::fragment::output::Action;
use caj2pdf_core::fragment::page_tree::validate_existing_page_tree;
use caj2pdf_core::fragment::record::{
    malformed, pdf_error, FragmentObject, FragmentPlan, Record,
};
use caj2pdf_core::fragment::structure::validate_fragment_structure;
use caj2pdf_core::fragment::texts::{next_free_number, xref_entry};
use caj2pdf_core::types::{
    Bookmark, ConversionReport, Error, Limits, PdfErrorKind, PdfRange, PdfRef,
    MAX_CLASSIC_PDF_BYTES, MAX_PDF_OBJECTS,
};

trait Cancellation {
    fn is_cancelled(&self) -> bool;
}

struct Never;

const NEVER: Never = Never;

impl Cancellation for Never {
    fn is_cancelled(&self) -> bool {
        false
    }
}

/// Cancels once it has been asked `allowed` times.
struct CancelAfter {
    allowed: usize,
    asked: Cell<usize>,
}

impl CancelAfter {
    fn new(allowed: usize) -> Self {
        Self {
            allowed,
            asked: Cell::new(0),
        }
    }
}

impl Cancellation for CancelAfter {
    fn is_cancelled(&self) -> bool {
        let asked = self.asked.get();
        self.asked.set(asked + 1);
        asked >= self.allowed
    }
}

trait SequentialSink {
    fn write(&mut self, bytes: &[u8]) -> Result<usize, Error>;
    fn flush(&mut self) -> Result<(), Error>;
}

/// Byte segments placed at offsets of a sparse test source.
type Segments = Vec<(u64, Vec<u8>)>;

/// Reads return at most seven bytes and are counted; a sparse source is a
/// large virtual span of zero bytes with a few placed segments, read in full.
struct BytesSource {
    bytes: Vec<u8>,
    sparse: Option<(u64, Segments)>,
    over_report: bool,
    bytes_read: u64,
}

impl BytesSource {
    fn new(bytes: Vec<u8>) -> Self {
        Self {
            bytes,
            sparse: None,
            over_report: false,
            bytes_read: 0,
        }
    }

    fn sparse(size: u64, segments: Segments) -> Self {
        Self {
            sparse: Some((size, segments)),
            ..Self::new(Vec::new())
        }
    }

    fn size(&self) -> u64 {
        self.sparse
            .as_ref()
            .map_or(self.bytes.len() as u64, |(size, _)| *size)
    }

    fn read_at(&mut self, offset: u64, destination: &mut [u8]) -> usize {
        let copied = if let Some((size, segments)) = &self.sparse {
            let length = destination.len().min(size.saturating_sub(offset) as usize);
            let end = offset + length as u64;
            destination[..length].fill(0);
            for (start, bytes) in segments {
                let segment_end = start + bytes.len() as u64;
                let from = offset.max(*start);
                let to = end.min(segment_end);
                if from < to {
                    destination[(from - offset) as usize..(to - offset) as usize]
                        .copy_from_slice(&bytes[(from - start) as usize..(to - start) as usize]);
                }
            }
            length
        } else {
            let available = usize::try_from(offset)
                .ok()
                .and_then(|start| self.bytes.get(start..))
                .unwrap_or_default();
            let copied = available.len().min(destination.len()).min(7);
            destination[..copied].copy_from_slice(&available[..copied]);
            copied
        };
        self.bytes_read += copied as u64;
        if self.over_report {
            return destination.len() + 1;
        }
        copied
    }
}

#[derive(Default)]
struct BytesSink {
    bytes: Vec<u8>,
    fail_after: Option<usize>,
}

impl SequentialSink for BytesSink {
    fn write(&mut self, bytes: &[u8]) -> Result<usize, Error> {
        if self
            .fail_after
            .is_some_and(|threshold| self.bytes.len() >= threshold)
        {
            return Err(Error::InvalidInput {
                reason: "injected sink failure",
            });
        }
        let copied = bytes.len().min(11);
        self.bytes.extend_from_slice(&bytes[..copied]);
        Ok(copied)
    }

    fn flush(&mut self) -> Result<(), Error> {
        Ok(())
    }
}

fn run<T>(body: impl FnOnce() -> T) -> T {
    body()
}

/// Fill a buffer from a source, counting what was read.
fn read_exact<C: Cancellation>(
    source: &mut BytesSource,
    offset: u64,
    destination: &mut [u8],
    counted: &mut u64,
    cancellation: &C,
) -> Result<(), Error> {
    let mut done = 0;
    while done < destination.len() {
        if cancellation.is_cancelled() {
            return Err(Error::Cancelled);
        }
        let requested = destination.len() - done;
        let read = source.read_at(offset + done as u64, &mut destination[done..]);
        *counted = count_pdf_read(*counted, requested, read)?;
        if read == 0 {
            return Err(Error::TruncatedInput {
                offset: offset + done as u64,
                expected: requested as u64,
                available: 0,
            });
        }
        done += read;
    }
    Ok(())
}

/// Write everything, in the pieces that the sink takes.
fn write_all<W: SequentialSink, C: Cancellation>(
    sink: &mut W,
    bytes: &[u8],
    cancellation: &C,
) -> Result<(), Error> {
    let mut done = 0;
    while done < bytes.len() {
        if cancellation.is_cancelled() {
            return Err(Error::Cancelled);
        }
        done += sink.write(&bytes[done..])?;
    }
    Ok(())
}

/// The tokens of a small PDF value.
fn tokens(text: &str) -> Vec<String> {
    let mut spaced = String::new();
    for c in text.chars() {
        match c {
            '[' | ']' | '<' | '>' | '(' | ')' => {
                spaced.push(' ');
                spaced.push(c);
                spaced.push(' ');
            }
            '/' => {
                spaced.push(' ');
                spaced.push(c);
            }
            _ => spaced.push(c),
        }
    }
    spaced.split_whitespace().map(String::from).collect()
}

/// The reference that starts at a token.
fn reference_at(tokens: &[String], at: usize) -> Option<PdfRef> {
    let number = tokens.get(at)?.parse().ok()?;
    let generation = tokens.get(at + 1)?.parse().ok()?;
    if tokens.get(at + 2)? != "R" {
        return None;
    }
    Some(PdfRef { number, generation })
}

fn references_in(tokens: &[String]) -> Vec<PdfRef> {
    (0..tokens.len())
        .filter_map(|at| reference_at(tokens, at))
        .collect()
}

/// Where the value of a key starts.
fn value_of(tokens: &[String], key: &str) -> Option<usize> {
    tokens.iter().position(|token| token == key).map(|at| at + 1)
}

/// The references of a value: a single one, or a direct array.
fn value_references(tokens: &[String], at: usize) -> (Vec<PdfRef>, bool) {
    if tokens[at] == "[" {
        let end = at + tokens[at..].iter().position(|token| token == "]").unwrap();
        (references_in(&tokens[at..end]), true)
    } else {
        (reference_at(tokens, at).into_iter().collect(), false)
    }
}

/// The value of an object, without its framing and any stream data.
fn value_text(head: &[u8]) -> String {
    let text = String::from_utf8_lossy(head).into_owned();
    let start = text.find("obj\n").map_or(0, |at| at + 4);
    let value = &text[start..];
    let end = value
        .find("\nstream\n")
        .or_else(|| value.find("\nendobj"))
        .unwrap_or(value.len());
    value[..end].to_string()
}

/// The start of an object, long enough for every value in these tests.
fn read_head<C: Cancellation>(
    source: &mut BytesSource,
    record: Record,
    counted: &mut u64,
    cancellation: &C,
) -> Result<Vec<u8>, Error> {
    let mut head = vec![0; record.range.length.min(4096) as usize];
    read_exact(source, record.range.offset, &mut head, counted, cancellation)?;
    Ok(head)
}

/// What a reader finds in one object. Stream data is checked to end where the
/// resolved length says.
fn inspect<C: Cancellation>(
    source: &mut BytesSource,
    record: Record,
    resolve: impl Fn(PdfRef) -> Option<u64>,
    counted: &mut u64,
    cancellation: &C,
) -> Result<FragmentInspection, Error> {
    let head = read_head(source, record, counted, cancellation)?;
    let text = value_text(&head);
    let tokens = tokens(&text);
    let references = references_in(&tokens);
    let is_stream = head.windows(8).any(|window| window == b"\nstream\n");
    if is_stream {
        let at = value_of(&tokens, "/Length").unwrap();
        let length = match reference_at(&tokens, at) {
            Some(reference) => resolve(reference),
            None => tokens[at].parse().ok(),
        };
        let start = head.windows(8).position(|window| window == b"\nstream\n").unwrap() as u64 + 8;
        let mut tail = vec![0; 10];
        let placed = length.is_some_and(|length| start + length + 10 <= record.range.length);
        if placed {
            let at = record.range.offset + start + length.unwrap_or(0);
            read_exact(source, at, &mut tail, counted, cancellation)?;
        }
        if !tail.starts_with(b"endstream") && tail != b"\nendstream" {
            return Err(malformed(
                Some(record.reference),
                record.range.offset,
                "stream length does not reach its endstream",
            ));
        }
    }
    let has_media_box = value_of(&tokens, "/MediaBox").is_some();
    let parent = value_of(&tokens, "/Parent").and_then(|at| reference_at(&tokens, at));
    let kind = match value_of(&tokens, "/Type").map(|at| tokens[at].as_str()) {
        Some("/Page") => FragmentKind::Page {
            parent: parent.unwrap(),
            has_media_box,
        },
        Some("/Pages") => FragmentKind::Pages {
            parent,
            count: tokens[value_of(&tokens, "/Count").unwrap()].parse().unwrap(),
            kids: value_references(&tokens, value_of(&tokens, "/Kids").unwrap()).0,
            has_media_box,
        },
        Some("/Catalog") => FragmentKind::Catalog {
            pages: reference_at(&tokens, value_of(&tokens, "/Pages").unwrap()).unwrap(),
        },
        _ => FragmentKind::Other,
    };
    let destination = match (value_of(&tokens, "/Title"), value_of(&tokens, "/Dest")) {
        (Some(_), Some(at)) if tokens[at] == "[" => reference_at(&tokens, at + 1),
        (Some(_), Some(_)) => {
            return Err(pdf_error(
                Some(record.reference),
                record.range.offset,
                PdfErrorKind::UnsupportedFeature,
                "named destinations are not supported",
            ));
        }
        _ => None,
    };
    let contents = match (&kind, value_of(&tokens, "/Contents")) {
        (FragmentKind::Page { .. }, Some(at)) => Some(value_references(&tokens, at)),
        _ => None,
    };
    Ok(FragmentInspection {
        reference: record.reference,
        max_referenced_object: references.iter().map(|found| found.number).max().unwrap_or(0),
        references: references.clone(),
        destination,
        kind,
        contents_is_direct_array: contents.as_ref().is_some_and(|(_, direct)| *direct),
        contents: contents.map(|(references, _)| references),
        scalar_reference_array: if text.starts_with('[') {
            Some(references)
        } else {
            None
        },
        is_stream,
    })
}

/// Run a reconstruction over a source and a sink.
fn rebuild_with_bookmarks<W: SequentialSink, C: Cancellation>(
    source: &mut BytesSource,
    sink: &mut W,
    plan: &FragmentPlan<'_>,
    bookmarks: &[Bookmark],
    limits: &Limits,
    cancellation: &C,
) -> Result<ConversionReport, Error> {
    let mut counted = 0;
    let index = reconstruct_fragment_with_bookmarks(
        plan,
        bookmarks,
        limits,
        source.size(),
        cancellation.is_cancelled(),
    )?;
    let mut scalars = validate_fragment_structure(index)?;
    while let Some(record) = scalars.next() {
        let head = read_head(source, record, &mut counted, cancellation)?;
        scalars.accept(value_text(&head).trim().parse().ok());
    }
    let mut objects = scalars.into_objects()?;
    while let Some(record) = objects.next_object() {
        let inspection = inspect(
            source,
            record,
            |reference| objects.resolve_length(reference),
            &mut counted,
            cancellation,
        )?;
        objects.accept_object(inspection)?;
    }
    let (layout, mut buffer) = objects.finish()?.lay_out()?;
    let mut output = layout.begin();
    loop {
        match output.next(&mut buffer, cancellation.is_cancelled())? {
            Action::Write => {
                assert!(!buffer.is_empty());
                write_all(sink, &buffer, cancellation)?;
            }
            Action::Copy { offset, length } => {
                buffer.clear();
                buffer.resize(length, 0);
                read_exact(source, offset, &mut buffer, &mut counted, cancellation)?;
                write_all(sink, &buffer, cancellation)?;
            }
            Action::Flush => {
                sink.flush()?;
                break;
            }
        }
    }
    output.finish(counted, cancellation.is_cancelled())
}

fn rebuild<W: SequentialSink, C: Cancellation>(
    source: &mut BytesSource,
    sink: &mut W,
    plan: &FragmentPlan<'_>,
    limits: &Limits,
    cancellation: &C,
) -> Result<ConversionReport, Error> {
    rebuild_with_bookmarks(source, sink, plan, &[], limits, cancellation)
}

/// The value of an object of a finished file, found through its xref table.
fn object_tokens(file: &[u8], number: u32) -> Vec<String> {
    let text = String::from_utf8_lossy(file).into_owned();
    let start: usize = text
        .rsplit("startxref\n")
        .next()
        .unwrap()
        .lines()
        .next()
        .unwrap()
        .parse()
        .unwrap();
    let table = &file[start..];
    assert!(table.starts_with(b"xref\n0 "));
    let rows = table.iter().skip(5).position(|byte| *byte == b'\n').unwrap() + 6;
    let row = &table[rows + 20 * number as usize..][..20];
    assert_eq!(row[17], b'n');
    let offset: usize = String::from_utf8_lossy(&row[..10]).parse().unwrap();
    assert!(file[offset..].starts_with(format!("{number} 0 obj\n").as_bytes()));
    let object = &file[offset..];
    let end = object.windows(7).position(|window| window == b"\nendobj").unwrap();
    tokens(&value_text(&object[..end]))
}

fn collect_pages(file: &[u8], node: u32, pages: &mut Vec<PdfRef>) {
    let value = object_tokens(file, node);
    match value_of(&value, "/Kids") {
        Some(at) => {
            for kid in value_references(&value, at).0 {
                collect_pages(file, kid.number, pages);
            }
        }
        None => pages.push(reference(node)),
    }
}

/// The pages of a finished file in order, and whether it has an outline whose
/// items are all present.
fn read_back(file: &[u8]) -> (Vec<PdfRef>, bool) {
    let text = String::from_utf8_lossy(file).into_owned();
    let trailer = tokens(text.rsplit("trailer\n").next().unwrap());
    let root = reference_at(&trailer, value_of(&trailer, "/Root").unwrap()).unwrap();
    let catalog = object_tokens(file, root.number);
    let tree = reference_at(&catalog, value_of(&catalog, "/Pages").unwrap()).unwrap();
    let mut pages = Vec::new();
    collect_pages(file, tree.number, &mut pages);
    let outlined = value_of(&catalog, "/Outlines").is_some_and(|at| {
        let root = reference_at(&catalog, at).unwrap();
        let value = object_tokens(file, root.number);
        let first = value_of(&value, "/First").and_then(|at| reference_at(&value, at));
        object_tokens(file, first.unwrap().number).contains(&String::from("/Title"))
    });
    (pages, outlined)
}

fn reference(number: u32) -> PdfRef {
    PdfRef {
        number,
        generation: 0,
    }
}

fn add_object(source: &mut Vec<u8>, number: u32, body: &[u8]) -> FragmentObject {
    let offset = source.len() as u64;
    source.extend_from_slice(format!("{number} 0 obj\n").as_bytes());
    source.extend_from_slice(body);
    source.extend_from_slice(b"\nendobj\n");
    FragmentObject {
        reference: reference(number),
        range: PdfRange {
            offset,
            length: source.len() as u64 - offset,
        },
    }
}

fn two_page_fragment() -> (BytesSource, Vec<FragmentObject>, Vec<PdfRef>) {
    let mut bytes = b"CAJ\0unrelated metadata\n".to_vec();
    let second = add_object(
        &mut bytes,
        9,
        b"<< /Type /Page /Parent 5 0 R /MediaBox [0 0 400 250] /Resources << >> >>",
    );
    let first = add_object(
        &mut bytes,
        3,
        b"<< /Type /Page /Parent 5 0 R /MediaBox [0 0 200 300] /Resources << >> >>",
    );
    let fake_markers = b"endobj\nxref\nstartxref\n%%EOF\n";
    let scalar = add_object(&mut bytes, 4, fake_markers.len().to_string().as_bytes());
    let mut stream_body = b"<< /Length 4 0 R >>\nstream\n".to_vec();
    stream_body.extend_from_slice(fake_markers);
    stream_body.extend_from_slice(b"\nendstream");
    let stream = add_object(&mut bytes, 6, &stream_body);
    (
        BytesSource::new(bytes),
        vec![second, first, scalar, stream],
        vec![reference(9), reference(3)],
    )
}

fn existing_tree_fragment() -> (BytesSource, Vec<FragmentObject>, Vec<PdfRef>) {
    let mut bytes = b"CAJ\0object fragments\n".to_vec();
    let first = add_object(
        &mut bytes,
        9,
        b"<< /Type /Page /Parent 5 0 R /MediaBox [0 0 200 300] /Resources << >> >>",
    );
    let catalog = add_object(&mut bytes, 1, b"<< /Type /Catalog /Pages 5 0 R >>");
    let second = add_object(
        &mut bytes,
        3,
        b"<< /Type /Page /Parent 7 0 R /MediaBox [0 0 400 250] /Resources << >> >>",
    );
    let branch = add_object(
        &mut bytes,
        7,
        b"<< /Type /Pages /Parent 5 0 R /Count 1 /Kids [3 0 R] >>",
    );
    let root = add_object(
        &mut bytes,
        5,
        b"<< /Type /Pages /Count 2 /Kids [9 0 R 7 0 R] >>",
    );
    (
        BytesSource::new(bytes),
        vec![first, catalog, second, branch, root],
        vec![reference(9), reference(3)],
    )
}

fn replace_in_object(source: &mut BytesSource, object: FragmentObject, from: &[u8], to: &[u8]) {
    assert_eq!(from.len(), to.len());
    let start = object.range.offset as usize;
    let end = start + object.range.length as usize;
    let relative = source.bytes[start..end]
        .windows(from.len())
        .position(|window| window == from)
        .expect("test token is present");
    source.bytes[start + relative..start + relative + to.len()].copy_from_slice(to);
}

#[test]
fn fragment_sparse_out_of_order_objects_use_explicit_page_order() {
    sparse_out_of_order_objects_use_explicit_page_order();
}

#[test]
fn tests_sparse_out_of_order_objects_use_explicit_page_order() {
    sparse_out_of_order_objects_use_explicit_page_order();
}

fn sparse_out_of_order_objects_use_explicit_page_order() {
    run(|| {
        let (mut source, objects, pages) = two_page_fragment();
        let mut sink = BytesSink::default();
        let plan = FragmentPlan {
            objects: &objects,
            pages: &pages,
            pages_root: reference(5),
            catalog: None,
        };
        let report =
            rebuild(&mut source, &mut sink, &plan, &Limits::default(), &NEVER)?;
        assert_eq!(report.pages_converted, 2);
        assert_eq!(report.output_bytes_written, sink.bytes.len() as u64);
        let pdf = String::from_utf8_lossy(&sink.bytes);
        assert!(pdf.starts_with("%PDF-1.7"));
        assert!(pdf.contains("/Kids [9 0 R 3 0 R ]"));
        assert!(pdf.contains("/Root 10 0 R"));
        assert!(pdf.contains("xref\n0 11\n"));
        Ok::<(), Error>(())
    })
    .unwrap();
}

#[test]
fn fragment_input_report_counts_validation_and_copy_reads() {
    input_report_counts_validation_and_copy_reads();
}

#[test]
fn tests_input_report_counts_validation_and_copy_reads() {
    input_report_counts_validation_and_copy_reads();
}

fn input_report_counts_validation_and_copy_reads() {
    run(|| {
        let (mut source, objects, pages) = two_page_fragment();
        let mut sink = BytesSink::default();
        let plan = FragmentPlan {
            objects: &objects,
            pages: &pages,
            pages_root: reference(5),
            catalog: None,
        };
        let report =
            rebuild(&mut source, &mut sink, &plan, &Limits::default(), &NEVER)?;
        assert_eq!(report.input_bytes_read, source.bytes_read);
        assert!(
            report.input_bytes_read
                > objects
                    .iter()
                    .map(|object| object.range.length)
                    .sum::<u64>()
        );
        Ok::<(), Error>(())
    })
    .unwrap();
}

#[test]
fn fragment_existing_nested_pages_and_catalog_are_preserved() {
    existing_nested_pages_and_catalog_are_preserved();
}

#[test]
fn tests_existing_nested_pages_and_catalog_are_preserved() {
    existing_nested_pages_and_catalog_are_preserved();
}

fn existing_nested_pages_and_catalog_are_preserved() {
    run(|| {
        let (mut source, objects, pages) = existing_tree_fragment();
        let mut sink = BytesSink::default();
        let plan = FragmentPlan {
            objects: &objects,
            pages: &pages,
            pages_root: reference(5),
            catalog: Some(reference(1)),
        };
        let report =
            rebuild(&mut source, &mut sink, &plan, &Limits::default(), &NEVER)?;
        assert_eq!(report.pages_converted, 2);
        let pdf = String::from_utf8_lossy(&sink.bytes);
        assert!(pdf.contains("/Root 1 0 R"));
        assert_eq!(pdf.matches("/Type /Catalog").count(), 1);
        assert_eq!(pdf.matches("/Type /Pages").count(), 2);
        Ok::<(), Error>(())
    })
    .unwrap();
}

#[test]
fn fragment_existing_pages_can_gain_catalog_and_missing_pages_can_keep_catalog() {
    existing_pages_can_gain_catalog_and_missing_pages_can_keep_catalog();
}

#[test]
fn tests_existing_pages_can_gain_catalog_and_missing_pages_can_keep_catalog() {
    existing_pages_can_gain_catalog_and_missing_pages_can_keep_catalog();
}

fn existing_pages_can_gain_catalog_and_missing_pages_can_keep_catalog() {
    run(|| {
        let (mut source, objects, pages) = existing_tree_fragment();
        let without_catalog: Vec<_> = objects
            .iter()
            .copied()
            .filter(|object| object.reference != reference(1))
            .collect();
        let mut sink = BytesSink::default();
        let plan = FragmentPlan {
            objects: &without_catalog,
            pages: &pages,
            pages_root: reference(5),
            catalog: None,
        };
        rebuild(&mut source, &mut sink, &plan, &Limits::default(), &NEVER)?;
        assert!(String::from_utf8_lossy(&sink.bytes).contains("/Root 10 0 R"));

        let mut bytes = b"CAJ\0".to_vec();
        let page = add_object(
            &mut bytes,
            9,
            b"<< /Type /Page /Parent 5 0 R /MediaBox [0 0 200 300] /Resources << >> >>",
        );
        let catalog = add_object(&mut bytes, 1, b"<< /Type /Catalog /Pages 5 0 R >>");
        let mut source = BytesSource::new(bytes);
        let objects = [page, catalog];
        let pages = [reference(9)];
        let mut sink = BytesSink::default();
        let plan = FragmentPlan {
            objects: &objects,
            pages: &pages,
            pages_root: reference(5),
            catalog: Some(reference(1)),
        };
        rebuild(&mut source, &mut sink, &plan, &Limits::default(), &NEVER)?;
        let pdf = String::from_utf8_lossy(&sink.bytes);
        assert!(pdf.contains("/Root 1 0 R"));
        assert!(pdf.contains("/Kids [9 0 R ]"));
        Ok::<(), Error>(())
    })
    .unwrap();
}

#[test]
fn fragment_malformed_page_tree_links_counts_cycles_and_catalog_fail_before_output() {
    malformed_page_tree_links_counts_cycles_and_catalog_fail_before_output();
}

#[test]
fn tests_malformed_page_tree_links_counts_cycles_and_catalog_fail_before_output() {
    malformed_page_tree_links_counts_cycles_and_catalog_fail_before_output();
}

fn malformed_page_tree_links_counts_cycles_and_catalog_fail_before_output() {
    run(|| {
        for case in 0..6 {
            let (mut source, objects, mut pages) = existing_tree_fragment();
            let mut catalog = Some(reference(1));
            let expected = match case {
                0 => {
                    replace_in_object(&mut source, objects[4], b"/Count 2", b"/Count 3");
                    PdfErrorKind::Malformed
                }
                1 => {
                    replace_in_object(&mut source, objects[2], b"/Parent 7", b"/Parent 5");
                    PdfErrorKind::Malformed
                }
                2 => {
                    replace_in_object(
                        &mut source,
                        objects[4],
                        b"/Kids [9 0 R 7 0 R]",
                        b"/Kids [9 0 R 5 0 R]",
                    );
                    PdfErrorKind::Malformed
                }
                3 => {
                    pages.reverse();
                    PdfErrorKind::AmbiguousRepair
                }
                4 => {
                    replace_in_object(&mut source, objects[1], b"/Pages 5", b"/Pages 7");
                    PdfErrorKind::Malformed
                }
                _ => {
                    catalog = None;
                    PdfErrorKind::AmbiguousRepair
                }
            };
            let mut sink = BytesSink::default();
            let plan = FragmentPlan {
                objects: &objects,
                pages: &pages,
                pages_root: reference(5),
                catalog,
            };
            let error =
                rebuild(&mut source, &mut sink, &plan, &Limits::default(), &NEVER)
                    .unwrap_err();
            assert!(
                matches!(error, Error::Pdf { kind, .. } if kind == expected),
                "case {case}: {error:?}"
            );
            assert!(sink.bytes.is_empty());
        }
    });
}

#[test]
fn fragment_ambiguous_parent_and_repeated_pages_fail_before_writing() {
    ambiguous_parent_and_repeated_pages_fail_before_writing();
}

#[test]
fn tests_ambiguous_parent_and_repeated_pages_fail_before_writing() {
    ambiguous_parent_and_repeated_pages_fail_before_writing();
}

fn ambiguous_parent_and_repeated_pages_fail_before_writing() {
    run(|| {
        let (mut source, objects, pages) = two_page_fragment();
        let mut sink = BytesSink::default();
        let wrong_root = FragmentPlan {
            objects: &objects,
            pages: &pages,
            pages_root: reference(7),
            catalog: None,
        };
        assert!(matches!(
            rebuild(
                &mut source,
                &mut sink,
                &wrong_root,
                &Limits::default(),
                &NEVER,
            ),
            Err(Error::Pdf { .. })
        ));
        assert!(sink.bytes.is_empty());

        let repeated = [pages[0], pages[0]];
        let plan = FragmentPlan {
            objects: &objects,
            pages: &repeated,
            pages_root: reference(5),
            catalog: None,
        };
        assert!(matches!(
            rebuild(&mut source, &mut sink, &plan, &Limits::default(), &NEVER,),
            Err(Error::Pdf {
                kind: PdfErrorKind::AmbiguousRepair,
                ..
            })
        ));
        assert!(sink.bytes.is_empty());
    });
}

#[test]
fn fragment_a_sink_failure_never_returns_a_success_report() {
    a_sink_failure_never_returns_a_success_report();
}

#[test]
fn tests_a_sink_failure_never_returns_a_success_report() {
    a_sink_failure_never_returns_a_success_report();
}

fn a_sink_failure_never_returns_a_success_report() {
    run(|| {
        let (mut source, objects, pages) = two_page_fragment();
        let mut sink = BytesSink {
            fail_after: Some(60),
            ..BytesSink::default()
        };
        let plan = FragmentPlan {
            objects: &objects,
            pages: &pages,
            pages_root: reference(5),
            catalog: None,
        };
        assert!(matches!(
            rebuild(&mut source, &mut sink, &plan, &Limits::default(), &NEVER,),
            Err(Error::InvalidInput {
                reason: "injected sink failure"
            })
        ));
        assert!(!sink.bytes.is_empty());
    });
}

#[test]
fn fragment_malformed_indirect_stream_length_fails_before_output() {
    malformed_indirect_stream_length_fails_before_output();
}

#[test]
fn tests_malformed_indirect_stream_length_fails_before_output() {
    malformed_indirect_stream_length_fails_before_output();
}

fn malformed_indirect_stream_length_fails_before_output() {
    run(|| {
        let (mut source, objects, pages) = two_page_fragment();
        let scalar_offset = objects[2].range.offset as usize + b"4 0 obj\n".len();
        source.bytes[scalar_offset] = b'1';
        let mut sink = BytesSink::default();
        let plan = FragmentPlan {
            objects: &objects,
            pages: &pages,
            pages_root: reference(5),
            catalog: None,
        };
        assert!(matches!(
            rebuild(&mut source, &mut sink, &plan, &Limits::default(), &NEVER,),
            Err(Error::Pdf {
                kind: PdfErrorKind::Malformed,
                ..
            })
        ));
        assert!(sink.bytes.is_empty());
    });
}

#[test]
fn output_limit_is_preflighted_before_sink_write() {
    let (mut source, objects, pages) = two_page_fragment();
    let mut sink = BytesSink::default();
    let plan = plan(&objects, &pages);
    let limits = Limits {
        max_output_bytes: 100,
        ..Limits::default()
    };
    assert!(matches!(
        rebuild(&mut source, &mut sink, &plan, &limits, &NEVER),
        Err(Error::PdfLimitExceeded {
            resource: "output bytes",
            ..
        })
    ));
    assert!(sink.bytes.is_empty());
}

#[test]
fn input_and_output_limits_are_preflighted_before_sink_write() {
    run(|| {
        let (mut source, objects, pages) = two_page_fragment();
        let mut sink = BytesSink::default();
        let plan = FragmentPlan {
            objects: &objects,
            pages: &pages,
            pages_root: reference(5),
            catalog: None,
        };
        let limits = Limits {
            max_output_bytes: 100,
            ..Limits::default()
        };
        assert!(matches!(
            rebuild(&mut source, &mut sink, &plan, &limits, &NEVER),
            Err(Error::PdfLimitExceeded {
                resource: "output bytes",
                ..
            })
        ));
        assert!(sink.bytes.is_empty());

        // The summed object spans are charged against the input limit.
        let first = objects[0].range.length;
        let limits = Limits {
            max_input_bytes: first,
            ..Limits::default()
        };
        let error = rebuild(&mut source, &mut sink, &plan, &limits, &NEVER)
            .unwrap_err();
        assert!(
            matches!(
                error,
                Error::PdfLimitExceeded {
                    object: Some((number, 0)),
                    resource: "input bytes",
                    limit,
                    attempted,
                    ..
                } if number == objects[1].reference.number
                    && limit == first
                    && attempted == first + objects[1].range.length
            ),
            "{error:?}"
        );
        assert!(sink.bytes.is_empty());
    });
}

#[test]
fn fragment_outline_destinations_must_target_ordered_pages() {
    outline_destinations_must_target_ordered_pages();
}

#[test]
fn tests_outline_destinations_must_target_ordered_pages() {
    outline_destinations_must_target_ordered_pages();
}

fn outline_destinations_must_target_ordered_pages() {
    run(|| {
        let (mut source, mut objects, pages) = two_page_fragment();
        let wrong_destination = add_object(
            &mut source.bytes,
            12,
            b"<< /Title (Wrong) /Dest [4 0 R /Fit] >>",
        );
        objects.push(wrong_destination);
        let mut sink = BytesSink::default();
        let plan = FragmentPlan {
            objects: &objects,
            pages: &pages,
            pages_root: reference(5),
            catalog: None,
        };
        assert!(matches!(
            rebuild(&mut source, &mut sink, &plan, &Limits::default(), &NEVER,),
            Err(Error::Pdf {
                kind: PdfErrorKind::Malformed,
                reason: "outline destination does not target an ordered Page object",
                ..
            })
        ));
        assert!(sink.bytes.is_empty());

        let (mut source, mut objects, pages) = two_page_fragment();
        objects.push(add_object(
            &mut source.bytes,
            12,
            b"<< /Title (Named) /Dest (named-destination) >>",
        ));
        let plan = FragmentPlan {
            objects: &objects,
            pages: &pages,
            pages_root: reference(5),
            catalog: None,
        };
        assert!(matches!(
            rebuild(&mut source, &mut sink, &plan, &Limits::default(), &NEVER,),
            Err(Error::Pdf {
                kind: PdfErrorKind::UnsupportedFeature,
                ..
            })
        ));
        assert!(sink.bytes.is_empty());
    });
}

#[test]
fn fragment_outline_count_limit_is_checked_before_writing() {
    outline_count_limit_is_checked_before_writing();
}

#[test]
fn tests_outline_count_limit_is_checked_before_writing() {
    outline_count_limit_is_checked_before_writing();
}

fn outline_count_limit_is_checked_before_writing() {
    run(|| {
        let (mut source, mut objects, pages) = two_page_fragment();
        let outline = add_object(
            &mut source.bytes,
            12,
            b"<< /Title (Valid) /Dest [9 0 R /Fit] >>",
        );
        objects.push(outline);
        let plan = FragmentPlan {
            objects: &objects,
            pages: &pages,
            pages_root: reference(5),
            catalog: None,
        };
        let mut sink = BytesSink::default();
        let limits = Limits {
            max_bookmarks: 0,
            ..Limits::default()
        };
        assert!(matches!(
            rebuild(&mut source, &mut sink, &plan, &limits, &NEVER),
            Err(Error::PdfLimitExceeded {
                resource: "bookmarks",
                offset,
                object: Some((12, 0)),
                ..
            }) if offset == outline.range.offset
        ));
        assert!(sink.bytes.is_empty());
    });
}

#[test]
fn fragment_one_byte_io_chunks_still_finish_with_bounded_output() {
    one_byte_io_chunks_still_finish_with_bounded_output();
}

#[test]
fn tests_one_byte_io_chunks_still_finish_with_bounded_output() {
    one_byte_io_chunks_still_finish_with_bounded_output();
}

fn one_byte_io_chunks_still_finish_with_bounded_output() {
    run(|| {
        let (mut source, objects, pages) = two_page_fragment();
        let mut sink = BytesSink::default();
        let limits = Limits {
            io_chunk_bytes: 1,
            ..Limits::default()
        };
        let plan = FragmentPlan {
            objects: &objects,
            pages: &pages,
            pages_root: reference(5),
            catalog: None,
        };
        let report = rebuild(&mut source, &mut sink, &plan, &limits, &NEVER)?;
        assert_eq!(report.pages_converted, 2);
        assert_eq!(report.output_bytes_written, sink.bytes.len() as u64);
        Ok::<(), Error>(())
    })
    .unwrap();
}

#[test]
fn fragment_duplicate_overlapping_and_truncated_spans_fail_before_output() {
    duplicate_overlapping_and_truncated_spans_fail_before_output();
}

#[test]
fn tests_duplicate_overlapping_and_truncated_spans_fail_before_output() {
    duplicate_overlapping_and_truncated_spans_fail_before_output();
}

fn duplicate_overlapping_and_truncated_spans_fail_before_output() {
    run(|| {
        for case in 0..3 {
            let (mut source, mut objects, pages) = two_page_fragment();
            match case {
                0 => objects[1].reference = objects[0].reference,
                1 => objects[1].range.offset = objects[0].range.offset + 1,
                _ => objects[1].range.length = source.size(),
            }
            let mut sink = BytesSink::default();
            let plan = FragmentPlan {
                objects: &objects,
                pages: &pages,
                pages_root: reference(5),
                catalog: None,
            };
            let error =
                rebuild(&mut source, &mut sink, &plan, &Limits::default(), &NEVER)
                    .unwrap_err();
            assert!(
                matches!(error, Error::Pdf { .. } | Error::TruncatedInput { .. }),
                "case {case}: {error:?}"
            );
            assert!(sink.bytes.is_empty());
        }
    });
}

#[test]
fn fragment_missing_reference_generation_and_memory_limit_are_typed() {
    missing_reference_generation_and_memory_limit_are_typed();
}

#[test]
fn tests_missing_reference_generation_and_memory_limit_are_typed() {
    missing_reference_generation_and_memory_limit_are_typed();
}

fn missing_reference_generation_and_memory_limit_are_typed() {
    run(|| {
        let (mut source, mut objects, pages) = two_page_fragment();
        objects.push(add_object(&mut source.bytes, 12, b"<< /Contents 77 0 R >>"));
        let mut sink = BytesSink::default();
        let plan = FragmentPlan {
            objects: &objects,
            pages: &pages,
            pages_root: reference(5),
            catalog: None,
        };
        assert!(matches!(
            rebuild(&mut source, &mut sink, &plan, &Limits::default(), &NEVER,),
            Err(Error::Pdf {
                kind: PdfErrorKind::Malformed,
                reason: "indirect reference targets a missing object",
                ..
            })
        ));
        assert!(sink.bytes.is_empty());

        let (mut source, mut objects, pages) = two_page_fragment();
        objects[0].reference.generation = 1;
        let plan = FragmentPlan {
            objects: &objects,
            pages: &pages,
            pages_root: reference(5),
            catalog: None,
        };
        assert!(matches!(
            rebuild(&mut source, &mut sink, &plan, &Limits::default(), &NEVER,),
            Err(Error::Pdf {
                kind: PdfErrorKind::UnsupportedFeature,
                ..
            })
        ));
        assert!(sink.bytes.is_empty());

        let (mut source, objects, pages) = two_page_fragment();
        let limits = Limits {
            io_chunk_bytes: 16,
            max_allocation_bytes: 64,
            ..Limits::default()
        };
        let plan = FragmentPlan {
            objects: &objects,
            pages: &pages,
            pages_root: reference(5),
            catalog: None,
        };
        assert!(matches!(
            rebuild(&mut source, &mut sink, &plan, &limits, &NEVER),
            Err(Error::PdfLimitExceeded {
                resource: "PDF allocation bytes",
                object: Some((9, 0)),
                ..
            })
        ));
        assert!(sink.bytes.is_empty());
    });
}

#[test]
fn fragment_empty_pages_missing_roots_and_invalid_ids_reject_without_output() {
    empty_pages_missing_roots_and_invalid_ids_reject_without_output();
}

#[test]
fn tests_empty_pages_missing_roots_and_invalid_ids_reject_without_output() {
    empty_pages_missing_roots_and_invalid_ids_reject_without_output();
}

fn empty_pages_missing_roots_and_invalid_ids_reject_without_output() {
    run(|| {
        for case in 0..5 {
            let (mut source, objects, pages) = two_page_fragment();
            let mut requested = pages.clone();
            let mut root = reference(5);
            let mut catalog = None;
            match case {
                0 => requested.clear(),
                1 => requested[1] = reference(77),
                2 => catalog = Some(reference(11)),
                3 => root = reference(0),
                _ => root = reference(MAX_PDF_OBJECTS + 1),
            }
            let plan = FragmentPlan {
                objects: &objects,
                pages: &requested,
                pages_root: root,
                catalog,
            };
            let mut sink = BytesSink::default();
            assert!(
                rebuild(&mut source, &mut sink, &plan, &Limits::default(), &NEVER,)
                    .is_err(),
                "case {case} unexpectedly succeeded"
            );
            assert!(sink.bytes.is_empty());
        }
    });
}

#[test]
fn fragment_missing_root_rejects_nested_nodes_and_non_page_kids() {
    missing_root_rejects_nested_nodes_and_non_page_kids();
}

#[test]
fn tests_missing_root_rejects_nested_nodes_and_non_page_kids() {
    missing_root_rejects_nested_nodes_and_non_page_kids();
}

fn missing_root_rejects_nested_nodes_and_non_page_kids() {
    run(|| {
        let (mut source, mut objects, pages) = two_page_fragment();
        objects.push(add_object(
            &mut source.bytes,
            7,
            b"<< /Type /Pages /Parent 5 0 R /Count 1 /Kids [9 0 R] >>",
        ));
        let plan = FragmentPlan {
            objects: &objects,
            pages: &pages,
            pages_root: reference(5),
            catalog: None,
        };
        let mut sink = BytesSink::default();
        assert!(matches!(
            rebuild(&mut source, &mut sink, &plan, &Limits::default(), &NEVER,),
            Err(Error::Pdf {
                kind: PdfErrorKind::AmbiguousRepair,
                ..
            })
        ));
        assert!(sink.bytes.is_empty());

        let (mut source, objects, mut pages) = two_page_fragment();
        pages[0] = reference(4);
        let plan = FragmentPlan {
            objects: &objects,
            pages: &pages,
            pages_root: reference(5),
            catalog: None,
        };
        assert!(matches!(
            rebuild(&mut source, &mut sink, &plan, &Limits::default(), &NEVER,),
            Err(Error::Pdf {
                kind: PdfErrorKind::Malformed,
                ..
            })
        ));
        assert!(sink.bytes.is_empty());
    });
}

#[test]
fn fragment_existing_tree_rejects_empty_count_over_limit_and_non_page_child() {
    existing_tree_rejects_empty_count_over_limit_and_non_page_child();
}

#[test]
fn tests_existing_tree_rejects_empty_count_over_limit_and_non_page_child() {
    existing_tree_rejects_empty_count_over_limit_and_non_page_child();
}

fn existing_tree_rejects_empty_count_over_limit_and_non_page_child() {
    run(|| {
        for case in 0..3 {
            let (mut source, objects, pages) = existing_tree_fragment();
            let mut limits = Limits::default();
            match case {
                0 => replace_in_object(&mut source, objects[4], b"/Count 2", b"/Count 0"),
                1 => {
                    replace_in_object(&mut source, objects[4], b"/Count 2", b"/Count 3");
                    limits.max_pages = 2;
                }
                _ => replace_in_object(
                    &mut source,
                    objects[4],
                    b"/Kids [9 0 R 7 0 R]",
                    b"/Kids [9 0 R 1 0 R]",
                ),
            }
            let mut sink = BytesSink::default();
            let plan = FragmentPlan {
                objects: &objects,
                pages: &pages,
                pages_root: reference(5),
                catalog: Some(reference(1)),
            };
            assert!(
                rebuild(&mut source, &mut sink, &plan, &limits, &NEVER)
                    .is_err(),
                "case {case} unexpectedly succeeded"
            );
            assert!(sink.bytes.is_empty());
        }
    });
}

#[test]
fn fragment_multi_digit_page_refs_and_small_chunk_flushes_are_supported() {
    multi_digit_page_refs_and_small_chunk_flushes_are_supported();
}

#[test]
fn tests_multi_digit_page_refs_and_small_chunk_flushes_are_supported() {
    multi_digit_page_refs_and_small_chunk_flushes_are_supported();
}

fn multi_digit_page_refs_and_small_chunk_flushes_are_supported() {
    run(|| {
        let mut bytes = Vec::new();
        let first = add_object(
            &mut bytes,
            12,
            b"<< /Type /Page /Parent 5 0 R /MediaBox [0 0 200 300] /Resources << >> >>",
        );
        let second = add_object(
            &mut bytes,
            3,
            b"<< /Type /Page /Parent 5 0 R /MediaBox [0 0 400 250] /Resources << >> >>",
        );
        let mut source = BytesSource::new(bytes);
        let objects = [first, second];
        let pages = [reference(12), reference(3)];
        let plan = FragmentPlan {
            objects: &objects,
            pages: &pages,
            pages_root: reference(5),
            catalog: None,
        };
        let limits = Limits {
            io_chunk_bytes: 20,
            ..Limits::default()
        };
        let mut sink = BytesSink::default();
        let report = rebuild(&mut source, &mut sink, &plan, &limits, &NEVER)?;
        assert_eq!(report.pages_converted, 2);
        assert!(String::from_utf8_lossy(&sink.bytes).contains("/Kids [12 0 R 3 0 R ]"));
        Ok::<(), Error>(())
    })
    .unwrap();
}

#[test]
fn fragment_xref_rows_are_fixed_width_and_link_sparse_free_slots() {
    xref_rows_are_fixed_width_and_link_sparse_free_slots();
}

#[test]
fn tests_xref_rows_are_fixed_width_and_link_sparse_free_slots() {
    xref_rows_are_fixed_width_and_link_sparse_free_slots();
}

fn xref_rows_are_fixed_width_and_link_sparse_free_slots() {
    assert_eq!(xref_entry(17, 0, b'n').unwrap(), *b"0000000017 00000 n \n");
    assert_eq!(
        xref_entry(9, 65_535, b'f').unwrap(),
        *b"0000000009 65535 f \n"
    );
    let records = [
        Record::synthetic(reference(2)),
        Record::synthetic(reference(5)),
    ];
    assert_eq!(next_free_number(0, 5, &records, 0), 1);
    assert_eq!(next_free_number(1, 5, &records, 0), 3);
    assert_eq!(next_free_number(4, 5, &records, 1), 0);
}

#[test]
fn fragment_repeated_page_tree_links_cannot_expand_the_walk_stack() {
    repeated_page_tree_links_cannot_expand_the_walk_stack();
}

#[test]
fn tests_repeated_page_tree_links_cannot_expand_the_walk_stack() {
    repeated_page_tree_links_cannot_expand_the_walk_stack();
}

fn repeated_page_tree_links_cannot_expand_the_walk_stack() {
    let root = reference(5);
    let leaf = reference(9);
    let records = [Record::synthetic(root), Record::synthetic(leaf)];
    let kinds = [
        Some(FragmentKind::Pages {
            parent: None,
            count: 1,
            kids: vec![leaf; 10],
            has_media_box: false,
        }),
        Some(FragmentKind::Page {
            parent: root,
            has_media_box: true,
        }),
    ];
    let pages = [leaf];
    let plan = FragmentPlan {
        objects: &[],
        pages: &pages,
        pages_root: root,
        catalog: None,
    };
    assert!(matches!(
        validate_existing_page_tree(&plan, &records, &kinds, 0, &Limits::default()),
        Err(Error::Pdf {
            kind: PdfErrorKind::AmbiguousRepair,
            ..
        })
    ));
}

#[test]
fn fragment_page_inventory_catalog_role_and_branch_parent_must_agree() {
    page_inventory_catalog_role_and_branch_parent_must_agree();
}

#[test]
fn tests_page_inventory_catalog_role_and_branch_parent_must_agree() {
    page_inventory_catalog_role_and_branch_parent_must_agree();
}

fn page_inventory_catalog_role_and_branch_parent_must_agree() {
    run(|| {
        for case in 0..3 {
            let (mut source, mut objects, pages) = existing_tree_fragment();
            let expected = match case {
                0 => {
                    objects.push(add_object(
                        &mut source.bytes,
                        11,
                        b"<< /Type /Page /Parent 5 0 R /MediaBox [0 0 100 100] >>",
                    ));
                    PdfErrorKind::AmbiguousRepair
                }
                1 => {
                    replace_in_object(
                        &mut source,
                        objects[1],
                        b"/Type /Catalog",
                        b"/Type /Catolog",
                    );
                    PdfErrorKind::Malformed
                }
                _ => {
                    replace_in_object(&mut source, objects[3], b"/Parent 5", b"/Parent 9");
                    PdfErrorKind::Malformed
                }
            };
            let plan = FragmentPlan {
                objects: &objects,
                pages: &pages,
                pages_root: reference(5),
                catalog: Some(reference(1)),
            };
            let mut sink = BytesSink::default();
            let error =
                rebuild(&mut source, &mut sink, &plan, &Limits::default(), &NEVER)
                    .unwrap_err();
            assert!(
                matches!(error, Error::Pdf { kind, .. } if kind == expected),
                "case {case}: {error:?}"
            );
            assert!(sink.bytes.is_empty());
        }
    });
}

#[test]
fn fragment_page_media_box_must_be_direct_or_inherited_from_the_page_tree() {
    page_media_box_must_be_direct_or_inherited_from_the_page_tree();
}

#[test]
fn tests_page_media_box_must_be_direct_or_inherited_from_the_page_tree() {
    page_media_box_must_be_direct_or_inherited_from_the_page_tree();
}

fn page_media_box_must_be_direct_or_inherited_from_the_page_tree() {
    run(|| {
        let (mut source, objects, pages) = two_page_fragment();
        replace_in_object(&mut source, objects[0], b"/MediaBox", b"/Mediabax");
        let plan = FragmentPlan {
            objects: &objects,
            pages: &pages,
            pages_root: reference(5),
            catalog: None,
        };
        let mut sink = BytesSink::default();
        assert!(matches!(
            rebuild(&mut source, &mut sink, &plan, &Limits::default(), &NEVER,),
            Err(Error::Pdf {
                kind: PdfErrorKind::Malformed,
                ..
            })
        ));
        assert!(sink.bytes.is_empty());

        let (mut source, objects, pages) = existing_tree_fragment();
        replace_in_object(&mut source, objects[0], b"/MediaBox", b"/Mediabax");
        replace_in_object(&mut source, objects[2], b"/MediaBox", b"/Mediabax");
        let plan = FragmentPlan {
            objects: &objects,
            pages: &pages,
            pages_root: reference(5),
            catalog: Some(reference(1)),
        };
        assert!(matches!(
            rebuild(&mut source, &mut sink, &plan, &Limits::default(), &NEVER,),
            Err(Error::Pdf {
                kind: PdfErrorKind::Malformed,
                ..
            })
        ));
        assert!(sink.bytes.is_empty());

        let mut bytes = Vec::new();
        let page = add_object(&mut bytes, 9, b"<< /Type /Page /Parent 7 0 R >>");
        let branch = add_object(
            &mut bytes,
            7,
            b"<< /Type /Pages /Parent 5 0 R /Count 1 /Kids [9 0 R] /MediaBox [0 0 200 300] >>",
        );
        let root = add_object(&mut bytes, 5, b"<< /Type /Pages /Count 1 /Kids [7 0 R] >>");
        let objects = [page, branch, root];
        let pages = [reference(9)];
        let plan = FragmentPlan {
            objects: &objects,
            pages: &pages,
            pages_root: reference(5),
            catalog: None,
        };
        let mut source = BytesSource::new(bytes);
        let report =
            rebuild(&mut source, &mut sink, &plan, &Limits::default(), &NEVER)?;
        assert_eq!(report.pages_converted, 1);
        assert_eq!(report.output_bytes_written, sink.bytes.len() as u64);
        Ok::<(), Error>(())
    })
    .unwrap();
}

#[test]
fn fragment_page_contents_references_only_streams_or_one_indirect_stream_array() {
    page_contents_references_only_streams_or_one_indirect_stream_array();
}

#[test]
fn tests_page_contents_references_only_streams_or_one_indirect_stream_array() {
    page_contents_references_only_streams_or_one_indirect_stream_array();
}

fn page_contents_references_only_streams_or_one_indirect_stream_array() {
    run(|| {
        for case in 0..5 {
            let mut bytes = Vec::new();
            let contents = match case {
                0 => b"4 0 R".as_slice(),
                1 => b"[4 0 R]".as_slice(),
                4 => b"6 0 R".as_slice(),
                _ => b"4 0 R".as_slice(),
            };
            let mut page_body =
                b"<< /Type /Page /Parent 5 0 R /MediaBox [0 0 200 300] /Contents ".to_vec();
            page_body.extend_from_slice(contents);
            page_body.extend_from_slice(b" >>");
            let page = add_object(&mut bytes, 9, &page_body);
            let target = match case {
                0 | 1 => add_object(&mut bytes, 4, b"42"),
                2 => add_object(&mut bytes, 4, b"[6 0 R]"),
                _ => add_object(&mut bytes, 4, b"[7 0 R]"),
            };
            let stream = add_object(&mut bytes, 6, b"<< /Length 0 >>\nstream\nendstream");
            let scalar = add_object(&mut bytes, 7, b"0");
            let objects = [page, target, stream, scalar];
            let pages = [reference(9)];
            let plan = FragmentPlan {
                objects: &objects,
                pages: &pages,
                pages_root: reference(5),
                catalog: None,
            };
            let mut source = BytesSource::new(bytes);
            let mut sink = BytesSink::default();
            let result =
                rebuild(&mut source, &mut sink, &plan, &Limits::default(), &NEVER);
            // Case 2 uses an indirect stream array; case 4 names the
            // stream directly.
            if case == 2 || case == 4 {
                let report = result?;
                assert_eq!(report.pages_converted, 1);
                assert_eq!(report.output_bytes_written, sink.bytes.len() as u64);
            } else {
                let rejected = matches!(
                    result,
                    Err(Error::Pdf {
                        kind: PdfErrorKind::Malformed,
                        ..
                    })
                );
                assert!(rejected, "case {case} was accepted");
                assert!(sink.bytes.is_empty());
            }
        }
        Ok::<(), Error>(())
    })
    .unwrap();
}

#[test]
fn fragment_many_pages_can_share_one_indirect_contents_array() {
    many_pages_can_share_one_indirect_contents_array();
}

#[test]
fn tests_many_pages_can_share_one_indirect_contents_array() {
    many_pages_can_share_one_indirect_contents_array();
}

fn many_pages_can_share_one_indirect_contents_array() {
    run(|| {
        let mut bytes = Vec::new();
        let mut objects = Vec::new();
        let mut pages = Vec::new();
        for ordinal in 0..64 {
            let number = 10 + ordinal;
            pages.push(reference(number));
            objects.push(add_object(
                &mut bytes,
                number,
                b"<< /Type /Page /Parent 5 0 R /MediaBox [0 0 200 300] /Contents 4 0 R >>",
            ));
        }
        let mut array = b"[".to_vec();
        for ordinal in 0..64 {
            array.extend_from_slice(format!("{} 0 R ", 1000 + ordinal).as_bytes());
        }
        array.extend_from_slice(b"]");
        objects.push(add_object(&mut bytes, 4, &array));
        for ordinal in 0..64 {
            objects.push(add_object(
                &mut bytes,
                1000 + ordinal,
                b"<< /Length 0 >>\nstream\nendstream",
            ));
        }
        let mut source = BytesSource::new(bytes);
        let mut sink = BytesSink::default();
        let plan = FragmentPlan {
            objects: &objects,
            pages: &pages,
            pages_root: reference(5),
            catalog: None,
        };
        let report =
            rebuild(&mut source, &mut sink, &plan, &Limits::default(), &NEVER)?;
        assert_eq!(report.pages_converted, 64);
        assert_eq!(report.output_bytes_written, sink.bytes.len() as u64);
        Ok::<(), Error>(())
    })
    .unwrap();
}

#[test]
fn fragment_malformed_spans_and_orphaned_ordered_pages_fail_before_output() {
    malformed_spans_and_orphaned_ordered_pages_fail_before_output();
}

#[test]
fn tests_malformed_spans_and_orphaned_ordered_pages_fail_before_output() {
    malformed_spans_and_orphaned_ordered_pages_fail_before_output();
}

fn malformed_spans_and_orphaned_ordered_pages_fail_before_output() {
    run(|| {
        for case in 0..2 {
            let (mut source, mut objects, pages) = two_page_fragment();
            if case == 0 {
                objects[0].range.length = 0;
            } else {
                objects[0].range.offset = u64::MAX;
                objects[0].range.length = 2;
            }
            let plan = FragmentPlan {
                objects: &objects,
                pages: &pages,
                pages_root: reference(5),
                catalog: None,
            };
            let mut sink = BytesSink::default();
            assert!(matches!(
                rebuild(&mut source, &mut sink, &plan, &Limits::default(), &NEVER,),
                Err(Error::Pdf {
                    kind: PdfErrorKind::Malformed,
                    ..
                })
            ));
            assert!(sink.bytes.is_empty());
        }

        let (mut source, objects, pages) = two_page_fragment();
        replace_in_object(&mut source, objects[0], b"/Parent 5", b"/Parent 6");
        let plan = FragmentPlan {
            objects: &objects,
            pages: &pages,
            pages_root: reference(5),
            catalog: None,
        };
        let mut sink = BytesSink::default();
        assert!(matches!(
            rebuild(&mut source, &mut sink, &plan, &Limits::default(), &NEVER,),
            Err(Error::Pdf {
                kind: PdfErrorKind::AmbiguousRepair,
                ..
            })
        ));
        assert!(sink.bytes.is_empty());

        let mut bytes = Vec::new();
        let first = add_object(
            &mut bytes,
            9,
            b"<< /Type /Page /Parent 5 0 R /MediaBox [0 0 200 300] >>",
        );
        let second = add_object(
            &mut bytes,
            3,
            b"<< /Type /Page /Parent 5 0 R /MediaBox [0 0 200 300] >>",
        );
        let root = add_object(&mut bytes, 5, b"<< /Type /Pages /Count 1 /Kids [9 0 R] >>");
        let objects = [first, second, root];
        let pages = [reference(9), reference(3)];
        let plan = FragmentPlan {
            objects: &objects,
            pages: &pages,
            pages_root: reference(5),
            catalog: None,
        };
        let mut source = BytesSource::new(bytes);
        assert!(matches!(
            rebuild(&mut source, &mut sink, &plan, &Limits::default(), &NEVER,),
            Err(Error::Pdf {
                kind: PdfErrorKind::AmbiguousRepair,
                ..
            })
        ));
        assert!(sink.bytes.is_empty());
    });
}

struct TestCancel(Cell<bool>);

impl Cancellation for TestCancel {
    fn is_cancelled(&self) -> bool {
        self.0.get()
    }
}

struct CancelOnFlushSink<'a> {
    bytes: Vec<u8>,
    cancellation: &'a TestCancel,
}

impl SequentialSink for CancelOnFlushSink<'_> {
    fn write(&mut self, bytes: &[u8]) -> Result<usize, Error> {
        self.bytes.extend_from_slice(bytes);
        Ok(bytes.len())
    }

    fn flush(&mut self) -> Result<(), Error> {
        self.cancellation.0.set(true);
        Ok(())
    }
}

#[test]
fn fragment_cancellation_before_input_and_during_flush_never_reports_success() {
    cancellation_before_input_and_during_flush_never_reports_success();
}

#[test]
fn tests_cancellation_before_input_and_during_flush_never_reports_success() {
    cancellation_before_input_and_during_flush_never_reports_success();
}

fn cancellation_before_input_and_during_flush_never_reports_success() {
    run(|| {
        let (mut source, objects, pages) = two_page_fragment();
        let plan = FragmentPlan {
            objects: &objects,
            pages: &pages,
            pages_root: reference(5),
            catalog: None,
        };
        let cancelled = TestCancel(Cell::new(true));
        let mut sink = BytesSink::default();
        assert!(matches!(
            rebuild(
                &mut source,
                &mut sink,
                &plan,
                &Limits::default(),
                &cancelled,
            ),
            Err(Error::Cancelled)
        ));
        assert!(sink.bytes.is_empty());

        let cancellation = TestCancel(Cell::new(false));
        let mut sink = CancelOnFlushSink {
            bytes: Vec::new(),
            cancellation: &cancellation,
        };
        assert!(matches!(
            rebuild(
                &mut source,
                &mut sink,
                &plan,
                &Limits::default(),
                &cancellation,
            ),
            Err(Error::Cancelled)
        ));
        assert!(!sink.bytes.is_empty());
    });
}

#[test]
fn fragment_fragment_bookmarks_form_a_readable_unicode_outline_tree() {
    fragment_bookmarks_form_a_readable_unicode_outline_tree();
}

#[test]
fn tests_fragment_bookmarks_form_a_readable_unicode_outline_tree() {
    fragment_bookmarks_form_a_readable_unicode_outline_tree();
}

fn fragment_bookmarks_form_a_readable_unicode_outline_tree() {
    run(|| {
        let (mut source, objects, pages) = two_page_fragment();
        let plan = FragmentPlan {
            objects: &objects,
            pages: &pages,
            pages_root: reference(5),
            catalog: None,
        };
        let bookmarks = [
            Bookmark {
                depth: 0,
                title: "第一章".into(),
                page_index: 0,
            },
            Bookmark {
                depth: 1,
                title: "Section".into(),
                page_index: 1,
            },
            Bookmark {
                depth: 2,
                title: "𝄞".into(),
                page_index: 0,
            },
            Bookmark {
                depth: 0,
                title: "末章".into(),
                page_index: 1,
            },
        ];
        let mut sink = BytesSink::default();
        let report = rebuild_with_bookmarks(
            &mut source,
            &mut sink,
            &plan,
            &bookmarks,
            &Limits::default(),
            &NEVER,
        )?;
        assert_eq!(report.pages_converted, 2);
        assert_eq!(report.bookmarks_written, 4);
        assert_eq!(report.output_bytes_written, sink.bytes.len() as u64);
        let text = String::from_utf8_lossy(&sink.bytes);
        assert!(text.contains("/Outlines 11 0 R"));
        assert!(text.contains("/First 12 0 R /Last 15 0 R /Count 4"));
        assert!(text.contains("/First 13 0 R /Last 13 0 R /Count 2"));
        assert!(text.contains("/First 14 0 R /Last 14 0 R /Count 1"));
        assert!(text.contains("/Next 15 0 R"));
        assert!(text.contains("/Prev 12 0 R"));
        assert!(text.contains("/Title <FEFFD834DD1E>"));
        let inspected = read_back(&sink.bytes);
        assert_eq!(inspected.0, pages);
        assert!(inspected.1);
        Ok::<(), Error>(())
    })
    .unwrap();
}

#[test]
fn fragment_invalid_fragment_bookmarks_fail_before_any_output() {
    invalid_fragment_bookmarks_fail_before_any_output();
}

#[test]
fn tests_invalid_fragment_bookmarks_fail_before_any_output() {
    invalid_fragment_bookmarks_fail_before_any_output();
}

fn invalid_fragment_bookmarks_fail_before_any_output() {
    run(|| {
        let (mut source, objects, pages) = two_page_fragment();
        let plan = FragmentPlan {
            objects: &objects,
            pages: &pages,
            pages_root: reference(5),
            catalog: None,
        };
        let cases = [
            Bookmark {
                depth: 1,
                title: "skips root".into(),
                page_index: 0,
            },
            Bookmark {
                depth: 0,
                title: "invalid page".into(),
                page_index: 2,
            },
            Bookmark {
                depth: 0,
                title: String::new(),
                page_index: 0,
            },
        ];
        for bookmark in cases {
            let mut sink = BytesSink::default();
            let result = rebuild_with_bookmarks(
                &mut source,
                &mut sink,
                &plan,
                &[bookmark],
                &Limits::default(),
                &NEVER,
            );
            assert!(matches!(result, Err(Error::Pdf { .. })));
            assert!(sink.bytes.is_empty());
        }
        let limits = Limits {
            max_bookmarks: 0,
            ..Limits::default()
        };
        let mut sink = BytesSink::default();
        let result = rebuild_with_bookmarks(
            &mut source,
            &mut sink,
            &plan,
            &[Bookmark {
                depth: 0,
                title: "too many".into(),
                page_index: 0,
            }],
            &limits,
            &NEVER,
        );
        assert!(matches!(result, Err(Error::PdfLimitExceeded { .. })));
        assert!(sink.bytes.is_empty());
    });
}

/// The usual plan: `pages` under a synthetic-or-existing root 5 and no
/// catalog.
fn plan<'a>(objects: &'a [FragmentObject], pages: &'a [PdfRef]) -> FragmentPlan<'a> {
    FragmentPlan {
        objects,
        pages,
        pages_root: reference(5),
        catalog: None,
    }
}

/// Nested page tree, an indirect Contents array shared through a scalar
/// array object, a direct Contents array, and an indirect stream Length.
fn content_rich_fragment() -> (BytesSource, Vec<FragmentObject>, Vec<PdfRef>) {
    let mut bytes = b"CAJ\0content fragments\n".to_vec();
    let objects = vec![
        add_object(
            &mut bytes,
            9,
            b"<< /Type /Page /Parent 5 0 R /MediaBox [0 0 200 300] /Contents 4 0 R >>",
        ),
        add_object(
            &mut bytes,
            3,
            b"<< /Type /Page /Parent 7 0 R /Contents [6 0 R 8 0 R] >>",
        ),
        add_object(
            &mut bytes,
            7,
            b"<< /Type /Pages /Parent 5 0 R /Count 1 /Kids [3 0 R] /MediaBox [0 0 400 250] >>",
        ),
        add_object(
            &mut bytes,
            5,
            b"<< /Type /Pages /Count 2 /Kids [9 0 R 7 0 R] >>",
        ),
        add_object(&mut bytes, 4, b"[6 0 R 8 0 R]"),
        add_object(
            &mut bytes,
            6,
            b"<< /Length 2 0 R >>\nstream\nq Q\nendstream",
        ),
        add_object(&mut bytes, 8, b"<< /Length 0 >>\nstream\nendstream"),
        add_object(&mut bytes, 2, b"3"),
    ];
    (
        BytesSource::new(bytes),
        objects,
        vec![reference(9), reference(3)],
    )
}

fn alternating_bookmarks(count: u32) -> Vec<Bookmark> {
    (0..count)
        .map(|index| Bookmark {
            depth: index % 2,
            title: format!("Item {index}"),
            page_index: index % 2,
        })
        .collect()
}

#[test]
fn fragment_source_that_over_reports_reads_is_rejected() {
    source_that_over_reports_reads_is_rejected();
}

#[test]
fn tests_source_that_over_reports_reads_is_rejected() {
    source_that_over_reports_reads_is_rejected();
}

fn source_that_over_reports_reads_is_rejected() {
    run(|| {
        let (mut source, objects, pages) = two_page_fragment();
        source.over_report = true;
        let plan = plan(&objects, &pages);
        let mut sink = BytesSink::default();
        assert!(matches!(
            rebuild(&mut source, &mut sink, &plan, &Limits::default(), &NEVER,),
            Err(Error::InvalidInput {
                reason: "PDF source reported more bytes than requested"
            })
        ));
        assert!(sink.bytes.is_empty());
    });
}

#[test]
fn fragment_span_total_overflow_is_an_input_limit_before_reads() {
    run(|| {
        let objects = [
            FragmentObject {
                reference: reference(1),
                range: PdfRange {
                    offset: 0,
                    length: u64::MAX,
                },
            },
            FragmentObject {
                reference: reference(3),
                range: PdfRange {
                    offset: 0,
                    length: 2,
                },
            },
        ];
        let pages = [reference(3)];
        let plan = FragmentPlan {
            objects: &objects,
            pages: &pages,
            pages_root: reference(2),
            catalog: None,
        };
        let limits = Limits {
            max_input_bytes: u64::MAX,
            ..Limits::default()
        };
        let mut source = BytesSource::sparse(u64::MAX, Vec::new());
        let mut sink = BytesSink::default();
        let error = rebuild(&mut source, &mut sink, &plan, &limits, &NEVER)
            .unwrap_err();
        assert!(
            matches!(
                error,
                Error::PdfLimitExceeded {
                    object: Some((3, 0)),
                    resource: "input bytes",
                    attempted: u64::MAX,
                    ..
                }
            ),
            "{error:?}"
        );
        assert_eq!(source.bytes_read, 0);
        assert!(sink.bytes.is_empty());
    });
}

#[test]
fn fragment_page_limit_names_the_first_ordered_page_span() {
    page_limit_names_the_first_ordered_page_span();
}

#[test]
fn tests_page_limit_names_the_first_ordered_page_span() {
    page_limit_names_the_first_ordered_page_span();
}

fn page_limit_names_the_first_ordered_page_span() {
    run(|| {
        let (mut source, objects, pages) = two_page_fragment();
        let plan = plan(&objects, &pages);
        let limits = Limits {
            max_pages: 1,
            ..Limits::default()
        };
        let mut sink = BytesSink::default();
        let error = rebuild(&mut source, &mut sink, &plan, &limits, &NEVER)
            .unwrap_err();
        assert!(
            matches!(
                error,
                Error::PdfLimitExceeded {
                    resource: "pages",
                    object: Some((9, 0)),
                    offset,
                    limit: 1,
                    attempted: 2,
                } if offset == objects[0].range.offset
            ),
            "{error:?}"
        );
        assert!(sink.bytes.is_empty());
    });
}

#[test]
fn fragment_outline_depth_is_bounded_before_output() {
    outline_depth_is_bounded_before_output();
}

#[test]
fn tests_outline_depth_is_bounded_before_output() {
    outline_depth_is_bounded_before_output();
}

fn outline_depth_is_bounded_before_output() {
    run(|| {
        let (mut source, objects, pages) = two_page_fragment();
        let plan = plan(&objects, &pages);
        let deep: Vec<Bookmark> = (0..=MAX_OUTLINE_DEPTH)
            .map(|depth| Bookmark {
                depth,
                title: format!("Level {depth}"),
                page_index: 0,
            })
            .collect();
        let mut sink = BytesSink::default();
        let error = rebuild_with_bookmarks(
            &mut source,
            &mut sink,
            &plan,
            &deep,
            &Limits::default(),
            &NEVER,
        )
        .unwrap_err();
        assert!(
            matches!(
                error,
                Error::PdfLimitExceeded {
                    resource: "PDF outline depth",
                    limit: 256,
                    attempted: 257,
                    ..
                }
            ),
            "{error:?}"
        );
        assert!(sink.bytes.is_empty());

        let report = rebuild_with_bookmarks(
            &mut source,
            &mut sink,
            &plan,
            &deep[..MAX_OUTLINE_DEPTH as usize],
            &Limits::default(),
            &NEVER,
        )?;
        assert_eq!(report.bookmarks_written, 256);
        assert_eq!(report.output_bytes_written, sink.bytes.len() as u64);
        Ok::<(), Error>(())
    })
    .unwrap();
}

#[test]
fn fragment_long_outline_titles_are_emitted_in_bounded_chunks() {
    long_outline_titles_are_emitted_in_bounded_chunks();
}

#[test]
fn tests_long_outline_titles_are_emitted_in_bounded_chunks() {
    long_outline_titles_are_emitted_in_bounded_chunks();
}

fn long_outline_titles_are_emitted_in_bounded_chunks() {
    run(|| {
        let (mut source, objects, pages) = two_page_fragment();
        let plan = plan(&objects, &pages);
        let bookmarks = [Bookmark {
            depth: 0,
            title: "A".repeat(3000),
            page_index: 1,
        }];
        let mut sink = BytesSink::default();
        let report = rebuild_with_bookmarks(
            &mut source,
            &mut sink,
            &plan,
            &bookmarks,
            &Limits::default(),
            &NEVER,
        )?;
        assert_eq!(report.output_bytes_written, sink.bytes.len() as u64);
        let text = String::from_utf8_lossy(&sink.bytes);
        assert!(text.contains(&format!(
            "<< /Title <FEFF{}> /Parent 11 0 R /Dest [3 0 R /XYZ null null null] >>",
            "0041".repeat(3000)
        )));
        Ok::<(), Error>(())
    })
    .unwrap();
}

#[test]
fn fragment_nested_contents_and_outline_round_trip_through_the_reader() {
    nested_contents_and_outline_round_trip_through_the_reader();
}

#[test]
fn tests_nested_contents_and_outline_round_trip_through_the_reader() {
    nested_contents_and_outline_round_trip_through_the_reader();
}

fn nested_contents_and_outline_round_trip_through_the_reader() {
    run(|| {
        let (mut source, objects, pages) = content_rich_fragment();
        let plan = plan(&objects, &pages);
        let bookmarks = alternating_bookmarks(4);
        let mut sink = BytesSink::default();
        let report = rebuild_with_bookmarks(
            &mut source,
            &mut sink,
            &plan,
            &bookmarks,
            &Limits::default(),
            &NEVER,
        )?;
        assert_eq!(report.pages_converted, 2);
        assert_eq!(report.bookmarks_written, 4);
        let inspected = read_back(&sink.bytes);
        assert_eq!(inspected.0, pages);
        assert!(inspected.1);
        Ok::<(), Error>(())
    })
    .unwrap();
}

/// The content-rich fragment plus many tiny unreferenced objects, so the
/// reconstruction indexes outweigh the per-object parser budget.
fn indexed_heavy_fragment() -> (BytesSource, Vec<FragmentObject>, Vec<PdfRef>) {
    let (mut source, mut objects, pages) = content_rich_fragment();
    for number in 100..220 {
        objects.push(add_object(&mut source.bytes, number, b"0"));
    }
    (source, objects, pages)
}

#[test]
fn fragment_allocation_ceiling_fails_closed_until_the_reported_need_fits() {
    allocation_ceiling_fails_closed_until_the_reported_need_fits();
}

#[test]
fn tests_allocation_ceiling_fails_closed_until_the_reported_need_fits() {
    allocation_ceiling_fails_closed_until_the_reported_need_fits();
}

fn allocation_ceiling_fails_closed_until_the_reported_need_fits() {
    run(|| {
        let bookmarks = alternating_bookmarks(200);
        let mut expected = BytesSink::default();
        {
            let (mut source, objects, pages) = indexed_heavy_fragment();
            let plan = plan(&objects, &pages);
            rebuild_with_bookmarks(
                &mut source,
                &mut expected,
                &plan,
                &bookmarks,
                &Limits::default(),
                &NEVER,
            )?;
        }
        let mut ceiling = 1_u64;
        let mut resources = Vec::new();
        loop {
            let (mut source, objects, pages) = indexed_heavy_fragment();
            let plan = plan(&objects, &pages);
            let limits = Limits {
                io_chunk_bytes: 1,
                max_allocation_bytes: ceiling,
                ..Limits::default()
            };
            let mut sink = BytesSink::default();
            match rebuild_with_bookmarks(
                &mut source,
                &mut sink,
                &plan,
                &bookmarks,
                &limits,
                &NEVER,
            )
            {
                Ok(report) => {
                    assert_eq!(sink.bytes, expected.bytes);
                    assert_eq!(report.bookmarks_written, 200);
                    break;
                }
                Err(error) => {
                    assert!(
                        matches!(error, Error::PdfLimitExceeded { .. }),
                        "ceiling {ceiling}: {error:?}"
                    );
                    if let Error::PdfLimitExceeded {
                        resource,
                        limit,
                        attempted,
                        ..
                    } = error
                    {
                        // Parser budgets are derived from, and never
                        // exceed, the allocation ceiling; scale the
                        // ceiling so the failed budget would just admit
                        // the attempt.
                        assert!(limit <= ceiling && limit > 0, "{error:?}");
                        assert!(attempted > limit, "{error:?}");
                        assert!(sink.bytes.is_empty(), "{error:?}");
                        resources.push(resource);
                        ceiling = (ceiling * attempted).div_ceil(limit);
                    }
                }
            }
        }
        // The object index, page index, scalar and structure indexes,
        // page-tree kids, content evidence, traversal stack, and outline
        // nodes each tighten the requirement once; with many small
        // objects the per-object parser budget never binds first.
        assert!(resources.len() >= 10, "{resources:?}");
        assert!(
            resources
                .iter()
                .all(|resource| *resource == "PDF allocation bytes"),
            "{resources:?}"
        );
        Ok::<(), Error>(())
    })
    .unwrap();
}

#[test]
fn fragment_output_buffer_is_charged_together_with_the_object_index() {
    output_buffer_is_charged_together_with_the_object_index();
}

#[test]
fn tests_output_buffer_is_charged_together_with_the_object_index() {
    output_buffer_is_charged_together_with_the_object_index();
}

fn output_buffer_is_charged_together_with_the_object_index() {
    run(|| {
        let (mut source, objects, pages) = two_page_fragment();
        let plan = plan(&objects, &pages);
        let limits = Limits {
            io_chunk_bytes: 4096,
            max_allocation_bytes: 4096,
            ..Limits::default()
        };
        let mut sink = BytesSink::default();
        let error = rebuild(&mut source, &mut sink, &plan, &limits, &NEVER)
            .unwrap_err();
        assert!(
            matches!(
                error,
                Error::PdfLimitExceeded {
                    resource: "PDF allocation bytes",
                    object: Some((5, 0)),
                    offset: 0,
                    limit: 4096,
                    attempted,
                } if attempted == 4096 + 6 * std::mem::size_of::<Record>() as u64
            ),
            "{error:?}"
        );
        assert!(sink.bytes.is_empty());
    });
}

#[test]
fn fragment_page_reference_buffer_flushes_before_it_overflows_a_chunk() {
    page_reference_buffer_flushes_before_it_overflows_a_chunk();
}

#[test]
fn tests_page_reference_buffer_flushes_before_it_overflows_a_chunk() {
    page_reference_buffer_flushes_before_it_overflows_a_chunk();
}

fn page_reference_buffer_flushes_before_it_overflows_a_chunk() {
    run(|| {
        let (mut source, objects, pages) = two_page_fragment();
        let plan = plan(&objects, &pages);
        let limits = Limits {
            io_chunk_bytes: 10,
            ..Limits::default()
        };
        let mut sink = BytesSink::default();
        let report = rebuild(&mut source, &mut sink, &plan, &limits, &NEVER)?;
        assert_eq!(report.output_bytes_written, sink.bytes.len() as u64);
        assert!(String::from_utf8_lossy(&sink.bytes).contains("/Kids [9 0 R 3 0 R ]"));
        Ok::<(), Error>(())
    })
    .unwrap();
}

/// The smallest fragment that still reads a scalar, an indirect Contents
/// array, and a stream, and copies an existing page tree.
fn lean_content_fragment() -> (BytesSource, Vec<FragmentObject>, Vec<PdfRef>) {
    let mut bytes = b"CAJ\0".to_vec();
    let objects = vec![
        add_object(
            &mut bytes,
            9,
            b"<< /Type /Page /Parent 5 0 R /MediaBox [0 0 1 1] /Contents 4 0 R >>",
        ),
        add_object(&mut bytes, 5, b"<< /Type /Pages /Count 1 /Kids [9 0 R] >>"),
        add_object(&mut bytes, 4, b"[6 0 R]"),
        add_object(
            &mut bytes,
            6,
            b"<< /Length 2 0 R >>\nstream\nq Q\nendstream",
        ),
        add_object(&mut bytes, 2, b"3"),
    ];
    (BytesSource::new(bytes), objects, vec![reference(9)])
}

#[test]
fn fragment_cancellation_at_every_checkpoint_never_reports_success() {
    cancellation_at_every_checkpoint_never_reports_success();
}

fn cancellation_at_every_checkpoint_never_reports_success() {
    run(|| {
        // Every query is tripped once, so the run is quadratic in the
        // checkpoint count: keep the fixture to one of each read, copy,
        // outline, xref, and trailer checkpoint.
        let bookmarks = alternating_bookmarks(1);
        let mut allowed = 0;
        loop {
            let (mut source, objects, pages) = lean_content_fragment();
            let plan = plan(&objects, &pages);
            let cancellation = CancelAfter::new(allowed);
            let mut sink = BytesSink::default();
            match rebuild_with_bookmarks(
                &mut source,
                &mut sink,
                &plan,
                &bookmarks,
                &Limits::default(),
                &cancellation,
            )
            {
                Err(Error::Cancelled) => allowed += 1,
                result => {
                    let report = result.expect("only cancellation may stop the run");
                    assert!(allowed >= 100, "only {allowed} cancellation checks");
                    assert_eq!(report.output_bytes_written, sink.bytes.len() as u64);
                    assert_eq!(report.bookmarks_written, 1);
                    break;
                }
            }
        }
    });
}

#[test]
fn fragment_spans_beyond_the_classic_xref_ceiling_fail_before_output() {
    spans_beyond_the_classic_xref_ceiling_fail_before_output();
}

#[test]
fn tests_spans_beyond_the_classic_xref_ceiling_fail_before_output() {
    spans_beyond_the_classic_xref_ceiling_fail_before_output();
}

fn spans_beyond_the_classic_xref_ceiling_fail_before_output() {
    run(|| {
        const STREAM_BYTES: u64 = 2_100_000_000;
        let mut segments = Vec::new();
        let mut objects = Vec::new();
        let page = b"9 0 obj\n<< /Type /Page /Parent 5 0 R /MediaBox [0 0 1 1] >>\nendobj\n";
        objects.push(FragmentObject {
            reference: reference(9),
            range: PdfRange {
                offset: 0,
                length: page.len() as u64,
            },
        });
        segments.push((0, page.to_vec()));
        let mut cursor = page.len() as u64;
        for number in 20..25 {
            let head = format!("{number} 0 obj\n<< /Length {STREAM_BYTES} >>\nstream\n");
            let tail = b"\nendstream\nendobj\n";
            let tail_offset = cursor + head.len() as u64 + STREAM_BYTES;
            let end = tail_offset + tail.len() as u64;
            objects.push(FragmentObject {
                reference: reference(number),
                range: PdfRange {
                    offset: cursor,
                    length: end - cursor,
                },
            });
            segments.push((cursor, head.into_bytes()));
            segments.push((tail_offset, tail.to_vec()));
            cursor = end;
        }
        let mut source = BytesSource::sparse(cursor, segments);
        let pages = [reference(9)];
        let plan = plan(&objects, &pages);
        let limits = Limits {
            max_input_bytes: u64::MAX,
            max_output_bytes: u64::MAX,
            ..Limits::default()
        };
        let mut sink = BytesSink::default();
        let error = rebuild(&mut source, &mut sink, &plan, &limits, &NEVER)
            .unwrap_err();
        assert!(
            matches!(
                error,
                Error::PdfLimitExceeded {
                    resource: "classic PDF file bytes",
                    object: Some((25, 0)),
                    limit: MAX_CLASSIC_PDF_BYTES,
                    attempted,
                    ..
                } if attempted > cursor
            ),
            "{error:?}"
        );
        assert!(sink.bytes.is_empty());
    });
}

#[test]
fn fragment_xref_offsets_are_limited_to_ten_digits() {
    xref_offsets_are_limited_to_ten_digits();
}

#[test]
fn tests_xref_offsets_are_limited_to_ten_digits() {
    xref_offsets_are_limited_to_ten_digits();
}

fn xref_offsets_are_limited_to_ten_digits() {
    assert_eq!(
        xref_entry(MAX_CLASSIC_PDF_BYTES, 0, b'n').unwrap(),
        *b"9999999999 00000 n \n"
    );
    assert!(matches!(
        xref_entry(MAX_CLASSIC_PDF_BYTES + 1, 0, b'n'),
        Err(Error::LimitExceeded {
            resource: "classic PDF xref offset",
            limit: MAX_CLASSIC_PDF_BYTES,
            attempted,
        }) if attempted == MAX_CLASSIC_PDF_BYTES + 1
    ));
}

#[test]
fn fragment_references_beyond_the_object_profile_are_unsupported() {
    references_beyond_the_object_profile_are_unsupported();
}

#[test]
fn tests_references_beyond_the_object_profile_are_unsupported() {
    references_beyond_the_object_profile_are_unsupported();
}

fn references_beyond_the_object_profile_are_unsupported() {
    run(|| {
        let (mut source, mut objects, pages) = two_page_fragment();
        let extra = add_object(&mut source.bytes, 12, b"<< /Next 9000000 0 R >>");
        objects.push(extra);
        let plan = plan(&objects, &pages);
        let mut sink = BytesSink::default();
        let error = rebuild(&mut source, &mut sink, &plan, &Limits::default(), &NEVER)
            .unwrap_err();
        assert!(
            matches!(
                error,
                Error::Pdf {
                    kind: PdfErrorKind::UnsupportedFeature,
                    object: Some((12, 0)),
                    offset,
                    reason: "indirect reference exceeds the supported PDF profile",
                } if offset == extra.range.offset
            ),
            "{error:?}"
        );
        assert!(sink.bytes.is_empty());
    });
}

#[test]
fn fragment_fragment_outline_requires_synthetic_catalog() {
    fragment_outline_requires_synthetic_catalog();
}

#[test]
fn tests_fragment_outline_requires_synthetic_catalog() {
    fragment_outline_requires_synthetic_catalog();
}

fn fragment_outline_requires_synthetic_catalog() {
    run(|| {
        let (mut source, objects, pages) = existing_tree_fragment();
        let plan = FragmentPlan {
            catalog: Some(reference(1)),
            ..plan(&objects, &pages)
        };
        let mut sink = BytesSink::default();
        let result = rebuild_with_bookmarks(
            &mut source,
            &mut sink,
            &plan,
            &[Bookmark {
                depth: 0,
                title: "outline".into(),
                page_index: 0,
            }],
            &Limits::default(),
            &NEVER,
        );
        assert!(matches!(
            result,
            Err(Error::Pdf {
                kind: PdfErrorKind::UnsupportedFeature,
                ..
            })
        ));
        assert!(sink.bytes.is_empty());
    });
}

#[test]
fn limits_do_not_change_the_rebuilt_file() {
    let bookmarks = alternating_bookmarks(3);
    let mut files = Vec::new();
    for (chunk, ceiling) in [(1, 64 * 1024), (7, 128 * 1024), (4096, 1024 * 1024)] {
        let (mut source, objects, pages) = two_page_fragment();
        let mut sink = BytesSink::default();
        let limits = Limits {
            io_chunk_bytes: chunk,
            max_allocation_bytes: ceiling,
            ..Limits::default()
        };
        let plan = plan(&objects, &pages);
        let report =
            rebuild_with_bookmarks(&mut source, &mut sink, &plan, &bookmarks, &limits, &NEVER)
                .unwrap();
        assert_eq!(report.output_bytes_written, sink.bytes.len() as u64);
        files.push(sink.bytes);
    }
    assert_eq!(files[0], files[1]);
    assert_eq!(files[0], files[2]);
}
