//! What the parts of the library promise, on chosen values.

use caj2pdf_core::append::patches::{CopyPatches, GapPatch};
use caj2pdf_core::append::trailer_id::{fnv128, unsupported_id, FNV128_BASIS};
use caj2pdf_core::append::writer::{plan_entry_growth, AppendWriter};
use caj2pdf_core::counting::{count_pdf_read, count_read};
use caj2pdf_core::document::image::{
    check_image_dimensions, validate_image_range, BilevelImageSpec, ImageEncoding, ImageObject,
    ImageSpec,
};
use caj2pdf_core::document::pages::PdfDocument;
use caj2pdf_core::document::texts::{pdf_page_number, PageSpec};
use caj2pdf_core::fallible::{growth_target, reserve_exact};
use caj2pdf_core::fragment::outline::build_outline_nodes;
use caj2pdf_core::fragment::record::{
    check_pdf_allocation, checked_add, checked_reference, object_index, Record,
};
use caj2pdf_core::fragment::texts::{
    outline_title_hex_len, page_reference, push_catalog, push_pages_prefix,
};
use caj2pdf_core::text::{decimal_digits, push_fixed_hex, title_units};
use caj2pdf_core::types::{
    Bookmark, Error, Limits, PdfErrorKind, PdfRange, PdfRef, MAX_PDF_INTEGER, MAX_PDF_OBJECTS,
};
use caj2pdf_core::writer::{ObjectId, PdfWriter};

fn reference(number: u32) -> PdfRef {
    PdfRef {
        number,
        generation: 0,
    }
}

fn page() -> PageSpec {
    PageSpec {
        width_micropoints: 612_000_000,
        height_micropoints: 792_500_000,
    }
}

fn bookmark(depth: u32, title: &str, page_index: u32) -> Bookmark {
    Bookmark {
        depth,
        title: title.into(),
        page_index,
    }
}

fn document() -> PdfDocument {
    PdfDocument::new(&Limits::default()).unwrap()
}

fn bilevel(document: &mut PdfDocument, spec: BilevelImageSpec, pieces: &[&[u8]]) -> ImageObject {
    let mut writer = document.begin_bilevel_image(spec).unwrap();
    for piece in pieces {
        assert_eq!(writer.write(document, piece).unwrap(), piece.len());
    }
    writer.finish(document).unwrap()
}

fn pixel(document: &mut PdfDocument) -> ImageObject {
    let spec = BilevelImageSpec {
        pixel_width: 8,
        pixel_height: 1,
        row_stride: 1,
    };
    bilevel(document, spec, &[&[0xAA]])
}

fn complete(document: &mut PdfDocument) -> Vec<u8> {
    let mut table = document.finish().unwrap();
    while !table.next(&mut document.writer).unwrap() {}
    document.writer.take_output()
}

fn invalid<T>(result: Result<T, Error>, reason: &str) -> bool {
    matches!(result, Err(Error::InvalidInput { reason: actual }) if actual == reason)
}

#[test]
fn a_small_document_is_written_byte_for_byte() {
    let mut document = document();
    let image = pixel(&mut document);
    assert_eq!(document.add_page(page(), &[image]), Ok(0));
    document.add_bookmark(bookmark(0, "A\u{1D11E}", 0)).unwrap();
    let file = complete(&mut document);
    let parts: [&[u8]; 12] = [
        b"%PDF-1.7\n%\xE2\xE3\xCF\xD3\n",
        b"3 0 obj\n<<\n/Type /XObject\n/Subtype /Image\n/Width 8\n/Height 1\n/ColorSpace /DeviceGray\n\
          /BitsPerComponent 1\n/Decode [1 0]\n/Length 4 0 R\n>>\nstream\n\xAA\nendstream\nendobj\n",
        b"4 0 obj\n1\nendobj\n",
        b"7 0 obj\n<<\n/Length 8 0 R\n>>\nstream\nq\n612.000000 0 0 792.500000 0 0 cm\n/Im0 Do\nQ\n\
          \nendstream\nendobj\n",
        b"8 0 obj\n45\nendobj\n",
        b"9 0 obj\n<< /Type /Page /Parent 6 0 R /MediaBox [0 0 612.000000 792.500000] \
          /Resources << /XObject << /Im0 3 0 R >> >> /Contents 7 0 R >>\nendobj\n",
        b"6 0 obj\n<< /Type /Pages /Parent 5 0 R /Count 1 /Kids [ 9 0 R ] >>\nendobj\n",
        b"5 0 obj\n<< /Type /Pages /Parent 2 0 R /Count 1 /Kids [ 6 0 R ] >>\nendobj\n",
        b"2 0 obj\n<< /Type /Pages /Count 1 /Kids [ 5 0 R ] >>\nendobj\n",
        b"11 0 obj\n<< /Title <FEFF0041D834DD1E> /Parent 10 0 R /Dest [9 0 R /Fit] >>\nendobj\n",
        b"10 0 obj\n<< /Type /Outlines /First 11 0 R /Last 11 0 R /Count 1 >>\nendobj\n",
        b"1 0 obj\n<< /Type /Catalog /Pages 2 0 R /Outlines 10 0 R /PageMode /UseOutlines >>\nendobj\n",
    ];
    let mut expected = Vec::new();
    let mut offsets = vec![0; 12];
    for part in parts {
        let number: usize = String::from_utf8_lossy(part)
            .split(' ')
            .next()
            .and_then(|first| first.parse().ok())
            .unwrap_or(0);
        offsets[number] = expected.len();
        expected.extend_from_slice(part);
    }
    let start = expected.len();
    let mut table = String::from("xref\n0 12\n0000000000 65535 f \n");
    for offset in &offsets[1..] {
        table.push_str(&format!("{offset:010} 00000 n \n"));
    }
    table.push_str(&format!(
        "trailer\n<< /Size 12 /Root 1 0 R >>\nstartxref\n{start}\n%%EOF\n"
    ));
    expected.extend_from_slice(table.as_bytes());
    assert_eq!(
        String::from_utf8_lossy(&file),
        String::from_utf8_lossy(&expected)
    );
    assert_eq!(file, expected);
    let report = document.report(false).unwrap();
    assert_eq!(report.output_bytes_written, expected.len() as u64);
    assert_eq!(report.pages_converted, 1);
    assert_eq!(report.bookmarks_written, 1);
    assert_eq!(document.report(true), Err(Error::Cancelled));
}

#[test]
fn pages_are_grouped_in_order_by_leaf() {
    let mut document = document();
    let image = pixel(&mut document);
    for expected in 0..300 {
        assert_eq!(document.add_page(page(), &[image]), Ok(expected));
    }
    let pages: Vec<u32> = document.page_ids.iter().map(|id| id.number()).collect();
    let file = String::from_utf8_lossy(&complete(&mut document)).into_owned();
    let leaves: Vec<Vec<u32>> = file
        .lines()
        .filter(|line| line.starts_with("<< /Type /Pages /Parent "))
        .map(|line| {
            let kids = &line[line.find('[').unwrap() + 1..line.find(']').unwrap()];
            kids.split(" 0 R")
                .filter_map(|kid| kid.trim().parse().ok())
                .collect()
        })
        .collect();
    assert_eq!(leaves[0], pages[..256]);
    assert_eq!(leaves[1], pages[256..]);
    assert_eq!(leaves[2].len(), 2);
    assert_eq!(leaves.len(), 3);
}

#[test]
fn rows_lose_their_padding_however_they_are_split() {
    let spec = BilevelImageSpec {
        pixel_width: 9,
        pixel_height: 3,
        row_stride: 4,
    };
    let rows: [u8; 12] = [1, 2, 90, 91, 3, 4, 92, 93, 5, 6, 94, 95];
    let mut whole = document();
    bilevel(&mut whole, spec, &[&rows]);
    let mut split = document();
    bilevel(
        &mut split,
        spec,
        &[&rows[..1], &rows[1..3], &rows[3..3], &rows[3..9], &rows[9..]],
    );
    let one = whole.writer.take_output();
    assert_eq!(one, split.writer.take_output());
    assert!(one
        .windows(6 + 7)
        .any(|window| window == b"\x01\x02\x03\x04\x05\x06\nendstr"));
}

#[test]
fn bilevel_rows_are_counted() {
    let spec = BilevelImageSpec {
        pixel_width: 8,
        pixel_height: 2,
        row_stride: 1,
    };
    let mut document = document();
    let mut writer = document.begin_bilevel_image(spec).unwrap();
    writer.write(&mut document, &[1]).unwrap();
    assert!(invalid(
        writer.write(&mut document, &[2, 3]),
        "bilevel image rows exceed the declared height"
    ));
    assert!(invalid(
        document.add_page(page(), &[ImageObject { object: ObjectId { number: 3 } }]),
        "a PDF stream is still open"
    ));
    assert!(invalid(
        writer.finish(&mut document),
        "bilevel image ended before its declared height"
    ));
    assert!(invalid(
        document.begin_bilevel_image(spec).map(|_| ()),
        "a PDF stream is still open"
    ));
}

#[test]
fn bilevel_sizes_are_checked() {
    let spec = |pixel_width, pixel_height, row_stride| BilevelImageSpec {
        pixel_width,
        pixel_height,
        row_stride,
    };
    assert_eq!(spec(9, 3, 4).validate(), Ok((2, 12)));
    assert!(invalid(
        spec(9, 3, 1).validate(),
        "bilevel row stride is shorter than the packed row"
    ));
    assert!(invalid(
        spec(0, 3, 1).validate(),
        "image width and height must be nonzero"
    ));
    assert_eq!(
        spec(16, 0x7FFF_FFFF, 2).validate(),
        Err(Error::LimitExceeded {
            resource: "PDF image stream bytes",
            limit: MAX_PDF_INTEGER,
            attempted: 2 * 0x7FFF_FFFF,
        })
    );
    assert!(invalid(
        spec(1, 0x7FFF_FFFF, usize::MAX).validate(),
        "bilevel input byte count overflows"
    ));
}

#[test]
fn raw_and_jpeg_lengths_are_checked() {
    let image = |encoding| ImageSpec {
        pixel_width: 5,
        pixel_height: 7,
        encoding,
    };
    assert_eq!(image(ImageEncoding::Gray8).validate(35), Ok(()));
    assert_eq!(image(ImageEncoding::Rgb8).validate(105), Ok(()));
    assert!(invalid(
        image(ImageEncoding::Rgb8).validate(35),
        "raw image byte count does not match dimensions"
    ));
    assert_eq!(image(ImageEncoding::JpegGray8).validate(1), Ok(()));
    assert!(invalid(
        image(ImageEncoding::JpegRgb8).validate(0),
        "JPEG image stream must not be empty"
    ));
    assert_eq!(
        String::from_utf8(image(ImageEncoding::JpegRgb8).dictionary()).unwrap(),
        "/Type /XObject\n/Subtype /Image\n/Width 5\n/Height 7\n/ColorSpace /DeviceRGB\n\
         /BitsPerComponent 8\n/Filter /DCTDecode\n"
    );
    assert_eq!(
        check_image_dimensions(1, u32::MAX),
        Err(Error::LimitExceeded {
            resource: "PDF image height",
            limit: MAX_PDF_INTEGER,
            attempted: u32::MAX as u64,
        })
    );
}

#[test]
fn image_ranges_are_checked_in_order() {
    let limits = Limits::default();
    let check = |read, size, offset, length| validate_image_range(&limits, read, size, offset, length);
    assert_eq!(check(0, 10, 4, 6), Ok(()));
    assert!(matches!(
        check(0, limits.max_input_bytes + 1, 0, 1),
        Err(Error::LimitExceeded { resource: "input bytes", .. })
    ));
    assert!(invalid(
        check(0, 10, 11, 0),
        "image range starts beyond source size"
    ));
    assert_eq!(
        check(0, 10, 4, 7),
        Err(Error::TruncatedInput {
            offset: 4,
            expected: 7,
            available: 6,
        })
    );
    assert!(invalid(
        check(u64::MAX, 10, 0, 1),
        "image input byte count overflows"
    ));
}

#[test]
fn image_bytes_pass_through_unchanged_in_chunks() {
    let limits = Limits {
        io_chunk_bytes: 2,
        ..Limits::default()
    };
    let mut document = PdfDocument::new(&limits).unwrap();
    let bytes = *b"\xFF\xD8raw\xFF\xD9";
    let image = ImageSpec {
        pixel_width: 1,
        pixel_height: 1,
        encoding: ImageEncoding::JpegGray8,
    };
    let mut buffer = Vec::new();
    let mut open = document
        .add_image_page(20, 5, bytes.len() as u64, page(), image, &mut buffer)
        .unwrap();
    assert_eq!(buffer.len(), 2);
    let mut offsets = Vec::new();
    while let Some((offset, count)) = open.next_chunk(buffer.len()) {
        offsets.push(offset);
        let at = (offset - 5) as usize;
        document.count_image_read(count, count).unwrap();
        open.accept(&mut document, &bytes[at..at + count]).unwrap();
    }
    assert_eq!(offsets, [5, 7, 9, 11]);
    assert_eq!(open.finish(&mut document), Ok(0));
    assert_eq!(document.input_bytes_read, bytes.len() as u64);
    let file = complete(&mut document);
    let needle = b"stream\n\xFF\xD8raw\xFF\xD9\nendstream";
    assert!(file.windows(needle.len()).any(|window| window == needle));
}

#[test]
fn page_dimensions_are_spelled_with_six_decimals() {
    assert_eq!(pdf_page_number(1).unwrap(), b"0.000001");
    assert_eq!(pdf_page_number(14_400_000_000).unwrap(), b"14400.000000");
    assert_eq!(pdf_page_number(595_275_591).unwrap(), b"595.275591");
    let reason = "page dimension must be finite and within 0.000001..=14400 points";
    assert!(invalid(pdf_page_number(0), reason));
    assert!(invalid(pdf_page_number(14_400_000_001), reason));
}

#[test]
fn pages_need_an_image_and_a_place() {
    let mut small = PdfDocument::new(&Limits {
        max_pages: 1,
        ..Limits::default()
    })
    .unwrap();
    assert!(invalid(
        small.add_page(page(), &[]),
        "PDF page requires at least one image"
    ));
    assert!(invalid(
        small.finish(),
        "PDF document requires at least one page"
    ));
    let image = pixel(&mut small);
    assert_eq!(small.add_page(page(), &[image, image]), Ok(0));
    assert_eq!(
        small.add_page(page(), &[image]),
        Err(Error::LimitExceeded {
            resource: "pages",
            limit: 1,
            attempted: 2,
        })
    );
    let file = String::from_utf8_lossy(&complete(&mut small)).into_owned();
    assert!(file.contains("/XObject << /Im0 3 0 R /Im1 3 0 R >>"));
    assert!(file.contains("/Im0 Do\nQ\nq\n612.000000 0 0 792.500000 0 0 cm\n/Im1 Do\nQ\n"));
}

#[test]
fn bookmarks_are_checked_before_anything_changes() {
    let mut document = PdfDocument::new(&Limits {
        max_bookmarks: 2,
        max_allocation_bytes: 4096,
        io_chunk_bytes: 16,
        ..Limits::default()
    })
    .unwrap();
    let image = pixel(&mut document);
    document.add_page(page(), &[image]).unwrap();
    let before = document.writer.position();
    assert!(invalid(
        document.add_bookmark(bookmark(0, "early", 1)),
        "bookmark destination page has not been emitted"
    ));
    assert!(invalid(
        document.add_bookmark(bookmark(1, "deep", 0)),
        "bookmark depth skips a parent"
    ));
    // The memory that a title holds counts, not its length.
    let mut roomy = String::with_capacity(8192);
    roomy.push('x');
    assert!(matches!(
        document.add_bookmark(Bookmark {
            depth: 0,
            title: roomy,
            page_index: 0,
        }),
        Err(Error::LimitExceeded {
            resource: "allocation bytes",
            limit: 4096,
            attempted,
        }) if attempted >= 8192
    ));
    assert!(matches!(
        document.add_titled_bookmark(bookmark(0, "x", 0), 4096),
        Err(Error::LimitExceeded { resource: "allocation bytes", .. })
    ));
    assert!(invalid(
        document.add_titled_bookmark(bookmark(0, "x", 0), u64::MAX),
        "retained bookmark allocation overflows"
    ));
    assert_eq!(document.writer.position(), before);
    assert_eq!(document.outline.root, None);
    document.add_bookmark(bookmark(0, "one", 0)).unwrap();
    document.add_bookmark(bookmark(1, "two", 0)).unwrap();
    assert_eq!(
        document.add_bookmark(bookmark(0, "three", 0)),
        Err(Error::LimitExceeded {
            resource: "bookmarks",
            limit: 2,
            attempted: 3,
        })
    );
    let file = String::from_utf8_lossy(&complete(&mut document)).into_owned();
    assert!(file.contains("/First 12 0 R /Last 12 0 R /Count 1 >>"));
}

#[test]
fn closed_outline_items_keep_their_links() {
    let mut document = document();
    let image = pixel(&mut document);
    document.add_page(page(), &[image]).unwrap();
    document.writer.take_output();
    for (depth, title) in [(0, "a"), (1, "b"), (2, "c"), (1, "d"), (0, "e")] {
        document.add_bookmark(bookmark(depth, title, 0)).unwrap();
    }
    // Objects 11 to 15 below the root 10; the last one is still open.
    let written = String::from_utf8_lossy(&document.writer.take_output()).into_owned();
    assert_eq!(
        written,
        "13 0 obj\n<< /Title <FEFF0063> /Parent 12 0 R /Dest [9 0 R /Fit] >>\nendobj\n\
         12 0 obj\n<< /Title <FEFF0062> /Parent 11 0 R /Dest [9 0 R /Fit] /Next 14 0 R \
         /First 13 0 R /Last 13 0 R /Count 1 >>\nendobj\n\
         14 0 obj\n<< /Title <FEFF0064> /Parent 11 0 R /Dest [9 0 R /Fit] /Prev 12 0 R >>\nendobj\n\
         11 0 obj\n<< /Title <FEFF0061> /Parent 10 0 R /Dest [9 0 R /Fit] /Next 15 0 R \
         /First 12 0 R /Last 14 0 R /Count 3 >>\nendobj\n"
    );
}

#[test]
fn an_output_limit_stops_a_document_for_good() {
    let mut document = PdfDocument::new(&Limits {
        max_output_bytes: 180,
        ..Limits::default()
    })
    .unwrap();
    let refused = document.begin_bilevel_image(BilevelImageSpec {
        pixel_width: 8,
        pixel_height: 1,
        row_stride: 1,
    });
    let mut writer = refused.unwrap();
    writer.write(&mut document, &[0]).unwrap();
    let error = writer.finish(&mut document).unwrap_err();
    assert!(matches!(
        error,
        Error::LimitExceeded { resource: "output bytes", limit: 180, .. }
    ));
    assert!(invalid(
        document.add_page(page(), &[ImageObject { object: ObjectId { number: 3 } }]),
        "PDF writer cannot continue after an output failure"
    ));
}

#[test]
fn objects_are_written_piece_by_piece() {
    let start = PdfWriter::new(&Limits::default()).unwrap().position();
    let pieces = vec![b"<< /A".to_vec(), b" 1".to_vec(), b" >>".to_vec()];
    let header = b"1 0 obj\n".len() as u64;
    let mut writer = PdfWriter::new(&Limits {
        max_output_bytes: start + header + 7,
        ..Limits::default()
    })
    .unwrap();
    let id = writer.reserve_object().unwrap();
    assert_eq!(
        writer.write_object(id, &pieces),
        Err(Error::LimitExceeded {
            resource: "output bytes",
            limit: start + header + 7,
            attempted: start + header + 10,
        })
    );
    assert!(writer.take_output().ends_with(b"\n1 0 obj\n<< /A 1"));
    assert!(invalid(
        writer.reserve_object(),
        "PDF writer cannot continue after an output failure"
    ));
    let mut roomy = PdfWriter::new(&Limits::default()).unwrap();
    let id = roomy.reserve_object().unwrap();
    roomy.write_object(id, &pieces).unwrap();
    assert!(roomy
        .take_output()
        .ends_with(b"\n1 0 obj\n<< /A 1 >>\nendobj\n"));
}

#[test]
fn an_open_object_keeps_others_waiting() {
    let mut writer = PdfWriter::new(&Limits::default()).unwrap();
    let first = writer.reserve_object().unwrap();
    let second = writer.reserve_object().unwrap();
    assert!(invalid(writer.write_bytes(b"x"), "no PDF object is open"));
    assert!(invalid(writer.end_object(), "no PDF object is open"));
    writer.begin_object(first).unwrap();
    assert!(invalid(
        writer.begin_object(second),
        "a PDF object is still open"
    ));
    assert!(invalid(
        writer.reserve_object(),
        "a PDF object is still open"
    ));
    assert!(invalid(writer.finish(first), "a PDF object is still open"));
    writer.write_bytes(b"7").unwrap();
    writer.end_object().unwrap();
    writer
        .write_object(second, &vec![b"8".to_vec()])
        .unwrap();
    assert!(writer
        .take_output()
        .ends_with(b"\n1 0 obj\n7\nendobj\n2 0 obj\n8\nendobj\n"));
}

#[test]
fn a_page_node_that_is_cut_off_ends_the_document() {
    let mut whole = document();
    let image = pixel(&mut whole);
    whole.add_page(page(), &[image]).unwrap();
    let position = whole.writer.position();
    let head = b"5 0 obj\n<< /Type /Pages /Parent 4 0 R /Count 1 /Kids [".len() as u64;
    let mut cut = PdfDocument::new(&Limits {
        max_output_bytes: position + head,
        ..Limits::default()
    })
    .unwrap();
    let image = pixel(&mut cut);
    cut.add_page(page(), &[image]).unwrap();
    cut.writer.take_output();
    assert!(matches!(
        cut.finish(),
        Err(Error::LimitExceeded {
            resource: "output bytes",
            ..
        })
    ));
    let output = String::from_utf8_lossy(&cut.writer.take_output()).into_owned();
    assert!(output.ends_with(" /Count 1 /Kids ["), "{output}");
    assert!(invalid(
        cut.finish(),
        "PDF writer cannot continue after an output failure"
    ));
}

#[test]
fn the_table_is_written_in_parts_that_fit_a_chunk() {
    for (chunk, parts) in [(1, 12), (45, 7), (4096, 3)] {
        let mut document = PdfDocument::new(&Limits {
            io_chunk_bytes: chunk,
            ..Limits::default()
        })
        .unwrap();
        let image = pixel(&mut document);
        document.add_page(page(), &[image]).unwrap();
        let mut table = document.finish().unwrap();
        let mut file = document.writer.take_output();
        let mut lengths = Vec::new();
        loop {
            let complete = table.next(&mut document.writer).unwrap();
            let part = document.writer.take_output();
            lengths.push(part.len());
            file.extend_from_slice(&part);
            if complete {
                break;
            }
        }
        // The catalog, the tree of three nodes, the image, the content, their
        // lengths and the page have a row each, after the free one.
        assert_eq!(document.writer.offsets.len(), 9, "{lengths:?}");
        let rows = &lengths[1..lengths.len() - 1];
        assert!(rows.iter().all(|row| *row == 20 || *row <= chunk));
        assert_eq!(rows.iter().sum::<usize>(), 200);
        assert_eq!(lengths.len(), parts);
        assert!(file.ends_with(b"\n%%EOF\n"));
        assert_eq!(file.len() as u64, document.report(false).unwrap().output_bytes_written);
    }
}

#[test]
fn short_changes_change_the_hash() {
    let start = fnv128(FNV128_BASIS, b"[<00>]");
    let one = fnv128(start, b"<FEFF0041> /Parent 9 0 R");
    let other = fnv128(start, b"<FEFF0042> /Parent 9 0 R");
    assert_ne!(one, other);
    assert_ne!(fnv128(one, b" >>"), fnv128(other, b" >>"));
    assert_ne!(fnv128(start, b"00410041>"), fnv128(start, b"00420042>"));
}

#[test]
fn the_writer_guards_its_objects() {
    let mut writer = PdfWriter::new(&Limits::default()).unwrap();
    let first = writer.reserve_object().unwrap();
    let second = writer.reserve_object().unwrap();
    assert_eq!((first.number(), second.number()), (1, 2));
    assert!(invalid(
        writer.write_object(ObjectId { number: 3 }, &vec![b"x".to_vec()]),
        "PDF object is unknown or already written"
    ));
    writer.write_object(first, &vec![b"x".to_vec()]).unwrap();
    assert!(invalid(
        writer.write_object(first, &vec![b"x".to_vec()]),
        "PDF object is unknown or already written"
    ));
    assert!(invalid(
        writer.finish(first),
        "a reserved PDF object has not been written"
    ));
    assert!(invalid(
        writer.write_stream_bytes(b"x"),
        "no PDF stream is open"
    ));
    writer.fail();
    assert!(invalid(
        writer.reserve_object(),
        "PDF writer cannot continue after an output failure"
    ));
}

#[test]
fn limits_that_allow_no_progress_are_refused() {
    let none = Limits {
        io_chunk_bytes: 0,
        ..Limits::default()
    };
    assert!(invalid(
        PdfDocument::new(&none).map(|_| ()),
        "I/O chunk must hold at least one byte"
    ));
    let wide = Limits {
        io_chunk_bytes: 65,
        max_allocation_bytes: 64,
        ..Limits::default()
    };
    assert!(invalid(
        wide.validate(),
        "I/O chunk exceeds the allocation limit"
    ));
    assert_eq!(Limits::default().validate(), Ok(()));
}

#[test]
fn the_hash_matches_published_values_and_takes_pieces() {
    assert_eq!(fnv128(FNV128_BASIS, b""), FNV128_BASIS);
    assert_eq!(
        fnv128(FNV128_BASIS, b"a"),
        0xd228cb696f1a8caf78912b704e4a8964
    );
    let pieces = fnv128(fnv128(FNV128_BASIS, b"out"), b"line");
    assert_eq!(pieces, fnv128(FNV128_BASIS, b"outline"));
    assert_eq!(
        unsupported_id(9),
        Error::Pdf {
            offset: 9,
            object: None,
            kind: PdfErrorKind::UnsupportedFeature,
            reason: "unsupported PDF trailer ID syntax",
        }
    );
}

#[test]
fn reads_are_counted_and_overreads_refused() {
    assert_eq!(count_pdf_read(5, 3, 2), Ok(7));
    assert!(invalid(
        count_pdf_read(5, 3, 4),
        "PDF source reported more bytes than requested"
    ));
    assert!(invalid(
        count_pdf_read(u64::MAX, 3, 1),
        "PDF input byte count overflows"
    ));
    assert!(invalid(count_read(0, 0, 1, "over", "flow"), "over"));
}

#[test]
fn growth_doubles_within_its_ceilings() {
    assert_eq!(growth_target(1, 0, 100, 100), 2);
    assert_eq!(growth_target(5, 4, 100, 100), 8);
    assert_eq!(growth_target(5, 4, 6, 100), 6);
    assert_eq!(growth_target(5, 4, 100, 5), 5);
    assert_eq!(growth_target(1, 1, 100, 100), 2);
    let refused = Error::InvalidInput { reason: "refused" };
    let mut values: Vec<u64> = vec![1];
    assert_eq!(reserve_exact(&mut values, 10, refused), Ok(()));
    assert!(values.capacity() >= 11);
    assert_eq!(values, [1]);
    assert_eq!(reserve_exact(&mut values, 0, refused), Ok(()));
    assert_eq!(
        reserve_exact(&mut values, usize::MAX, refused),
        Err(refused)
    );
    let limits = Limits::default();
    assert_eq!(plan_entry_growth(0, 8, &limits), Ok(None));
    assert!(plan_entry_growth(8, 8, &limits).unwrap().is_some());
}

#[test]
fn corrections_touch_nothing_else() {
    let gaps = [GapPatch {
        offset: 4,
        original: b"xx".to_vec(),
    }];
    let mut patches = CopyPatches::new(&[2], &gaps);
    let mut bytes = *b"ab\rcxxd";
    patches.apply(&mut bytes, 0).unwrap();
    assert_eq!(&bytes, b"ab\nc  d");
    patches.check_consumed().unwrap();
}

#[test]
fn appended_objects_keep_their_offsets() {
    let mut writer = AppendWriter::new(&Limits::default());
    writer.write_raw(b"prefix").unwrap();
    writer.write_object(reference(4), &vec![b"one".to_vec()]).unwrap();
    writer
        .write_object(reference(9), &vec![b"tw".to_vec(), b"o".to_vec()])
        .unwrap();
    let entries: Vec<(u32, u64)> = writer
        .entries
        .iter()
        .map(|entry| (entry.reference.number, entry.offset))
        .collect();
    let bytes = writer.take_output();
    for (number, offset) in entries {
        assert!(bytes[offset as usize..].starts_with(format!("{number} 0 obj\n").as_bytes()));
    }
    assert_eq!(bytes, b"prefix\n4 0 obj\none\nendobj\n\n9 0 obj\ntwo\nendobj\n");
}

#[test]
fn titles_are_utf16_and_numbers_have_digits() {
    assert_eq!(title_units("A\u{4E2D}\u{1D11E}"), [0x41, 0x4E2D, 0xD834, 0xDD1E]);
    assert_eq!(outline_title_hex_len("A\u{1D11E}"), Ok(12));
    assert_eq!(decimal_digits(0), 1);
    assert_eq!(decimal_digits(999), 3);
    assert_eq!(decimal_digits(u64::MAX), 20);
    let mut hex = Vec::new();
    push_fixed_hex(&mut hex, 0xABC, 6);
    assert_eq!(hex, b"000ABC");
}

#[test]
fn references_are_checked_and_found() {
    let records = [
        Record::synthetic(reference(2)),
        Record::synthetic(reference(5)),
        Record::synthetic(reference(9)),
    ];
    assert_eq!(object_index(&records, reference(5)), Some(1));
    assert_eq!(object_index(&records, reference(6)), None);
    assert_eq!(checked_reference(reference(1), 0), Ok(()));
    assert!(matches!(
        checked_reference(reference(0), 7),
        Err(Error::Pdf { offset: 7, reason: "object zero cannot be referenced", .. })
    ));
    assert!(matches!(
        checked_reference(PdfRef { number: 1, generation: 1 }, 7),
        Err(Error::Pdf { kind: PdfErrorKind::UnsupportedFeature, .. })
    ));
    assert!(checked_reference(reference(MAX_PDF_OBJECTS), 0).is_ok());
    assert!(checked_reference(reference(MAX_PDF_OBJECTS + 1), 0).is_err());
    assert!(invalid(
        checked_add(u64::MAX, 1),
        "PDF arithmetic overflows 64 bits"
    ));
    let limits = Limits::default();
    assert!(matches!(
        check_pdf_allocation(&limits, limits.max_allocation_bytes + 1, None, 3),
        Err(Error::PdfLimitExceeded { offset: 3, object: None, resource: "PDF allocation bytes", .. })
    ));
    assert_eq!(PdfRange { offset: 1, length: u64::MAX }.end(), None);
}

#[test]
fn synthetic_objects_are_spelled_exactly() {
    let mut text = Vec::new();
    push_pages_prefix(&mut text, reference(5), 2);
    page_reference(reference(12), &mut text);
    push_catalog(&mut text, reference(10), reference(5), Some(reference(11)));
    assert_eq!(
        String::from_utf8(text).unwrap(),
        "5 0 obj\n<< /Type /Pages /Count 2 /Kids [12 0 R \
         10 0 obj\n<< /Type /Catalog /Pages 5 0 R /Outlines 11 0 R >>\nendobj\n"
    );
}

#[test]
fn outline_nodes_are_linked_both_ways() {
    let bookmarks = [
        bookmark(0, "a", 1),
        bookmark(1, "b", 0),
        bookmark(1, "c", 1),
        bookmark(0, "d", 0),
    ];
    let pages = [reference(9), reference(3)];
    let limits = Limits::default();
    let (nodes, first, last) =
        build_outline_nodes(&bookmarks, &pages, reference(20), &limits, 0).unwrap();
    assert_eq!((first.number, last.number), (21, 24));
    let links: Vec<_> = nodes
        .iter()
        .map(|node| {
            (
                node.parent.number,
                node.previous.map(|link| link.number),
                node.next.map(|link| link.number),
                node.first_child.map(|link| link.number),
                node.last_child.map(|link| link.number),
                node.descendants,
                node.page.number,
            )
        })
        .collect();
    assert_eq!(
        links,
        [
            (20, None, Some(24), Some(22), Some(23), 2, 3),
            (21, None, Some(23), None, None, 0, 9),
            (21, Some(22), None, None, None, 0, 3),
            (20, Some(21), None, None, None, 0, 9),
        ]
    );
    let empty = [bookmark(0, "", 0)];
    assert!(matches!(
        build_outline_nodes(&empty, &pages, reference(20), &limits, 0),
        Err(Error::Pdf { reason: "bookmark title is empty", .. })
    ));
    let skipping = [bookmark(0, "a", 0), bookmark(2, "b", 0)];
    assert!(matches!(
        build_outline_nodes(&skipping, &pages, reference(20), &limits, 0),
        Err(Error::Pdf { reason: "bookmark depth skips a parent", .. })
    ));
}
