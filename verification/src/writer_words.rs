//! What a written file says of its objects, and when more is refused.

use vstd::prelude::*;
use crate::fragment::file_words::law_rows_read_back;
use crate::fragment::texts::{trailer_text, xref_header_text};
use crate::text::{decimal, decimal_value, spelled};
use crate::types::Limits;
use crate::writer::{
    all_written, holds_header, lemma_row_at, object_text, offset_rows, output_failure,
    stream_end_text, stream_start_text, table_text, ObjectId, PdfWriter,
};

verus! {

/// A stream stands between its words, and the object that its dictionary names
/// as its length holds the number of its bytes.
pub proof fn law_streams_count_their_bytes(
    number: nat,
    length_number: nat,
    dictionary: Seq<u8>,
    data: Seq<u8>,
)
    ensures
        stream_start_text(number as int, length_number as int, dictionary) + data
            + stream_end_text(length_number as int, data.len()) == decimal(number) + spelled(
            " 0 obj\n",
        ) + spelled("<<\n") + dictionary + spelled("/Length ") + decimal(length_number) + spelled(
            " 0 R\n>>\nstream\n",
        ) + data + spelled("\nendstream\nendobj\n") + decimal(length_number) + spelled(" 0 obj\n")
            + decimal(data.len()) + spelled("\nendobj\n"),
{
    assert(stream_start_text(number as int, length_number as int, dictionary) + data
        + stream_end_text(length_number as int, data.len()) =~= decimal(number) + spelled(
        " 0 obj\n",
    ) + spelled("<<\n") + dictionary + spelled("/Length ") + decimal(length_number) + spelled(
        " 0 R\n>>\nstream\n",
    ) + data + spelled("\nendstream\nendobj\n") + decimal(length_number) + spelled(" 0 obj\n")
        + decimal(data.len()) + spelled("\nendobj\n"));
}

/// An object stands between its number and its end.
pub proof fn law_objects_are_framed(number: nat, body: Seq<u8>)
    ensures
        object_text(number as int, body) == decimal(number) + spelled(" 0 obj\n") + body + spelled(
            "\nendobj\n",
        ),
{
}

/// A finished file ends with a table of one row for each object and one more, and
/// a trailer that counts the rows, names the catalog, and says where the table
/// starts. The row of an object is in use and leads to its number; the first row
/// is free.
#[verifier::spinoff_prover]
#[verifier::rlimit(40)]
pub proof fn law_table_leads_to_objects(writer: PdfWriter, catalog: ObjectId, number: int)
    requires
        writer.well_formed(),
        all_written(writer.offsets@),
        writer.position <= 9_999_999_999,
        1 <= number <= writer.offsets@.len(),
    ensures
        ({
            let written = writer.written@;
            let file = written + table_text(writer.offsets@, catalog, writer.position);
            let rows = writer.offsets@.len() + 1;
            let line = spelled("xref\n0 ") + decimal(rows) + spelled("\n");
            let trailer = spelled("trailer\n<< /Size ") + decimal(rows) + spelled(" /Root ")
                + decimal(catalog.number as nat) + spelled(" 0 R") + spelled(" >>\nstartxref\n")
                + decimal(written.len()) + spelled("\n%%EOF\n");
            let table = file.skip(written.len() + line.len() as int);
            let free = table.take(20);
            let row = table.subrange(20 * number, 20 * number + 20);
            let offset = decimal_value(row.take(10)) as int;
            let header = decimal(number as nat) + spelled(" 0 obj\n");
            &&& file.len() == written.len() + line.len() + 20 * rows + trailer.len()
            &&& line.is_prefix_of(file.skip(written.len() as int))
            &&& table.skip(20 * rows as int) == trailer
            &&& decimal_value(free.take(10)) == 0
            &&& decimal_value(free.subrange(11, 16)) == 65_535
            &&& free[17] == 102
            &&& decimal_value(row.subrange(11, 16)) == 0
            &&& row[17] == 110
            &&& offset + header.len() <= written.len()
            &&& file.subrange(offset, offset + header.len()) == header
        }),
{
    reveal(trailer_text);
    reveal(xref_header_text);
    let written = writer.written@;
    let offsets = writer.offsets@;
    let size = (offsets.len() + 1) as u64;
    let rows = offset_rows(offsets, 0);
    let line = spelled("xref\n0 ") + decimal(size as nat) + spelled("\n");
    let trailer = spelled("trailer\n<< /Size ") + decimal(size as nat) + spelled(" /Root ")
        + decimal(catalog.number as nat) + spelled(" 0 R") + spelled(" >>\nstartxref\n") + decimal(
        written.len(),
    ) + spelled("\n%%EOF\n");
    assert(trailer_text(size, catalog.reference(), writer.position) =~= trailer);
    let file = written + table_text(offsets, catalog, writer.position);
    assert(file =~= written + line + rows + trailer);
    lemma_row_at(offsets, 0, 0);
    lemma_row_at(offsets, 0, number);
    let table = file.skip(written.len() + line.len() as int);
    assert(table =~= rows + trailer);
    assert(line =~= file.skip(written.len() as int).take(line.len() as int));
    assert(table.skip(20 * (offsets.len() + 1) as int) =~= trailer);
    let free = table.take(20);
    assert(free =~= rows.subrange(0, 20));
    law_rows_read_back(0, 65_535, 102);
    let row = table.subrange(20 * number, 20 * number + 20);
    assert(row =~= rows.subrange(20 * number, 20 * number + 20));
    assert(offsets[number - 1] is Some);
    let offset = offsets[number - 1]->0;
    assert(holds_header(written, offset as int, number));
    law_rows_read_back(offset, 0, 110);
    let header = decimal(number as nat) + spelled(" 0 obj\n");
    assert(file.subrange(offset as int, offset + header.len()) =~= written.subrange(
        offset as int,
        offset + header.len(),
    ));
}

/// More output is taken exactly where the file stays within its limit and ten
/// digits still count it.
pub proof fn law_output_is_refused_for_cause(limits: Limits, position: u64, length: nat)
    ensures
        output_failure(limits, position as int, length) is None <==> position + length
            <= limits.max_output_bytes && position + length <= 9_999_999_999,
{
}

/// An object is begun exactly where the output is sound, nothing else is open,
/// and it was handed out and not yet written.
pub proof fn law_objects_are_refused_for_cause(writer: PdfWriter, id: ObjectId)
    ensures
        writer.begin_failure(id) is None <==> {
            &&& !writer.poisoned
            &&& writer.stream is None
            &&& !writer.object_open
            &&& 1 <= id.number <= writer.offsets@.len()
            &&& writer.offsets@[id.number - 1] is None
        },
{
}

/// A file is finished exactly where the output is sound, nothing is open, every
/// object has been written, and the table fits.
pub proof fn law_files_are_finished_unless_for_cause(writer: PdfWriter, catalog: ObjectId)
    ensures
        writer.finish_failure(catalog) is None <==> {
            let bytes = writer.position + table_text(
                writer.offsets@,
                catalog,
                writer.position,
            ).len();
            &&& !writer.poisoned
            &&& writer.stream is None
            &&& !writer.object_open
            &&& forall|i: int|
                0 <= i < writer.offsets@.len() ==> (#[trigger] writer.offsets@[i]) is Some
            &&& bytes <= writer.limits.max_output_bytes
            &&& bytes <= 9_999_999_999
        },
{
}

} // verus!
