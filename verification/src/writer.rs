//! A forward-only writer of classic-xref PDF files.

use vstd::prelude::*;
use crate::fallible::{allocator_refused, growth_bytes, growth_failure, reserve_bounded};
use crate::fragment::texts::{
    header_text, lemma_texts_are_not_empty, push_header, push_trailer, push_xref_header,
    trailer_text, xref_entry, xref_entry_text, xref_header_text, FREE, IN_USE,
};
use crate::pieces::{joined, lemma_joined_append, views};
use crate::text::{
    decimal, lemma_fixed_decimal_length, push_bytes, push_decimal, push_text, spelled,
};
use crate::types::{
    first_failure, is_output_limit, outcome, over_limit, Error, Limits, PdfRef,
    MAX_CLASSIC_PDF_BYTES, MAX_PDF_OBJECTS,
};

verus! {

/// An object number that a writer has handed out.
#[derive(Clone, Copy, Debug, PartialEq, Eq, Structural)]
pub struct ObjectId {
    pub number: u32,
}

impl ObjectId {
    /// The object number.
    pub fn number(self) -> (number: u32)
        ensures
            number == self.number,
    {
        self.number
    }

    /// The object as a reference of generation zero.
    #[verifier::allow_in_spec]
    pub fn reference(self) -> PdfRef
        returns
            (PdfRef { number: self.number, generation: 0 }),
    {
        PdfRef { number: self.number, generation: 0 }
    }
}

/// A stream object that is being written.
#[derive(Clone, Copy, Debug, PartialEq, Eq, Structural)]
pub struct OpenStream {
    pub id: ObjectId,
    pub length_id: ObjectId,
    pub length: u64,
}

/// Writes numbered objects in any order, and remembers where each starts.
///
/// Bytes are queued in `pending` until the caller takes them. A caller that
/// fails to write them says so with `fail`, and nothing more is accepted.
pub struct PdfWriter {
    pub limits: Limits,
    pub position: u64,
    /// Where each reserved object starts, from object number one on.
    pub offsets: Vec<Option<u64>>,
    pub stream: Option<OpenStream>,
    /// Whether an object that is not a stream is being written.
    pub object_open: bool,
    pub poisoned: bool,
    pub pending: Vec<u8>,
    pub written: Ghost<Seq<u8>>,
}

/// Why a healthy writer at `position` refuses this many bytes.
pub open spec fn output_failure(limits: Limits, position: int, length: nat) -> Option<Error> {
    let attempted = position + length;
    if attempted > u64::MAX {
        Some(Error::InvalidInput { reason: "PDF output byte count overflows" })
    } else if attempted > MAX_CLASSIC_PDF_BYTES {
        over_limit("classic PDF file bytes", MAX_CLASSIC_PDF_BYTES, attempted)
    } else {
        over_limit("output bytes", limits.max_output_bytes, attempted)
    }
}

/// Whether a refusal of this many bytes is final: they exceed the limit on
/// output, though a classic PDF could hold them.
pub open spec fn output_exhausted(limits: Limits, position: int, length: nat) -> bool {
    limits.max_output_bytes < position + length <= MAX_CLASSIC_PDF_BYTES
}

/// Why the writer takes no output.
pub open spec fn writer_failed() -> Error {
    Error::InvalidInput { reason: "PDF writer cannot continue after an output failure" }
}

/// How an object begins.
pub open spec fn header_of(number: int) -> Seq<u8> {
    decimal(number as nat) + spelled(" 0 obj\n")
}

/// How an object ends.
pub open spec fn end_text() -> Seq<u8> {
    spelled("\nendobj\n")
}

/// A whole object.
pub open spec fn object_text(number: int, body: Seq<u8>) -> Seq<u8> {
    header_of(number) + body + spelled("\nendobj\n")
}

/// How a stream object begins. Its length is an object of its own.
pub open spec fn stream_start_text(number: int, length_number: int, dictionary: Seq<u8>) -> Seq<
    u8,
> {
    header_of(number) + spelled("<<\n") + dictionary + spelled("/Length ") + decimal(
        length_number as nat,
    ) + spelled(" 0 R\n>>\nstream\n")
}

/// How a stream object ends, followed by the object that holds its length.
pub open spec fn stream_end_text(length_number: int, length: nat) -> Seq<u8> {
    spelled("\nendstream\nendobj\n") + object_text(length_number, decimal(length))
}

/// How a stream object ends.
pub open spec fn endstream_text() -> Seq<u8> {
    spelled("\nendstream\nendobj\n")
}

fn push_object(out: &mut Vec<u8>, number: u32, body: &[u8])
    ensures
        final(out)@ == old(out)@ + object_text(number as int, body@),
{
    let ghost before = out@;
    push_decimal(out, number as u64);
    push_text(out, " 0 obj\n");
    push_bytes(out, body);
    push_text(out, "\nendobj\n");
    assert(out@ =~= before + object_text(number as int, body@));
}

impl PdfWriter {
    /// Whether the queued bytes are the last of those written, and every
    /// recorded offset is that of its object's header.
    pub open spec fn well_formed(self) -> bool {
        &&& self.position == self.written@.len()
        &&& self.pending@.len() <= self.written@.len()
        &&& self.pending@ == self.written@.skip(self.written@.len() - self.pending@.len())
        &&& self.offsets@.len() <= MAX_PDF_OBJECTS
        &&& forall|i: int|
            #![trigger self.offsets@[i]]
            0 <= i < self.offsets@.len() ==> match self.offsets@[i] {
                Some(offset) => holds_header(self.written@, offset as int, i + 1),
                None => true,
            }
        &&& match self.stream {
            Some(stream) => {
                &&& 1 <= stream.id.number <= self.offsets@.len()
                &&& 1 <= stream.length_id.number <= self.offsets@.len()
                &&& stream.id != stream.length_id
                &&& self.offsets@[stream.id.number - 1] is Some
                &&& self.offsets@[stream.length_id.number - 1] is None
                &&& stream.length <= self.position
            },
            None => true,
        }
        &&& self.object_open ==> self.stream is None
    }

    /// How many bytes have been taken.
    pub open spec fn taken(self) -> int {
        self.written@.len() - self.pending@.len()
    }

    /// Whether an object has been handed out.
    pub open spec fn is_reserved(self, id: ObjectId) -> bool {
        1 <= id.number <= self.offsets@.len()
    }

    /// Whether an object has been handed out and not been written.
    pub open spec fn is_unwritten(self, id: ObjectId) -> bool {
        self.is_reserved(id) && self.offsets@[id.number - 1] is None
    }

    /// The number of bytes written.
    pub fn position(&self) -> (position: u64)
        ensures
            position == self.position,
    {
        self.position
    }

    /// Hand over the queued bytes.
    pub fn take_output(&mut self) -> (bytes: Vec<u8>)
        requires
            old(self).well_formed(),
        ensures
            final(self).well_formed(),
            bytes@ == old(self).pending@,
            final(self).pending@.len() == 0,
            final(self).same_file(*old(self)),
    {
        let mut bytes: Vec<u8> = Vec::new();
        core::mem::swap(&mut bytes, &mut self.pending);
        proof {
            assert(self.written@.skip(self.written@.len() as int) =~= Seq::<u8>::empty());
            assert(self.pending@ =~= Seq::<u8>::empty());
        }
        bytes
    }

    /// Whether another state has written the same file.
    pub open spec fn same_file(self, other: Self) -> bool {
        &&& self.limits == other.limits
        &&& self.position == other.position
        &&& self.offsets@ == other.offsets@
        &&& self.stream == other.stream
        &&& self.object_open == other.object_open
        &&& self.poisoned == other.poisoned
        &&& self.written == other.written
    }

    /// Record that bytes that were taken could not be written.
    pub fn fail(&mut self)
        ensures
            *final(self) == (PdfWriter { poisoned: true, ..*old(self) }),
    {
        self.poisoned = true;
    }

    /// Why the writer refuses this many bytes.
    pub open spec fn write_failure(self, length: nat) -> Option<Error> {
        if self.poisoned {
            Some(writer_failed())
        } else {
            output_failure(self.limits, self.position as int, length)
        }
    }

    /// The state after a refusal: an output limit is final.
    pub open spec fn after_refusal(self, other: Self, length: nat) -> bool {
        &&& other.well_formed()
        &&& other.limits == self.limits
        &&& other.position == self.position
        &&& other.offsets@ == self.offsets@
        &&& other.stream == self.stream
        &&& other.object_open == self.object_open
        &&& other.pending == self.pending
        &&& other.written == self.written
        &&& other.poisoned == (self.poisoned || output_exhausted(
            self.limits,
            self.position as int,
            length,
        ))
    }

    /// Queue bytes.
    fn queue(&mut self, bytes: &[u8]) -> (wrote: Result<(), Error>)
        requires
            old(self).well_formed(),
        ensures
            wrote == outcome(old(self).write_failure(bytes@.len())),
            match wrote {
                Ok(()) => {
                    &&& final(self).well_formed()
                    &&& final(self).written@ == old(self).written@ + bytes@
                    &&& final(self).limits == old(self).limits
                    &&& final(self).offsets == old(self).offsets
                    &&& final(self).stream == old(self).stream
                    &&& final(self).object_open == old(self).object_open
                    &&& final(self).poisoned == old(self).poisoned
                    &&& final(self).taken() == old(self).taken()
                },
                Err(error) => {
                    &&& old(self).after_refusal(*final(self), bytes@.len())
                    &&& final(self).poisoned == (old(self).poisoned || is_output_limit(error))
                },
            },
    {
        if self.poisoned {
            return Err(
                Error::InvalidInput {
                    reason: "PDF writer cannot continue after an output failure",
                },
            );
        }
        let attempted: u64 = match self.position.checked_add(bytes.len() as u64) {
            Some(attempted) => attempted,
            None => {
                return Err(Error::InvalidInput { reason: "PDF output byte count overflows" });
            },
        };
        if attempted > MAX_CLASSIC_PDF_BYTES {
            return Err(
                Error::LimitExceeded {
                    resource: "classic PDF file bytes",
                    limit: MAX_CLASSIC_PDF_BYTES,
                    attempted,
                },
            );
        }
        if attempted > self.limits.max_output_bytes {
            self.poisoned = true;
            return Err(
                Error::LimitExceeded {
                    resource: "output bytes",
                    limit: self.limits.max_output_bytes,
                    attempted,
                },
            );
        }
        let ghost before = *self;
        push_bytes(&mut self.pending, bytes);
        self.position = attempted;
        self.written = Ghost(before.written@ + bytes@);
        proof {
            let queued = before.pending@.len();
            assert(self.written@.skip(self.written@.len() - queued - bytes@.len())
                =~= before.written@.skip(before.written@.len() - queued) + bytes@);
            assert forall|i: int|
                #![trigger self.offsets@[i]]
                0 <= i < self.offsets@.len() implies match self.offsets@[i] {
                Some(offset) => holds_header(self.written@, offset as int, i + 1),
                None => true,
            } by {
                if let Some(offset) = before.offsets@[i] {
                    lemma_header_stays(before.written@, bytes@, offset as int, i + 1);
                }
            }
        }
        Ok(())
    }
}

/// Whether an object's header stands at an offset.
pub open spec fn holds_header(written: Seq<u8>, offset: int, number: int) -> bool {
    let header = header_of(number);
    &&& 0 <= offset
    &&& offset + header.len() <= written.len()
    &&& written.subrange(offset, offset + header.len()) == header
}

proof fn lemma_header_stays(written: Seq<u8>, bytes: Seq<u8>, offset: int, number: int)
    requires
        holds_header(written, offset, number),
    ensures
        holds_header(written + bytes, offset, number),
{
    let header = header_of(number);
    assert((written + bytes).subrange(offset, offset + header.len()) =~= written.subrange(
        offset,
        offset + header.len(),
    ));
}

/// An object that is written stands where it starts.
proof fn lemma_header_written(written: Seq<u8>, number: int, rest: Seq<u8>)
    ensures
        holds_header(written + (header_of(number) + rest), written.len() as int, number),
{
    let header = header_of(number);
    let all = written + (header + rest);
    let start = written.len() as int;
    assert(all.subrange(start, start + header.len()) =~= header);
}

impl PdfWriter {
    /// A writer that has written the file header.
    pub fn new(limits: &Limits) -> (writer: Result<Self, Error>)
        ensures
            match writer {
                Ok(writer) => {
                    &&& output_failure(*limits, 0, header_text().len()) is None
                    &&& writer.well_formed()
                    &&& writer.limits == *limits
                    &&& writer.written@ == header_text()
                    &&& writer.offsets@.len() == 0
                    &&& writer.unready() is None
                    &&& writer.taken() == 0
                },
                Err(error) => output_failure(*limits, 0, header_text().len()) == Some(error),
            },
    {
        let mut writer = PdfWriter {
            limits: *limits,
            position: 0,
            offsets: Vec::new(),
            stream: None,
            object_open: false,
            poisoned: false,
            pending: Vec::new(),
            written: Ghost(Seq::empty()),
        };
        assert(Seq::<u8>::empty().skip(0) =~= Seq::<u8>::empty());
        let mut header: Vec<u8> = Vec::new();
        push_header(&mut header);
        assert(header@ =~= header_text());
        writer.queue(&header)?;
        assert(writer.written@ =~= header_text());
        Ok(writer)
    }

    /// Why no new object can be begun, if anything stands against it.
    pub open spec fn unready(self) -> Option<Error> {
        if self.poisoned {
            Some(writer_failed())
        } else if self.stream is Some {
            Some(Error::InvalidInput { reason: "a PDF stream is still open" })
        } else if self.object_open {
            Some(Error::InvalidInput { reason: "a PDF object is still open" })
        } else {
            None
        }
    }

    /// Check that a new object can be begun.
    fn check_ready(&self) -> (ready: Result<(), Error>)
        ensures
            ready == outcome(self.unready()),
    {
        if self.poisoned {
            return Err(
                Error::InvalidInput {
                    reason: "PDF writer cannot continue after an output failure",
                },
            );
        }
        if self.stream.is_some() {
            return Err(Error::InvalidInput { reason: "a PDF stream is still open" });
        }
        if self.object_open {
            return Err(Error::InvalidInput { reason: "a PDF object is still open" });
        }
        Ok(())
    }

    /// Why no object can be handed out.
    pub open spec fn reserve_failure(self) -> Option<Error> {
        first_failure(self.unready(), self.index_failure())
    }

    /// Why the list of objects cannot grow.
    pub open spec fn index_failure(self) -> Option<Error> {
        growth_failure::<Option<u64>>(
            self.offsets@.len(),
            MAX_PDF_OBJECTS as u64,
            self.limits,
            "PDF object index allocation",
        )
    }

    /// Hand out the next object number.
    pub fn reserve_object(&mut self) -> (reserved: Result<ObjectId, Error>)
        requires
            old(self).well_formed(),
        ensures
            final(self).well_formed(),
            final(self).limits == old(self).limits,
            final(self).position == old(self).position,
            final(self).stream == old(self).stream,
            final(self).object_open == old(self).object_open,
            final(self).poisoned == old(self).poisoned,
            final(self).pending == old(self).pending,
            final(self).written == old(self).written,
            match reserved {
                Ok(id) => {
                    &&& old(self).reserve_failure() is None
                    &&& id.number == old(self).offsets@.len() + 1
                    &&& final(self).offsets@ == old(self).offsets@.push(None)
                },
                Err(error) => {
                    &&& final(self).offsets@ == old(self).offsets@
                    &&& !is_output_limit(error)
                    &&& match old(self).reserve_failure() {
                        Some(failure) => error == failure,
                        None => allocator_refused(
                            error,
                            "PDF object index allocation",
                            old(self).limits,
                            growth_bytes::<Option<u64>>(
                                old(self).offsets@.len(),
                                MAX_PDF_OBJECTS as u64,
                                old(self).limits,
                            ),
                        ),
                    }
                },
            },
    {
        self.check_ready()?;
        let ghost before = *self;
        let reserved = reserve_bounded(
            &mut self.offsets,
            MAX_PDF_OBJECTS as u64,
            &self.limits,
            "PDF object index allocation",
        );
        reserved?;
        self.offsets.push(None);
        proof {
            assert forall|i: int|
                #![trigger self.offsets@[i]]
                0 <= i < self.offsets@.len() implies match self.offsets@[i] {
                Some(offset) => holds_header(self.written@, offset as int, i + 1),
                None => true,
            } by {
                if i < before.offsets@.len() {
                    assert(self.offsets@[i] == before.offsets@[i]);
                }
            }
        }
        Ok(ObjectId { number: self.offsets.len() as u32 })
    }

    /// Why an object cannot be begun, however short it is.
    pub open spec fn begin_failure(self, id: ObjectId) -> Option<Error> {
        if self.unready() is Some {
            self.unready()
        } else if !self.is_unwritten(id) {
            Some(Error::InvalidInput { reason: "PDF object is unknown or already written" })
        } else {
            None
        }
    }

    /// Why an object that begins with this many bytes cannot be begun.
    pub open spec fn object_failure(self, id: ObjectId, length: nat) -> Option<Error> {
        first_failure(
            self.begin_failure(id),
            output_failure(self.limits, self.position as int, length),
        )
    }

    /// Check that an object can be written now.
    fn check_object(&self, id: ObjectId) -> (checked: Result<(), Error>)
        ensures
            checked == outcome(self.begin_failure(id)),
    {
        self.check_ready()?;
        if id.number == 0 || id.number as usize > self.offsets.len()
            || self.offsets[id.number as usize - 1].is_some() {
            return Err(Error::InvalidInput { reason: "PDF object is unknown or already written" });
        }
        Ok(())
    }

    /// Whether a state is this one after an object that starts with its header
    /// was written.
    pub open spec fn wrote_object(self, other: Self, id: ObjectId, text: Seq<u8>) -> bool {
        &&& other.well_formed()
        &&& other.limits == self.limits
        &&& other.poisoned == self.poisoned
        &&& other.taken() == self.taken()
        &&& other.written@ == self.written@ + text
        &&& other.offsets@ == self.offsets@.update(id.number - 1, Some(self.position))
    }

    /// Begin an object.
    pub fn begin_object(&mut self, id: ObjectId) -> (begun: Result<(), Error>)
        requires
            old(self).well_formed(),
        ensures
            ({
                let header = header_of(id.number as int);
                &&& begun == outcome(old(self).object_failure(id, header.len()))
                &&& match begun {
                    Ok(()) => {
                        &&& old(self).wrote_object(*final(self), id, header)
                        &&& final(self).object_open
                    },
                    Err(error) => {
                        &&& if old(self).begin_failure(id) is Some {
                            *final(self) == *old(self)
                        } else {
                            old(self).after_refusal(*final(self), header.len())
                        }
                        &&& final(self).poisoned == (old(self).poisoned || is_output_limit(error))
                    },
                }
                &&& final(self).well_formed()
            }),
    {
        self.check_object(id)?;
        let ghost before = *self;
        let mut text: Vec<u8> = Vec::new();
        push_decimal(&mut text, id.number as u64);
        push_text(&mut text, " 0 obj\n");
        let ghost header = header_of(id.number as int);
        assert(text@ =~= header);
        let offset: u64 = self.position;
        self.queue(&text)?;
        self.offsets.set(id.number as usize - 1, Some(offset));
        self.object_open = true;
        proof {
            assert(header + Seq::<u8>::empty() =~= header);
            lemma_header_written(before.written@, id.number as int, Seq::empty());
            lemma_offset_recorded(before, *self, id, header);
        }
        Ok(())
    }

    /// Why bytes of an object cannot be written now.
    pub open spec fn bytes_failure(self, length: nat) -> Option<Error> {
        if self.poisoned {
            Some(writer_failed())
        } else if !self.object_open {
            Some(Error::InvalidInput { reason: "no PDF object is open" })
        } else {
            output_failure(self.limits, self.position as int, length)
        }
    }

    /// Whether a state is this one after bytes of the open object.
    pub open spec fn wrote_bytes(self, other: Self, bytes: Seq<u8>) -> bool {
        &&& other.written@ == self.written@ + bytes
        &&& other.taken() == self.taken()
        &&& other.limits == self.limits
        &&& other.poisoned == self.poisoned
        &&& other.offsets@ == self.offsets@
        &&& other.stream == self.stream
    }

    /// Write bytes of the open object.
    pub fn write_bytes(&mut self, bytes: &[u8]) -> (wrote: Result<(), Error>)
        requires
            old(self).well_formed(),
        ensures
            final(self).well_formed(),
            wrote == outcome(old(self).bytes_failure(bytes@.len())),
            final(self).object_open == old(self).object_open,
            match wrote {
                Ok(()) => old(self).wrote_bytes(*final(self), bytes@),
                Err(error) => {
                    &&& if old(self).poisoned || !old(self).object_open {
                        *final(self) == *old(self)
                    } else {
                        old(self).after_refusal(*final(self), bytes@.len())
                    }
                    &&& final(self).poisoned == (old(self).poisoned || is_output_limit(error))
                },
            },
    {
        if self.poisoned {
            return Err(
                Error::InvalidInput {
                    reason: "PDF writer cannot continue after an output failure",
                },
            );
        }
        if !self.object_open {
            return Err(Error::InvalidInput { reason: "no PDF object is open" });
        }
        self.queue(bytes)
    }

    /// End the open object.
    pub fn end_object(&mut self) -> (ended: Result<(), Error>)
        requires
            old(self).well_formed(),
        ensures
            final(self).well_formed(),
            ended == outcome(old(self).bytes_failure(end_text().len())),
            match ended {
                Ok(()) => {
                    &&& old(self).wrote_bytes(*final(self), end_text())
                    &&& !final(self).object_open
                },
                Err(error) => {
                    &&& if old(self).poisoned || !old(self).object_open {
                        *final(self) == *old(self)
                    } else {
                        old(self).after_refusal(*final(self), end_text().len())
                    }
                    &&& final(self).poisoned == (old(self).poisoned || is_output_limit(error))
                },
            },
    {
        let mut text: Vec<u8> = Vec::new();
        push_text(&mut text, "\nendobj\n");
        assert(text@ =~= end_text());
        self.write_bytes(&text)?;
        self.object_open = false;
        Ok(())
    }

    /// Begin a stream object whose length is written later.
    pub fn begin_stream(&mut self, id: ObjectId, length_id: ObjectId, dictionary: &[u8]) -> (begun:
        Result<(), Error>)
        requires
            old(self).well_formed(),
            old(self).is_unwritten(length_id),
            id != length_id,
        ensures
            ({
                let text = stream_start_text(
                    id.number as int,
                    length_id.number as int,
                    dictionary@,
                );
                &&& begun == outcome(old(self).object_failure(id, text.len()))
                &&& match begun {
                    Ok(()) => {
                        &&& old(self).wrote_object(*final(self), id, text)
                        &&& final(self).stream == Some(OpenStream { id, length_id, length: 0 })
                        &&& !final(self).object_open
                    },
                    Err(error) => {
                        &&& if old(self).begin_failure(id) is Some {
                            *final(self) == *old(self)
                        } else {
                            old(self).after_refusal(*final(self), text.len())
                        }
                        &&& final(self).poisoned == (old(self).poisoned || is_output_limit(error))
                    },
                }
                &&& final(self).well_formed()
            }),
    {
        self.check_object(id)?;
        let ghost before = *self;
        let mut text: Vec<u8> = Vec::new();
        push_decimal(&mut text, id.number as u64);
        push_text(&mut text, " 0 obj\n");
        push_text(&mut text, "<<\n");
        push_bytes(&mut text, dictionary);
        push_text(&mut text, "/Length ");
        push_decimal(&mut text, length_id.number as u64);
        push_text(&mut text, " 0 R\n>>\nstream\n");
        let ghost expected = stream_start_text(
            id.number as int,
            length_id.number as int,
            dictionary@,
        );
        assert(text@ =~= expected);
        let offset: u64 = self.position;
        self.queue(&text)?;
        self.offsets.set(id.number as usize - 1, Some(offset));
        self.stream = Some(OpenStream { id, length_id, length: 0 });
        proof {
            let rest = spelled("<<\n") + dictionary@ + spelled("/Length ") + decimal(
                length_id.number as nat,
            ) + spelled(" 0 R\n>>\nstream\n");
            assert(expected =~= header_of(id.number as int) + rest);
            lemma_header_written(before.written@, id.number as int, rest);
            lemma_offset_recorded(before, *self, id, expected);
        }
        Ok(())
    }

    /// Why stream bytes cannot be written now.
    pub open spec fn stream_failure(self, length: nat) -> Option<Error> {
        if self.poisoned {
            Some(writer_failed())
        } else if self.stream is None {
            Some(Error::InvalidInput { reason: "no PDF stream is open" })
        } else {
            output_failure(self.limits, self.position as int, length)
        }
    }

    /// Write bytes of the open stream.
    pub fn write_stream_bytes(&mut self, bytes: &[u8]) -> (wrote: Result<(), Error>)
        requires
            old(self).well_formed(),
        ensures
            final(self).well_formed(),
            wrote == outcome(old(self).stream_failure(bytes@.len())),
            match wrote {
                Ok(()) => {
                    &&& final(self).written@ == old(self).written@ + bytes@
                    &&& final(self).taken() == old(self).taken()
                    &&& final(self).limits == old(self).limits
                    &&& final(self).poisoned == old(self).poisoned
                    &&& final(self).offsets == old(self).offsets
                    &&& old(self).stream matches Some(stream) && final(self).stream == Some(
                        OpenStream { length: (stream.length + bytes@.len()) as u64, ..stream },
                    )
                },
                Err(error) => {
                    &&& if old(self).poisoned || old(self).stream is None {
                        *final(self) == *old(self)
                    } else {
                        old(self).after_refusal(*final(self), bytes@.len())
                    }
                    &&& final(self).poisoned == (old(self).poisoned || is_output_limit(error))
                },
            },
    {
        if self.poisoned {
            return Err(
                Error::InvalidInput {
                    reason: "PDF writer cannot continue after an output failure",
                },
            );
        }
        match self.stream {
            None => Err(Error::InvalidInput { reason: "no PDF stream is open" }),
            Some(stream) => {
                self.queue(bytes)?;
                self.stream = Some(
                    OpenStream { length: stream.length + bytes.len() as u64, ..stream },
                );
                Ok(())
            },
        }
    }

    /// End the open stream, and write its length.
    pub fn end_stream(&mut self) -> (ended: Result<(), Error>)
        requires
            old(self).well_formed(),
        ensures
            final(self).well_formed(),
            match old(self).stream {
                None => ended == outcome(old(self).stream_failure(0)) && *final(self) == *old(
                    self,
                ),
                Some(stream) => {
                    let number = stream.length_id.number as int;
                    let text = stream_end_text(number, stream.length as nat);
                    &&& ended == outcome(old(self).stream_failure(text.len()))
                    &&& match ended {
                        Ok(()) => {
                            &&& final(self).limits == old(self).limits
                            &&& final(self).poisoned == old(self).poisoned
                            &&& final(self).written@ == old(self).written@ + text
                            &&& final(self).taken() == old(self).taken()
                            &&& final(self).offsets@ == old(self).offsets@.update(
                                number - 1,
                                Some((old(self).position + endstream_text().len()) as u64),
                            )
                            &&& final(self).stream is None
                            &&& !final(self).object_open
                        },
                        Err(error) => {
                            &&& if old(self).poisoned {
                                *final(self) == *old(self)
                            } else {
                                old(self).after_refusal(*final(self), text.len())
                            }
                            &&& final(self).poisoned == (old(self).poisoned || is_output_limit(
                                error,
                            ))
                        },
                    }
                },
            },
    {
        if self.poisoned {
            return Err(
                Error::InvalidInput {
                    reason: "PDF writer cannot continue after an output failure",
                },
            );
        }
        match self.stream {
            None => Err(Error::InvalidInput { reason: "no PDF stream is open" }),
            Some(stream) => {
                let ghost before = *self;
                let number: u32 = stream.length_id.number;
                let mut length: Vec<u8> = Vec::new();
                push_decimal(&mut length, stream.length);
                assert(length@ =~= decimal(stream.length as nat));
                let mut text: Vec<u8> = Vec::new();
                push_text(&mut text, "\nendstream\nendobj\n");
                let ended: usize = text.len();
                push_object(&mut text, number, &length);
                let ghost expected = stream_end_text(number as int, stream.length as nat);
                assert(text@ =~= expected);
                let start: u64 = self.position;
                self.queue(&text)?;
                let offset: u64 = start + ended as u64;
                self.offsets.set(number as usize - 1, Some(offset));
                self.stream = None;
                proof {
                    let rest = decimal(stream.length as nat) + spelled("\nendobj\n");
                    let first = before.written@ + endstream_text();
                    lemma_header_written(first, number as int, rest);
                    assert(self.written@ =~= first + (header_of(number as int) + rest));
                    assert forall|i: int|
                        #![trigger self.offsets@[i]]
                        0 <= i < self.offsets@.len() implies match self.offsets@[i] {
                        Some(offset) => holds_header(self.written@, offset as int, i + 1),
                        None => true,
                    } by {
                        if i != number - 1 {
                            assert(self.offsets@[i] == before.offsets@[i]);
                            if let Some(offset) = before.offsets@[i] {
                                lemma_header_stays(
                                    before.written@,
                                    expected,
                                    offset as int,
                                    i + 1,
                                );
                            }
                        }
                    }
                }
                Ok(())
            },
        }
    }
}

/// Recording where a new object starts keeps every record sound.
proof fn lemma_offset_recorded(before: PdfWriter, after: PdfWriter, id: ObjectId, text: Seq<u8>)
    requires
        before.well_formed(),
        before.is_unwritten(id),
        after.written@ == before.written@ + text,
        after.offsets@ == before.offsets@.update(id.number - 1, Some(before.position)),
        holds_header(after.written@, before.position as int, id.number as int),
    ensures
        forall|i: int|
            #![trigger after.offsets@[i]]
            0 <= i < after.offsets@.len() ==> match after.offsets@[i] {
                Some(offset) => holds_header(after.written@, offset as int, i + 1),
                None => true,
            },
{
    assert forall|i: int|
        #![trigger after.offsets@[i]]
        0 <= i < after.offsets@.len() implies match after.offsets@[i] {
        Some(offset) => holds_header(after.written@, offset as int, i + 1),
        None => true,
    } by {
        if i != id.number - 1 {
            assert(after.offsets@[i] == before.offsets@[i]);
            if let Some(offset) = before.offsets@[i] {
                lemma_header_stays(before.written@, text, offset as int, i + 1);
            }
        }
    }
}

/// The row of object number `number`, when every object has an offset.
pub open spec fn offset_row(offsets: Seq<Option<u64>>, number: int) -> Seq<u8> {
    if number == 0 {
        xref_entry_text(0, 65_535, FREE)
    } else {
        xref_entry_text(offsets[number - 1]->0, 0, IN_USE)
    }
}

/// The rows from object number `from` on.
pub open spec fn offset_rows(offsets: Seq<Option<u64>>, from: int) -> Seq<u8>
    decreases offsets.len() + 1 - from,
{
    if from > offsets.len() {
        Seq::empty()
    } else {
        offset_row(offsets, from) + offset_rows(offsets, from + 1)
    }
}

/// Whether every object that was handed out has been written.
pub open spec fn all_written(offsets: Seq<Option<u64>>) -> bool {
    forall|i: int| 0 <= i < offsets.len() ==> (#[trigger] offsets[i]) is Some
}

/// What of the xref table and the trailer is written next.
#[derive(Clone, Copy, Debug, PartialEq, Eq, Structural)]
pub enum XrefStage {
    Header,
    Rows { number: usize },
    Trailer,
    Complete,
}

/// An xref table that is being written, and the trailer after it.
#[derive(Clone, Copy, Debug, PartialEq, Eq, Structural)]
pub struct XrefTable {
    pub catalog: ObjectId,
    pub start: u64,
    pub stage: XrefStage,
}

/// The number after the rows that are written at once: as many as fit a chunk,
/// but at least one.
pub open spec fn rows_end(number: int, objects: nat, chunk: usize) -> int {
    let rows: int = if chunk < 20 {
        1
    } else {
        chunk as int / 20
    };
    if number + rows <= objects {
        number + rows
    } else {
        objects as int + 1
    }
}

impl XrefTable {
    /// What is written after the next part.
    pub open spec fn following(self, objects: nat, chunk: usize) -> XrefStage {
        match self.stage {
            XrefStage::Header => XrefStage::Rows { number: 0 },
            XrefStage::Rows { number } => {
                let end = rows_end(number as int, objects, chunk);
                if end <= objects {
                    XrefStage::Rows { number: end as usize }
                } else {
                    XrefStage::Trailer
                }
            },
            XrefStage::Trailer | XrefStage::Complete => XrefStage::Complete,
        }
    }

    /// Whether a part of the table was written, and another state is at the
    /// next one. No part is empty, and rows fit a chunk unless it is but one.
    pub open spec fn went_on(self, next: Self, writer: PdfWriter, after: PdfWriter) -> bool {
        let offsets = writer.offsets@;
        let length = after.written@.len() - writer.written@.len();
        &&& next.stage == self.following(offsets.len(), writer.limits.io_chunk_bytes)
        &&& next.catalog == self.catalog
        &&& next.start == self.start
        &&& after.offsets@ == offsets
        &&& after.limits == writer.limits
        &&& after.taken() == writer.taken()
        &&& after.written@ + next.rest(offsets) == writer.written@ + self.rest(offsets)
        &&& writer.written@.is_prefix_of(after.written@)
        &&& length > 0
        &&& self.stage is Rows ==> length <= writer.limits.io_chunk_bytes || length == 20
    }

    /// What remains to be written.
    pub open spec fn rest(self, offsets: Seq<Option<u64>>) -> Seq<u8> {
        let size = (offsets.len() + 1) as u64;
        let trailer = trailer_text(size, self.catalog.reference(), self.start);
        match self.stage {
            XrefStage::Header => xref_header_text(size) + (offset_rows(offsets, 0) + trailer),
            XrefStage::Rows { number } => offset_rows(offsets, number as int) + trailer,
            XrefStage::Trailer => trailer,
            XrefStage::Complete => Seq::empty(),
        }
    }

    /// Whether what remains can be written.
    pub open spec fn fits(self, writer: PdfWriter) -> bool {
        &&& writer.well_formed()
        &&& writer.stream is None
        &&& !writer.object_open
        &&& all_written(writer.offsets@)
        &&& self.stage matches XrefStage::Rows { number } ==> number <= writer.offsets@.len()
        &&& output_failure(
            writer.limits,
            writer.position as int,
            self.rest(writer.offsets@).len(),
        ) is None
    }
}

/// The xref table and the trailer of a file.
pub open spec fn table_text(offsets: Seq<Option<u64>>, catalog: ObjectId, start: u64) -> Seq<u8> {
    XrefTable { catalog, start, stage: XrefStage::Header }.rest(offsets)
}

proof fn lemma_offset_row_length(offsets: Seq<Option<u64>>, number: int)
    ensures
        offset_row(offsets, number).len() == 20,
{
    assert forall|offset: u64, generation: u16, status: u8| #[trigger]
        xref_entry_text(offset, generation, status).len() == 20 by {
        lemma_fixed_decimal_length(offset as nat, 10);
        lemma_fixed_decimal_length(generation as nat, 5);
    }
}

proof fn lemma_offset_rows_length(offsets: Seq<Option<u64>>, from: int)
    requires
        0 <= from <= offsets.len() + 1,
    ensures
        offset_rows(offsets, from).len() == 20 * (offsets.len() + 1 - from),
    decreases offsets.len() + 1 - from,
{
    if from <= offsets.len() {
        lemma_offset_row_length(offsets, from);
        lemma_offset_rows_length(offsets, from + 1);
    }
}

impl PdfWriter {
    /// Why the file cannot be finished.
    pub open spec fn finish_failure(self, catalog: ObjectId) -> Option<Error> {
        if self.unready() is Some {
            self.unready()
        } else if !all_written(self.offsets@) {
            Some(Error::InvalidInput { reason: "a reserved PDF object has not been written" })
        } else {
            output_failure(
                self.limits,
                self.position as int,
                table_text(self.offsets@, catalog, self.position).len(),
            )
        }
    }

    /// Begin the xref table, once every object has been written.
    pub fn finish(&self, catalog: ObjectId) -> (table: Result<XrefTable, Error>)
        requires
            self.well_formed(),
        ensures
            match self.finish_failure(catalog) {
                Some(failure) => table == Err::<XrefTable, Error>(failure),
                None => {
                    &&& table == Ok::<XrefTable, Error>(
                        XrefTable { catalog, start: self.position, stage: XrefStage::Header },
                    )
                    &&& table->Ok_0.fits(*self)
                },
            },
    {
        self.check_ready()?;
        let mut next: usize = 0;
        while next < self.offsets.len()
            invariant
                next <= self.offsets@.len(),
                forall|i: int| 0 <= i < next ==> (#[trigger] self.offsets@[i]) is Some,
                self.unready() is None,
            decreases self.offsets@.len() - next,
        {
            if self.offsets[next].is_none() {
                return Err(
                    Error::InvalidInput { reason: "a reserved PDF object has not been written" },
                );
            }
            next += 1;
        }
        let size: u64 = self.offsets.len() as u64 + 1;
        let mut frame: Vec<u8> = Vec::new();
        push_xref_header(&mut frame, size);
        push_trailer(&mut frame, size, catalog.reference(), self.position);
        let length: u64 = frame.len() as u64;
        proof {
            lemma_offset_rows_length(self.offsets@, 0);
        }
        let rows: u64 = size * 20;
        let ghost total = table_text(self.offsets@, catalog, self.position).len();
        assert(total == length + rows);
        let table: u64 = match length.checked_add(rows) {
            Some(table) => table,
            None => {
                return Err(Error::InvalidInput { reason: "PDF output byte count overflows" });
            },
        };
        let attempted: u64 = match self.position.checked_add(table) {
            Some(attempted) => attempted,
            None => {
                return Err(Error::InvalidInput { reason: "PDF output byte count overflows" });
            },
        };
        if attempted > MAX_CLASSIC_PDF_BYTES {
            return Err(
                Error::LimitExceeded {
                    resource: "classic PDF file bytes",
                    limit: MAX_CLASSIC_PDF_BYTES,
                    attempted,
                },
            );
        }
        if attempted > self.limits.max_output_bytes {
            return Err(
                Error::LimitExceeded {
                    resource: "output bytes",
                    limit: self.limits.max_output_bytes,
                    attempted,
                },
            );
        }
        Ok(XrefTable { catalog, start: self.position, stage: XrefStage::Header })
    }

    /// Put rows into a buffer, from a number on: as many as fit a chunk, but
    /// at least one. Returns the first number left out.
    fn fill_offset_rows(&self, number: usize, buffer: &mut Vec<u8>) -> (left: usize)
        requires
            self.well_formed(),
            all_written(self.offsets@),
            number <= self.offsets@.len(),
            self.position <= MAX_CLASSIC_PDF_BYTES,
            old(buffer)@.len() == 0,
        ensures
            number < left <= self.offsets@.len() + 1,
            offset_rows(self.offsets@, number as int) == final(buffer)@ + offset_rows(
                self.offsets@,
                left as int,
            ),
            left == rows_end(number as int, self.offsets@.len(), self.limits.io_chunk_bytes),
            final(buffer)@.len() == 20 * (left - number),
    {
        let ghost offsets = self.offsets@;
        let mut left: usize = number;
        assert(buffer@ + offset_rows(offsets, left as int) =~= offset_rows(offsets, left as int));
        while left <= self.offsets.len() && (left == number || buffer.len()
            < self.limits.io_chunk_bytes && self.limits.io_chunk_bytes - buffer.len() >= 20)
            invariant
                self.well_formed(),
                offsets == self.offsets@,
                all_written(offsets),
                number <= left <= offsets.len() + 1,
                number <= offsets.len(),
                self.position <= MAX_CLASSIC_PDF_BYTES,
                buffer@.len() == 20 * (left - number),
                left > number + 1 ==> buffer@.len() <= self.limits.io_chunk_bytes,
                offset_rows(offsets, number as int) == buffer@ + offset_rows(
                    offsets,
                    left as int,
                ),
            decreases offsets.len() + 1 - left,
        {
            let ghost before = buffer@;
            proof {
                lemma_offset_row_length(offsets, left as int);
            }
            if left == 0 {
                if let Ok(row) = xref_entry(0, 65_535, FREE) {
                    push_bytes(buffer, &row);
                }
            } else if let Some(offset) = self.offsets[left - 1] {
                assert(holds_header(self.written@, offset as int, left as int));
                if let Ok(row) = xref_entry(offset, 0, IN_USE) {
                    push_bytes(buffer, &row);
                }
            }
            assert(buffer@ == before + offset_row(offsets, left as int));
            assert(before + offset_rows(offsets, left as int) =~= buffer@ + offset_rows(
                offsets,
                left + 1,
            ));
            left += 1;
        }
        left
    }
}

impl XrefTable {
    /// Queue the next bounded part of the table and the trailer. Returns
    /// whether the file is complete.
    pub fn next(&mut self, writer: &mut PdfWriter) -> (complete: Result<bool, Error>)
        requires
            old(self).fits(*old(writer)),
            !(old(self).stage is Complete),
        ensures
            final(self).fits(*final(writer)),
            final(writer).poisoned == old(writer).poisoned,
            match complete {
                Ok(complete) => {
                    &&& !old(writer).poisoned
                    &&& complete == (final(self).stage is Complete)
                    &&& old(self).went_on(*final(self), *old(writer), *final(writer))
                },
                Err(error) => {
                    &&& old(writer).poisoned
                    &&& error == writer_failed()
                    &&& *final(self) == *old(self)
                    &&& final(writer).same_file(*old(writer))
                    &&& final(writer).pending == old(writer).pending
                },
            },
    {
        let ghost offsets = writer.offsets@;
        let size: u64 = writer.offsets.len() as u64 + 1;
        let mut buffer: Vec<u8> = Vec::new();
        let stage: XrefStage = match self.stage {
            XrefStage::Header => {
                push_xref_header(&mut buffer, size);
                assert(buffer@ =~= xref_header_text(size));
                XrefStage::Rows { number: 0 }
            },
            XrefStage::Rows { number } => {
                let left = writer.fill_offset_rows(number, &mut buffer);
                let ghost trailer = trailer_text(size, self.catalog.reference(), self.start);
                assert(buffer@ + offset_rows(offsets, left as int) + trailer =~= buffer@ + (
                offset_rows(offsets, left as int) + trailer));
                if left <= writer.offsets.len() {
                    XrefStage::Rows { number: left }
                } else {
                    assert(offset_rows(offsets, left as int) + trailer =~= trailer);
                    XrefStage::Trailer
                }
            },
            _ => {
                push_trailer(&mut buffer, size, self.catalog.reference(), self.start);
                assert(buffer@ + Seq::<u8>::empty() =~= buffer@);
                XrefStage::Complete
            },
        };
        let ghost next = XrefTable { stage, ..*self };
        let ghost before = writer.written@;
        assert(self.rest(offsets) =~= buffer@ + next.rest(offsets));
        assert(buffer@.len() > 0) by {
            lemma_texts_are_not_empty();
        }
        writer.queue(&buffer)?;
        assert(writer.written@ + next.rest(offsets) =~= before + self.rest(offsets));
        self.stage = stage;
        Ok(self.stage == XrefStage::Complete)
    }
}

/// Writing the table part by part ends: there are no more parts than bytes, and
/// once it is complete the whole table and the trailer have been written.
pub proof fn law_table_is_completed(tables: Seq<XrefTable>, writers: Seq<PdfWriter>)
    requires
        tables.len() == writers.len(),
        tables.len() > 0,
        forall|i: int|
            0 <= i < tables.len() - 1 ==> (#[trigger] tables[i]).went_on(
                tables[i + 1],
                writers[i],
                writers[i + 1],
            ),
    ensures
        ({
            let offsets = writers[0].offsets@;
            let rest = tables[0].rest(offsets);
            &&& writers.last().offsets@ == offsets
            &&& writers.last().written@ + tables.last().rest(offsets) == writers[0].written@ + rest
            &&& tables.len() - 1 <= rest.len()
            &&& tables.last().stage is Complete ==> writers.last().written@ == writers[0].written@
                + rest
        }),
    decreases tables.len(),
{
    let offsets = writers[0].offsets@;
    if tables.len() > 1 {
        let n = tables.len() - 1;
        let earlier = tables.drop_last();
        let others = writers.drop_last();
        assert forall|i: int| 0 <= i < earlier.len() - 1 implies (#[trigger] earlier[i]).went_on(
            earlier[i + 1],
            others[i],
            others[i + 1],
        ) by {
            assert(tables[i].went_on(tables[i + 1], writers[i], writers[i + 1]));
        }
        law_table_is_completed(earlier, others);
        assert(tables[n - 1].went_on(tables[n], writers[n - 1], writers[n]));
        lemma_parts_bounded(tables, writers, n);
        assert(writers.last().written@.len() + tables.last().rest(offsets).len()
            == (writers.last().written@ + tables.last().rest(offsets)).len());
        assert((writers[0].written@ + tables[0].rest(offsets)).len() == writers[0].written@.len()
            + tables[0].rest(offsets).len());
    }
    assert(tables.last().stage is Complete ==> writers.last().written@ + tables.last().rest(offsets)
        =~= writers.last().written@);
}

/// Every part takes at least one byte.
proof fn lemma_parts_bounded(tables: Seq<XrefTable>, writers: Seq<PdfWriter>, n: int)
    requires
        tables.len() == writers.len(),
        0 <= n < tables.len(),
        forall|i: int|
            0 <= i < tables.len() - 1 ==> (#[trigger] tables[i]).went_on(
                tables[i + 1],
                writers[i],
                writers[i + 1],
            ),
    ensures
        writers[n].written@.len() >= writers[0].written@.len() + n,
    decreases n,
{
    if n > 0 {
        lemma_parts_bounded(tables, writers, n - 1);
        assert(tables[n - 1].went_on(tables[n], writers[n - 1], writers[n]));
    }
}

/// A finished file has an xref row for every object, which names the place of
/// the object's header.
pub proof fn law_rows_name_headers(writer: PdfWriter, number: int)
    requires
        writer.well_formed(),
        all_written(writer.offsets@),
        1 <= number <= writer.offsets@.len(),
    ensures
        ({
            let rows = offset_rows(writer.offsets@, 0);
            let offset = writer.offsets@[number - 1]->0;
            &&& rows.subrange(20 * number, 20 * number + 20) == xref_entry_text(offset, 0, IN_USE)
            &&& holds_header(writer.written@, offset as int, number)
        }),
{
    let offsets = writer.offsets@;
    assert(offsets[number - 1] is Some);
    lemma_row_at(offsets, 0, number);
}

pub proof fn lemma_row_at(offsets: Seq<Option<u64>>, from: int, number: int)
    requires
        0 <= from <= number <= offsets.len(),
    ensures
        offset_rows(offsets, from).len() == 20 * (offsets.len() + 1 - from),
        offset_rows(offsets, from).subrange(20 * (number - from), 20 * (number - from) + 20)
            == offset_row(offsets, number),
    decreases number - from,
{
    lemma_offset_rows_length(offsets, from);
    lemma_offset_rows_length(offsets, from + 1);
    lemma_offset_row_length(offsets, from);
    let rows = offset_rows(offsets, from);
    let first = offset_row(offsets, from);
    let others = offset_rows(offsets, from + 1);
    if from == number {
        assert(rows.subrange(0, 20) =~= first);
    } else {
        lemma_row_at(offsets, from + 1, number);
        let at = 20 * (number - from - 1);
        assert(rows.subrange(20 + at, 40 + at) =~= others.subrange(at, at + 20));
    }
}

/// One thing that a document asks of its writer or of its memory.
pub ghost enum Step {
    /// Hand out an object number.
    Reserve,
    /// Take this many bytes of output.
    Write { length: nat },
    /// Make room for one more of `len` object numbers.
    Grow { len: nat, maximum: u64, resource: &'static str },
}

/// What the steps of a healthy writer depend on.
pub ghost struct Progress {
    pub limits: Limits,
    pub position: int,
    /// How many bytes have been taken: no step changes it.
    pub taken: int,
    pub objects: nat,
}

/// Why a step is refused.
pub open spec fn step_failure(progress: Progress, step: Step) -> Option<Error> {
    match step {
        Step::Reserve => growth_failure::<Option<u64>>(
            progress.objects,
            MAX_PDF_OBJECTS as u64,
            progress.limits,
            "PDF object index allocation",
        ),
        Step::Write { length } => output_failure(progress.limits, progress.position, length),
        Step::Grow { len, maximum, resource } => growth_failure::<ObjectId>(
            len,
            maximum,
            progress.limits,
            resource,
        ),
    }
}

/// What is left after a step.
pub open spec fn after_step(progress: Progress, step: Step) -> Progress {
    match step {
        Step::Reserve => Progress { objects: progress.objects + 1, ..progress },
        Step::Write { length } => Progress { position: progress.position + length, ..progress },
        Step::Grow { .. } => progress,
    }
}

/// The progress after the first `count` steps.
pub open spec fn after_steps(progress: Progress, steps: Seq<Step>, count: int) -> Progress
    decreases count,
{
    if count <= 0 {
        progress
    } else {
        after_step(after_steps(progress, steps, count - 1), steps[count - 1])
    }
}

/// Why steps are refused: the first failure among those from step `from` on.
#[verifier::opaque]
pub open spec fn steps_failure(progress: Progress, steps: Seq<Step>, from: int) -> Option<Error>
    decreases steps.len() - from,
{
    if from >= steps.len() {
        None
    } else {
        first_failure(
            step_failure(after_steps(progress, steps, from), steps[from]),
            steps_failure(progress, steps, from + 1),
        )
    }
}

/// Whether an error says that memory within the limits was not available to a
/// step.
pub open spec fn step_starved(progress: Progress, step: Step, error: Error) -> bool {
    match step {
        Step::Reserve => allocator_refused(
            error,
            "PDF object index allocation",
            progress.limits,
            growth_bytes::<Option<u64>>(
                progress.objects,
                MAX_PDF_OBJECTS as u64,
                progress.limits,
            ),
        ),
        Step::Grow { len, maximum, resource } => allocator_refused(
            error,
            resource,
            progress.limits,
            growth_bytes::<ObjectId>(len, maximum, progress.limits),
        ),
        Step::Write { .. } => false,
    }
}

/// Whether an error refuses a step: its own failure, or else the lack of memory.
pub open spec fn step_refused(progress: Progress, step: Step, error: Error) -> bool {
    ||| step_failure(progress, step) == Some(error)
    ||| step_failure(progress, step) is None && step_starved(progress, step, error)
}

/// Whether an error refuses some steps where `reached` stands: those before the
/// refused one have passed.
#[verifier::opaque]
pub open spec fn steps_refused(
    progress: Progress,
    steps: Seq<Step>,
    error: Error,
    reached: Progress,
) -> bool {
    exists|k: int|
        #![trigger steps[k]]
        0 <= k < steps.len() && refused_at(progress, steps, k, error, reached)
}

/// Whether an error refuses step `k`.
pub open spec fn refused_at(
    progress: Progress,
    steps: Seq<Step>,
    k: int,
    error: Error,
    reached: Progress,
) -> bool {
    passed(progress, steps.take(k), reached) && step_refused(reached, steps[k], error)
}

/// Steps that are none fail nowhere.
pub proof fn lemma_no_steps(progress: Progress)
    ensures
        steps_failure(progress, Seq::empty(), 0) is None,
        after_steps(progress, Seq::empty(), 0) == progress,
{
    reveal(steps_failure);
}

proof fn lemma_after_steps_prefix(
    progress: Progress,
    first: Seq<Step>,
    second: Seq<Step>,
    count: int,
)
    requires
        0 <= count <= first.len(),
    ensures
        after_steps(progress, first + second, count) == after_steps(progress, first, count),
    decreases count,
{
    if count > 0 {
        lemma_after_steps_prefix(progress, first, second, count - 1);
        assert((first + second)[count - 1] == first[count - 1]);
    }
}

proof fn lemma_after_steps_shift(
    progress: Progress,
    first: Seq<Step>,
    second: Seq<Step>,
    count: int,
)
    requires
        0 <= count <= second.len(),
    ensures
        after_steps(progress, first + second, first.len() + count) == after_steps(
            after_steps(progress, first, first.len() as int),
            second,
            count,
        ),
    decreases count,
{
    if count == 0 {
        lemma_after_steps_prefix(progress, first, second, first.len() as int);
    } else {
        lemma_after_steps_shift(progress, first, second, count - 1);
        assert((first + second)[first.len() + count - 1] == second[count - 1]);
    }
}

proof fn lemma_steps_failure_shift(
    progress: Progress,
    first: Seq<Step>,
    second: Seq<Step>,
    from: int,
)
    requires
        0 <= from <= second.len(),
    ensures
        steps_failure(progress, first + second, first.len() + from) == steps_failure(
            after_steps(progress, first, first.len() as int),
            second,
            from,
        ),
    decreases second.len() - from,
{
    reveal(steps_failure);
    if from < second.len() {
        lemma_after_steps_shift(progress, first, second, from);
        lemma_steps_failure_shift(progress, first, second, from + 1);
        assert((first + second)[first.len() + from] == second[from]);
    }
}

proof fn lemma_steps_failure_prefix(
    progress: Progress,
    first: Seq<Step>,
    second: Seq<Step>,
    from: int,
)
    requires
        0 <= from <= first.len(),
    ensures
        steps_failure(progress, first + second, from) == first_failure(
            steps_failure(progress, first, from),
            steps_failure(after_steps(progress, first, first.len() as int), second, 0),
        ),
    decreases first.len() - from,
{
    reveal(steps_failure);
    if from == first.len() {
        lemma_steps_failure_shift(progress, first, second, 0);
    } else {
        lemma_after_steps_prefix(progress, first, second, from);
        lemma_steps_failure_prefix(progress, first, second, from + 1);
        assert((first + second)[from] == first[from]);
    }
}

/// Steps after steps: the first ones fail first.
pub proof fn lemma_more_steps(progress: Progress, first: Seq<Step>, second: Seq<Step>)
    ensures
        steps_failure(progress, first + second, 0) == first_failure(
            steps_failure(progress, first, 0),
            steps_failure(after_steps(progress, first, first.len() as int), second, 0),
        ),
        after_steps(progress, first + second, (first + second).len() as int) == after_steps(
            after_steps(progress, first, first.len() as int),
            second,
            second.len() as int,
        ),
{
    lemma_steps_failure_prefix(progress, first, second, 0);
    lemma_after_steps_shift(progress, first, second, second.len() as int);
}

/// One step.
pub proof fn lemma_one_step(progress: Progress, step: Step)
    ensures
        steps_failure(progress, seq![step], 0) == step_failure(progress, step),
        after_steps(progress, seq![step], 1) == after_step(progress, step),
{
    reveal(steps_failure);
    reveal_with_fuel(steps_failure, 2);
    reveal_with_fuel(after_steps, 2);
    let steps = seq![step];
    assert(steps[0] == step);
    assert(after_steps(progress, steps, 0) == progress);
    assert(steps_failure(progress, steps, 1) is None);
}

/// What refuses the first steps refuses all of them.
pub proof fn lemma_refused_first(
    progress: Progress,
    first: Seq<Step>,
    second: Seq<Step>,
    error: Error,
    reached: Progress,
)
    requires
        steps_refused(progress, first, error, reached),
    ensures
        steps_refused(progress, first + second, error, reached),
{
    reveal(steps_refused);
    let all = first + second;
    let k = choose|k: int|
        #![trigger first[k]]
        0 <= k < first.len() && refused_at(progress, first, k, error, reached);
    assert(all[k] == first[k]);
    assert(all.take(k) =~= first.take(k));
}

/// Steps leave the limits as they are.
proof fn lemma_limits_kept(progress: Progress, steps: Seq<Step>, count: int)
    ensures
        after_steps(progress, steps, count).limits == progress.limits,
    decreases count,
{
    if count > 0 {
        lemma_limits_kept(progress, steps, count - 1);
    }
}

/// What refuses later steps refuses all of them, if the first ones pass.
pub proof fn lemma_refused_later(
    progress: Progress,
    first: Seq<Step>,
    second: Seq<Step>,
    error: Error,
    reached: Progress,
)
    requires
        steps_failure(progress, first, 0) is None,
        steps_refused(after_steps(progress, first, first.len() as int), second, error, reached),
    ensures
        steps_refused(progress, first + second, error, reached),
{
    reveal(steps_refused);
    let now = after_steps(progress, first, first.len() as int);
    let all = first + second;
    let k = choose|k: int|
        #![trigger second[k]]
        0 <= k < second.len() && refused_at(now, second, k, error, reached);
    let at = first.len() + k;
    lemma_limits_kept(progress, first, first.len() as int);
    lemma_passed_more(progress, first, now, second.take(k), reached);
    assert(all[at] == second[k]);
    assert(all.take(at) =~= first + second.take(k));
}

/// A refused step.
pub proof fn lemma_refused_step(progress: Progress, step: Step, error: Error)
    requires
        step_refused(progress, step, error),
    ensures
        steps_refused(progress, seq![step], error, progress),
{
    reveal(steps_refused);
    let steps = seq![step];
    assert(steps[0] == step);
    assert(steps.take(0) =~= Seq::<Step>::empty());
    lemma_passed_none(progress);
}

/// Whether some steps pass, and where they lead.
pub open spec fn passed(start: Progress, steps: Seq<Step>, now: Progress) -> bool {
    &&& steps_failure(start, steps, 0) is None
    &&& after_steps(start, steps, steps.len() as int) == now
    &&& start.limits == now.limits
}

pub proof fn lemma_passed_none(start: Progress)
    ensures
        passed(start, Seq::empty(), start),
{
    lemma_no_steps(start);
}

pub proof fn lemma_passed_one(start: Progress, step: Step)
    requires
        step_failure(start, step) is None,
    ensures
        passed(start, seq![step], after_step(start, step)),
{
    lemma_one_step(start, step);
}

pub proof fn lemma_passed_more(
    start: Progress,
    first: Seq<Step>,
    middle: Progress,
    second: Seq<Step>,
    now: Progress,
)
    requires
        passed(start, first, middle),
        passed(middle, second, now),
    ensures
        passed(start, first + second, now),
{
    lemma_more_steps(start, first, second);
}

/// A step that is refused after others refuses them all.
pub proof fn lemma_refused_at(
    start: Progress,
    done: Seq<Step>,
    now: Progress,
    step: Step,
    rest: Seq<Step>,
    all: Seq<Step>,
    error: Error,
)
    requires
        passed(start, done, now),
        all == done + seq![step] + rest,
        step_refused(now, step, error),
    ensures
        steps_refused(start, all, error, now),
{
    lemma_refused_step(now, step, error);
    lemma_refused_later(start, done, seq![step], error, now);
    lemma_refused_first(start, done + seq![step], rest, error, now);
}

/// Steps that are refused amid others refuse them all.
pub proof fn lemma_refused_amid(
    start: Progress,
    done: Seq<Step>,
    now: Progress,
    steps: Seq<Step>,
    rest: Seq<Step>,
    all: Seq<Step>,
    error: Error,
    reached: Progress,
)
    requires
        passed(start, done, now),
        all == done + steps + rest,
        steps_refused(now, steps, error, reached),
    ensures
        steps_refused(start, all, error, reached),
{
    lemma_refused_later(start, done, steps, error, reached);
    lemma_refused_first(start, done + steps, rest, error, reached);
}

/// The parts of an object, in the order in which they are written.
#[verifier::opaque]
pub open spec fn object_parts(number: int, pieces: Seq<Seq<u8>>) -> Seq<Seq<u8>> {
    seq![header_of(number)] + pieces + seq![end_text()]
}

/// The steps of writing parts one by one.
pub open spec fn part_steps(parts: Seq<Seq<u8>>) -> Seq<Step> {
    Seq::new(parts.len(), |i: int| Step::Write { length: parts[i].len() })
}

/// The steps of writing an object.
pub open spec fn object_steps(number: int, pieces: Seq<Seq<u8>>) -> Seq<Step> {
    part_steps(object_parts(number, pieces))
}

/// Whether two writers differ by the first `count` parts of an object alone.
pub open spec fn wrote_parts(
    before: PdfWriter,
    after: PdfWriter,
    id: ObjectId,
    parts: Seq<Seq<u8>>,
    count: int,
) -> bool {
    &&& after.well_formed()
    &&& after.limits == before.limits
    &&& after.stream == before.stream
    &&& after.written@ == before.written@ + joined(parts.take(count), 0)
    &&& after.taken() == before.taken()
    &&& after.offsets@ == if count == 0 {
        before.offsets@
    } else {
        before.offsets@.update(id.number - 1, Some(before.position))
    }
    &&& after.object_open == (0 < count < parts.len())
}

proof fn lemma_another_part(
    before: PdfWriter,
    middle: PdfWriter,
    after: PdfWriter,
    id: ObjectId,
    parts: Seq<Seq<u8>>,
    count: int,
)
    requires
        wrote_parts(before, middle, id, parts, count),
        passed(before.progress(), part_steps(parts.take(count)), middle.progress()),
        0 <= count < parts.len(),
        after.well_formed(),
        after.limits == before.limits,
        after.written@ == middle.written@ + parts[count],
        after.taken() == middle.taken(),
        middle.offsets@.len() == before.offsets@.len(),
        after.offsets@.len() == before.offsets@.len(),
        output_failure(before.limits, middle.position as int, parts[count].len()) is None,
    ensures
        after.written@ == before.written@ + joined(parts.take(count + 1), 0),
        passed(before.progress(), part_steps(parts.take(count + 1)), after.progress()),
{
    let first = parts.take(count);
    let one = seq![parts[count]];
    let step = Step::Write { length: parts[count].len() };
    assert(parts.take(count + 1) =~= first + one);
    lemma_joined_append(first, one, 0);
    assert(joined(one, 0) =~= parts[count]) by {
        assert(joined(one, 1) =~= Seq::<u8>::empty());
    }
    assert(after.written@ =~= before.written@ + joined(parts.take(count + 1), 0));
    lemma_passed_one(middle.progress(), step);
    lemma_passed_more(
        before.progress(),
        part_steps(first),
        middle.progress(),
        seq![step],
        after.progress(),
    );
    assert(part_steps(first + one) =~= part_steps(first) + seq![step]);
}

proof fn lemma_part_refused(
    before: PdfWriter,
    middle: PdfWriter,
    parts: Seq<Seq<u8>>,
    count: int,
    error: Error,
)
    requires
        passed(before.progress(), part_steps(parts.take(count)), middle.progress()),
        0 <= count < parts.len(),
        output_failure(middle.limits, middle.position as int, parts[count].len()) == Some(error),
    ensures
        steps_refused(before.progress(), part_steps(parts), error, middle.progress()),
{
    let step = Step::Write { length: parts[count].len() };
    let rest = part_steps(parts.skip(count + 1));
    assert(part_steps(parts) =~= part_steps(parts.take(count)) + seq![step] + rest);
    lemma_refused_at(
        before.progress(),
        part_steps(parts.take(count)),
        middle.progress(),
        step,
        rest,
        part_steps(parts),
        error,
    );
}

/// The first parts of an object are the start of its text.
proof fn lemma_parts_start(before: Seq<u8>, number: int, pieces: Seq<Seq<u8>>, count: int)
    requires
        0 <= count <= object_parts(number, pieces).len(),
    ensures
        ({
            let parts = object_parts(number, pieces);
            (before + joined(parts.take(count), 0)).is_prefix_of(
                before + object_text(number, joined(pieces, 0)),
            )
        }),
{
    let parts = object_parts(number, pieces);
    let first = joined(parts.take(count), 0);
    let second = joined(parts.skip(count), 0);
    assert(parts =~= parts.take(count) + parts.skip(count));
    lemma_joined_append(parts.take(count), parts.skip(count), 0);
    lemma_parts_text(number, pieces);
    assert(before + (first + second) =~= before + first + second);
}

/// The parts of an object are its text.
proof fn lemma_parts_text(number: int, pieces: Seq<Seq<u8>>)
    ensures
        joined(object_parts(number, pieces), 0) == object_text(number, joined(pieces, 0)),
{
    reveal(object_parts);
    let first = seq![header_of(number)];
    let last = seq![end_text()];
    lemma_joined_append(first + pieces, last, 0);
    lemma_joined_append(first, pieces, 0);
    assert(joined(first, 0) =~= header_of(number)) by {
        assert(joined(first, 1) =~= Seq::<u8>::empty());
    }
    assert(joined(last, 0) =~= end_text()) by {
        assert(joined(last, 1) =~= Seq::<u8>::empty());
    }
}

impl PdfWriter {
    /// Whether an error refuses a part of this many bytes where another state
    /// stands, and whether that is final.
    pub open spec fn part_refused(self, other: Self, length: nat, error: Error) -> bool {
        let position = other.position as int;
        &&& output_failure(self.limits, position, length) == Some(error)
        &&& other.poisoned == output_exhausted(self.limits, position, length)
    }

    /// Write an object in pieces. A refused piece leaves the object open
    /// behind those before it.
    pub fn write_object(&mut self, id: ObjectId, pieces: &Vec<Vec<u8>>) -> (wrote: Result<
        (),
        Error,
    >)
        requires
            old(self).well_formed(),
        ensures
            final(self).well_formed(),
            match old(self).begin_failure(id) {
                Some(failure) => {
                    &&& wrote == Err::<(), Error>(failure)
                    &&& *final(self) == *old(self)
                },
                None => {
                    let parts = object_parts(id.number as int, views(pieces@));
                    let text = object_text(id.number as int, joined(views(pieces@), 0));
                    match wrote {
                        Ok(()) => {
                            &&& old(self).wrote_object(*final(self), id, text)
                            &&& final(self).unready() is None
                            &&& passed(
                                old(self).progress(),
                                part_steps(parts),
                                final(self).progress(),
                            )
                        },
                        Err(error) => {
                            &&& steps_refused(
                                old(self).progress(),
                                part_steps(parts),
                                error,
                                final(self).progress(),
                            )
                            &&& final(self).written@.is_prefix_of(old(self).written@ + text)
                            &&& final(self).poisoned == is_output_limit(error)
                            &&& exists|count: int|
                                {
                                    &&& 0 <= count < parts.len()
                                    &&& #[trigger] wrote_parts(
                                        *old(self),
                                        *final(self),
                                        id,
                                        parts,
                                        count,
                                    )
                                    &&& old(self).part_refused(
                                        *final(self),
                                        parts[count].len(),
                                        error,
                                    )
                                }
                        },
                    }
                },
            },
    {
        let ghost before = *self;
        let ghost parts = object_parts(id.number as int, views(pieces@));
        proof {
            reveal(object_parts);
            assert(parts.take(0) =~= Seq::<Seq<u8>>::empty());
            assert(before.written@ + joined(parts.take(0), 0) =~= before.written@);
            assert(part_steps(parts.take(0)) =~= Seq::<Step>::empty());
            lemma_passed_none(before.progress());
        }
        if let Err(error) = self.begin_object(id) {
            proof {
                if before.begin_failure(id) is None {
                    assert(wrote_parts(before, *self, id, parts, 0));
                    lemma_parts_start(before.written@, id.number as int, views(pieces@), 0);
                    lemma_part_refused(before, before, parts, 0, error);
                }
            }
            return Err(error);
        }
        proof {
            lemma_another_part(before, before, *self, id, parts, 0);
        }
        let mut next: usize = 0;
        while next < pieces.len()
            invariant
                before == *old(self),
                before.well_formed(),
                before.begin_failure(id) is None,
                parts == seq![header_of(id.number as int)] + views(pieces@) + seq![end_text()],
                parts == object_parts(id.number as int, views(pieces@)),
                next <= pieces@.len(),
                !self.poisoned,
                wrote_parts(before, *self, id, parts, next + 1),
                passed(
                    before.progress(),
                    part_steps(parts.take(next + 1)),
                    self.progress(),
                ),
            decreases pieces@.len() - next,
        {
            let ghost middle = *self;
            assert(parts[next + 1] == pieces@[next as int]@);
            if let Err(error) = self.write_bytes(pieces[next].as_slice()) {
                proof {
                    assert(wrote_parts(before, *self, id, parts, next + 1));
                    lemma_parts_start(before.written@, id.number as int, views(pieces@), next + 1);
                    lemma_part_refused(before, middle, parts, next + 1, error);
                }
                return Err(error);
            }
            proof {
                lemma_another_part(before, middle, *self, id, parts, next + 1);
            }
            next += 1;
        }
        let ghost middle = *self;
        let ghost count = pieces@.len() as int + 1;
        assert(parts[count] == end_text());
        if let Err(error) = self.end_object() {
            proof {
                assert(wrote_parts(before, *self, id, parts, count));
                lemma_parts_start(before.written@, id.number as int, views(pieces@), count);
                lemma_part_refused(before, middle, parts, count, error);
            }
            return Err(error);
        }
        proof {
            lemma_another_part(before, middle, *self, id, parts, count);
            assert(parts.take(count + 1) =~= parts);
            lemma_parts_text(id.number as int, views(pieces@));
        }
        Ok(())
    }
}

impl PdfWriter {
    /// How far the writer has come.
    pub open spec fn progress(self) -> Progress {
        Progress {
            limits: self.limits,
            position: self.position as int,
            taken: self.taken(),
            objects: self.offsets@.len(),
        }
    }
}

} // verus!
