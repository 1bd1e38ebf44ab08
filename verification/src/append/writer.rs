//! Appended objects and their xref update.

use vstd::prelude::*;
use vstd::layout::size_of;
use crate::append::trailer_id::{fnv128, fnv128_of, law_fnv128_in_pieces, FNV128_BASIS};
use crate::fallible::{allocator_refused, capacity, reserve_exact};
use crate::pieces::{joined, views};
use crate::sorting::{ByNumber, SortKey};
use crate::text::{decimal, push_bytes, push_decimal, push_text, spelled, LF, SPACE};
use crate::types::{
    first_failure, is_output_limit, outcome, over_limit, Error, Limits, PdfRef,
    MAX_CLASSIC_PDF_BYTES,
};

verus! {

/// Where an appended object starts.
#[derive(Clone, Copy, Debug, PartialEq, Eq, Structural)]
pub struct XrefEntry {
    pub reference: PdfRef,
    pub offset: u64,
}

impl SortKey<XrefEntry> for ByNumber {
    open spec fn of(value: XrefEntry) -> int {
        value.reference.number as int
    }

    fn key(value: &XrefEntry) -> (key: u64) {
        value.reference.number as u64
    }
}

/// Collects the bytes that follow a copied PDF, and the offsets of its objects.
///
/// Bytes are queued in `pending` until the caller takes them. A caller that
/// fails to write them says so with `fail`, and nothing more is accepted.
pub struct AppendWriter {
    pub limits: Limits,
    pub position: u64,
    pub entries: Vec<XrefEntry>,
    pub open: bool,
    pub poisoned: bool,
    pub update_hash: Option<u128>,
    pub pending: Vec<u8>,
    pub written: Ghost<Seq<u8>>,
}

/// The error of a writer whose output failed.
#[verifier::allow_in_spec]
pub fn output_failed() -> Error
    returns
        (Error::InvalidInput {
            reason: "PDF append writer cannot continue after an output failure",
        }),
{
    Error::InvalidInput { reason: "PDF append writer cannot continue after an output failure" }
}

/// Why a healthy writer at `position` refuses a piece of this length. Once an
/// update has begun, the file must stay within classic xref offsets.
pub open spec fn piece_failure(limits: Limits, hashing: bool, position: int, length: nat) -> Option<
    Error,
> {
    let attempted = position + length;
    if attempted > u64::MAX {
        Some(Error::InvalidInput { reason: "PDF appended byte count overflows" })
    } else if hashing && attempted > MAX_CLASSIC_PDF_BYTES {
        over_limit("classic PDF file bytes", MAX_CLASSIC_PDF_BYTES, attempted)
    } else {
        over_limit("output bytes", limits.max_output_bytes, attempted)
    }
}

/// The first failure among the pieces from piece `from` on.
pub open spec fn pieces_failure(
    limits: Limits,
    hashing: bool,
    position: int,
    pieces: Seq<Seq<u8>>,
    from: int,
) -> Option<Error>
    decreases pieces.len() - from,
{
    if from >= pieces.len() {
        None
    } else {
        first_failure(
            piece_failure(limits, hashing, position, pieces[from].len()),
            pieces_failure(limits, hashing, position + pieces[from].len(), pieces, from + 1),
        )
    }
}

/// The bytes of the pieces from piece `from` on, up to the first that is refused.
pub open spec fn accepted_text(
    limits: Limits,
    hashing: bool,
    position: int,
    pieces: Seq<Seq<u8>>,
    from: int,
) -> Seq<u8>
    decreases pieces.len() - from,
{
    if from >= pieces.len() || piece_failure(limits, hashing, position, pieces[from].len())
        is Some {
        Seq::empty()
    } else {
        pieces[from] + accepted_text(
            limits,
            hashing,
            position + pieces[from].len(),
            pieces,
            from + 1,
        )
    }
}

/// How an appended object begins.
pub open spec fn object_header_text(reference: PdfRef) -> Seq<u8> {
    decimal(reference.number as nat).push(SPACE) + decimal(reference.generation as nat) + spelled(
        " obj\n",
    )
}

fn object_header(reference: PdfRef) -> (header: Vec<u8>)
    ensures
        header@ == object_header_text(reference),
{
    let mut header: Vec<u8> = Vec::new();
    push_decimal(&mut header, reference.number as u64);
    header.push(SPACE);
    push_decimal(&mut header, reference.generation as u64);
    push_text(&mut header, " obj\n");
    assert(header@ =~= object_header_text(reference));
    header
}

/// How an appended object ends.
pub open spec fn object_end_text() -> Seq<u8> {
    spelled("\nendobj\n")
}

/// The list of object offsets that a list of `len` needs to grow to, if it has
/// room for `capacity`, or why it may not.
pub open spec fn entry_growth(len: nat, capacity: nat, limits: Limits) -> Result<
    Option<int>,
    Error,
> {
    let doubled = 2 * (if capacity < 4 {
        4
    } else {
        capacity
    }) as int;
    let target = if doubled > usize::MAX {
        usize::MAX as int
    } else {
        doubled
    };
    if len + 1 > usize::MAX {
        Err(Error::InvalidInput { reason: "PDF append xref entry count overflows" })
    } else if len + 1 <= capacity {
        Ok(None)
    } else if target * size_of::<XrefEntry>() > u64::MAX {
        Err(Error::InvalidInput { reason: "PDF append xref allocation overflows" })
    } else {
        match over_limit(
            "allocation bytes",
            limits.max_allocation_bytes,
            target * size_of::<XrefEntry>(),
        ) {
            Some(error) => Err(error),
            None => Ok(Some(target)),
        }
    }
}

/// Decide how far the list of object offsets has to grow, and the bytes that
/// takes.
pub fn plan_entry_growth(len: usize, capacity: usize, limits: &Limits) -> (planned: Result<
    Option<(usize, u64)>,
    Error,
>)
    requires
        len <= capacity,
    ensures
        match entry_growth(len as nat, capacity as nat, *limits) {
            Ok(None) => planned == Ok::<Option<(usize, u64)>, Error>(None),
            Ok(Some(target)) => {
                &&& planned matches Ok(Some((planned, bytes))) && planned == target && bytes
                    == target * size_of::<XrefEntry>()
                &&& len < target
                &&& target * size_of::<XrefEntry>() <= limits.max_allocation_bytes
            },
            Err(error) => planned == Err::<Option<(usize, u64)>, Error>(error),
        },
{
    if len == usize::MAX {
        return Err(Error::InvalidInput { reason: "PDF append xref entry count overflows" });
    }
    if len + 1 <= capacity {
        return Ok(None);
    }
    let room: usize = if capacity < 4 {
        4
    } else {
        capacity
    };
    let target: usize = if room > usize::MAX / 2 {
        usize::MAX
    } else {
        2 * room
    };
    let bytes: u64 = match (target as u64).checked_mul(core::mem::size_of::<XrefEntry>() as u64) {
        Some(bytes) => bytes,
        None => {
            return Err(Error::InvalidInput { reason: "PDF append xref allocation overflows" });
        },
    };
    limits.check_allocation(bytes)?;
    Ok(Some((target, bytes)))
}

/// Whether an error comes from growing a list of `len` object offsets that is
/// full. Whether it is full is up to the allocator.
pub open spec fn entry_growth_failed(len: nat, limits: Limits, error: Error) -> bool {
    match entry_growth(len, len, limits) {
        Err(failure) => error == failure,
        Ok(Some(target)) => allocator_refused(
            error,
            "PDF append xref allocation",
            limits,
            target * size_of::<XrefEntry>(),
        ),
        Ok(None) => false,
    }
}

impl AppendWriter {
    /// A writer that has written nothing.
    pub fn new(limits: &Limits) -> (writer: Self)
        ensures
            writer.well_formed(),
            writer.limits == *limits,
            writer.written@.len() == 0,
            writer.entries@.len() == 0,
            !writer.open,
            !writer.poisoned,
            writer.update_hash is None,
            writer.pending@.len() == 0,
    {
        assert(Seq::<u8>::empty().skip(0) =~= Seq::<u8>::empty());
        AppendWriter {
            limits: *limits,
            position: 0,
            entries: Vec::new(),
            open: false,
            poisoned: false,
            update_hash: None,
            pending: Vec::new(),
            written: Ghost(Seq::empty()),
        }
    }

    /// Whether the queued bytes are the last of those written.
    pub open spec fn well_formed(self) -> bool {
        &&& self.position == self.written@.len()
        &&& self.pending@.len() <= self.written@.len()
        &&& self.pending@ == self.written@.skip(self.written@.len() - self.pending@.len())
    }

    /// Whether every recorded offset is that of its object's header.
    pub open spec fn entries_sound(self) -> bool {
        forall|k: int| 0 <= k < self.entries@.len() ==> self.entry_sound(#[trigger] self.entries@[k])
    }

    pub open spec fn entry_sound(self, entry: XrefEntry) -> bool {
        let header = object_header_text(entry.reference);
        &&& entry.offset + header.len() <= self.written@.len()
        &&& self.written@.subrange(entry.offset as int, entry.offset + header.len()) == header
    }

    /// Whether another state has the same settings and health.
    pub open spec fn same_state(self, other: Self) -> bool {
        &&& self.limits == other.limits
        &&& self.open == other.open
        &&& self.poisoned == other.poisoned
        &&& self.entries == other.entries
    }

    /// The hash after more bytes.
    pub open spec fn hash_after(self, bytes: Seq<u8>) -> Option<u128> {
        hash_of(self.update_hash, bytes)
    }

    /// How many bytes have been taken.
    pub open spec fn taken(self) -> int {
        self.written@.len() - self.pending@.len()
    }

    /// Whether a state is this one with more bytes written.
    pub open spec fn extended_by(self, other: Self, bytes: Seq<u8>) -> bool {
        &&& other.well_formed()
        &&& other.taken() == self.taken()
        &&& other.written@ == self.written@ + bytes
        &&& other.update_hash == self.hash_after(bytes)
    }

    /// Hand over the queued bytes.
    pub fn take_output(&mut self) -> (bytes: Vec<u8>)
        requires
            old(self).well_formed(),
        ensures
            bytes@ == old(self).pending@,
            final(self).pending@.len() == 0,
            final(self).well_formed(),
            final(self).same_state(*old(self)),
            final(self).written == old(self).written,
            final(self).position == old(self).position,
            final(self).update_hash == old(self).update_hash,
    {
        let mut bytes: Vec<u8> = Vec::new();
        core::mem::swap(&mut bytes, &mut self.pending);
        proof {
            assert(self.written@.skip(self.written@.len() as int) =~= Seq::<u8>::empty());
            assert(self.pending@ =~= Seq::<u8>::empty());
        }
        bytes
    }

    /// Record that bytes that were taken could not be written.
    pub fn fail(&mut self)
        ensures
            *final(self) == (AppendWriter { poisoned: true, ..*old(self) }),
    {
        self.poisoned = true;
    }

    /// Refuse to go on after an output failure.
    pub fn ensure_healthy(&self) -> (healthy: Result<(), Error>)
        ensures
            healthy == outcome(
                if self.poisoned {
                    Some(output_failed())
                } else {
                    None
                },
            ),
    {
        if self.poisoned {
            return Err(output_failed());
        }
        Ok(())
    }

    /// Begin to hash an update, from the old ID and the length of what was
    /// copied.
    pub fn start_update_hash(&mut self, old_id: Option<&[u8]>)
        requires
            old(self).well_formed(),
        ensures
            *final(self) == (AppendWriter {
                update_hash: Some(
                    update_hash_start(
                        match old_id {
                            Some(id) => Some(id@),
                            None => None,
                        },
                        old(self).written@.len(),
                    ),
                ),
                ..*old(self)
            }),
    {
        let mut hash: u128 = FNV128_BASIS;
        if let Some(old_id) = old_id {
            hash = fnv128(hash, old_id);
        }
        let length = little_endian(self.position);
        hash = fnv128(hash, &length);
        self.update_hash = Some(hash);
    }

    /// Why the writer refuses a piece of this length.
    pub open spec fn write_failure(self, length: nat) -> Option<Error> {
        if self.poisoned {
            Some(output_failed())
        } else {
            piece_failure(self.limits, self.update_hash is Some, self.position as int, length)
        }
    }

    /// Queue one piece of output.
    pub fn write_raw(&mut self, bytes: &[u8]) -> (wrote: Result<(), Error>)
        requires
            old(self).well_formed(),
        ensures
            wrote == outcome(old(self).write_failure(bytes@.len())),
            match wrote {
                Ok(()) => {
                    &&& old(self).extended_by(*final(self), bytes@)
                    &&& final(self).same_state(*old(self))
                },
                Err(error) => *final(self) == (AppendWriter {
                    poisoned: old(self).poisoned || over_limit(
                        "output bytes",
                        old(self).limits.max_output_bytes,
                        old(self).position + bytes@.len(),
                    ) == Some(error),
                    ..*old(self)
                }),
            },
    {
        self.ensure_healthy()?;
        let attempted: u64 = match self.position.checked_add(bytes.len() as u64) {
            Some(attempted) => attempted,
            None => {
                return Err(Error::InvalidInput { reason: "PDF appended byte count overflows" });
            },
        };
        if self.update_hash.is_some() && attempted > MAX_CLASSIC_PDF_BYTES {
            return Err(
                Error::LimitExceeded {
                    resource: "classic PDF file bytes",
                    limit: MAX_CLASSIC_PDF_BYTES,
                    attempted,
                },
            );
        }
        if attempted > self.limits.max_output_bytes {
            self.poisoned = true;
            return Err(
                Error::LimitExceeded {
                    resource: "output bytes",
                    limit: self.limits.max_output_bytes,
                    attempted,
                },
            );
        }
        let ghost before = *self;
        push_bytes(&mut self.pending, bytes);
        if let Some(hash) = self.update_hash {
            self.update_hash = Some(fnv128(hash, bytes));
        }
        self.position = attempted;
        self.written = Ghost(before.written@ + bytes@);
        proof {
            let queued = before.pending@.len();
            assert(self.written@.skip(self.written@.len() - queued - bytes@.len())
                =~= before.written@.skip(before.written@.len() - queued) + bytes@);
        }
        Ok(())
    }
}

/// A hash after more bytes, if there is one.
pub open spec fn hash_of(hash: Option<u128>, bytes: Seq<u8>) -> Option<u128> {
    match hash {
        Some(hash) => Some(fnv128_of(hash, bytes)),
        None => None,
    }
}

/// The hash that an update starts from.
pub open spec fn update_hash_start(old_id: Option<Seq<u8>>, copied: nat) -> u128 {
    fnv128_of(
        match old_id {
            Some(id) => fnv128_of(FNV128_BASIS, id),
            None => FNV128_BASIS,
        },
        little_endian_bytes(copied, 8),
    )
}

/// The low bytes of a number, the lowest first.
pub open spec fn little_endian_bytes(value: nat, width: nat) -> Seq<u8>
    decreases width,
{
    if width == 0 {
        Seq::empty()
    } else {
        seq![(value % 256) as u8] + little_endian_bytes(value / 256, (width - 1) as nat)
    }
}

/// The eight bytes of a number, the lowest first.
fn little_endian(value: u64) -> (bytes: Vec<u8>)
    ensures
        bytes@ == little_endian_bytes(value as nat, 8),
{
    let mut bytes: Vec<u8> = Vec::new();
    let mut left: u64 = value;
    let mut done: u64 = 0;
    while done < 8
        invariant
            done <= 8,
            bytes@ + little_endian_bytes(left as nat, (8 - done) as nat) == little_endian_bytes(
                value as nat,
                8,
            ),
        decreases 8 - done,
    {
        let ghost before = bytes@;
        let low: u8 = (left % 256) as u8;
        bytes.push(low);
        proof {
            assert(little_endian_bytes(left as nat, (8 - done) as nat) == seq![low]
                + little_endian_bytes(left as nat / 256, (7 - done) as nat));
            assert(before + (seq![low] + little_endian_bytes(left as nat / 256, (7 - done) as nat))
                =~= bytes@ + little_endian_bytes(left as nat / 256, (7 - done) as nat));
        }
        left = left / 256;
        done += 1;
    }
    assert(bytes@ + little_endian_bytes(left as nat, 0) =~= bytes@);
    bytes
}

/// The pieces of an appended object.
pub open spec fn object_pieces(reference: PdfRef, body: Seq<Seq<u8>>) -> Seq<Seq<u8>> {
    seq![seq![LF], object_header_text(reference)] + body + seq![object_end_text()]
}

/// The bytes of an appended object.
pub open spec fn object_bytes(reference: PdfRef, body: Seq<u8>) -> Seq<u8> {
    seq![LF] + object_header_text(reference) + body + object_end_text()
}

/// What a writer's decisions depend on.
pub ghost struct WriterState {
    pub limits: Limits,
    pub hashing: bool,
    pub position: int,
    pub objects: nat,
    pub open: bool,
    pub poisoned: bool,
}

/// Whether an error refuses a whole object, after these bytes of it have been
/// written: those before the piece that is refused.
pub open spec fn object_refused(
    state: WriterState,
    reference: PdfRef,
    body: Seq<Seq<u8>>,
    error: Error,
    written: Seq<u8>,
) -> bool {
    if state.poisoned {
        error == output_failed() && written.len() == 0
    } else if state.open || reference.number == 0 {
        error == (Error::InvalidInput { reason: "invalid PDF append object state or number" })
            && written.len() == 0
    } else {
        ||| entry_growth_failed(state.objects, state.limits, error) && written.len() == 0
        ||| object_failure(state, reference, body) == Some(error) && written == accepted_text(
            state.limits,
            state.hashing,
            state.position,
            object_pieces(reference, body),
            0,
        )
    }
}

/// Why the output of a whole object is refused.
pub open spec fn object_failure(
    state: WriterState,
    reference: PdfRef,
    body: Seq<Seq<u8>>,
) -> Option<Error> {
    pieces_failure(
        state.limits,
        state.hashing,
        state.position,
        object_pieces(reference, body),
        0,
    )
}

/// An object that is appended.
pub ghost struct Appended {
    pub reference: PdfRef,
    /// The pieces of what stands between its header and its end.
    pub body: Seq<Seq<u8>>,
}

/// The bytes of an appended object.
pub open spec fn appended_bytes(object: Appended) -> Seq<u8> {
    object_bytes(object.reference, joined(object.body, 0))
}

/// The bytes of appended objects.
pub open spec fn appended_text(objects: Seq<Appended>) -> Seq<u8>
    decreases objects.len(),
{
    if objects.len() == 0 {
        Seq::empty()
    } else {
        appended_text(objects.drop_last()) + appended_bytes(objects.last())
    }
}

/// Where each appended object starts, when the first follows `position` bytes.
pub open spec fn appended_entries(objects: Seq<Appended>, position: int) -> Seq<XrefEntry>
    decreases objects.len(),
{
    if objects.len() == 0 {
        Seq::empty()
    } else {
        appended_entries(objects.drop_last(), position).push(
            XrefEntry {
                reference: objects.last().reference,
                offset: (position + appended_text(objects.drop_last()).len() + 1) as u64,
            },
        )
    }
}

/// The state after some objects.
pub open spec fn state_after(state: WriterState, objects: Seq<Appended>) -> WriterState {
    WriterState {
        position: state.position + appended_text(objects).len(),
        objects: state.objects + objects.len(),
        ..state
    }
}

/// Whether an error refuses one of some objects, after these bytes have been
/// written: the objects before it, and what precedes the piece that is refused.
#[verifier::opaque]
pub open spec fn objects_refused(
    state: WriterState,
    objects: Seq<Appended>,
    error: Error,
    written: Seq<u8>,
) -> bool {
    exists|k: int|
        #![trigger objects[k]]
        0 <= k < objects.len() && refused_at(state, objects, k, error, written)
}

/// Whether an error refuses object `k` of some objects.
pub open spec fn refused_at(
    state: WriterState,
    objects: Seq<Appended>,
    k: int,
    error: Error,
    written: Seq<u8>,
) -> bool {
    let text = appended_text(objects.take(k));
    &&& objects_accepted(state, objects.take(k))
    &&& text.is_prefix_of(written)
    &&& object_refused(
        state_after(state, objects.take(k)),
        objects[k].reference,
        objects[k].body,
        error,
        written.skip(text.len() as int),
    )
}

/// Whether nothing but memory stands against writing some objects.
#[verifier::opaque]
pub open spec fn objects_accepted(state: WriterState, objects: Seq<Appended>) -> bool {
    forall|k: int|
        #![trigger objects[k]]
        0 <= k < objects.len() ==> {
            let before = state_after(state, objects.take(k));
            &&& !state.poisoned
            &&& !state.open
            &&& objects[k].reference.number != 0
            &&& object_failure(before, objects[k].reference, objects[k].body) is None
        }
}

/// Failures of joined pieces.
proof fn lemma_pieces_failure_append(
    limits: Limits,
    hashing: bool,
    position: int,
    first: Seq<Seq<u8>>,
    second: Seq<Seq<u8>>,
    from: int,
)
    requires
        0 <= from <= first.len(),
    ensures
        pieces_failure(limits, hashing, position, first + second, from) == first_failure(
            pieces_failure(limits, hashing, position, first, from),
            pieces_failure(limits, hashing, position + joined(first, from).len(), second, 0),
        ),
    decreases first.len() - from,
{
    let both = first + second;
    if from == first.len() {
        lemma_pieces_failure_shift(limits, hashing, position, first, second, 0);
    } else {
        assert(both[from] == first[from]);
        lemma_pieces_failure_append(
            limits,
            hashing,
            position + first[from].len(),
            first,
            second,
            from + 1,
        );
    }
}

proof fn lemma_pieces_failure_shift(
    limits: Limits,
    hashing: bool,
    position: int,
    first: Seq<Seq<u8>>,
    second: Seq<Seq<u8>>,
    from: int,
)
    requires
        0 <= from <= second.len(),
    ensures
        pieces_failure(limits, hashing, position, first + second, first.len() + from)
            == pieces_failure(limits, hashing, position, second, from),
    decreases second.len() - from,
{
    if from < second.len() {
        assert((first + second)[first.len() + from] == second[from]);
        lemma_pieces_failure_shift(
            limits,
            hashing,
            position + second[from].len(),
            first,
            second,
            from + 1,
        );
    }
}

/// What is accepted of joined pieces.
proof fn lemma_accepted_append(
    limits: Limits,
    hashing: bool,
    position: int,
    first: Seq<Seq<u8>>,
    second: Seq<Seq<u8>>,
    from: int,
)
    requires
        0 <= from <= first.len(),
    ensures
        accepted_text(limits, hashing, position, first + second, from) == (if pieces_failure(
            limits,
            hashing,
            position,
            first,
            from,
        ) is Some {
            accepted_text(limits, hashing, position, first, from)
        } else {
            joined(first, from) + accepted_text(
                limits,
                hashing,
                position + joined(first, from).len(),
                second,
                0,
            )
        }),
    decreases first.len() - from,
{
    let both = first + second;
    if from == first.len() {
        lemma_accepted_shift(limits, hashing, position, first, second, 0);
        let rest = accepted_text(limits, hashing, position, second, 0);
        assert(Seq::<u8>::empty() + rest =~= rest);
    } else {
        assert(both[from] == first[from]);
        let after = position + first[from].len();
        lemma_accepted_append(limits, hashing, after, first, second, from + 1);
        let rest = accepted_text(
            limits,
            hashing,
            after + joined(first, from + 1).len(),
            second,
            0,
        );
        assert(first[from] + (joined(first, from + 1) + rest) =~= joined(first, from) + rest);
    }
}

proof fn lemma_accepted_shift(
    limits: Limits,
    hashing: bool,
    position: int,
    first: Seq<Seq<u8>>,
    second: Seq<Seq<u8>>,
    from: int,
)
    requires
        0 <= from <= second.len(),
    ensures
        accepted_text(limits, hashing, position, first + second, first.len() + from)
            == accepted_text(limits, hashing, position, second, from),
    decreases second.len() - from,
{
    if from < second.len() {
        assert((first + second)[first.len() + from] == second[from]);
        lemma_accepted_shift(
            limits,
            hashing,
            position + second[from].len(),
            first,
            second,
            from + 1,
        );
    }
}

/// What was added since the first of three states.
pub proof fn lemma_added_on(
    first: AppendWriter,
    second: AppendWriter,
    third: AppendWriter,
    bytes: Seq<u8>,
)
    requires
        second.written@ == first.written@ + bytes,
        second.written@.is_prefix_of(third.written@),
    ensures
        first.added(third) == bytes + second.added(third),
        third.written@ == second.written@ + second.added(third),
        third.written@ == first.written@ + first.added(third),
        first.written@.is_prefix_of(third.written@),
{
    let more = second.added(third);
    assert(third.written@ =~= second.written@ + more) by {
        assert(second.written@ =~= third.written@.take(second.written@.len() as int));
    }
    assert(first.written@ + bytes + more =~= first.written@ + (bytes + more));
    assert(first.added(third) =~= bytes + more);
}

impl AppendWriter {
    /// What a later state has written since this one.
    pub open spec fn added(self, other: Self) -> Seq<u8> {
        other.written@.skip(self.written@.len() as int)
    }

    /// What of some pieces is written: those before the first that is refused.
    pub open spec fn accepted(self, pieces: Seq<Seq<u8>>) -> Seq<u8> {
        if self.poisoned {
            Seq::empty()
        } else {
            accepted_text(
                self.limits,
                self.update_hash is Some,
                self.position as int,
                pieces,
                0,
            )
        }
    }

    /// Whether a later state is this one when it was stopped by an error: it
    /// takes no more output where the error names the limit on output.
    pub open spec fn stopped_by(self, other: Self, error: Error) -> bool {
        &&& self.kept_by(other)
        &&& other.poisoned == (self.poisoned || is_output_limit(error))
    }

    /// Whether a later state has kept everything that this one has written.
    pub open spec fn kept_by(self, other: Self) -> bool {
        &&& other.well_formed()
        &&& other.taken() == self.taken()
        &&& self.written@.is_prefix_of(other.written@)
        &&& self.limits == other.limits
        &&& self.poisoned ==> other.poisoned
    }

    /// What the writer's decisions depend on.
    pub open spec fn state(self) -> WriterState {
        WriterState {
            limits: self.limits,
            hashing: self.update_hash is Some,
            position: self.position as int,
            objects: self.entries@.len(),
            open: self.open,
            poisoned: self.poisoned,
        }
    }

    /// Why the writer refuses some pieces.
    pub open spec fn refusal(self, pieces: Seq<Seq<u8>>) -> Option<Error> {
        if self.poisoned && pieces.len() > 0 {
            Some(output_failed())
        } else {
            pieces_failure(
                self.limits,
                self.update_hash is Some,
                self.position as int,
                pieces,
                0,
            )
        }
    }

    /// Queue pieces of output, up to the first that is refused.
    pub fn write_pieces(&mut self, pieces: &Vec<Vec<u8>>) -> (wrote: Result<(), Error>)
        requires
            old(self).well_formed(),
        ensures
            wrote == outcome(old(self).refusal(views(pieces@))),
            match wrote {
                Ok(()) => {
                    &&& old(self).extended_by(*final(self), joined(views(pieces@), 0))
                    &&& final(self).same_state(*old(self))
                },
                Err(error) => {
                    &&& old(self).stopped_by(*final(self), error)
                    &&& old(self).added(*final(self)) == old(self).accepted(views(pieces@))
                    &&& final(self).entries == old(self).entries
                    &&& final(self).open == old(self).open
                },
            },
    {
        let ghost all = views(pieces@);
        let ghost before = *self;
        let mut next: usize = 0;
        proof {
            assert(joined(all, 0) =~= Seq::<u8>::empty() + joined(all, 0));
            assert(before.written@ + Seq::<u8>::empty() =~= before.written@);
            assert(Seq::<u8>::empty() + before.accepted(all) =~= before.accepted(all));
        }
        let ghost mut done = Seq::<u8>::empty();
        while next < pieces.len()
            invariant
                next <= pieces@.len(),
                all == views(pieces@),
                before == *old(self),
                before.well_formed(),
                before.extended_by(*self, done),
                self.same_state(before),
                done + joined(all, next as int) == joined(all, 0),
                next > 0 ==> !before.poisoned,
                before.refusal(all) == (if before.poisoned && all.len() > 0 {
                    Some(output_failed())
                } else {
                    pieces_failure(
                        before.limits,
                        before.update_hash is Some,
                        self.position as int,
                        all,
                        next as int,
                    )
                }),
                !before.poisoned ==> before.accepted(all) == done + accepted_text(
                    before.limits,
                    before.update_hash is Some,
                    self.position as int,
                    all,
                    next as int,
                ),
            decreases pieces@.len() - next,
        {
            let piece = &pieces[next];
            let ghost left = accepted_text(
                before.limits,
                before.update_hash is Some,
                self.position + all[next as int].len(),
                all,
                next + 1,
            );
            assert(self.written@.skip(before.written@.len() as int) =~= done);
            assert(done + Seq::<u8>::empty() =~= done);
            self.write_raw(piece)?;
            proof {
                assert(all[next as int] == piece@);
                assert(done + (piece@ + left) =~= done + piece@ + left);
                let longer = done + piece@;
                match before.update_hash {
                    Some(hash) => {
                        law_fnv128_in_pieces(hash, done, piece@);
                    },
                    None => {},
                }
                assert(before.written@ + done + piece@ =~= before.written@ + longer);
                assert(done + (piece@ + joined(all, next + 1)) =~= longer + joined(all, next + 1));
                done = longer;
            }
            next += 1;
        }
        assert(done + joined(all, next as int) =~= done);
        Ok(())
    }

    /// Make room for one more object offset.
    fn reserve_entry(&mut self) -> (reserved: Result<(), Error>)
        ensures
            final(self).entries@ == old(self).entries@,
            final(self).limits == old(self).limits,
            final(self).position == old(self).position,
            final(self).open == old(self).open,
            final(self).poisoned == old(self).poisoned,
            final(self).update_hash == old(self).update_hash,
            final(self).pending == old(self).pending,
            final(self).written == old(self).written,
            match reserved {
                Ok(()) => old(self).entries@.len() < usize::MAX,
                Err(error) => entry_growth_failed(
                    old(self).entries@.len(),
                    old(self).limits,
                    error,
                ),
            },
    {
        let room: usize = capacity(&self.entries);
        let planned = plan_entry_growth(self.entries.len(), room, &self.limits);
        if let Some((target, bytes)) = planned? {
            let refused = self.limits.allocation_refused("PDF append xref allocation", bytes);
            let additional: usize = target - self.entries.len();
            reserve_exact(&mut self.entries, additional, refused)?;
        }
        Ok(())
    }

    /// Whether an error refuses the beginning of an object, after these bytes of
    /// it have been written.
    pub open spec fn begin_refused(
        self,
        reference: PdfRef,
        error: Error,
        written: Seq<u8>,
    ) -> bool {
        let pieces = seq![seq![LF], object_header_text(reference)];
        if self.poisoned {
            error == output_failed() && written.len() == 0
        } else if self.open || reference.number == 0 {
            error == (Error::InvalidInput { reason: "invalid PDF append object state or number" })
                && written.len() == 0
        } else {
            ||| entry_growth_failed(self.entries@.len(), self.limits, error) && written.len() == 0
            ||| self.refusal(pieces) == Some(error) && written == self.accepted(pieces)
        }
    }

    /// Begin an object, and record where it starts.
    pub fn begin_object(&mut self, reference: PdfRef) -> (begun: Result<(), Error>)
        requires
            old(self).well_formed(),
        ensures
            final(self).limits == old(self).limits,
            match begun {
                Ok(()) => {
                    &&& !old(self).poisoned && !old(self).open && reference.number != 0
                    &&& old(self).refusal(seq![seq![LF], object_header_text(reference)]) is None
                    &&& old(self).extended_by(
                        *final(self),
                        seq![LF] + object_header_text(reference),
                    )
                    &&& final(self).entries@ == old(self).entries@.push(
                        XrefEntry { reference, offset: (old(self).position + 1) as u64 },
                    )
                    &&& final(self).open
                    &&& !final(self).poisoned
                },
                Err(error) => {
                    &&& old(self).begin_refused(reference, error, old(self).added(*final(self)))
                    &&& old(self).stopped_by(*final(self), error)
                    &&& final(self).entries@ == old(self).entries@
                    &&& final(self).open == old(self).open
                },
            },
    {
        self.ensure_healthy()?;
        if self.open || reference.number == 0 {
            return Err(
                Error::InvalidInput { reason: "invalid PDF append object state or number" },
            );
        }
        self.reserve_entry()?;
        let header = object_header(reference);
        let ghost pieces = seq![seq![LF], object_header_text(reference)];
        let ghost before = *self;
        proof {
            reveal_with_fuel(pieces_failure, 3);
            reveal_with_fuel(accepted_text, 3);
            assert(before.added(before) =~= Seq::<u8>::empty());
        }
        let mut line_end: Vec<u8> = Vec::new();
        line_end.push(LF);
        assert(line_end@ =~= seq![LF]);
        self.write_raw(&line_end)?;
        let offset: u64 = self.position;
        let ghost middle = *self;
        assert(before.added(middle) =~= seq![LF]);
        assert(seq![LF] + Seq::<u8>::empty() =~= seq![LF]);
        self.write_raw(&header)?;
        self.entries.push(XrefEntry { reference, offset });
        self.open = true;
        proof {
            match before.update_hash {
                Some(hash) => {
                    law_fnv128_in_pieces(hash, seq![LF], header@);
                },
                None => {},
            }
            assert(before.written@ + seq![LF] + header@ =~= before.written@ + (seq![LF] + header@));
        }
        Ok(())
    }

    /// End the open object.
    pub fn end_object(&mut self) -> (ended: Result<(), Error>)
        requires
            old(self).well_formed(),
        ensures
            final(self).limits == old(self).limits,
            final(self).entries == old(self).entries,
            match ended {
                Ok(()) => {
                    &&& old(self).open
                    &&& old(self).write_failure(object_end_text().len()) is None
                    &&& old(self).extended_by(*final(self), object_end_text())
                    &&& !final(self).open
                    &&& final(self).poisoned == old(self).poisoned
                },
                Err(error) => {
                    &&& if old(self).open {
                        old(self).write_failure(object_end_text().len()) == Some(error)
                    } else {
                        error == (Error::InvalidInput { reason: "no PDF append object is open" })
                    }
                    &&& old(self).stopped_by(*final(self), error)
                    &&& final(self).written == old(self).written
                    &&& final(self).open == old(self).open
                },
            },
    {
        if !self.open {
            return Err(Error::InvalidInput { reason: "no PDF append object is open" });
        }
        self.write_raw("\nendobj\n".as_bytes())?;
        self.open = false;
        Ok(())
    }

    /// Whether a state is this one with one more object.
    pub open spec fn with_object(self, other: Self, reference: PdfRef, body: Seq<u8>) -> bool {
        &&& self.extended_by(other, object_bytes(reference, body))
        &&& other.limits == self.limits
        &&& other.open == self.open
        &&& other.poisoned == self.poisoned
        &&& other.entries@ == self.entries@.push(
            XrefEntry { reference, offset: (self.position + 1) as u64 },
        )
    }

    /// Whether a later state holds an object open, and its entry, where the
    /// header of the object has been written, and nothing new where not.
    pub open spec fn left_open(self, other: Self, reference: PdfRef) -> bool {
        if self.added(other).len() < 1 + object_header_text(reference).len() {
            other.open == self.open && other.entries@ == self.entries@
        } else {
            other.open && other.entries@ == self.entries@.push(
                XrefEntry { reference, offset: (self.position + 1) as u64 },
            )
        }
    }

    /// Write a whole object.
    pub fn write_object(&mut self, reference: PdfRef, body: &Vec<Vec<u8>>) -> (wrote: Result<
        (),
        Error,
    >)
        requires
            old(self).well_formed(),
        ensures
            match wrote {
                Ok(()) => {
                    &&& !old(self).poisoned && !old(self).open && reference.number != 0
                    &&& old(self).refusal(object_pieces(reference, views(body@))) is None
                    &&& old(self).with_object(
                        *final(self),
                        reference,
                        joined(views(body@), 0),
                    )
                },
                Err(error) => {
                    &&& object_refused(
                        old(self).state(),
                        reference,
                        views(body@),
                        error,
                        old(self).added(*final(self)),
                    )
                    &&& old(self).stopped_by(*final(self), error)
                    &&& old(self).left_open(*final(self), reference)
                },
            },
    {
        let ghost before = *self;
        let ghost pieces = views(body@);
        let ghost head = seq![seq![LF], object_header_text(reference)];
        let ghost tail = seq![object_end_text()];
        let ghost first = seq![LF] + object_header_text(reference);
        let ghost second = joined(pieces, 0);
        proof {
            let hashing = before.update_hash is Some;
            let position = before.position as int;
            lemma_pieces_failure_append(before.limits, hashing, position, head + pieces, tail, 0);
            lemma_pieces_failure_append(before.limits, hashing, position, head, pieces, 0);
            lemma_accepted_append(before.limits, hashing, position, head + pieces, tail, 0);
            lemma_accepted_append(before.limits, hashing, position, head, pieces, 0);
            crate::pieces::lemma_joined_append(head, pieces, 0);
            reveal_with_fuel(joined, 3);
            assert(joined(head, 0) =~= first);
        }
        let started = self.begin_object(reference);
        proof {
            if started is Err {
                reveal_with_fuel(pieces_failure, 3);
                reveal_with_fuel(accepted_text, 3);
                assert(decimal(reference.number as nat).len() > 0);
                assert(before.accepted(head).len() <= 1 || before.refusal(head) is None);
            }
        }
        started?;
        let ghost begun = *self;
        let wrote = self.write_pieces(body);
        proof {
            if wrote is Err {
                lemma_added_on(before, begun, *self, first);
            }
        }
        wrote?;
        let ghost filled = *self;
        proof {
            reveal_with_fuel(pieces_failure, 2);
            reveal_with_fuel(accepted_text, 2);
            assert(before.added(filled) =~= first + second);
            assert(first + second + Seq::<u8>::empty() =~= first + second);
        }
        self.end_object()?;
        proof {
            match before.update_hash {
                Some(hash) => {
                    law_fnv128_in_pieces(hash, first, second);
                    law_fnv128_in_pieces(hash, first + second, object_end_text());
                },
                None => {},
            }
            assert(before.written@ + first + second + object_end_text() =~= before.written@
                + object_bytes(reference, second));
            assert(first + second + object_end_text() =~= object_bytes(reference, second));
        }
        Ok(())
    }
}

impl AppendWriter {
    /// Whether a state is this one with more objects.
    pub open spec fn with_objects(self, other: Self, objects: Seq<Appended>) -> bool {
        &&& self.extended_by(other, appended_text(objects))
        &&& other.limits == self.limits
        &&& other.open == self.open
        &&& other.poisoned == self.poisoned
        &&& other.entries@ == self.entries@ + appended_entries(objects, self.position as int)
    }
}

/// No objects are no change.
pub proof fn lemma_no_objects(writer: AppendWriter)
    requires
        writer.well_formed(),
    ensures
        writer.with_objects(writer, Seq::empty()),
        objects_accepted(writer.state(), Seq::empty()),
{
    reveal(objects_accepted);
    assert(writer.written@ + Seq::<u8>::empty() =~= writer.written@);
    assert(writer.entries@ + Seq::<XrefEntry>::empty() =~= writer.entries@);
    if let Some(hash) = writer.update_hash {
        assert(fnv128_of(hash, Seq::<u8>::empty()) == hash);
    }
}

/// One more object after some objects.
pub proof fn lemma_one_more_object(
    first: AppendWriter,
    second: AppendWriter,
    third: AppendWriter,
    objects: Seq<Appended>,
    object: Appended,
)
    requires
        first.well_formed(),
        first.with_objects(second, objects),
        objects_accepted(first.state(), objects),
        second.with_object(third, object.reference, joined(object.body, 0)),
        !second.poisoned,
        !second.open,
        object.reference.number != 0,
        object_failure(second.state(), object.reference, object.body) is None,
    ensures
        first.with_objects(third, objects.push(object)),
        objects_accepted(first.state(), objects.push(object)),
{
    let longer = objects.push(object);
    let text = appended_text(objects);
    let more = appended_bytes(object);
    assert(longer.drop_last() =~= objects);
    assert(longer.last() == object);
    assert(appended_text(longer) == text + more);
    if let Some(hash) = first.update_hash {
        law_fnv128_in_pieces(hash, text, more);
    }
    assert(first.written@ + text + more =~= first.written@ + (text + more));
    assert(third.entries@ =~= first.entries@ + appended_entries(longer, first.position as int));
    lemma_appended_entries_len(objects, first.position as int);
    assert(second.state() == state_after(first.state(), objects));
    lemma_one_more_accepted(first.state(), objects, object);
}

/// One more object that is accepted after some objects.
proof fn lemma_one_more_accepted(state: WriterState, objects: Seq<Appended>, object: Appended)
    requires
        objects_accepted(state, objects),
        !state.poisoned,
        !state.open,
        object.reference.number != 0,
        object_failure(state_after(state, objects), object.reference, object.body) is None,
    ensures
        objects_accepted(state, objects.push(object)),
{
    reveal(objects_accepted);
    let longer = objects.push(object);
    assert forall|k: int|
        #![trigger longer[k]]
        0 <= k < longer.len() implies {
        let before = state_after(state, longer.take(k));
        &&& !state.poisoned
        &&& !state.open
        &&& longer[k].reference.number != 0
        &&& object_failure(before, longer[k].reference, longer[k].body) is None
    } by {
        assert(longer.take(k) =~= objects.take(k));
        if k < objects.len() {
            assert(longer[k] == objects[k]);
        } else {
            assert(objects.take(k) =~= objects);
        }
    }
}

pub proof fn lemma_appended_entries_len(objects: Seq<Appended>, position: int)
    ensures
        appended_entries(objects, position).len() == objects.len(),
    decreases objects.len(),
{
    if objects.len() > 0 {
        lemma_appended_entries_len(objects.drop_last(), position);
    }
}

/// A refused object after some objects refuses them all.
pub proof fn lemma_refused_after(
    first: AppendWriter,
    second: AppendWriter,
    third: AppendWriter,
    done: Seq<Appended>,
    all: Seq<Appended>,
    error: Error,
)
    requires
        first.well_formed(),
        first.with_objects(second, done),
        objects_accepted(first.state(), done),
        done.len() < all.len(),
        done == all.take(done.len() as int),
        object_refused(
            second.state(),
            all[done.len() as int].reference,
            all[done.len() as int].body,
            error,
            second.added(third),
        ),
        second.kept_by(third),
    ensures
        objects_refused(first.state(), all, error, first.added(third)),
        first.kept_by(third),
{
    reveal(objects_refused);
    let text = appended_text(done);
    let written = first.added(third);
    lemma_added_on(first, second, third, text);
    assert(text =~= written.take(text.len() as int));
    assert(written.skip(text.len() as int) =~= second.added(third));
    lemma_appended_entries_len(done, first.position as int);
    assert(second.state() == state_after(first.state(), done));
    assert(all[done.len() as int] == all[done.len() as int]);
}

/// Every object stays where its recorded offset says, whatever is appended.
pub proof fn law_offsets_stay_sound(
    writer: AppendWriter,
    later: AppendWriter,
    reference: PdfRef,
    body: Seq<u8>,
)
    requires
        writer.well_formed(),
        writer.entries_sound(),
        writer.with_object(later, reference, body),
        later.position <= u64::MAX,
    ensures
        later.entries_sound(),
{
    let header = object_header_text(reference);
    let bytes = object_bytes(reference, body);
    assert forall|k: int| 0 <= k < later.entries@.len() implies later.entry_sound(
        #[trigger] later.entries@[k],
    ) by {
        let entry = later.entries@[k];
        let text = object_header_text(entry.reference);
        if k < writer.entries@.len() {
            assert(entry == writer.entries@[k]);
            assert(writer.entry_sound(entry));
            assert(later.written@.subrange(entry.offset as int, entry.offset + text.len())
                =~= writer.written@.subrange(entry.offset as int, entry.offset + text.len()));
        } else {
            assert(later.written@.subrange(entry.offset as int, entry.offset + text.len())
                =~= header);
        }
    }
}

} // verus!
