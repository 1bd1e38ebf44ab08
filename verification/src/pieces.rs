//! Output that is written in pieces.

use vstd::prelude::*;
use crate::text::push_bytes;

verus! {

/// Pieces of output as byte sequences.
pub open spec fn views(pieces: Seq<Vec<u8>>) -> Seq<Seq<u8>> {
    Seq::new(pieces.len(), |i: int| pieces[i]@)
}

/// The bytes of the pieces from piece `from` on.
pub open spec fn joined(pieces: Seq<Seq<u8>>, from: int) -> Seq<u8>
    decreases pieces.len() - from,
{
    if from >= pieces.len() {
        Seq::empty()
    } else {
        pieces[from] + joined(pieces, from + 1)
    }
}

/// Joining appended pieces appends the joined pieces.
pub proof fn lemma_joined_append(first: Seq<Seq<u8>>, second: Seq<Seq<u8>>, from: int)
    requires
        0 <= from <= first.len(),
    ensures
        joined(first + second, from) == joined(first, from) + joined(second, 0),
    decreases first.len() - from,
{
    let both = first + second;
    if from == first.len() {
        lemma_joined_shift(first, second, 0);
        assert(joined(first, from) + joined(second, 0) =~= joined(second, 0));
    } else {
        lemma_joined_append(first, second, from + 1);
        assert(both[from] == first[from]);
        assert(joined(both, from) =~= joined(first, from) + joined(second, 0));
    }
}

proof fn lemma_joined_shift(first: Seq<Seq<u8>>, second: Seq<Seq<u8>>, from: int)
    requires
        0 <= from <= second.len(),
    ensures
        joined(first + second, first.len() + from) == joined(second, from),
    decreases second.len() - from,
{
    if from < second.len() {
        assert((first + second)[first.len() + from] == second[from]);
        lemma_joined_shift(first, second, from + 1);
    }
}

/// The bytes of some pieces.
pub fn join(pieces: &Vec<Vec<u8>>) -> (bytes: Vec<u8>)
    ensures
        bytes@ == joined(views(pieces@), 0),
{
    let mut bytes: Vec<u8> = Vec::new();
    let mut next: usize = 0;
    let ghost all = views(pieces@);
    assert(bytes@ + joined(all, 0) =~= joined(all, 0));
    while next < pieces.len()
        invariant
            next <= pieces@.len(),
            all == views(pieces@),
            bytes@ + joined(all, next as int) == joined(all, 0),
        decreases pieces@.len() - next,
    {
        let ghost before = bytes@;
        push_bytes(&mut bytes, pieces[next].as_slice());
        assert(before + (all[next as int] + joined(all, next + 1)) =~= bytes@ + joined(
            all,
            next + 1,
        ));
        next += 1;
    }
    assert(bytes@ + joined(all, next as int) =~= bytes@);
    bytes
}

} // verus!
