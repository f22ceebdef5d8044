//! The bit-storage collaborator.
//!
//! The dense representation keeps its bits in an [`arrow_buffer::BooleanBuffer`],
//! a bit-packed boolean buffer, and iterates its set positions with arrow's
//! chunked [`BitIndexIterator`], which skips all-zero machine words. Both are
//! opaque to the verifier; every operation the library needs is declared here
//! with the contract that the buffer's documentation and source state, over
//! the one name [`buffer_bits`] for the buffer's logical bit sequence.

use vstd::prelude::*;

use arrow_buffer::BooleanBuffer;
use arrow_data::bit_iterator::BitIndexIterator;

use crate::model::{all_false, all_true, and_bits, count_true, or_bits, set_positions};

verus! {

#[verifier::external_type_specification]
#[verifier::external_body]
pub struct ExBooleanBuffer(BooleanBuffer);

/// The logical bit sequence a `BooleanBuffer` holds: entry `i` is the value
/// of bit `i`, counted from the buffer's bit offset.
pub uninterp spec fn buffer_bits(b: BooleanBuffer) -> Seq<bool>;

/// Relies on `BooleanBuffer::from(&[bool])`: bit `i` of the packed buffer is
/// the `i`-th slice element.
#[verifier::external_body]
pub(crate) fn bits_from_bools(v: &Vec<bool>) -> (r: BooleanBuffer)
    ensures
        buffer_bits(r) == v@,
{
    BooleanBuffer::from(v.as_slice())
}

/// Relies on `BooleanBuffer::new_set`: a buffer of `n` bits, all set.
#[verifier::external_body]
pub(crate) fn bits_all_set(n: usize) -> (r: BooleanBuffer)
    ensures
        buffer_bits(r) == all_true(n as nat),
{
    BooleanBuffer::new_set(n)
}

/// Relies on `BooleanBuffer::new_unset`: a buffer of `n` bits, all unset.
#[verifier::external_body]
pub(crate) fn bits_all_unset(n: usize) -> (r: BooleanBuffer)
    ensures
        buffer_bits(r) == all_false(n as nat),
{
    BooleanBuffer::new_unset(n)
}

/// Relies on `BooleanBuffer::value`: the bit at index `i`. The call panics on
/// an index at or past the buffer's length, so that index is required out.
#[verifier::external_body]
pub(crate) fn bits_value(b: &BooleanBuffer, i: usize) -> (r: bool)
    requires
        i < buffer_bits(*b).len(),
    ensures
        r == buffer_bits(*b)[i as int],
{
    b.value(i)
}

/// Relies on `BooleanBuffer::count_set_bits`: the number of set bits.
#[verifier::external_body]
pub(crate) fn bits_count_set(b: &BooleanBuffer) -> (r: usize)
    ensures
        r == count_true(buffer_bits(*b)),
{
    b.count_set_bits()
}

/// Relies on `BitAnd for &BooleanBuffer`: the bitwise AND of two buffers of
/// one length. The impl asserts equal lengths, so unequal ones are required
/// out.
#[verifier::external_body]
pub(crate) fn bits_and(a: &BooleanBuffer, b: &BooleanBuffer) -> (r: BooleanBuffer)
    requires
        buffer_bits(*a).len() == buffer_bits(*b).len(),
    ensures
        buffer_bits(r) == and_bits(buffer_bits(*a), buffer_bits(*b)),
{
    a & b
}

/// Relies on `BitOr for &BooleanBuffer`: the bitwise OR of two buffers of one
/// length. The impl asserts equal lengths, so unequal ones are required out.
#[verifier::external_body]
pub(crate) fn bits_or(a: &BooleanBuffer, b: &BooleanBuffer) -> (r: BooleanBuffer)
    requires
        buffer_bits(*a).len() == buffer_bits(*b).len(),
    ensures
        buffer_bits(r) == or_bits(buffer_bits(*a), buffer_bits(*b)),
{
    a | b
}

/// Relies on `BitIndexIterator`: over the buffer's backing bytes, offset and
/// length it yields exactly the set bit positions, in increasing order,
/// scanning chunks of 64 bits and skipping all-zero chunks.
#[verifier::external_body]
pub(crate) fn bits_set_positions(b: &BooleanBuffer) -> (r: Vec<usize>)
    ensures
        r@.len() == set_positions(buffer_bits(*b)).len(),
        forall|i: int|
            0 <= i < r@.len() ==> #[trigger] r@[i] as int == set_positions(buffer_bits(*b))[i],
{
    BitIndexIterator::new(b.values(), b.offset(), b.len()).collect()
}

/// Relies on `BooleanBuffer::iter` (`BitIterator`): the bits of the buffer,
/// in order.
#[verifier::external_body]
pub(crate) fn bits_to_bools(b: &BooleanBuffer) -> (r: Vec<bool>)
    ensures
        r@ == buffer_bits(*b),
{
    b.iter().collect()
}

/// Relies on `Clone for BooleanBuffer`: a clone shares the backing buffer and
/// keeps offset and length, hence the same bits.
#[verifier::external_body]
pub(crate) fn bits_clone(b: &BooleanBuffer) -> (r: BooleanBuffer)
    ensures
        buffer_bits(r) == buffer_bits(*b),
{
    b.clone()
}

} // verus!
