//! Access to the bit vectors of the `bitvec` crate.

use bitvec::order::Msb0;
use bitvec::vec::BitVec;
use vstd::prelude::*;

verus! {

/// A bit vector of the `bitvec` crate, eight bits per byte and the most significant
/// bit of each byte first.
#[verifier::external_body]
#[derive(Debug)]
pub struct ChunkBits {
    bits: BitVec<u8, Msb0>,
}

/// The bits that a bit vector holds, in index order.
pub uninterp spec fn bits_of(bits: ChunkBits) -> Seq<bool>;

/// How many bits a bit vector can hold at most (`BitSlice::MAX_BITS`).
pub open spec fn max_bits() -> int {
    usize::MAX as int / 8
}

/// What bit `k` of a byte counts, the most significant bit being bit 0.
pub open spec fn bit_weight(k: int) -> int {
    if k == 0 {
        128
    } else if k == 1 {
        64
    } else if k == 2 {
        32
    } else if k == 3 {
        16
    } else if k == 4 {
        8
    } else if k == 5 {
        4
    } else if k == 6 {
        2
    } else {
        1
    }
}

/// Bit `i` of a byte string, counted from the most significant bit of its first byte.
pub open spec fn byte_bit(bytes: Seq<u8>, i: int) -> bool {
    (bytes[i / 8] as int / bit_weight(i % 8)) % 2 == 1
}

/// All bits of a byte string, eight per byte.
pub open spec fn unpacked(bytes: Seq<u8>) -> Seq<bool> {
    Seq::new(8 * bytes.len(), |i: int| byte_bit(bytes, i))
}

/// How many of the bits are set.
pub open spec fn count_set(bits: Seq<bool>) -> nat
    decreases bits.len(),
{
    if bits.len() == 0 {
        0
    } else {
        count_set(bits.drop_last()) + if bits.last() {
            1nat
        } else {
            0nat
        }
    }
}

/// Calls `BitVec::repeat`. Trusted: the vector holds `len` clear bits.
#[verifier::external_body]
pub(crate) fn bits_cleared(len: usize) -> (r: ChunkBits)
    requires
        len <= max_bits(),
    ensures
        bits_of(r) == Seq::new(len as nat, |i: int| false),
{
    ChunkBits { bits: BitVec::<u8, Msb0>::repeat(false, len) }
}

/// Calls `BitVec::from_slice`. Trusted: the vector holds all bits of the bytes, the
/// most significant bit of each byte first.
#[verifier::external_body]
pub(crate) fn bits_from_bytes(bytes: &[u8]) -> (r: ChunkBits)
    requires
        8 * bytes@.len() <= max_bits(),
    ensures
        bits_of(r) == unpacked(bytes@),
{
    ChunkBits { bits: BitVec::<u8, Msb0>::from_slice(bytes) }
}

/// Calls `BitVec::truncate`. Trusted: at most the first `len` bits stay.
#[verifier::external_body]
pub(crate) fn bits_truncate(bits: &mut ChunkBits, len: usize)
    ensures
        bits_of(*final(bits)) == if len < bits_of(*old(bits)).len() {
            bits_of(*old(bits)).take(len as int)
        } else {
            bits_of(*old(bits))
        },
{
    bits.bits.truncate(len)
}

/// Calls `BitSlice::count_ones`. Trusted: it counts the set bits.
#[verifier::external_body]
pub(crate) fn bits_count(bits: &ChunkBits) -> (r: usize)
    ensures
        r == count_set(bits_of(*bits)),
{
    bits.bits.count_ones()
}

/// Calls `BitVec::len`. Trusted: it gives the number of bits.
#[verifier::external_body]
pub(crate) fn bits_len(bits: &ChunkBits) -> (r: usize)
    ensures
        r == bits_of(*bits).len(),
{
    bits.bits.len()
}

/// Indexes a bit vector. Trusted: it reads bit `index`.
#[verifier::external_body]
pub(crate) fn bits_get(bits: &ChunkBits, index: usize) -> (r: bool)
    requires
        index < bits_of(*bits).len(),
    ensures
        r == bits_of(*bits)[index as int],
{
    bits.bits[index]
}

/// Calls `BitSlice::set`. Trusted: it writes bit `index` and leaves the others.
#[verifier::external_body]
pub(crate) fn bits_set(bits: &mut ChunkBits, index: usize, value: bool)
    requires
        index < bits_of(*old(bits)).len(),
    ensures
        bits_of(*final(bits)) == bits_of(*old(bits)).update(index as int, value),
{
    bits.bits.set(index, value)
}

/// Calls `BitVec::as_raw_slice`. Trusted: the bytes are those that it takes to hold
/// the bits, and unpack to them. What the last byte holds behind the last bit is
/// left open, as the crate leaves it.
#[verifier::external_body]
pub(crate) fn bits_raw(bits: &ChunkBits) -> (r: &[u8])
    ensures
        r@.len() == (bits_of(*bits).len() + 7) / 8,
        unpacked(r@).take(bits_of(*bits).len() as int) == bits_of(*bits),
{
    bits.bits.as_raw_slice()
}

/// Calls `BitVec::clone`. Trusted: the copy holds the same bits.
#[verifier::external_body]
pub(crate) fn bits_copy(bits: &ChunkBits) -> (r: ChunkBits)
    ensures
        bits_of(r) == bits_of(*bits),
{
    ChunkBits { bits: bits.bits.clone() }
}

/// Counting never exceeds the number of bits, and reaches it exactly when all are set.
pub proof fn count_set_bounds(bits: Seq<bool>)
    ensures
        count_set(bits) <= bits.len(),
        count_set(bits) == bits.len() <==> forall|i: int| 0 <= i < bits.len() ==> bits[i],
    decreases bits.len(),
{
    if bits.len() > 0 {
        let rest = bits.drop_last();
        count_set_bounds(rest);
        if count_set(bits) == bits.len() {
            assert forall|i: int| 0 <= i < bits.len() implies bits[i] by {
                if i < rest.len() {
                    assert(rest[i]);
                }
            }
        }
        if forall|i: int| 0 <= i < bits.len() ==> bits[i] {
            assert forall|i: int| 0 <= i < rest.len() implies rest[i] by {
                assert(bits[i]);
            }
            assert(bits[bits.len() - 1]);
        }
    }
}

/// No bit set counts zero.
pub proof fn count_set_none(bits: Seq<bool>)
    requires
        forall|i: int| 0 <= i < bits.len() ==> !bits[i],
    ensures
        count_set(bits) == 0,
    decreases bits.len(),
{
    if bits.len() > 0 {
        assert(!bits[bits.len() - 1]);
        assert forall|i: int| 0 <= i < bits.drop_last().len() implies !bits.drop_last()[i] by {
            assert(!bits[i]);
        }
        count_set_none(bits.drop_last());
    }
}

/// Setting a clear bit adds one to the count.
pub proof fn count_set_update(bits: Seq<bool>, index: int)
    requires
        0 <= index < bits.len(),
        !bits[index],
    ensures
        count_set(bits.update(index, true)) == count_set(bits) + 1,
    decreases bits.len(),
{
    let after = bits.update(index, true);
    if index == bits.len() - 1 {
        assert(after.drop_last() =~= bits.drop_last());
    } else {
        assert(after.drop_last() =~= bits.drop_last().update(index, true));
        count_set_update(bits.drop_last(), index);
    }
}

} // verus!
