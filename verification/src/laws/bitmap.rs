//! Laws of the chunk bitmap.

use vstd::arithmetic::power2::{lemma2_to64, pow2};
use vstd::prelude::*;

use crate::bitmap::ChunkBitmap;
use crate::bits::{bit_weight, count_set, count_set_bounds, unpacked};
use crate::ratio::Ratio;

verus! {

/// Counting the set bits gives the number of places where one is.
pub proof fn counted_bits_are_places(bits: Seq<bool>)
    ensures
        Set::new(|i: int| 0 <= i < bits.len() && bits[i]).finite(),
        count_set(bits) == Set::new(|i: int| 0 <= i < bits.len() && bits[i]).len(),
    decreases bits.len(),
{
    let places = Set::new(|i: int| 0 <= i < bits.len() && bits[i]);
    if bits.len() == 0 {
        assert(places =~= Set::empty());
    } else {
        let front = bits.drop_last();
        let last = bits.len() - 1;
        let fewer = Set::new(|i: int| 0 <= i < front.len() && front[i]);
        counted_bits_are_places(front);
        if bits[last] {
            assert(places =~= fewer.insert(last));
        } else {
            assert(places =~= fewer);
        }
    }
}

/// As many places hold a bit as there are places, exactly when every place holds one.
pub proof fn lemma_all_places(bits: Seq<bool>)
    ensures
        count_set(bits) <= bits.len(),
        count_set(bits) == bits.len() <==> forall|i: int| 0 <= i < bits.len() ==> #[trigger] bits[i],
{
    count_set_bounds(bits);
    if forall|i: int| 0 <= i < bits.len() ==> #[trigger] bits[i] {
        assert forall|i: int| 0 <= i < bits.len() implies bits[i] by {}
    }
}

/// A new bitmap has one bit for every chunk, and none is set.
pub proof fn new_bitmap_is_clear(chunk_count: u32, r: ChunkBitmap)
    requires
        call_ensures(ChunkBitmap::new, (chunk_count,), r),
    ensures
        r@.chunk_count == chunk_count,
        r@.bits.len() == chunk_count,
        forall|i: int| 0 <= i < chunk_count ==> !#[trigger] r@.bits[i],
{
}

/// What a peer sends is read bit by bit, the most significant bit of each byte first, up to
/// the number of chunks or the end of the bytes.
pub proof fn received_bits_are_those_sent(bytes: &[u8], chunk_count: u32, r: ChunkBitmap)
    requires
        call_ensures(ChunkBitmap::from_bytes, (bytes, chunk_count), r),
    ensures
        r@.chunk_count == chunk_count,
        r@.bits.len() == if chunk_count < 8 * bytes@.len() {
            chunk_count as int
        } else {
            8 * bytes@.len() as int
        },
        forall|i: int|
            0 <= i < r@.bits.len() ==> (#[trigger] r@.bits[i] <==> bytes@[i / 8] as int / pow2(
                (7 - i % 8) as nat,
            ) as int % 2 == 1),
{
    lemma2_to64();
    assert forall|i: int| 0 <= i < r@.bits.len() implies (#[trigger] r@.bits[i] <==> bytes@[i
        / 8] as int / pow2((7 - i % 8) as nat) as int % 2 == 1) by {
        lemma_weight(i % 8);
    }
}

/// The weight of a bit in its byte is a power of two.
pub proof fn lemma_weight(k: int)
    requires
        0 <= k < 8,
    ensures
        bit_weight(k) == pow2((7 - k) as nat),
{
    lemma2_to64();
}

/// The bytes that are sent hold one bit per chunk, the most significant bit of each byte
/// first, and no more bytes than that takes.
pub proof fn sent_bits_are_those_held(b: &ChunkBitmap, r: &[u8])
    requires
        call_ensures(ChunkBitmap::as_bytes, (b,), r),
    ensures
        8 * (r@.len() - 1) < b@.bits.len() <= 8 * r@.len(),
        forall|i: int|
            0 <= i < b@.bits.len() ==> (#[trigger] b@.bits[i] <==> r@[i / 8] as int / pow2(
                (7 - i % 8) as nat,
            ) as int % 2 == 1),
{
    let all = unpacked(r@);
    assert forall|i: int| 0 <= i < b@.bits.len() implies (#[trigger] b@.bits[i] <==> r@[i
        / 8] as int / pow2((7 - i % 8) as nat) as int % 2 == 1) by {
        lemma_weight(i % 8);
        assert(all.take(b@.bits.len() as int)[i] == all[i]);
    }
}

/// A bitmap that was sent and received is the same, where it has a bit for every chunk.
pub proof fn bitmap_survives_sending(
    sent: &ChunkBitmap,
    bytes: &[u8],
    chunk_count: u32,
    r: ChunkBitmap,
)
    requires
        call_ensures(ChunkBitmap::as_bytes, (sent,), bytes),
        call_ensures(ChunkBitmap::from_bytes, (bytes, chunk_count), r),
        sent@.bits.len() == chunk_count,
    ensures
        r@.bits == sent@.bits,
        r@.chunk_count == chunk_count,
{
    sent_bits_are_those_held(sent, bytes);
    received_bits_are_those_sent(bytes, chunk_count, r);
    assert(r@.bits =~= sent@.bits);
}

/// Marking sets the bit of one chunk of the file, and tells whether it was clear; no other
/// bit changes, and a chunk that the file does not have changes nothing.
pub proof fn marking_sets_one_bit(b: &mut ChunkBitmap, index: u32, r: bool)
    requires
        call_ensures(ChunkBitmap::mark_complete, (b, index), r),
        index < old(b)@.chunk_count ==> index < old(b)@.bits.len(),
    ensures
        final(b)@.chunk_count == old(b)@.chunk_count,
        final(b)@.bits.len() == old(b)@.bits.len(),
        index < old(b)@.chunk_count ==> final(b)@.bits[index as int] && r
            == !old(b)@.bits[index as int],
        index >= old(b)@.chunk_count ==> !r,
        forall|i: int|
            0 <= i < old(b)@.bits.len() && (i != index || index >= old(b)@.chunk_count)
                ==> #[trigger] final(b)@.bits[i] == old(b)@.bits[i],
{
}

/// A chunk is there exactly when the file has it and its bit is set.
pub proof fn held_chunk_has_its_bit(b: &ChunkBitmap, index: u32, r: bool)
    requires
        call_ensures(ChunkBitmap::has, (b, index), r),
    ensures
        r <==> index < b@.chunk_count && b@.bits[index as int],
{
}

/// The count of received chunks is the number of set bits.
pub proof fn completed_chunks_are_set_bits(b: &ChunkBitmap, r: u32)
    requires
        call_ensures(ChunkBitmap::completed_count, (b,), r),
    ensures
        r == Set::new(|i: int| 0 <= i < b@.bits.len() && b@.bits[i]).len(),
{
    counted_bits_are_places(b@.bits);
}

/// A bitmap with a bit for every chunk is complete exactly when all its bits are set; one
/// that has fewer bits is not.
pub proof fn complete_bitmap_has_all_bits(b: &ChunkBitmap, r: bool)
    requires
        call_ensures(ChunkBitmap::is_complete, (b,), r),
        b@.bits.len() <= b@.chunk_count,
    ensures
        r <==> b@.bits.len() == b@.chunk_count && forall|i: int|
            0 <= i < b@.bits.len() ==> #[trigger] b@.bits[i],
{
    lemma_all_places(b@.bits);
}

/// The completion is the number of set bits over the number of chunks; a file without chunks
/// is complete.
pub proof fn completion_is_share_of_set_bits(b: &ChunkBitmap, r: Ratio)
    requires
        call_ensures(ChunkBitmap::completion_ratio, (b,), r),
        b@.bits.len() <= b@.chunk_count,
    ensures
        r.den > 0,
        b@.chunk_count == 0 ==> r.num == r.den,
        b@.chunk_count > 0 ==> r.num * b@.chunk_count == Set::new(
            |i: int| 0 <= i < b@.bits.len() && b@.bits[i],
        ).len() * r.den,
{
    counted_bits_are_places(b@.bits);
    lemma_all_places(b@.bits);
}

/// The list of missing chunks ascends and names exactly the clear bits.
pub proof fn missing_chunks_are_clear_bits(b: &ChunkBitmap, r: Vec<u32>)
    requires
        call_ensures(ChunkBitmap::missing, (b,), r),
    ensures
        forall|i: int, j: int| 0 <= i < j < r@.len() ==> r@[i] < r@[j],
        forall|c: u32| #[trigger] r@.contains(c) <==> c < b@.bits.len() && !b@.bits[c as int],
{
    assert forall|c: u32| #[trigger] r@.contains(c) implies c < b@.bits.len()
        && !b@.bits[c as int] by {
        let k = choose|k: int| 0 <= k < r@.len() && r@[k] == c;
        assert(!b@.bits[r@[k] as int]);
    }
}

/// A bitmap answers for every chunk but those of the file that it has no bit for.
pub proof fn bitmap_answers_by_its_length(b: &ChunkBitmap, index: u32, r: bool)
    requires
        call_ensures(ChunkBitmap::covers, (b, index), r),
    ensures
        r <==> index >= b@.chunk_count || index < b@.bits.len(),
{
}

/// A copy of a bitmap has its bits.
pub proof fn copied_bitmap_has_same_bits(b: &ChunkBitmap, r: ChunkBitmap)
    requires
        call_ensures(<ChunkBitmap as Clone>::clone, (b,), r),
    ensures
        r@.bits == b@.bits,
        r@.chunk_count == b@.chunk_count,
{
}

} // verus!
