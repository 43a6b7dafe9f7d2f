//! The chunk bitmap: which chunks a node has received and verified.

use vstd::prelude::*;

use crate::bits::{
    bits_cleared, bits_copy, bits_count, bits_from_bytes, bits_get, bits_len, bits_of, bits_raw,
    bits_set, bits_truncate, count_set, count_set_bounds, count_set_none, count_set_update, max_bits,
    unpacked, ChunkBits,
};
use crate::ratio::Ratio;

verus! {

/// Per-node bit field: bit `i` set means that chunk `i` is fully received and verified.
#[derive(Debug)]
pub struct ChunkBitmap {
    bits: ChunkBits,
    complete: u32,
    chunk_count: u32,
}

/// The content of a chunk bitmap: the bits, and the number of chunks of the file. A field
/// that was sent by a peer may have fewer bits than the file has chunks.
#[verifier::ext_equal]
pub struct BitmapView {
    pub bits: Seq<bool>,
    pub chunk_count: u32,
}

impl BitmapView {
    /// The field answers for chunk `index`: the chunk is beyond the file, or has a bit.
    pub open spec fn covers(self, index: u32) -> bool {
        index < self.chunk_count ==> index < self.bits.len()
    }

    /// The field has a bit for every chunk of the file.
    pub open spec fn full_length(self) -> bool {
        self.bits.len() == self.chunk_count
    }

    /// Chunk `index` is there.
    pub open spec fn holds(self, index: u32) -> bool {
        index < self.chunk_count && self.bits[index as int]
    }

    /// How many chunks are there.
    pub open spec fn completed(self) -> nat {
        count_set(self.bits)
    }

    /// All chunks of the file are there.
    pub open spec fn is_complete(self) -> bool {
        self.completed() == self.chunk_count
    }

    /// The share of the chunks that are there; a file without chunks is complete.
    pub open spec fn ratio(self) -> Ratio {
        if self.chunk_count == 0 {
            Ratio { num: 1, den: 1 }
        } else {
            Ratio { num: self.completed() as u128, den: self.chunk_count as u128 }
        }
    }

    /// Chunk `index` is newly set.
    pub open spec fn marked(self, index: u32) -> BitmapView {
        if index < self.chunk_count {
            BitmapView { bits: self.bits.update(index as int, true), ..self }
        } else {
            self
        }
    }
}

/// The bitmap of a file with `chunk_count` chunks none of which is there.
pub open spec fn empty_bitmap(chunk_count: u32) -> BitmapView {
    BitmapView { bits: Seq::new(chunk_count as nat, |i: int| false), chunk_count }
}

/// The bitmap that raw bytes stand for: as many of their bits as the file has chunks.
pub open spec fn received_bitmap(bytes: Seq<u8>, chunk_count: u32) -> BitmapView {
    BitmapView {
        bits: if chunk_count < 8 * bytes.len() {
            unpacked(bytes).take(chunk_count as int)
        } else {
            unpacked(bytes)
        },
        chunk_count,
    }
}

/// `list` names the clear bits, in ascending order.
pub open spec fn lists_missing(list: Seq<u32>, bits: Seq<bool>) -> bool {
    &&& forall|i: int, j: int| 0 <= i < j < list.len() ==> list[i] < list[j]
    &&& forall|i: int|
        0 <= i < list.len() ==> list[i] < bits.len() && !bits[#[trigger] list[i] as int]
    &&& forall|c: u32| c < bits.len() && !bits[c as int] ==> #[trigger] list.contains(c)
}

impl View for ChunkBitmap {
    type V = BitmapView;

    closed spec fn view(&self) -> BitmapView {
        BitmapView { bits: bits_of(self.bits), chunk_count: self.chunk_count }
    }
}

impl ChunkBitmap {
    #[verifier::type_invariant]
    spec fn well_formed(self) -> bool {
        &&& self.complete == count_set(bits_of(self.bits))
        &&& bits_of(self.bits).len() <= self.chunk_count
    }

    /// A bitmap with nothing received yet.
    pub fn new(chunk_count: u32) -> (r: Self)
        requires
            chunk_count <= max_bits(),
        ensures
            r@ == empty_bitmap(chunk_count),
    {
        let bits = bits_cleared(chunk_count as usize);
        proof {
            count_set_none(bits_of(bits));
        }
        ChunkBitmap { bits, complete: 0, chunk_count }
    }

    /// The bitmap in a peer's heartbeat. Bits behind the last chunk are ignored.
    pub fn from_bytes(bytes: &[u8], chunk_count: u32) -> (r: Self)
        requires
            8 * bytes@.len() <= max_bits(),
        ensures
            r@ == received_bitmap(bytes@, chunk_count),
    {
        let mut bits = bits_from_bytes(bytes);
        bits_truncate(&mut bits, chunk_count as usize);
        proof {
            count_set_bounds(bits_of(bits));
        }
        let complete: u32 = bits_count(&bits) as u32;
        ChunkBitmap { bits, complete, chunk_count }
    }

    /// Marks a chunk as received; tells whether it was not before. A chunk that the file
    /// does not have is ignored.
    pub fn mark_complete(&mut self, index: u32) -> (r: bool)
        requires
            old(self)@.covers(index),
        ensures
            r == (index < old(self)@.chunk_count && !old(self)@.holds(index)),
            final(self)@ == old(self)@.marked(index),
    {
        proof {
            use_type_invariant(&*self);
        }
        if index >= self.chunk_count {
            return false;
        }
        if !bits_get(&self.bits, index as usize) {
            proof {
                count_set_update(bits_of(self.bits), index as int);
                count_set_bounds(bits_of(self.bits).update(index as int, true));
            }
            let ghost before = self@;
            let mut taken = ChunkBitmap::new(0);
            std::mem::swap(&mut taken, self);
            proof {
                use_type_invariant(&taken);
            }
            let ChunkBitmap { mut bits, complete, chunk_count } = taken;
            bits_set(&mut bits, index as usize, true);
            *self = ChunkBitmap { bits, complete: complete + 1, chunk_count };
            assert(self@ == before.marked(index));
            true
        } else {
            assert(self@.bits.update(index as int, true) =~= self@.bits);
            false
        }
    }

    /// Whether chunk `index` was received.
    pub fn has(&self, index: u32) -> (r: bool)
        requires
            self@.covers(index),
        ensures
            r == self@.holds(index),
    {
        index < self.chunk_count && bits_get(&self.bits, index as usize)
    }

    /// Whether all chunks were received.
    pub fn is_complete(&self) -> (r: bool)
        ensures
            r == self@.is_complete(),
    {
        proof {
            use_type_invariant(self);
        }
        self.complete == self.chunk_count
    }

    /// The share of the chunks that were received.
    pub fn completion_ratio(&self) -> (r: Ratio)
        ensures
            r == self@.ratio(),
    {
        proof {
            use_type_invariant(self);
        }
        if self.chunk_count == 0 {
            return Ratio { num: 1, den: 1 };
        }
        Ratio { num: self.complete as u128, den: self.chunk_count as u128 }
    }

    /// How many chunks were received.
    pub fn completed_count(&self) -> (r: u32)
        ensures
            r == self@.completed(),
    {
        proof {
            use_type_invariant(self);
        }
        self.complete
    }

    /// How many chunks the file has.
    pub fn chunk_count(&self) -> (r: u32)
        ensures
            r == self@.chunk_count,
    {
        self.chunk_count
    }

    /// Whether the field answers for chunk `index`.
    pub fn covers(&self, index: u32) -> (r: bool)
        ensures
            r == self@.covers(index),
    {
        index >= self.chunk_count || (index as usize) < bits_len(&self.bits)
    }

    /// The indices of the chunks that are missing, in ascending order.
    pub fn missing(&self) -> (r: Vec<u32>)
        ensures
            lists_missing(r@, self@.bits),
    {
        proof {
            use_type_invariant(self);
        }
        let len: usize = bits_len(&self.bits);
        let mut list: Vec<u32> = Vec::new();
        let mut i: usize = 0;
        while i < len
            invariant
                i <= len,
                len == bits_of(self.bits).len(),
                len <= u32::MAX,
                forall|a: int, b: int| 0 <= a < b < list@.len() ==> list@[a] < list@[b],
                forall|a: int|
                    0 <= a < list@.len() ==> #[trigger] list@[a] < i && !bits_of(
                        self.bits,
                    )[list@[a] as int],
                forall|c: u32|
                    c < i && !bits_of(self.bits)[c as int] ==> #[trigger] list@.contains(c),
            decreases len - i,
        {
            let ghost before = list@;
            if !bits_get(&self.bits, i) {
                list.push(i as u32);
                assert(list@[before.len() as int] == i as u32);
                assert forall|c: u32| c < i + 1 && !bits_of(self.bits)[c as int] implies
                    #[trigger] list@.contains(c) by {
                    if c < i {
                        assert(before.contains(c));
                        let k = choose|k: int| 0 <= k < before.len() && before[k] == c;
                        assert(list@[k] == c);
                    }
                }
            }
            i = i + 1;
        }
        list
    }

    /// The raw bytes for transmission: eight chunks per byte, the most significant bit
    /// first.
    pub fn as_bytes(&self) -> (r: &[u8])
        ensures
            r@.len() == (self@.bits.len() + 7) / 8,
            unpacked(r@).take(self@.bits.len() as int) == self@.bits,
    {
        bits_raw(&self.bits)
    }
}

impl Clone for ChunkBitmap {
    fn clone(&self) -> (r: Self)
        ensures
            r@ == self@,
    {
        proof {
            use_type_invariant(self);
        }
        ChunkBitmap {
            bits: bits_copy(&self.bits),
            complete: self.complete,
            chunk_count: self.chunk_count,
        }
    }
}

/// A bitmap survives transmission: the bytes that a node sends give the tracker the same
/// bitmap, for every field with a bit for each chunk.
pub proof fn bitmap_round_trip(sent: BitmapView, bytes: Seq<u8>)
    requires
        sent.full_length(),
        bytes.len() == (sent.bits.len() + 7) / 8,
        unpacked(bytes).take(sent.bits.len() as int) == sent.bits,
    ensures
        received_bitmap(bytes, sent.chunk_count) == sent,
{
    if sent.chunk_count < 8 * bytes.len() {
        assert(received_bitmap(bytes, sent.chunk_count).bits =~= sent.bits);
    } else {
        assert(unpacked(bytes).take(sent.bits.len() as int) =~= unpacked(bytes));
    }
}

/// A node is complete exactly when it holds every chunk.
pub proof fn complete_means_holds_all(b: BitmapView)
    requires
        b.full_length(),
    ensures
        b.is_complete() <==> forall|c: u32| c < b.chunk_count ==> #[trigger] b.holds(c),
{
    count_set_bounds(b.bits);
    if forall|c: u32| c < b.chunk_count ==> #[trigger] b.holds(c) {
        assert forall|i: int| 0 <= i < b.bits.len() implies b.bits[i] by {
            assert(b.holds(i as u32));
        }
    }
}

/// A node is complete exactly when no chunk is missing.
pub proof fn complete_means_none_missing(b: BitmapView, list: Seq<u32>)
    requires
        b.full_length(),
        lists_missing(list, b.bits),
    ensures
        b.is_complete() <==> list.len() == 0,
        forall|c: u32| c < b.chunk_count ==> (#[trigger] list.contains(c) <==> !b.holds(c)),
{
    complete_means_holds_all(b);
    if list.len() > 0 {
        assert(!b.bits[list[0] as int]);
        assert(!b.holds(list[0]));
    }
    assert forall|c: u32| c < b.chunk_count implies (#[trigger] list.contains(c) <==> !b.holds(
        c,
    )) by {
        if list.contains(c) {
            let k = choose|k: int| 0 <= k < list.len() && list[k] == c;
            assert(!b.bits[list[k] as int]);
        }
    }
    if list.len() == 0 {
        assert forall|c: u32| c < b.chunk_count implies #[trigger] b.holds(c) by {
            assert(!list.contains(c));
        }
    }
}

/// Marking a chunk makes it held, leaves all others as they were, adds one to the count if
/// it was missing, and a second time changes nothing.
pub proof fn marking_is_idempotent(b: BitmapView, index: u32)
    requires
        b.covers(index),
        index < b.chunk_count,
    ensures
        b.marked(index).holds(index),
        forall|c: u32|
            c != index && c < b.bits.len() ==> #[trigger] b.marked(index).holds(c) == b.holds(c),
        b.marked(index).completed() == b.completed() + if b.holds(index) {
            0nat
        } else {
            1nat
        },
        b.marked(index).marked(index) == b.marked(index),
{
    if b.holds(index) {
        assert(b.bits.update(index as int, true) =~= b.bits);
    } else {
        count_set_update(b.bits, index as int);
    }
    assert(b.marked(index).marked(index).bits =~= b.marked(index).bits);
}

} // verus!
