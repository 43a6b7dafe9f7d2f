//! Erasure coding for the tail of a distribution: any `k` of `k + m` shards give back the
//! data.

pub use crate::stripes::{build_ec_stripes, reconstruct_stripe, EcStripe, TailConfig};

use vstd::prelude::*;
use vstd::string::*;

use crate::codec::{
    agrees_with, all_present, codec_exists, codec_refusal, codeword, encode_refusal,
    present_bytes, present_count, present_fault, rebuild_refusal, rs_check, rs_encode, rs_parity,
    rs_rebuild, rs_rebuilt, shard_bytes,
};
use crate::error::DistError;
use crate::manifest::lemma_rounded_up;
use crate::text::{decimal, push_decimal};

verus! {

/// A Reed-Solomon coder with `k` data shards and `m` parity shards. Any `k` of the `k + m`
/// shards suffice to reconstruct all data shards.
#[derive(Debug)]
pub struct ErasureCoder {
    pub data_shards: usize,
    pub parity_shards: usize,
}

/// The size of each of `k` shards that together hold `len` bytes.
pub open spec fn split_size(len: int, k: int) -> int {
    (len + k - 1) / k
}

/// Shard `i` of a byte string cut into shards of `size` bytes, with zeros behind its end.
pub open spec fn split_shard(data: Seq<u8>, size: int, i: int) -> Seq<u8> {
    Seq::new(
        size as nat,
        |j: int|
            if i * size + j < data.len() {
                data[i * size + j]
            } else {
                0u8
            },
    )
}

/// A byte string cut into `k` shards.
pub open spec fn split_shards(data: Seq<u8>, k: int) -> Seq<Seq<u8>> {
    Seq::new(k as nat, |i: int| split_shard(data, split_size(data.len() as int, k), i))
}

/// The bytes of the shards that are present, one after the other.
pub open spec fn concatenated(shards: Seq<Option<Seq<u8>>>) -> Seq<u8>
    decreases shards.len(),
{
    if shards.len() == 0 {
        Seq::empty()
    } else {
        concatenated(shards.drop_last()) + match shards.last() {
            Some(s) => s,
            None => Seq::empty(),
        }
    }
}

/// At most the first `n` items.
pub open spec fn at_most<T>(items: Seq<T>, n: int) -> Seq<T> {
    if n < items.len() {
        items.take(n)
    } else {
        items
    }
}

/// The first `k` shards merged, and cut to `original_len` bytes.
pub open spec fn merged(shards: Seq<Option<Seq<u8>>>, original_len: int, k: int) -> Seq<u8> {
    at_most(concatenated(at_most(shards, k)), original_len)
}

impl ErasureCoder {
    /// The coder was made by `new`: its codec exists.
    pub open spec fn valid(self) -> bool {
        codec_exists(self.data_shards as int, self.parity_shards as int)
    }

    /// The text of the refusal to encode.
    pub open spec fn encode_error(self, shards: Seq<Seq<u8>>) -> Option<Seq<char>> {
        let total = self.data_shards + self.parity_shards;
        if shards.len() != total {
            Some("expected "@ + decimal(total as nat) + " shards, got "@ + decimal(shards.len()))
        } else {
            encode_refusal(self.data_shards as int, self.parity_shards as int, shards)
        }
    }

    /// The text of the refusal to reconstruct.
    pub open spec fn reconstruct_error(self, shards: Seq<Option<Seq<u8>>>) -> Option<Seq<char>> {
        if present_count(shards) < self.data_shards {
            Some(
                "need "@ + decimal(self.data_shards as nat) + " shards to reconstruct, only "@
                    + decimal(present_count(shards)) + " available"@,
            )
        } else {
            rebuild_refusal(self.data_shards as int, self.parity_shards as int, shards)
        }
    }

    /// What encoding makes of the shards `before`: it reports `r` and leaves `after`. On
    /// success the data shards are kept and their parity shards stand behind them, all of
    /// one length; on a refusal nothing is touched.
    pub open spec fn encode_outcome(
        self,
        before: Seq<Seq<u8>>,
        r: Result<(), DistError>,
        after: Seq<Seq<u8>>,
    ) -> bool {
        let k = self.data_shards as int;
        let m = self.parity_shards as int;
        match r {
            Ok(()) => {
                &&& self.encode_error(before) is None
                &&& after == codeword(k, m, before.take(k))
                &&& after.len() == k + m
                &&& forall|i: int|
                    0 <= i < k + m ==> (#[trigger] after[i]).len() == before[0].len()
            },
            Err(DistError::ErasureError(text)) => {
                &&& self.encode_error(before) == Some(text@)
                &&& after == before
            },
            Err(_) => false,
        }
    }

    /// What reconstruction makes of the shards `before`: it reports `r` and leaves `after`.
    /// On success all shards are there, those that were present as they were, and if these
    /// belong to one codeword, all shards are those of that codeword; on a refusal nothing
    /// is touched.
    pub open spec fn reconstruct_outcome(
        self,
        before: Seq<Option<Seq<u8>>>,
        r: Result<(), DistError>,
        after: Seq<Option<Seq<u8>>>,
    ) -> bool {
        let k = self.data_shards as int;
        let m = self.parity_shards as int;
        match r {
            Ok(()) => {
                let rebuilt = rs_rebuilt(k as nat, m as nat, before);
                &&& self.reconstruct_error(before) is None
                &&& after == all_present(rebuilt)
                &&& rebuilt.len() == k + m
                &&& forall|i: int|
                    0 <= i < k + m ==> (#[trigger] rebuilt[i]).len() == rebuilt[0].len()
                &&& forall|i: int|
                    0 <= i < before.len() && before[i] is Some ==> before[i] == Some(
                        #[trigger] rebuilt[i],
                    )
                &&& forall|data: Seq<Seq<u8>>| #[trigger]
                    agrees_with(before, k, m, data) ==> rebuilt == codeword(k, m, data)
            },
            Err(DistError::ErasureError(text)) => {
                &&& self.reconstruct_error(before) == Some(text@)
                &&& after == before
            },
            Err(_) => false,
        }
    }

    /// A coder for `data_shards` data shards and `parity_shards` parity shards; at least one
    /// of each, at most 256 in all.
    pub fn new(data_shards: usize, parity_shards: usize) -> (r: Result<Self, DistError>)
        requires
            data_shards + parity_shards <= usize::MAX,
        ensures
            match r {
                Ok(coder) => {
                    &&& codec_exists(data_shards as int, parity_shards as int)
                    &&& coder.valid()
                    &&& coder.data_shards == data_shards
                    &&& coder.parity_shards == parity_shards
                },
                Err(DistError::ErasureError(text)) => codec_refusal(
                    data_shards as int,
                    parity_shards as int,
                ) == Some(text@),
                Err(_) => false,
            },
    {
        match rs_check(data_shards, parity_shards) {
            Ok(()) => Ok(ErasureCoder { data_shards, parity_shards }),
            Err(text) => Err(DistError::ErasureError(text)),
        }
    }

    /// The number of shards in all.
    pub fn total_shards(&self) -> (r: usize)
        requires
            self.data_shards + self.parity_shards <= usize::MAX,
        ensures
            r == self.data_shards + self.parity_shards,
    {
        self.data_shards + self.parity_shards
    }

    /// Fills the parity shards. The first `data_shards` shards are the data; the others are
    /// overwritten.
    pub fn encode(&self, shards: &mut Vec<Vec<u8>>) -> (r: Result<(), DistError>)
        requires
            self.valid(),
        ensures
            self.encode_outcome(shard_bytes(old(shards)@), r, shard_bytes(final(shards)@)),
    {
        let total: usize = self.total_shards();
        if shards.len() != total {
            let mut text = String::new();
            text.append("expected ");
            push_decimal(&mut text, total as u64);
            text.append(" shards, got ");
            push_decimal(&mut text, shards.len() as u64);
            assert(text@ =~= "expected "@ + decimal(total as nat) + " shards, got "@ + decimal(
                shards@.len(),
            ));
            return Err(DistError::ErasureError(text));
        }
        let ghost before = shard_bytes(shards@);
        match rs_encode(self.data_shards, self.parity_shards, shards) {
            Ok(()) => {
                proof {
                    assert(shard_bytes(shards@).len() == total);
                    assert forall|i: int| 0 <= i < total implies (
                    #[trigger] shard_bytes(shards@)[i]).len() == before[0].len() by {
                        if i < self.data_shards {
                            assert(before.take(self.data_shards as int)[i] == before[i]);
                            assert(before[i].len() == before[0].len());
                        } else {
                            let parity = rs_parity(
                                self.data_shards as nat,
                                self.parity_shards as nat,
                                before.take(self.data_shards as int),
                            );
                            assert(parity[i - self.data_shards].len() == before[0].len());
                        }
                    }
                }
                Ok(())
            },
            Err(text) => Err(DistError::ErasureError(text)),
        }
    }

    /// Fills the missing shards from those that are present; at least `data_shards` must be.
    pub fn reconstruct(&self, shards: &mut Vec<Option<Vec<u8>>>) -> (r: Result<(), DistError>)
        requires
            self.valid(),
        ensures
            self.reconstruct_outcome(
                present_bytes(old(shards)@),
                r,
                present_bytes(final(shards)@),
            ),
    {
        let present: usize = count_present(shards);
        if present < self.data_shards {
            let mut text = String::new();
            text.append("need ");
            push_decimal(&mut text, self.data_shards as u64);
            text.append(" shards to reconstruct, only ");
            push_decimal(&mut text, present as u64);
            text.append(" available");
            assert(text@ =~= "need "@ + decimal(self.data_shards as nat)
                + " shards to reconstruct, only "@ + decimal(present as nat) + " available"@);
            return Err(DistError::ErasureError(text));
        }
        match rs_rebuild(self.data_shards, self.parity_shards, shards) {
            Ok(()) => Ok(()),
            Err(text) => Err(DistError::ErasureError(text)),
        }
    }

    /// Cuts a byte string into `data_shards` shards of equal size, with zeros behind its end.
    pub fn split_into_shards(&self, data: &[u8]) -> (r: Vec<Vec<u8>>)
        requires
            self.data_shards >= 1,
        ensures
            shard_bytes(r@) == split_shards(data@, self.data_shards as int),
    {
        let k: usize = self.data_shards;
        let len: usize = data.len();
        proof {
            lemma_rounded_up(len as int, k as int);
        }
        let size: usize = if len % k > 0 {
            len / k + 1
        } else {
            len / k
        };
        let mut shards: Vec<Vec<u8>> = Vec::new();
        let mut pos: usize = 0;
        while shards.len() < k
            invariant
                len == data@.len(),
                size == split_size(len as int, k as int),
                k >= 1,
                shards@.len() <= k,
                pos <= len,
                pos == shards@.len() * size || (pos == len && shards@.len() * size >= len),
                shard_bytes(shards@) == split_shards(data@, k as int).take(shards@.len() as int),
            decreases k - shards@.len(),
        {
            let ghost i = shards@.len() as int;
            assert((i + 1) * size == i * size + size) by (nonlinear_arith);
            let take: usize = if size <= len - pos {
                size
            } else {
                len - pos
            };
            let mut shard: Vec<u8> = Vec::new();
            shard.extend_from_slice(&data[pos..pos + take]);
            shard.resize(size, 0);
            assert(shard@ =~= split_shard(data@, size as int, i)) by {
                assert(shard@.len() == size);
                assert(shard@.subrange(0, take as int) =~= data@.subrange(
                    pos as int,
                    pos + take,
                ));
                assert forall|j: int| 0 <= j < size implies #[trigger] shard@[j] == split_shard(
                    data@,
                    size as int,
                    i,
                )[j] by {
                    if j < take {
                        assert(shard@.subrange(0, take as int)[j] == shard@[j]);
                        assert(data@.subrange(pos as int, pos + take)[j] == data@[pos + j]);
                    }
                }
            }
            shards.push(shard);
            pos = pos + take;
            assert(shard_bytes(shards@) =~= split_shards(data@, k as int).take(
                shards@.len() as int,
            ));
        }
        assert(shard_bytes(shards@) =~= split_shards(data@, k as int));
        shards
    }

    /// Merges the first `k` shards into one byte string of at most `original_len` bytes. All
    /// of them together fit in memory.
    pub fn merge_shards(shards: &[Option<Vec<u8>>], original_len: usize, k: usize) -> (r: Vec<u8>)
        ensures
            r@ == merged(present_bytes(shards@), original_len as int, k as int),
            concatenated(at_most(present_bytes(shards@), k as int)).len() <= usize::MAX,
    {
        let mut out: Vec<u8> = Vec::new();
        let n: usize = if k < shards.len() {
            k
        } else {
            shards.len()
        };
        let ghost views = present_bytes(shards@);
        let mut i: usize = 0;
        assert(views.take(0) =~= Seq::empty());
        while i < n
            invariant
                i <= n <= shards@.len(),
                views == present_bytes(shards@),
                out@ == concatenated(views.take(i as int)),
            decreases n - i,
        {
            assert(views.take(i + 1).drop_last() =~= views.take(i as int));
            let ghost before = out@;
            match &shards[i] {
                Some(s) => {
                    out.extend_from_slice(s.as_slice());
                    assert(out@ =~= before + s@);
                    assert(views[i as int] == Some(s@));
                },
                None => {
                    assert(views[i as int] is None);
                    assert(out@ =~= before + Seq::<u8>::empty());
                },
            }
            i = i + 1;
        }
        assert(views.take(n as int) =~= at_most(views, k as int));
        assert(out.len() <= usize::MAX);
        out.truncate(original_len);
        assert(out@ =~= merged(views, original_len as int, k as int));
        out
    }
}

fn count_present(shards: &Vec<Option<Vec<u8>>>) -> (r: usize)
    ensures
        r == present_count(present_bytes(shards@)),
{
    let mut count: usize = 0;
    let mut i: usize = 0;
    let ghost views = present_bytes(shards@);
    assert(views.take(0) =~= Seq::empty());
    while i < shards.len()
        invariant
            i <= shards@.len(),
            count <= i,
            views == present_bytes(shards@),
            count == present_count(views.take(i as int)),
        decreases shards@.len() - i,
    {
        assert(views.take(i + 1).drop_last() =~= views.take(i as int));
        assert(views.take(i + 1).last() == views[i as int]);
        if shards[i].is_some() {
            count = count + 1;
        }
        i = i + 1;
    }
    assert(views.take(i as int) =~= views);
    count
}

/// Present shards that all have one length, other than 0, are free of faults.
pub proof fn lemma_no_fault(shards: Seq<Option<Seq<u8>>>, i: int, seen: Option<nat>, len: nat)
    requires
        0 <= i <= shards.len(),
        len > 0,
        seen is Some ==> seen->0 == len,
        forall|j: int|
            0 <= j < shards.len() && (#[trigger] shards[j]) is Some ==> shards[j]->0.len() == len,
    ensures
        present_fault(shards, i, seen) is None,
    decreases shards.len() - i,
{
    if i < shards.len() {
        match shards[i] {
            None => lemma_no_fault(shards, i + 1, seen, len),
            Some(s) => lemma_no_fault(shards, i + 1, Some(s.len()), len),
        }
    }
}

/// Any `k` of the `k + m` shards that encoding gave suffice: if at least `k` shards are
/// present and they are those of the encoded data, reconstruction succeeds and gives back
/// every shard, the data shards first.
pub proof fn any_k_shards_suffice(
    coder: ErasureCoder,
    given: Seq<Seq<u8>>,
    encoded: Result<(), DistError>,
    sent: Seq<Seq<u8>>,
    received: Seq<Option<Seq<u8>>>,
    r: Result<(), DistError>,
    recovered: Seq<Option<Seq<u8>>>,
)
    requires
        coder.valid(),
        encoded is Ok,
        coder.encode_outcome(given, encoded, sent),
        received.len() == sent.len(),
        forall|i: int|
            0 <= i < received.len() && (#[trigger] received[i]) is Some ==> received[i] == Some(
                sent[i],
            ),
        present_count(received) >= coder.data_shards,
        coder.reconstruct_outcome(received, r, recovered),
    ensures
        r is Ok,
        recovered == all_present(sent),
        sent.take(coder.data_shards as int) == given.take(coder.data_shards as int),
{
    let k = coder.data_shards as int;
    let m = coder.parity_shards as int;
    let data = given.take(k);
    assert(sent == codeword(k, m, data));
    assert(sent.take(k) =~= data);
    assert forall|i: int| 0 <= i < k implies (#[trigger] data[i]).len() == data[0].len() by {
        assert(data[i] == sent[i]);
        assert(data[0] == sent[0]);
    }
    assert(agrees_with(received, k, m, data));
    assert forall|j: int|
        0 <= j < received.len() && (#[trigger] received[j]) is Some implies received[j]->0.len()
        == given[0].len() by {
        assert(sent[j].len() == given[0].len());
    }
    lemma_no_fault(received, 0, None, given[0].len());
}

proof fn lemma_concatenated_split(data: Seq<u8>, size: int, shards: Seq<Option<Seq<u8>>>, n: int)
    requires
        size >= 0,
        0 <= n <= shards.len(),
        forall|i: int|
            0 <= i < shards.len() ==> #[trigger] shards[i] == Some(split_shard(data, size, i)),
    ensures
        concatenated(shards.take(n)) == Seq::new(
            (n * size) as nat,
            |p: int|
                if p < data.len() {
                    data[p]
                } else {
                    0u8
                },
        ),
    decreases n,
{
    let whole = |p: int|
        if p < data.len() {
            data[p]
        } else {
            0u8
        };
    assert(n * size >= 0) by (nonlinear_arith)
        requires
            n >= 0,
            size >= 0,
    ;
    if n == 0 {
        assert(shards.take(0) =~= Seq::empty());
        assert(n * size == 0) by (nonlinear_arith)
            requires
                n == 0,
        ;
        assert(concatenated(shards.take(n)) =~= Seq::new((n * size) as nat, whole));
    } else {
        lemma_concatenated_split(data, size, shards, n - 1);
        assert(shards.take(n).drop_last() =~= shards.take(n - 1));
        assert(shards.take(n).last() == shards[n - 1]);
        assert((n - 1) * size + size == n * size) by (nonlinear_arith);
        assert((n - 1) * size >= 0) by (nonlinear_arith)
            requires
                n >= 1,
                size >= 0,
        ;
        assert(concatenated(shards.take(n)) =~= Seq::new((n * size) as nat, whole));
    }
}

/// Splitting a byte string and merging the shards gives it back, whatever shards follow
/// the data shards: only the first `k` count, and the zeros behind the end are cut off.
pub proof fn split_then_merge(data: Seq<u8>, k: int, parity: Seq<Option<Seq<u8>>>)
    requires
        k >= 1,
    ensures
        merged(all_present(split_shards(data, k)) + parity, data.len() as int, k) == data,
{
    let size = split_size(data.len() as int, k);
    let shards = all_present(split_shards(data, k));
    let x = data.len() + k - 1;
    assert(size >= 0 && k * size >= data.len()) by (nonlinear_arith)
        requires
            size == x / k,
            x == data.len() + k - 1,
            k >= 1,
    ;
    lemma_concatenated_split(data, size, shards, k);
    assert((shards + parity).take(k) =~= shards.take(k));
    assert(at_most(shards + parity, k) =~= (shards + parity).take(k));
    assert(merged(shards + parity, data.len() as int, k) =~= data);
}

} // verus!
