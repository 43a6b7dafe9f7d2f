//! Access to the Reed-Solomon codec over GF(2^8) of the `reed-solomon-erasure` crate.

use reed_solomon_erasure::galois_8::ReedSolomon;
use vstd::prelude::*;

verus! {

/// The parity shards that the codec with `k` data shards and `m` parity shards computes.
pub uninterp spec fn rs_parity(k: nat, m: nat, data: Seq<Seq<u8>>) -> Seq<Seq<u8>>;

/// All shards, as the codec with `k` data shards and `m` parity shards rebuilds them from
/// those that are present.
pub uninterp spec fn rs_rebuilt(k: nat, m: nat, shards: Seq<Option<Seq<u8>>>) -> Seq<Seq<u8>>;

/// The bytes of each shard.
pub open spec fn shard_bytes(shards: Seq<Vec<u8>>) -> Seq<Seq<u8>> {
    shards.map_values(|s: Vec<u8>| s@)
}

/// The bytes of each shard that is present.
pub open spec fn present_bytes(shards: Seq<Option<Vec<u8>>>) -> Seq<Option<Seq<u8>>> {
    shards.map_values(
        |s: Option<Vec<u8>>|
            match s {
                Some(v) => Some(v@),
                None => None,
            },
    )
}

/// All shards present.
pub open spec fn all_present(shards: Seq<Seq<u8>>) -> Seq<Option<Seq<u8>>> {
    shards.map_values(|s: Seq<u8>| Some(s))
}

/// The codec exists: there are data and parity shards, no more than the field has elements.
pub open spec fn codec_exists(k: int, m: int) -> bool {
    1 <= k && 1 <= m && k + m <= 256
}

/// Why there is no such codec.
pub open spec fn codec_refusal(k: int, m: int) -> Option<Seq<char>> {
    if k == 0 {
        Some("The number of provided data shards is smaller than the one in codec"@)
    } else if m == 0 {
        Some("The number of provided parity shards is smaller than the one in codec"@)
    } else if k + m > 256 {
        Some("The number of provided shards is greater than the one in codec"@)
    } else {
        None
    }
}

/// Why the codec refuses to encode: the number of shards, an empty first shard, or shards
/// of different lengths.
pub open spec fn encode_refusal(k: int, m: int, shards: Seq<Seq<u8>>) -> Option<Seq<char>> {
    if shards.len() < k + m {
        Some("The number of provided shards is smaller than the one in codec"@)
    } else if shards.len() > k + m {
        Some("The number of provided shards is greater than the one in codec"@)
    } else if shards[0].len() == 0 {
        Some("The first shard provided is of zero length"@)
    } else if exists|i: int|
        0 <= i < shards.len() && (#[trigger] shards[i]).len() != shards[0].len() {
        Some("At least one of the provided shards is not of the correct size"@)
    } else {
        None
    }
}

/// The first fault among the shards that are present, from shard `i` on; `len` is the
/// length of the last present shard before it.
pub open spec fn present_fault(shards: Seq<Option<Seq<u8>>>, i: int, len: Option<nat>) -> Option<
    Seq<char>,
>
    decreases shards.len() - i,
{
    if i < 0 || i >= shards.len() {
        None
    } else {
        match shards[i] {
            None => present_fault(shards, i + 1, len),
            Some(s) => if s.len() == 0 {
                Some("The first shard provided is of zero length"@)
            } else if len is Some && len->0 != s.len() {
                Some("At least one of the provided shards is not of the correct size"@)
            } else {
                present_fault(shards, i + 1, Some(s.len()))
            },
        }
    }
}

/// How many shards are present.
pub open spec fn present_count(shards: Seq<Option<Seq<u8>>>) -> nat
    decreases shards.len(),
{
    if shards.len() == 0 {
        0
    } else {
        present_count(shards.drop_last()) + if shards.last() is Some {
            1nat
        } else {
            0nat
        }
    }
}

/// Why the codec refuses to rebuild the missing shards.
pub open spec fn rebuild_refusal(k: int, m: int, shards: Seq<Option<Seq<u8>>>) -> Option<
    Seq<char>,
> {
    if shards.len() < k + m {
        Some("The number of provided shards is smaller than the one in codec"@)
    } else if shards.len() > k + m {
        Some("The number of provided shards is greater than the one in codec"@)
    } else if present_fault(shards, 0, None) is Some {
        present_fault(shards, 0, None)
    } else if present_count(shards) < k {
        Some(
            "The number of shards present is smaller than number of parity shards, cannot reconstruct missing shards"@,
        )
    } else {
        None
    }
}

/// The data shards with their parity shards behind them.
pub open spec fn codeword(k: int, m: int, data: Seq<Seq<u8>>) -> Seq<Seq<u8>> {
    data + rs_parity(k as nat, m as nat, data)
}

/// The shards that are present are those of the codeword of `data`.
pub open spec fn agrees_with(
    shards: Seq<Option<Seq<u8>>>,
    k: int,
    m: int,
    data: Seq<Seq<u8>>,
) -> bool {
    &&& data.len() == k
    &&& data[0].len() > 0
    &&& forall|i: int| 0 <= i < k ==> (#[trigger] data[i]).len() == data[0].len()
    &&& shards.len() == k + m
    &&& forall|i: int|
        0 <= i < shards.len() && shards[i] is Some ==> #[trigger] shards[i] == Some(
            codeword(k, m, data)[i],
        )
}

/// Calls `ReedSolomon::new`. Trusted: it fails exactly when there are no data shards, no
/// parity shards, or more than 256 shards in all, with the crate's text for that.
#[verifier::external_body]
pub(crate) fn rs_check(k: usize, m: usize) -> (r: Result<(), String>)
    requires
        k + m <= usize::MAX,
    ensures
        match r {
            Ok(()) => codec_refusal(k as int, m as int) is None,
            Err(text) => codec_refusal(k as int, m as int) == Some(text@),
        },
{
    ReedSolomon::new(k, m).map(|_| ()).map_err(|e| e.to_string())
}

/// Calls `ReedSolomon::encode`. Trusted: it refuses a wrong number of shards, an empty
/// first shard and shards of different lengths, with the crate's text for that and the
/// shards unchanged; otherwise it leaves the data shards and overwrites the parity shards
/// with bytes that depend on the data shards alone, of the same length.
#[verifier::external_body]
pub(crate) fn rs_encode(k: usize, m: usize, shards: &mut Vec<Vec<u8>>) -> (r: Result<(), String>)
    requires
        codec_exists(k as int, m as int),
    ensures
        match r {
            Ok(()) => {
                let before = shard_bytes(old(shards)@);
                let parity = rs_parity(k as nat, m as nat, before.take(k as int));
                &&& encode_refusal(k as int, m as int, before) is None
                &&& shard_bytes(final(shards)@) == before.take(k as int) + parity
                &&& parity.len() == m
                &&& forall|i: int|
                    0 <= i < m ==> (#[trigger] parity[i]).len() == before[0].len()
            },
            Err(text) => {
                &&& encode_refusal(k as int, m as int, shard_bytes(old(shards)@)) == Some(text@)
                &&& shard_bytes(final(shards)@) == shard_bytes(old(shards)@)
            },
        },
{
    ReedSolomon::new(k, m).and_then(|rs| rs.encode(shards)).map_err(|e| e.to_string())
}

/// Calls `ReedSolomon::reconstruct`. Trusted: it refuses a wrong number of shards, an empty
/// shard, shards of different lengths and fewer than `k` present shards, with the crate's
/// text for that and the shards unchanged; otherwise it keeps the present shards and fills
/// the others to the same length, with bytes that depend on the present shards alone. If the
/// present shards are shards of one codeword, all shards are then those of that codeword.
#[verifier::external_body]
pub(crate) fn rs_rebuild(k: usize, m: usize, shards: &mut Vec<Option<Vec<u8>>>) -> (r: Result<
    (),
    String,
>)
    requires
        codec_exists(k as int, m as int),
    ensures
        match r {
            Ok(()) => {
                let before = present_bytes(old(shards)@);
                let rebuilt = rs_rebuilt(k as nat, m as nat, before);
                &&& rebuild_refusal(k as int, m as int, before) is None
                &&& present_bytes(final(shards)@) == all_present(rebuilt)
                &&& rebuilt.len() == k + m
                &&& forall|i: int|
                    0 <= i < k + m ==> (#[trigger] rebuilt[i]).len() == rebuilt[0].len()
                &&& forall|i: int|
                    0 <= i < before.len() && before[i] is Some ==> before[i] == Some(
                        #[trigger] rebuilt[i],
                    )
                &&& forall|data: Seq<Seq<u8>>| #[trigger]
                    agrees_with(before, k as int, m as int, data) ==> rebuilt == codeword(
                        k as int,
                        m as int,
                        data,
                    )
            },
            Err(text) => {
                &&& rebuild_refusal(k as int, m as int, present_bytes(old(shards)@)) == Some(text@)
                &&& present_bytes(final(shards)@) == present_bytes(old(shards)@)
            },
        },
{
    ReedSolomon::new(k, m).and_then(|rs| rs.reconstruct(shards)).map_err(|e| e.to_string())
}

} // verus!
