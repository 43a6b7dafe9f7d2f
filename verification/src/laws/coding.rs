//! Laws of erasure coding and of stripes.

use vstd::prelude::*;

use crate::codec::{
    all_present, codec_exists, codeword, present_bytes, present_count,
    present_fault, rs_parity, rs_rebuilt, shard_bytes,
};
use crate::erasure::{
    any_k_shards_suffice, at_most, concatenated, lemma_no_fault, merged, split_shards, split_size,
    split_then_merge, ErasureCoder,
};
use crate::error::DistError;
use crate::stripes::{
    build_ec_stripes, built_stripe_is_reconstructed, chunk_contents,
    lemma_concatenated_block, lemma_count_positive, longest, reconstruct_stripe, stripe_data,
    window_at, window_total, EcStripe, TailConfig,
};
use crate::text::decimal;

verus! {

/// There is a coder exactly for at least one data shard, at least one parity shard, and no
/// more than 256 shards in all; it has as many of both as were asked for.
pub proof fn coder_has_shards_asked_for(
    data_shards: usize,
    parity_shards: usize,
    r: Result<ErasureCoder, DistError>,
)
    requires
        call_ensures(ErasureCoder::new, (data_shards, parity_shards), r),
    ensures
        r is Ok <==> 1 <= data_shards && 1 <= parity_shards && data_shards + parity_shards <= 256,
        r is Ok ==> r->Ok_0.data_shards == data_shards && r->Ok_0.parity_shards == parity_shards,
        r is Err ==> r->Err_0 is ErasureError,
{
}

/// Encoding succeeds exactly on as many shards as the coder has, all of one length other than
/// 0. It leaves the data shards as they are, and puts behind them parity shards of that length
/// that depend on the data shards alone. If it fails, nothing changes.
pub proof fn encoding_keeps_data(
    c: &ErasureCoder,
    shards: &mut Vec<Vec<u8>>,
    r: Result<(), DistError>,
)
    requires
        call_ensures(ErasureCoder::encode, (c, shards), r),
        1 <= c.data_shards,
        1 <= c.parity_shards,
    ensures
        r is Ok <==> {
            &&& old(shards)@.len() == c.data_shards + c.parity_shards
            &&& old(shards)@[0]@.len() > 0
            &&& forall|i: int|
                0 <= i < old(shards)@.len() ==> (#[trigger] old(shards)@[i])@.len()
                    == old(shards)@[0]@.len()
        },
        r is Ok ==> {
            &&& final(shards)@.len() == old(shards)@.len()
            &&& forall|i: int|
                0 <= i < c.data_shards ==> (#[trigger] final(shards)@[i])@ == old(shards)@[i]@
            &&& forall|i: int|
                0 <= i < final(shards)@.len() ==> (#[trigger] final(shards)@[i])@.len()
                    == old(shards)@[0]@.len()
            &&& forall|i: int|
                c.data_shards <= i < final(shards)@.len() ==> (#[trigger] final(shards)@[i])@
                    == rs_parity(
                    c.data_shards as nat,
                    c.parity_shards as nat,
                    Seq::new(c.data_shards as nat, |j: int| old(shards)@[j]@),
                )[i - c.data_shards]
        },
        r is Err ==> {
            &&& r->Err_0 is ErasureError
            &&& old(shards)@.len() != c.data_shards + c.parity_shards
                ==> r->Err_0->ErasureError_0@ == "expected "@ + decimal(
                (c.data_shards + c.parity_shards) as nat,
            ) + " shards, got "@ + decimal(old(shards)@.len())
            &&& final(shards)@.len() == old(shards)@.len()
            &&& forall|i: int|
                0 <= i < old(shards)@.len() ==> (#[trigger] final(shards)@[i])@
                    == old(shards)@[i]@
        },
{
    let before = shard_bytes(old(shards)@);
    let after = shard_bytes(final(shards)@);
    assert(before.len() == old(shards)@.len());
    assert(after.len() == final(shards)@.len());
    assert forall|i: int| 0 <= i < before.len() implies #[trigger] before[i]
        == old(shards)@[i]@ by {}
    assert forall|i: int| 0 <= i < after.len() implies #[trigger] after[i]
        == final(shards)@[i]@ by {}
    let same = forall|i: int|
        0 <= i < old(shards)@.len() ==> (#[trigger] old(shards)@[i])@.len()
            == old(shards)@[0]@.len();
    if same {
        assert forall|i: int| 0 <= i < before.len() implies (#[trigger] before[i]).len()
            == before[0].len() by {
            assert(old(shards)@[i]@.len() == old(shards)@[0]@.len());
        }
    }
    if r is Ok {
        let k = c.data_shards as int;
        let data = Seq::new(k as nat, |j: int| old(shards)@[j]@);
        assert(before.take(k) =~= data);
        assert forall|i: int| 0 <= i < old(shards)@.len() implies (
        #[trigger] old(shards)@[i])@.len() == old(shards)@[0]@.len() by {
            assert(before[i].len() == before[0].len());
        }
        assert forall|i: int| 0 <= i < final(shards)@.len() implies (
        #[trigger] final(shards)@[i])@.len() == old(shards)@[0]@.len() by {
            assert(after[i].len() == before[0].len());
        }
        assert forall|i: int| 0 <= i < k implies (#[trigger] final(shards)@[i])@
            == old(shards)@[i]@ by {
            assert(after[i] == before.take(k)[i]);
        }
        assert forall|i: int| k <= i < final(shards)@.len() implies (
        #[trigger] final(shards)@[i])@ == rs_parity(
            c.data_shards as nat,
            c.parity_shards as nat,
            Seq::new(c.data_shards as nat, |j: int| old(shards)@[j]@),
        )[i - k] by {
            assert(after[i] == codeword(k, c.parity_shards as int, data)[i]);
        }
    } else {
        assert forall|i: int| 0 <= i < old(shards)@.len() implies (#[trigger] final(shards)@[i])@
            == old(shards)@[i]@ by {
            assert(after[i] == before[i]);
        }
    }
}

proof fn lemma_present_places(shards: Seq<Option<Seq<u8>>>)
    ensures
        Set::new(|i: int| 0 <= i < shards.len() && shards[i] is Some).finite(),
        present_count(shards) == Set::new(
            |i: int| 0 <= i < shards.len() && shards[i] is Some,
        ).len(),
    decreases shards.len(),
{
    let places = Set::new(|i: int| 0 <= i < shards.len() && shards[i] is Some);
    if shards.len() == 0 {
        assert(places =~= Set::empty());
    } else {
        let front = shards.drop_last();
        let last = shards.len() - 1;
        let fewer = Set::new(|i: int| 0 <= i < front.len() && front[i] is Some);
        lemma_present_places(front);
        if shards[last] is Some {
            assert(places =~= fewer.insert(last));
        } else {
            assert(places =~= fewer);
        }
    }
}

proof fn lemma_faultless(shards: Seq<Option<Seq<u8>>>, i: int, seen: Option<nat>, j: int)
    requires
        0 <= i <= j < shards.len(),
        present_fault(shards, i, seen) is None,
        shards[j] is Some,
    ensures
        shards[j]->0.len() > 0,
        seen is Some ==> shards[j]->0.len() == seen->0,
    decreases shards.len() - i,
{
    match shards[i] {
        None => {
            lemma_faultless(shards, i + 1, seen, j);
        },
        Some(s) => {
            if j > i {
                lemma_faultless(shards, i + 1, Some(s.len()), j);
            }
        },
    }
}

proof fn lemma_faultless_pair(
    shards: Seq<Option<Seq<u8>>>,
    i: int,
    seen: Option<nat>,
    a: int,
    b: int,
)
    requires
        0 <= i <= a <= b < shards.len(),
        present_fault(shards, i, seen) is None,
        shards[a] is Some,
        shards[b] is Some,
    ensures
        shards[a]->0.len() == shards[b]->0.len(),
    decreases shards.len() - i,
{
    match shards[i] {
        None => {
            lemma_faultless_pair(shards, i + 1, seen, a, b);
        },
        Some(s) => {
            if a > i {
                lemma_faultless_pair(shards, i + 1, Some(s.len()), a, b);
            } else if b > i {
                lemma_faultless(shards, i + 1, Some(s.len()), b);
            }
        },
    }
}

/// Reconstruction succeeds exactly if the list has a place for every shard, at least as many
/// shards are present as there are data shards, and the present ones have one length other
/// than 0. It then fills all places, leaves the present shards as they are, and gives all of
/// them one length. If it fails, nothing changes.
pub proof fn reconstruction_fills_all_places(
    c: &ErasureCoder,
    shards: &mut Vec<Option<Vec<u8>>>,
    r: Result<(), DistError>,
)
    requires
        call_ensures(ErasureCoder::reconstruct, (c, shards), r),
        1 <= c.data_shards,
        1 <= c.parity_shards,
    ensures
        r is Ok <==> {
            &&& old(shards)@.len() == c.data_shards + c.parity_shards
            &&& Set::new(|i: int| 0 <= i < old(shards)@.len() && old(shards)@[i] is Some).len()
                >= c.data_shards
            &&& forall|i: int|
                0 <= i < old(shards)@.len() && (#[trigger] old(shards)@[i]) is Some
                    ==> old(shards)@[i]->0@.len() > 0
            &&& forall|i: int, j: int|
                0 <= i < j < old(shards)@.len() && (#[trigger] old(shards)@[i]) is Some && (
                #[trigger] old(shards)@[j]) is Some ==> old(shards)@[i]->0@.len()
                    == old(shards)@[j]->0@.len()
        },
        r is Ok ==> {
            &&& final(shards)@.len() == old(shards)@.len()
            &&& forall|i: int|
                0 <= i < final(shards)@.len() ==> (#[trigger] final(shards)@[i]) is Some
                    && final(shards)@[i]->0@.len() == final(shards)@[0]->0@.len()
            &&& forall|i: int|
                0 <= i < old(shards)@.len() && (#[trigger] old(shards)@[i]) is Some
                    ==> final(shards)@[i]->0@ == old(shards)@[i]->0@
        },
        r is Err ==> {
            &&& r->Err_0 is ErasureError
            &&& final(shards)@.len() == old(shards)@.len()
            &&& forall|i: int|
                0 <= i < old(shards)@.len() ==> ((#[trigger] final(shards)@[i]) is Some
                    <==> old(shards)@[i] is Some)
            &&& forall|i: int|
                0 <= i < old(shards)@.len() && (#[trigger] old(shards)@[i]) is Some
                    ==> final(shards)@[i]->0@ == old(shards)@[i]->0@
        },
{
    let before = present_bytes(old(shards)@);
    let after = present_bytes(final(shards)@);
    assert(before.len() == old(shards)@.len());
    assert(after.len() == final(shards)@.len());
    assert forall|i: int| 0 <= i < before.len() implies ((#[trigger] before[i]) is Some
        <==> old(shards)@[i] is Some) && (old(shards)@[i] is Some ==> before[i]->0
        == old(shards)@[i]->0@) by {}
    assert forall|i: int| 0 <= i < after.len() implies ((#[trigger] after[i]) is Some
        <==> final(shards)@[i] is Some) && (final(shards)@[i] is Some ==> after[i]->0
        == final(shards)@[i]->0@) by {}
    lemma_present_places(before);
    assert(Set::new(|i: int| 0 <= i < before.len() && before[i] is Some) =~= Set::new(
        |i: int| 0 <= i < old(shards)@.len() && old(shards)@[i] is Some,
    ));
    let proper = {
        &&& forall|i: int|
            0 <= i < old(shards)@.len() && (#[trigger] old(shards)@[i]) is Some
                ==> old(shards)@[i]->0@.len() > 0
        &&& forall|i: int, j: int|
            0 <= i < j < old(shards)@.len() && (#[trigger] old(shards)@[i]) is Some && (
            #[trigger] old(shards)@[j]) is Some ==> old(shards)@[i]->0@.len()
                == old(shards)@[j]->0@.len()
    };
    let enough = present_count(before) >= c.data_shards && before.len() == c.data_shards
        + c.parity_shards;
    if enough && proper {
        lemma_count_positive(before);
        let f = choose|j: int| 0 <= j < before.len() && (#[trigger] before[j]) is Some;
        assert forall|j: int| 0 <= j < before.len() && (#[trigger] before[j]) is Some implies
            before[j]->0.len() == before[f]->0.len() by {
            assert(old(shards)@[j] is Some && old(shards)@[f] is Some);
            if j < f {
                assert(old(shards)@[j]->0@.len() == old(shards)@[f]->0@.len());
            } else if f < j {
                assert(old(shards)@[f]->0@.len() == old(shards)@[j]->0@.len());
            }
        }
        assert(old(shards)@[f] is Some);
        lemma_no_fault(before, 0, None, before[f]->0.len());
        assert(c.reconstruct_error(before) is None);
    }
    if r is Ok {
        assert(present_fault(before, 0, None) is None);
        assert forall|i: int|
            0 <= i < old(shards)@.len() && (#[trigger] old(shards)@[i]) is Some implies
            old(shards)@[i]->0@.len() > 0 by {
            assert(before[i] is Some);
            lemma_faultless(before, 0, None, i);
        }
        assert forall|i: int, j: int|
            0 <= i < j < old(shards)@.len() && (#[trigger] old(shards)@[i]) is Some && (
            #[trigger] old(shards)@[j]) is Some implies
            old(shards)@[i]->0@.len()
            == old(shards)@[j]->0@.len() by {
            assert(before[i] is Some && before[j] is Some);
            lemma_faultless_pair(before, 0, None, i, j);
        }
        let rebuilt = rs_rebuilt(
            c.data_shards as nat,
            c.parity_shards as nat,
            before,
        );
        assert forall|i: int| 0 <= i < final(shards)@.len() implies (
        #[trigger] final(shards)@[i]) is Some && final(shards)@[i]->0@.len()
            == final(shards)@[0]->0@.len() by {
            assert(after[i] == Some(rebuilt[i]));
            assert(after[0] == Some(rebuilt[0]));
        }
        assert forall|i: int|
            0 <= i < old(shards)@.len() && (#[trigger] old(shards)@[i]) is Some implies
            final(shards)@[i]->0@ == old(shards)@[i]->0@ by {
            assert(before[i] is Some);
            assert(after[i] == Some(rebuilt[i]));
        }
    } else {
        assert forall|i: int| 0 <= i < old(shards)@.len() implies ((
        #[trigger] final(shards)@[i]) is Some <==> old(shards)@[i] is Some) by {
            assert(after[i] == before[i]);
        }
        assert forall|i: int|
            0 <= i < old(shards)@.len() && (#[trigger] old(shards)@[i]) is Some implies
            final(shards)@[i]->0@ == old(shards)@[i]->0@ by {
            assert(after[i] == before[i]);
        }
    }
}

/// What was encoded comes back from any shards that are as many as the data shards: they are
/// handed in where they belong, and reconstruction gives back every shard that was sent.
pub proof fn encoded_shards_come_back(
    c: &ErasureCoder,
    sent: &mut Vec<Vec<u8>>,
    got: &mut Vec<Option<Vec<u8>>>,
    r: Result<(), DistError>,
)
    requires
        1 <= c.data_shards,
        1 <= c.parity_shards,
        c.data_shards + c.parity_shards <= 256,
        call_ensures(ErasureCoder::encode, (c, sent), Ok(())),
        old(got)@.len() == final(sent)@.len(),
        forall|i: int|
            0 <= i < old(got)@.len() && (#[trigger] old(got)@[i]) is Some ==> old(got)@[i]->0@
                == final(sent)@[i]@,
        Set::new(|i: int| 0 <= i < old(got)@.len() && old(got)@[i] is Some).len()
            >= c.data_shards,
        call_ensures(ErasureCoder::reconstruct, (c, got), r),
    ensures
        r is Ok,
        final(got)@.len() == final(sent)@.len(),
        forall|i: int|
            0 <= i < final(sent)@.len() ==> (#[trigger] final(got)@[i]) is Some
                && final(got)@[i]->0@ == final(sent)@[i]@,
{
    let given = shard_bytes(old(sent)@);
    let code = shard_bytes(final(sent)@);
    let before = present_bytes(old(got)@);
    let after = present_bytes(final(got)@);
    assert(before.len() == old(got)@.len() && after.len() == final(got)@.len());
    assert(code.len() == final(sent)@.len());
    assert forall|i: int| 0 <= i < before.len() && (#[trigger] before[i]) is Some implies before[i]
        == Some(code[i]) by {
        assert(old(got)@[i] is Some);
        assert(code[i] == final(sent)@[i]@);
    }
    lemma_present_places(before);
    assert(Set::new(|i: int| 0 <= i < before.len() && before[i] is Some) =~= Set::new(
        |i: int| 0 <= i < old(got)@.len() && old(got)@[i] is Some,
    ));
    any_k_shards_suffice(*c, given, Ok(()), code, before, r, after);
    assert forall|i: int| 0 <= i < final(sent)@.len() implies (#[trigger] final(got)@[i]) is Some
        && final(got)@[i]->0@ == final(sent)@[i]@ by {
        assert(after[i] == all_present(code)[i]);
        assert(code[i] == final(sent)@[i]@);
    }
}

/// Data is split into as many shards as the coder has data shards, all of the length that it
/// takes to hold the data and no more; the data stands in them in order, with zeros behind.
pub proof fn split_shards_hold_data(c: &ErasureCoder, data: &[u8], r: Vec<Vec<u8>>, size: int)
    requires
        call_ensures(ErasureCoder::split_into_shards, (c, data), r),
        1 <= c.data_shards,
        size == r@[0]@.len(),
    ensures
        r@.len() == c.data_shards,
        size * c.data_shards >= data@.len(),
        data@.len() > (size - 1) * c.data_shards,
        forall|i: int| 0 <= i < r@.len() ==> (#[trigger] r@[i])@.len() == size,
        forall|i: int, j: int|
            0 <= i < r@.len() && 0 <= j < size ==> #[trigger] r@[i]@[j] == if i * size + j
                < data@.len() {
                data@[i * size + j]
            } else {
                0
            },
{
    let k = c.data_shards as int;
    let s = split_size(data@.len() as int, k);
    let views = shard_bytes(r@);
    assert(views.len() == r@.len());
    let x = data@.len() + k - 1;
    assert(s * k <= x < s * k + k && s >= 0) by (nonlinear_arith)
        requires
            s == x / k,
            k > 0,
            x >= 0,
    ;
    assert((s - 1) * k == s * k - k) by (nonlinear_arith);
    assert forall|i: int| 0 <= i < r@.len() implies (#[trigger] r@[i])@.len() == s by {
        assert(views[i] == r@[i]@);
    }
    assert(r@[0]@.len() == s);
    assert forall|i: int, j: int| 0 <= i < r@.len() && 0 <= j < size implies #[trigger] r@[i]@[j]
        == if i * size + j < data@.len() {
        data@[i * size + j]
    } else {
        0
    } by {
        assert(views[i] == r@[i]@);
        assert(views[i] == split_shards(data@, k)[i]);
    }
}

/// Data that was split and merged is the same, whatever stands behind its shards.
pub proof fn split_data_merges(
    c: &ErasureCoder,
    data: &[u8],
    s: Vec<Vec<u8>>,
    shards: &[Option<Vec<u8>>],
    len: usize,
    r: Vec<u8>,
)
    requires
        call_ensures(ErasureCoder::split_into_shards, (c, data), s),
        1 <= c.data_shards,
        shards@.len() >= c.data_shards,
        forall|i: int|
            0 <= i < c.data_shards ==> (#[trigger] shards@[i]) is Some && shards@[i]->0@
                == s@[i]@,
        len == data@.len(),
        call_ensures(ErasureCoder::merge_shards, (shards, len, c.data_shards), r),
    ensures
        r@ == data@,
{
    let k = c.data_shards as int;
    let views = present_bytes(shards@);
    assert(views.len() == shards@.len());
    let parity = views.skip(k);
    let wrapped = all_present(split_shards(data@, k));
    assert forall|i: int| 0 <= i < k implies #[trigger] views[i] == wrapped[i] by {
        assert(shards@[i] is Some);
        assert(shard_bytes(s@)[i] == s@[i]@);
    }
    assert(views =~= wrapped + parity);
    split_then_merge(data@, k, parity);
}

/// Merging takes the shards in order: none of them gives nothing; one more puts its bytes, if
/// it is present, behind the others; and the result is cut where it gets too long.
pub proof fn merging_appends_shards(
    shards: &[Option<Vec<u8>>],
    len: usize,
    k: usize,
    r: Vec<u8>,
    fewer: Vec<u8>,
    cut: usize,
    part: Vec<u8>,
)
    requires
        call_ensures(ErasureCoder::merge_shards, (shards, len, k), r),
        k > 0 ==> call_ensures(ErasureCoder::merge_shards, (shards, len, (k - 1) as usize), fewer),
        call_ensures(ErasureCoder::merge_shards, (shards, cut, k), part),
        cut <= len,
    ensures
        r@.len() <= len,
        k == 0 ==> r@.len() == 0,
        k > shards@.len() ==> r@ == fewer@,
        0 < k <= shards@.len() && shards@[k - 1] is None ==> r@ == fewer@,
        0 < k <= shards@.len() && shards@[k - 1] is Some ==> r@ == if fewer@.len() + shards@[k
            - 1]->0@.len() <= len {
            fewer@ + shards@[k - 1]->0@
        } else {
            (fewer@ + shards@[k - 1]->0@).take(len as int)
        },
        part@ == if cut < r@.len() {
            r@.take(cut as int)
        } else {
            r@
        },
{
    let views = present_bytes(shards@);
    assert(views.len() == shards@.len());
    if k == 0 {
        assert(at_most(views, 0) =~= Seq::empty());
    } else {
        if k <= shards@.len() {
            assert(at_most(views, k as int) =~= views.take(k as int));
            assert(at_most(views, k - 1) =~= views.take(k - 1));
            assert(views.take(k as int).drop_last() =~= views.take(k - 1));
            assert(views.take(k as int).last() == views[k - 1]);
            let whole = concatenated(views.take(k as int));
            let front = concatenated(views.take(k - 1));
            assert(r@ == at_most(whole, len as int));
            assert(fewer@ == at_most(front, len as int));
            if shards@[k - 1] is None {
                assert(whole =~= front);
            } else {
                assert(views[k - 1] == Some(shards@[k - 1]->0@));
                assert(whole == front + shards@[k - 1]->0@);
                if front.len() <= len {
                    assert(fewer@ =~= front);
                    assert(r@ =~= if fewer@.len() + shards@[k - 1]->0@.len() <= len {
                        fewer@ + shards@[k - 1]->0@
                    } else {
                        (fewer@ + shards@[k - 1]->0@).take(len as int)
                    });
                } else {
                    assert(fewer@ =~= front.take(len as int));
                    assert(r@ =~= whole.take(len as int));
                    assert(r@ =~= (fewer@ + shards@[k - 1]->0@).take(len as int));
                    assert(shards@[k - 1]->0@.len() == 0 ==> r@ =~= fewer@ + shards@[k - 1]->0@);
                }
            }
        } else {
            assert(at_most(views, k as int) =~= at_most(views, k - 1));
        }
    }
    let all = concatenated(at_most(views, k as int));
    assert(r@ == at_most(all, len as int));
    assert(part@ == at_most(all, cut as int));
    assert(part@ =~= if cut < r@.len() {
        r@.take(cut as int)
    } else {
        r@
    });
}

proof fn lemma_longest_is_there(chunks: Seq<(u32, Seq<u8>)>)
    ensures
        forall|i: int| 0 <= i < chunks.len() ==> (#[trigger] chunks[i]).1.len() <= longest(chunks),
        longest(chunks) > 0 ==> exists|i: int|
            0 <= i < chunks.len() && (#[trigger] chunks[i]).1.len() == longest(chunks),
    decreases chunks.len(),
{
    if chunks.len() > 0 {
        let front = chunks.drop_last();
        lemma_longest_is_there(front);
        assert forall|i: int| 0 <= i < chunks.len() implies (#[trigger] chunks[i]).1.len()
            <= longest(chunks) by {
            if i < front.len() {
                assert(front[i] == chunks[i]);
            }
        }
        if longest(front) < chunks.last().1.len() {
            assert(chunks[chunks.len() - 1].1.len() == longest(chunks));
        } else if longest(chunks) > 0 {
            let i = choose|i: int|
                0 <= i < front.len() && (#[trigger] front[i]).1.len() == longest(front);
            assert(chunks[i].1.len() == longest(chunks));
        }
    }
}

proof fn lemma_window_place(n: int, k: int, w: int)
    requires
        k >= 1,
        n >= 0,
        0 <= w < window_total(n, k),
    ensures
        0 <= w * k < n,
{
    assert(0 <= w * k < n) by (nonlinear_arith)
        requires
            k >= 1,
            n >= 0,
            0 <= w < (n + k - 1) / k,
    ;
}

/// Stripes hold the chunks in order, as many to a stripe as there are data shards: each chunk
/// with its index, at its place, from the start of its shard, with zeros behind it. A place
/// without a chunk holds zeros, and behind the data stands its parity. All shards of a stripe
/// are as long as its longest chunk.
pub proof fn stripes_hold_chunks_in_order(
    chunks: &[(u32, Vec<u8>)],
    cfg: &TailConfig,
    r: Result<Vec<EcStripe>, DistError>,
    w: int,
)
    requires
        call_ensures(build_ec_stripes, (chunks, cfg), r),
        r is Ok,
        0 <= w < r->Ok_0@.len(),
    ensures
        ({
            let k = cfg.data_shards as int;
            let m = cfg.parity_shards as int;
            let n = chunks@.len() as int;
            let stripe = r->Ok_0@[w];
            let first = w * k;
            &&& 0 <= first < n
            &&& stripe.chunk_indices@.len() == if k <= n - first {
                k
            } else {
                n - first
            }
            &&& stripe.shards@.len() == k + m
            &&& stripe.shard_size > 0
            &&& forall|i: int|
                0 <= i < k + m ==> (#[trigger] stripe.shards@[i])@.len() == stripe.shard_size
            &&& forall|i: int|
                0 <= i < stripe.chunk_indices@.len() ==> #[trigger] stripe.chunk_indices@[i]
                    == chunks@[first + i].0
            &&& forall|i: int, j: int|
                0 <= i < k && 0 <= j < stripe.shard_size ==> #[trigger] stripe.shards@[i]@[j]
                    == if first + i < n && j < chunks@[first + i].1@.len() {
                    chunks@[first + i].1@[j]
                } else {
                    0
                }
            &&& forall|i: int|
                first <= i < n && i < first + k ==> (#[trigger] chunks@[i]).1@.len()
                    <= stripe.shard_size
            &&& exists|i: int|
                first <= i < n && i < first + k && (#[trigger] chunks@[i]).1@.len()
                    == stripe.shard_size
            &&& forall|i: int|
                k <= i < k + m ==> (#[trigger] stripe.shards@[i])@ == rs_parity(
                    k as nat,
                    m as nat,
                    Seq::new(k as nat, |j: int| stripe.shards@[j]@),
                )[i - k]
        }),
{
    let k = cfg.data_shards as int;
    let m = cfg.parity_shards as int;
    let n = chunks@.len() as int;
    let stripe = r->Ok_0@[w];
    let first = w * k;
    let all = chunk_contents(chunks@);
    assert(all.len() == n);
    lemma_window_place(n, k, w);
    let window = window_at(all, k, w);
    assert forall|i: int| 0 <= i < window.len() implies #[trigger] window[i] == (
        chunks@[first + i].0,
        chunks@[first + i].1@,
    ) by {}
    lemma_longest_is_there(window);
    let views = shard_bytes(stripe.shards@);
    assert(stripe@.shards == views && views.len() == stripe.shards@.len());
    assert forall|i: int| 0 <= i < views.len() implies #[trigger] views[i]
        == stripe.shards@[i]@ by {}
    let data = stripe_data(window, k);
    assert(views == codeword(k, m, data));
    assert forall|i: int| 0 <= i < k + m implies (#[trigger] stripe.shards@[i])@.len()
        == stripe.shard_size by {
        assert(views[i].len() == stripe.shard_size);
    }
    assert forall|i: int|
        0 <= i < stripe.chunk_indices@.len() implies #[trigger] stripe.chunk_indices@[i]
        == chunks@[first + i].0 by {
        assert(stripe@.chunk_indices[i] == window[i].0);
    }
    assert forall|i: int, j: int|
        0 <= i < k && 0 <= j < stripe.shard_size implies #[trigger] stripe.shards@[i]@[j] == if first
        + i < n && j < chunks@[first + i].1@.len() {
        chunks@[first + i].1@[j]
    } else {
        0
    } by {
        assert(views[i] == data[i]);
        if i < window.len() {
            assert(window[i].1 == chunks@[first + i].1@);
        }
    }
    assert forall|i: int| first <= i < n && i < first + k implies (#[trigger] chunks@[i]).1@.len()
        <= stripe.shard_size by {
        assert(window[i - first].1.len() <= longest(window));
    }
    let i = choose|i: int|
        0 <= i < window.len() && (#[trigger] window[i]).1.len() == longest(window);
    assert(chunks@[first + i].1@.len() == stripe.shard_size);
    let own = Seq::new(k as nat, |j: int| stripe.shards@[j]@);
    assert(own =~= data) by {
        assert forall|j: int| 0 <= j < k implies own[j] == data[j] by {
            assert(views[j] == data[j]);
        }
    }
    assert forall|i: int| k <= i < k + m implies (#[trigger] stripe.shards@[i])@ == rs_parity(
        k as nat,
        m as nat,
        own,
    )[i - k] by {
        assert(views[i] == codeword(k, m, data)[i]);
    }
}

/// Stripes are built exactly if there is a codec and every stripe has a chunk with content;
/// there are as many as it takes to hold all chunks.
pub proof fn stripes_hold_all_chunks(
    chunks: &[(u32, Vec<u8>)],
    cfg: &TailConfig,
    r: Result<Vec<EcStripe>, DistError>,
)
    requires
        call_ensures(build_ec_stripes, (chunks, cfg), r),
    ensures
        r is Err ==> r->Err_0 is ErasureError,
        r is Ok ==> {
            &&& 1 <= cfg.data_shards && 1 <= cfg.parity_shards && cfg.data_shards
                + cfg.parity_shards <= 256
            &&& r->Ok_0@.len() * cfg.data_shards >= chunks@.len()
            &&& chunks@.len() > (r->Ok_0@.len() - 1) * cfg.data_shards
        },
        1 <= cfg.data_shards && 1 <= cfg.parity_shards && cfg.data_shards + cfg.parity_shards
            <= 256 && (forall|i: int|
            0 <= i < chunks@.len() ==> (#[trigger] chunks@[i]).1@.len() > 0) ==> r is Ok,
{
    let k = cfg.data_shards as int;
    let n = chunks@.len() as int;
    let all = chunk_contents(chunks@);
    if r is Ok {
        let q = window_total(n, k);
        let x = n + k - 1;
        assert(q * k <= x < q * k + k) by (nonlinear_arith)
            requires
                q == x / k,
                k > 0,
        ;
        assert((q - 1) * k == q * k - k) by (nonlinear_arith);
    } else if codec_exists(k, cfg.parity_shards as int) && (forall|i: int|
        0 <= i < chunks@.len() ==> (#[trigger] chunks@[i]).1@.len() > 0) {
        let w = choose|w: int|
            0 <= w < window_total(all.len() as int, k) && longest(
                #[trigger] window_at(all, k, w),
            ) == 0;
        lemma_window_place(n, k, w);
        let window = window_at(all, k, w);
        lemma_longest_is_there(window);
        assert(window[0].1 == chunks@[w * k].1@);
        assert(false);
    }
}

/// A stripe that was built comes back from any of its shards that are as many as the data
/// shards, and from no fewer. An index that is listed twice, or that no shard has, adds
/// nothing. What comes back are the data shards, one after the other.
pub proof fn built_stripe_comes_back(
    chunks: &[(u32, Vec<u8>)],
    cfg: &TailConfig,
    built: Result<Vec<EcStripe>, DistError>,
    w: int,
    present: &[usize],
    r: Result<Vec<u8>, DistError>,
    i: int,
)
    requires
        call_ensures(build_ec_stripes, (chunks, cfg), built),
        built is Ok,
        0 <= w < built->Ok_0@.len(),
        call_ensures(reconstruct_stripe, (&built->Ok_0@[w], present, cfg), r),
        0 <= i < cfg.data_shards,
    ensures
        ({
            let k = cfg.data_shards as int;
            let m = cfg.parity_shards as int;
            let size = built->Ok_0@[w].shard_size as int;
            let different = present@.to_set().filter(|p: usize| p < k + m).len();
            &&& different >= k ==> {
                &&& r is Ok
                &&& r->Ok_0@.len() == k * size
                &&& 0 <= i * size && i * size + size <= r->Ok_0@.len()
                &&& built->Ok_0@[w].shards@[i]@ == r->Ok_0@.subrange(i * size, i * size + size)
            }
            &&& different < k ==> r is Err && r->Err_0 is ErasureError
        }),
{
    let k = cfg.data_shards as int;
    let m = cfg.parity_shards as int;
    let stripe = built->Ok_0@[w];
    let size = stripe.shard_size as int;
    built_stripe_is_reconstructed(
        chunk_contents(chunks@),
        k,
        m,
        built,
        w,
        present@,
        r,
    );
    stripes_hold_chunks_in_order(chunks, cfg, built, w);
    if r is Ok {
        let parts = all_present(stripe@.shards.take(k));
        assert(parts.take(k) =~= parts);
        assert forall|p: int| 0 <= p < k implies (#[trigger] parts[p]) is Some
            && parts[p]->0.len() == size by {
            assert(stripe@.shards[p] == stripe.shards@[p]@);
        }
        lemma_concatenated_block(parts, size, k, i);
        assert(stripe@.shards[i] == stripe.shards@[i]@);
        assert(parts[i]->0 == stripe.shards@[i]@);
    }
}

/// The tail phase starts when 95 of 100 nodes are complete, with four data and two parity
/// shards, for chunks with fewer than three replicas.
pub proof fn tail_phase_defaults(cfg: TailConfig)
    requires
        call_ensures(<TailConfig as Default>::default, (), cfg),
    ensures
        cfg.activation_threshold.num * 100 == cfg.activation_threshold.den * 95,
        cfg.data_shards == 4,
        cfg.parity_shards == 2,
        cfg.scarce_threshold == 3,
{
}

/// The number of shards in all is that of both kinds.
pub proof fn total_is_data_and_parity(c: &ErasureCoder, r: usize)
    requires
        call_ensures(ErasureCoder::total_shards, (c,), r),
    ensures
        r == c.data_shards + c.parity_shards,
{
}

} // verus!
