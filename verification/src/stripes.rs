//! The tail phase: scarce chunks are grouped into erasure-coded stripes.

use vstd::prelude::*;

use crate::codec::{
    agrees_with, all_present, codec_exists, codec_refusal, codeword, present_bytes,
    present_count, shard_bytes,
};
use crate::erasure::{
    at_most, concatenated, lemma_no_fault, merged, ErasureCoder,
};
use crate::error::DistError;
use crate::ratio::Ratio;
use crate::text::decimal;

verus! {

/// Configuration of the tail phase.
#[derive(Debug, Clone, Copy, PartialEq, Eq, Structural)]
pub struct TailConfig {
    /// The fraction of nodes that are complete before erasure coding activates.
    pub activation_threshold: Ratio,
    /// How many data shards a stripe has.
    pub data_shards: usize,
    /// How many parity shards a stripe has.
    pub parity_shards: usize,
    /// A chunk with fewer replicas than this is scarce.
    pub scarce_threshold: u32,
}

impl Default for TailConfig {
    fn default() -> (r: Self)
        ensures
            r.activation_threshold == (Ratio { num: 95, den: 100 }),
            r.data_shards == 4,
            r.parity_shards == 2,
            r.scarce_threshold == 3,
    {
        TailConfig {
            activation_threshold: Ratio { num: 95, den: 100 },
            data_shards: 4,
            parity_shards: 2,
            scarce_threshold: 3,
        }
    }
}

/// A stripe: some chunks of the file, encoded together.
#[derive(Debug)]
pub struct EcStripe {
    /// The chunks in this stripe.
    pub chunk_indices: Vec<u32>,
    /// The data shards with the parity shards behind them.
    pub shards: Vec<Vec<u8>>,
    /// The length of each shard.
    pub shard_size: usize,
}

/// The content of a stripe.
#[verifier::ext_equal]
pub struct StripeView {
    pub chunk_indices: Seq<u32>,
    pub shards: Seq<Seq<u8>>,
    pub shard_size: usize,
}

impl View for EcStripe {
    type V = StripeView;

    open spec fn view(&self) -> StripeView {
        StripeView {
            chunk_indices: self.chunk_indices@,
            shards: shard_bytes(self.shards@),
            shard_size: self.shard_size,
        }
    }
}

/// Chunks by index, with their content.
pub open spec fn chunk_contents(chunks: Seq<(u32, Vec<u8>)>) -> Seq<(u32, Seq<u8>)> {
    chunks.map_values(|c: (u32, Vec<u8>)| (c.0, c.1@))
}

/// The length of the longest chunk.
pub open spec fn longest(chunks: Seq<(u32, Seq<u8>)>) -> nat
    decreases chunks.len(),
{
    if chunks.len() == 0 {
        0
    } else {
        let rest = longest(chunks.drop_last());
        let last = chunks.last().1.len();
        if rest < last {
            last
        } else {
            rest
        }
    }
}

/// `data`, lengthened to `size` bytes with zeros.
pub open spec fn zero_filled(data: Seq<u8>, size: nat) -> Seq<u8> {
    Seq::new(
        size,
        |j: int|
            if j < data.len() {
                data[j]
            } else {
                0u8
            },
    )
}

/// The data shards of a stripe of `k`: its chunks at the length of the longest, and shards
/// of zeros where it has fewer than `k` chunks.
pub open spec fn stripe_data(window: Seq<(u32, Seq<u8>)>, k: int) -> Seq<Seq<u8>> {
    Seq::new(
        k as nat,
        |i: int|
            if i < window.len() {
                zero_filled(window[i].1, longest(window))
            } else {
                zero_filled(Seq::empty(), longest(window))
            },
    )
}

/// The stripe of some chunks.
pub open spec fn stripe_of(window: Seq<(u32, Seq<u8>)>, k: int, m: int) -> StripeView {
    StripeView {
        chunk_indices: window.map_values(|c: (u32, Seq<u8>)| c.0),
        shards: codeword(k, m, stripe_data(window, k)),
        shard_size: longest(window) as usize,
    }
}

/// `stripe` encodes the chunks of `window`, one of which has content: it is their stripe,
/// and all its shards have its shard size.
pub open spec fn encodes(
    stripe: StripeView,
    window: Seq<(u32, Seq<u8>)>,
    k: int,
    m: int,
) -> bool {
    &&& longest(window) > 0
    &&& stripe == stripe_of(window, k, m)
    &&& stripe.shards.len() == k + m
    &&& stripe.shard_size == longest(window)
    &&& forall|i: int|
        0 <= i < k + m ==> (#[trigger] stripe.shards[i]).len() == stripe.shard_size
}

/// How many stripes of `k` chunks there are.
pub open spec fn window_total(n: int, k: int) -> int {
    (n + k - 1) / k
}

/// The chunks of stripe `w`: the next `k`, or what is left.
pub open spec fn window_at(chunks: Seq<(u32, Seq<u8>)>, k: int, w: int) -> Seq<(u32, Seq<u8>)> {
    chunks.subrange(
        w * k,
        if w * k + k <= chunks.len() {
            w * k + k
        } else {
            chunks.len() as int
        },
    )
}

/// What `build_ec_stripes` returns: the stripes of the chunks, in order; or a refusal, if the
/// codec does not exist or all chunks of a stripe are empty.
pub open spec fn stripes_outcome(
    chunks: Seq<(u32, Seq<u8>)>,
    k: int,
    m: int,
    r: Result<Vec<EcStripe>, DistError>,
) -> bool {
    match r {
        Ok(stripes) => {
            &&& codec_exists(k, m)
            &&& stripes@.len() == window_total(chunks.len() as int, k)
            &&& forall|w: int|
                0 <= w < stripes@.len() ==> encodes(
                    (#[trigger] stripes@[w])@,
                    window_at(chunks, k, w),
                    k,
                    m,
                )
        },
        Err(DistError::ErasureError(text)) => {
            ||| codec_refusal(k, m) == Some(text@)
            ||| {
                &&& codec_exists(k, m)
                &&& text@ == "The first shard provided is of zero length"@
                &&& exists|w: int|
                    0 <= w < window_total(chunks.len() as int, k) && longest(
                        #[trigger] window_at(chunks, k, w),
                    ) == 0
            }
        },
        Err(_) => false,
    }
}

proof fn lemma_longest(chunks: Seq<(u32, Seq<u8>)>)
    ensures
        forall|i: int| 0 <= i < chunks.len() ==> (#[trigger] chunks[i]).1.len() <= longest(chunks),
    decreases chunks.len(),
{
    if chunks.len() > 0 {
        lemma_longest(chunks.drop_last());
        assert forall|i: int| 0 <= i < chunks.len() implies (#[trigger] chunks[i]).1.len()
            <= longest(chunks) by {
            if i < chunks.len() - 1 {
                assert(chunks.drop_last()[i] == chunks[i]);
            }
        }
    }
}

fn longest_chunk(chunks: &[(u32, Vec<u8>)], lo: usize, hi: usize) -> (r: usize)
    requires
        lo <= hi <= chunks@.len(),
    ensures
        r == longest(chunk_contents(chunks@).subrange(lo as int, hi as int)),
{
    let ghost all = chunk_contents(chunks@);
    let mut best: usize = 0;
    let mut i: usize = lo;
    assert(all.subrange(lo as int, lo as int) =~= Seq::empty());
    while i < hi
        invariant
            lo <= i <= hi <= chunks@.len(),
            all == chunk_contents(chunks@),
            best == longest(all.subrange(lo as int, i as int)),
        decreases hi - i,
    {
        assert(all.subrange(lo as int, i + 1).drop_last() =~= all.subrange(lo as int, i as int));
        assert(all.subrange(lo as int, i + 1).last() == all[i as int]);
        if best < chunks[i].1.len() {
            best = chunks[i].1.len();
        }
        i = i + 1;
    }
    best
}

/// Encodes the chunks from `lo` to `hi` as one stripe.
fn encode_window(coder: &ErasureCoder, chunks: &[(u32, Vec<u8>)], lo: usize, hi: usize) -> (r:
    Result<EcStripe, DistError>)
    requires
        coder.valid(),
        lo < hi <= chunks@.len(),
        hi - lo <= coder.data_shards,
    ensures
        ({
            let window = chunk_contents(chunks@).subrange(lo as int, hi as int);
            let k = coder.data_shards as int;
            let m = coder.parity_shards as int;
            match r {
                Ok(stripe) => encodes(stripe@, window, k, m),
                Err(DistError::ErasureError(text)) => {
                    &&& longest(window) == 0
                    &&& text@ == "The first shard provided is of zero length"@
                },
                Err(_) => false,
            }
        }),
{
    let ghost window = chunk_contents(chunks@).subrange(lo as int, hi as int);
    let k: usize = coder.data_shards;
    let m: usize = coder.parity_shards;
    let shard_size: usize = longest_chunk(chunks, lo, hi);
    proof {
        lemma_longest(window);
    }
    let mut shards: Vec<Vec<u8>> = Vec::new();
    let mut chunk_indices: Vec<u32> = Vec::new();
    let mut i: usize = lo;
    while i < hi
        invariant
            lo <= i <= hi <= chunks@.len(),
            hi - lo <= k,
            window == chunk_contents(chunks@).subrange(lo as int, hi as int),
            shard_size == longest(window),
            forall|j: int|
                0 <= j < window.len() ==> (#[trigger] window[j]).1.len() <= longest(window),
            shards@.len() == i - lo,
            shard_bytes(shards@) == stripe_data(window, k as int).take(i - lo),
            chunk_indices@ == window.map_values(|c: (u32, Seq<u8>)| c.0).take(i - lo),
        decreases hi - i,
    {
        assert(window[i - lo] == (chunks@[i as int].0, chunks@[i as int].1@));
        let mut shard = chunks[i].1.clone();
        assert(shard@ =~= chunks@[i as int].1@);
        shard.resize(shard_size, 0);
        assert(shard@ =~= zero_filled(window[i - lo].1, longest(window))) by {
            let data = window[i - lo].1;
            assert(shard@.len() == shard_size);
            assert forall|j: int| 0 <= j < shard_size implies #[trigger] shard@[j] == zero_filled(
                data,
                longest(window),
            )[j] by {
                if j < data.len() && data.len() < shard_size {
                    assert(shard@.subrange(0, data.len() as int)[j] == data[j]);
                }
            }
        }
        shards.push(shard);
        chunk_indices.push(chunks[i].0);
        i = i + 1;
        assert(shard_bytes(shards@) =~= stripe_data(window, k as int).take(i - lo));
        assert(chunk_indices@ =~= window.map_values(|c: (u32, Seq<u8>)| c.0).take(i - lo));
    }
    assert(chunk_indices@ =~= window.map_values(|c: (u32, Seq<u8>)| c.0));
    while shards.len() < k
        invariant
            hi - lo <= shards@.len() <= k,
            window.len() == hi - lo,
            shard_size == longest(window),
            shard_bytes(shards@) == stripe_data(window, k as int).take(shards@.len() as int),
        decreases k - shards@.len(),
    {
        let zeros: Vec<u8> = vec![0u8; shard_size];
        assert(zeros@ =~= zero_filled(Seq::empty(), longest(window)));
        shards.push(zeros);
        assert(shard_bytes(shards@) =~= stripe_data(window, k as int).take(shards@.len() as int));
    }
    let total: usize = coder.total_shards();
    while shards.len() < total
        invariant
            k <= shards@.len() <= total,
            total == k + m,
            shard_size == longest(window),
            shard_bytes(shards@).take(k as int) == stripe_data(window, k as int),
            forall|j: int|
                k <= j < shards@.len() ==> (#[trigger] shard_bytes(shards@)[j]).len() == shard_size,
        decreases total - shards@.len(),
    {
        let ghost before = shard_bytes(shards@);
        let zeros: Vec<u8> = vec![0u8; shard_size];
        shards.push(zeros);
        assert(shard_bytes(shards@) =~= before.push(zeros@));
        assert(shard_bytes(shards@).take(k as int) =~= before.take(k as int));
    }
    let ghost ready = shard_bytes(shards@);
    assert forall|j: int| 0 <= j < ready.len() implies (#[trigger] ready[j]).len()
        == shard_size by {
        if j < k {
            assert(ready.take(k as int)[j] == ready[j]);
        }
    }
    let outcome = coder.encode(&mut shards);
    match outcome {
        Ok(()) => {
            proof {
                assert(ready[0].len() == shard_size);
            }
            Ok(EcStripe { chunk_indices, shards, shard_size })
        },
        Err(e) => Err(e),
    }
}

/// Groups the scarce chunks into stripes of `data_shards` chunks and encodes each.
pub fn build_ec_stripes(scarce_chunks: &[(u32, Vec<u8>)], cfg: &TailConfig) -> (r: Result<
    Vec<EcStripe>,
    DistError,
>)
    requires
        cfg.data_shards + cfg.parity_shards <= usize::MAX,
    ensures
        stripes_outcome(
            chunk_contents(scarce_chunks@),
            cfg.data_shards as int,
            cfg.parity_shards as int,
            r,
        ),
{
    let coder = match ErasureCoder::new(cfg.data_shards, cfg.parity_shards) {
        Ok(c) => c,
        Err(e) => return Err(e),
    };
    let k: usize = cfg.data_shards;
    let n: usize = scarce_chunks.len();
    let ghost chunks = chunk_contents(scarce_chunks@);
    let ghost m = cfg.parity_shards as int;
    let mut stripes: Vec<EcStripe> = Vec::new();
    let mut lo: usize = 0;
    assert(0 * k == 0) by (nonlinear_arith);
    while lo < n
        invariant
            n == chunks.len(),
            chunks == chunk_contents(scarce_chunks@),
            coder.valid(),
            coder.data_shards == k,
            coder.parity_shards == m,
            k == cfg.data_shards,
            m == cfg.parity_shards,
            lo <= n,
            lo == stripes@.len() * k || (lo == n && stripes@.len() * k >= n && stripes@.len()
                * k < n + k),
            forall|w: int|
                0 <= w < stripes@.len() ==> encodes(
                    (#[trigger] stripes@[w])@,
                    window_at(chunks, k as int, w),
                    k as int,
                    m,
                ),
        decreases n - lo,
    {
        let ghost w = stripes@.len() as int;
        assert((w + 1) * k == w * k + k) by (nonlinear_arith);
        let hi: usize = if k <= n - lo {
            lo + k
        } else {
            n
        };
        assert(window_at(chunks, k as int, w) == chunks.subrange(lo as int, hi as int));
        match encode_window(&coder, scarce_chunks, lo, hi) {
            Ok(stripe) => {
                stripes.push(stripe);
            },
            Err(e) => {
                proof {
                    lemma_window_count(chunks.len() as int, k as int, w);
                }
                return Err(e);
            },
        }
        lo = hi;
    }
    proof {
        lemma_window_total(n as int, k as int, stripes@.len() as int);
    }
    Ok(stripes)
}

proof fn lemma_window_count(n: int, k: int, w: int)
    requires
        k >= 1,
        0 <= w,
        w * k < n,
    ensures
        w < window_total(n, k),
{
    let x = n + k - 1;
    assert(w < x / k) by (nonlinear_arith)
        requires
            k >= 1,
            0 <= w,
            w * k < n,
            x == n + k - 1,
    ;
}

proof fn lemma_window_total(n: int, k: int, w: int)
    requires
        k >= 1,
        0 <= w,
        0 <= n,
        n <= w * k < n + k,
    ensures
        w == window_total(n, k),
{
    let x = n + k - 1;
    assert(w == x / k) by (nonlinear_arith)
        requires
            k >= 1,
            0 <= w,
            n <= w * k < n + k,
            x == n + k - 1,
    ;
}

/// The shards of a stripe that are at hand.
pub open spec fn at_hand(shards: Seq<Seq<u8>>, present: Seq<usize>, total: int) -> Seq<
    Option<Seq<u8>>,
> {
    Seq::new(
        total as nat,
        |i: int|
            if present.contains(i as usize) {
                Some(shards[i])
            } else {
                None
            },
    )
}

/// What `reconstruct_stripe` returns: the data shards of the stripe in one byte string, or
/// the refusal of the codec.
pub open spec fn stripe_outcome(
    stripe: StripeView,
    present: Seq<usize>,
    k: int,
    m: int,
    r: Result<Vec<u8>, DistError>,
) -> bool {
    if codec_exists(k, m) {
        let coder = ErasureCoder { data_shards: k as usize, parity_shards: m as usize };
        let received = at_hand(stripe.shards, present, k + m);
        match r {
            Ok(bytes) => exists|recovered: Seq<Option<Seq<u8>>>| {
                &&& #[trigger] coder.reconstruct_outcome(received, Ok(()), recovered)
                &&& bytes@ == merged(recovered, stripe.shards[0].len() * k, k)
            },
            Err(DistError::ErasureError(text)) => coder.reconstruct_error(received) == Some(text@),
            Err(_) => false,
        }
    } else {
        r matches Err(DistError::ErasureError(text)) && codec_refusal(k, m) == Some(text@)
    }
}

fn lists(present: &[usize], i: usize) -> (r: bool)
    ensures
        r == present@.contains(i),
{
    let mut j: usize = 0;
    while j < present.len()
        invariant
            j <= present@.len(),
            forall|p: int| 0 <= p < j ==> present@[p] != i,
        decreases present@.len() - j,
    {
        if present[j] == i {
            assert(present@[j as int] == i);
            return true;
        }
        j = j + 1;
    }
    false
}

/// Gives back the data shards of a stripe of which only the shards `present_indices` are at
/// hand, one after the other.
pub fn reconstruct_stripe(stripe: &EcStripe, present_indices: &[usize], cfg: &TailConfig) -> (r:
    Result<Vec<u8>, DistError>)
    requires
        cfg.data_shards + cfg.parity_shards <= usize::MAX,
        codec_exists(cfg.data_shards as int, cfg.parity_shards as int) ==> forall|i: usize|
            #[trigger]
            present_indices@.contains(i) && i < cfg.data_shards + cfg.parity_shards ==> i
                < stripe.shards@.len(),
    ensures
        stripe_outcome(
            stripe@,
            present_indices@,
            cfg.data_shards as int,
            cfg.parity_shards as int,
            r,
        ),
{
    let coder = match ErasureCoder::new(cfg.data_shards, cfg.parity_shards) {
        Ok(c) => c,
        Err(e) => return Err(e),
    };
    let k: usize = cfg.data_shards;
    let total: usize = coder.total_shards();
    let ghost wanted = at_hand(stripe@.shards, present_indices@, total as int);
    let mut recv: Vec<Option<Vec<u8>>> = Vec::new();
    let mut i: usize = 0;
    while i < total
        invariant
            i <= total,
            total == cfg.data_shards + cfg.parity_shards,
            recv@.len() == i,
            forall|j: usize| #[trigger]
                present_indices@.contains(j) && j < total ==> j < stripe.shards@.len(),
            wanted == at_hand(stripe@.shards, present_indices@, total as int),
            present_bytes(recv@) == wanted.take(i as int),
        decreases total - i,
    {
        let ghost before = present_bytes(recv@);
        if lists(present_indices, i) {
            let copy = stripe.shards[i].clone();
            assert(copy@ =~= stripe.shards@[i as int]@);
            recv.push(Some(copy));
            assert(present_bytes(recv@) =~= before.push(Some(copy@)));
        } else {
            recv.push(None);
            assert(present_bytes(recv@) =~= before.push(None));
        }
        i = i + 1;
        assert(present_bytes(recv@) =~= wanted.take(i as int));
    }
    assert(present_bytes(recv@) =~= wanted);
    match coder.reconstruct(&mut recv) {
        Ok(()) => {
            proof {
                lemma_some_present(stripe@.shards, present_indices@, total as int);
            }
            let len: usize = match stripe.shards[0].len().checked_mul(k) {
                Some(n) => n,
                None => usize::MAX,
            };
            assert(coder == (ErasureCoder {
                data_shards: cfg.data_shards,
                parity_shards: cfg.parity_shards,
            }));
            let bytes = ErasureCoder::merge_shards(recv.as_slice(), len, k);
            assert(coder.reconstruct_outcome(wanted, Ok(()), present_bytes(recv@)));
            assert(bytes@ == merged(
                present_bytes(recv@),
                stripe@.shards[0].len() * k,
                k as int,
            ));
            Ok(bytes)
        },
        Err(e) => Err(e),
    }
}

proof fn lemma_some_present(shards: Seq<Seq<u8>>, present: Seq<usize>, total: int)
    requires
        present_count(at_hand(shards, present, total)) > 0,
        0 <= total <= usize::MAX,
    ensures
        exists|i: usize| i < total && #[trigger] present.contains(i),
{
    let s = at_hand(shards, present, total);
    lemma_count_positive(s);
    let j = choose|j: int| 0 <= j < s.len() && (#[trigger] s[j]) is Some;
    assert(present.contains(j as usize));
}

pub proof fn lemma_count_positive(s: Seq<Option<Seq<u8>>>)
    requires
        present_count(s) > 0,
    ensures
        exists|j: int| 0 <= j < s.len() && (#[trigger] s[j]) is Some,
    decreases s.len(),
{
    if s.last() is Some {
        assert(s[s.len() - 1] is Some);
    } else {
        lemma_count_positive(s.drop_last());
        let front = s.drop_last();
        let j = choose|j: int| 0 <= j < front.len() && (#[trigger] front[j]) is Some;
        assert(s[j] is Some);
    }
}

pub proof fn lemma_concatenated_block(shards: Seq<Option<Seq<u8>>>, size: int, n: int, i: int)
    requires
        size >= 0,
        0 <= i < n <= shards.len(),
        forall|p: int|
            0 <= p < n ==> (#[trigger] shards[p]) is Some && shards[p]->0.len() == size,
    ensures
        concatenated(shards.take(n)).len() == n * size,
        0 <= i * size,
        i * size + size <= n * size,
        concatenated(shards.take(n)).subrange(i * size, i * size + size) == shards[i]->0,
    decreases n,
{
    assert(shards.take(n).drop_last() =~= shards.take(n - 1));
    assert(shards.take(n).last() == shards[n - 1]);
    assert((n - 1) * size + size == n * size) by (nonlinear_arith);
    assert(0 <= i * size && i * size + size <= n * size) by (nonlinear_arith)
        requires
            0 <= i < n,
            size >= 0,
    ;
    let whole = concatenated(shards.take(n));
    let front = concatenated(shards.take(n - 1));
    assert(whole == front + shards[n - 1]->0);
    if n == 1 {
        assert(shards.take(0) =~= Seq::empty());
        assert((n - 1) * size == 0) by (nonlinear_arith)
            requires
                n == 1,
        ;
    } else if i < n - 1 {
        lemma_concatenated_block(shards, size, n - 1, i);
        assert(whole.subrange(i * size, i * size + size) =~= front.subrange(
            i * size,
            i * size + size,
        ));
    } else {
        lemma_concatenated_block(shards, size, n - 1, 0);
    }
    if i == n - 1 {
        assert(i * size == (n - 1) * size);
        assert(whole.subrange(i * size, i * size + size) =~= shards[i]->0);
    }
}

/// Any `k` shards of a stripe give back its chunks: with at least `k` of them at hand the
/// reconstruction succeeds, the result is the data shards one after the other, and chunk `i`
/// of the stripe stands in it at `i * shard_size`.
pub proof fn stripe_gives_back_chunks(
    window: Seq<(u32, Seq<u8>)>,
    k: int,
    m: int,
    stripe: StripeView,
    present: Seq<usize>,
    r: Result<Vec<u8>, DistError>,
)
    requires
        codec_exists(k, m),
        window.len() <= k,
        encodes(stripe, window, k, m),
        present_count(at_hand(stripe.shards, present, k + m)) >= k,
        stripe_outcome(stripe, present, k, m, r),
    ensures
        r is Ok,
        r->Ok_0@ == concatenated(all_present(stripe.shards.take(k))),
        r->Ok_0@.len() == k * stripe.shard_size,
        forall|i: int|
            0 <= i < window.len() ==> 0 <= i * stripe.shard_size && i * stripe.shard_size
                + window[i].1.len() <= r->Ok_0@.len() && (#[trigger] window[i]).1
                == r->Ok_0@.subrange(
                i * stripe.shard_size,
                i * stripe.shard_size + window[i].1.len(),
            ),
{
    let coder = ErasureCoder { data_shards: k as usize, parity_shards: m as usize };
    let data = stripe_data(window, k);
    let size = stripe.shard_size as int;
    let received = at_hand(stripe.shards, present, k + m);
    lemma_longest(window);
    assert(agrees_with(received, k, m, data));
    assert forall|j: int|
        0 <= j < received.len() && (#[trigger] received[j]) is Some implies received[j]->0.len()
        == size by {
        assert(stripe.shards[j].len() == size);
    }
    lemma_no_fault(received, 0, None, size as nat);
    assert(coder.reconstruct_error(received) is None);
    let bytes = r->Ok_0@;
    let recovered = choose|recovered: Seq<Option<Seq<u8>>>| {
        &&& #[trigger] coder.reconstruct_outcome(received, Ok(()), recovered)
        &&& bytes == merged(recovered, stripe.shards[0].len() * k, k)
    };
    assert(recovered == all_present(stripe.shards));
    assert forall|i: int| 0 <= i < k implies (#[trigger] recovered[i]) is Some
        && recovered[i]->0.len() == size by {
        assert(stripe.shards[i].len() == size);
    }
    lemma_concatenated_block(recovered, size, k, 0);
    assert(stripe.shards[0].len() == size);
    assert(size * k == k * size) by (nonlinear_arith);
    assert(at_most(recovered, k) =~= recovered.take(k));
    assert(bytes =~= concatenated(recovered.take(k)));
    assert(all_present(stripe.shards.take(k)) =~= recovered.take(k));
    assert forall|i: int| 0 <= i < window.len() implies 0 <= i * size && i * size
        + window[i].1.len() <= bytes.len() && (#[trigger] window[i]).1 == bytes.subrange(
        i * size,
        i * size + window[i].1.len(),
    ) by {
        let content = window[i].1;
        lemma_concatenated_block(recovered, size, k, i);
        assert(recovered[i]->0 == data[i]);
        let found = bytes.subrange(i * size, i * size + content.len());
        assert forall|j: int| 0 <= j < content.len() implies content[j] == #[trigger] found[j] by {
            assert(bytes.subrange(i * size, i * size + size)[j] == data[i][j]);
        }
        assert(content =~= found);
    }
}

/// Fewer than `k` shards give back nothing: the reconstruction is refused with the numbers
/// of shards that are needed and at hand.
pub proof fn too_few_shards_are_refused(
    stripe: StripeView,
    present: Seq<usize>,
    k: int,
    m: int,
    r: Result<Vec<u8>, DistError>,
)
    requires
        codec_exists(k, m),
        present_count(at_hand(stripe.shards, present, k + m)) < k,
        stripe_outcome(stripe, present, k, m, r),
    ensures
        r matches Err(DistError::ErasureError(text)) && text@ == "need "@ + decimal(k as nat)
            + " shards to reconstruct, only "@ + decimal(
            present_count(at_hand(stripe.shards, present, k + m)),
        ) + " available"@,
{
}

/// As many shards are at hand as different indices of shards are listed: an index that is
/// listed again, or that no shard has, adds nothing.
pub proof fn different_indices_count(shards: Seq<Seq<u8>>, present: Seq<usize>, total: int)
    requires
        0 <= total <= usize::MAX,
    ensures
        present.to_set().filter(|i: usize| i < total).finite(),
        present_count(at_hand(shards, present, total)) == present.to_set().filter(
            |i: usize| i < total,
        ).len(),
    decreases total,
{
    let received = at_hand(shards, present, total);
    let listed = present.to_set().filter(|i: usize| i < total);
    if total == 0 {
        assert(listed =~= Set::empty());
    } else {
        let fewer = present.to_set().filter(|i: usize| i < total - 1);
        let last = (total - 1) as usize;
        different_indices_count(shards, present, total - 1);
        assert(received.drop_last() =~= at_hand(shards, present, total - 1));
        if present.contains(last) {
            assert(listed =~= fewer.insert(last));
        } else {
            assert(listed =~= fewer);
        }
    }
}

/// Every stripe that was built can be reconstructed from `k` of its shards, and from no
/// fewer: with `k` different indices of shards the result is the data shards one after the
/// other, with fewer it is an error of the coding.
pub proof fn built_stripe_is_reconstructed(
    chunks: Seq<(u32, Seq<u8>)>,
    k: int,
    m: int,
    built: Result<Vec<EcStripe>, DistError>,
    w: int,
    present: Seq<usize>,
    r: Result<Vec<u8>, DistError>,
)
    requires
        stripes_outcome(chunks, k, m, built),
        built is Ok,
        0 <= w < built->Ok_0@.len(),
        stripe_outcome(built->Ok_0@[w]@, present, k, m, r),
        0 <= k + m <= usize::MAX,
    ensures
        present.to_set().filter(|i: usize| i < k + m).len() >= k ==> r is Ok && r->Ok_0@
            == concatenated(all_present(built->Ok_0@[w]@.shards.take(k))) && r->Ok_0@.len() == k
            * built->Ok_0@[w]@.shard_size,
        present.to_set().filter(|i: usize| i < k + m).len() < k ==> r is Err
            && r->Err_0 is ErasureError,
{
    let stripe = built->Ok_0@[w]@;
    let window = window_at(chunks, k, w);
    let n = chunks.len() as int;
    assert(0 <= w * k < n) by (nonlinear_arith)
        requires
            k >= 1,
            n >= 0,
            0 <= w < (n + k - 1) / k,
    ;
    assert(window.len() <= k);
    assert(encodes(stripe, window, k, m));
    different_indices_count(stripe.shards, present, k + m);
    if present_count(at_hand(stripe.shards, present, k + m)) >= k {
        stripe_gives_back_chunks(window, k, m, stripe, present, r);
    } else {
        too_few_shards_are_refused(stripe, present, k, m, r);
    }
}

} // verus!
