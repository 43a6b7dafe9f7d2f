//! Laws of what the operations accept.

use vstd::prelude::*;

use crate::bitmap::ChunkBitmap;
use crate::delta::{DeltaPatch, PatchApplicator, Removal, StaleSweep};
use crate::erasure::ErasureCoder;
use crate::hash::hash_bytes;
use crate::manifest::{Manifest, ManifestBuilder};
use crate::paths::chunk_path;
use crate::peer::chunk_server::{chunk_request, chunk_response};
use crate::peer::downloader::{
    fetch_order, knows_chunk, next_round, resume_chunk, round_chunks, ChunkFetch, FetchAction,
    FetchEvent, Transfer,
};
use crate::peer::PeerNode;
use crate::proto::wire::{frame, frame_len};
use crate::proto::Request;
use crate::stripes::{build_ec_stripes, reconstruct_stripe, EcStripe, TailConfig};
use crate::tracker::job::Job;
use crate::tracker::registry::Tracker;
use crate::tracker::server::{can_answer, dispatch};

verus! {

/// A bitmap takes any number of chunks that the machine can hold bits for, any bytes that fit,
/// and any question about a chunk that it has a bit for or that the file does not have.
pub proof fn bitmap_accepts(
    chunk_count: u32,
    bytes: &[u8],
    b: &ChunkBitmap,
    m: &mut ChunkBitmap,
    index: u32,
)
    requires
        index >= b@.chunk_count || index < b@.bits.len(),
        index >= old(m)@.chunk_count || index < old(m)@.bits.len(),
    ensures
        chunk_count <= usize::MAX / 8 ==> call_requires(ChunkBitmap::new, (chunk_count,)),
        8 * bytes@.len() <= usize::MAX / 8 ==> call_requires(
            ChunkBitmap::from_bytes,
            (bytes, chunk_count),
        ),
        call_requires(ChunkBitmap::has, (b, index)),
        call_requires(ChunkBitmap::mark_complete, (m, index)),
        call_requires(ChunkBitmap::missing, (b,)),
        call_requires(ChunkBitmap::is_complete, (b,)),
        call_requires(ChunkBitmap::completion_ratio, (b,)),
        call_requires(ChunkBitmap::as_bytes, (b,)),
{
}

/// A manifest is built of any data in chunks of any size but 0, tells the range of every chunk
/// that starts within 64 bits, and checks any data for a chunk that it has a digest of.
pub proof fn manifest_accepts(
    file_id: &str,
    version: &str,
    data: &[u8],
    total_size: u64,
    chunk_size: u64,
    m: &Manifest,
    index: u32,
)
    requires
        chunk_size > 0,
    ensures
        call_requires(Manifest::build, (file_id, version, data, chunk_size)),
        call_requires(ManifestBuilder::new, (file_id, version, total_size, chunk_size)),
        index * m.chunk_size <= u64::MAX ==> call_requires(Manifest::chunk_range, (m, index)),
        index < m.chunk_hashes@.len() ==> call_requires(Manifest::verify_chunk, (m, index, data)),
        call_requires(hash_bytes, (data,)),
        call_requires(chunk_path, (file_id, version, index)),
{
}

/// A patch is computed between any two manifests of one file that have their digests, checks
/// any chunk, and can be applied.
pub proof fn patch_accepts(
    old: &Manifest,
    new: &Manifest,
    p: &DeltaPatch,
    c: u32,
    data: &[u8],
    read: Option<&[u8]>,
    list: &mut Vec<u32>,
    a: &PatchApplicator,
)
    requires
        old.file_id@ == new.file_id@,
        old.chunk_count <= old.chunk_hashes@.len(),
        new.chunk_count <= new.chunk_hashes@.len(),
        c < new.chunk_hashes@.len(),
    ensures
        call_requires(DeltaPatch::compute, (old, new)),
        call_requires(DeltaPatch::chunks_to_fetch, (p,)),
        call_requires(DeltaPatch::chunks_to_keep, (p,)),
        call_requires(DeltaPatch::chunks_to_delete, (p,)),
        call_requires(DeltaPatch::needs_fetch, (p, c)),
        call_requires(DeltaPatch::verify_chunk, (p, c, data)),
        call_requires(DeltaPatch::transfer_reduction_pct, (p,)),
        call_requires(PatchApplicator::verify_unchanged, (new, c, read, list)),
        call_requires(PatchApplicator::delete_stale_chunks, (a, p)),
{
}

/// A sweep that names a next file takes how its removal ended, whatever that is, and goes on.
pub proof fn sweep_accepts(s: &mut StaleSweep, next: String, outcome: Removal)
    requires
        call_ensures(StaleSweep::next, (&*old(s),), Some(next)),
        old(s).removed <= old(s).tried,
    ensures
        call_requires(StaleSweep::record, (s, outcome)),
{
    assert(old(s)@.paths.len() == old(s).paths@.len());
}

/// A download asks for its next round, orders missing chunks by whatever ranking it gets, and
/// resumes any chunk of the file.
pub proof fn download_accepts(
    b: &ChunkBitmap,
    missing: Vec<u32>,
    ranked: Option<Vec<(u32, u32)>>,
    order: &Vec<u32>,
    concurrency: usize,
    m: &Manifest,
    into: &mut ChunkBitmap,
    c: u32,
    data: Option<&[u8]>,
)
    requires
        forall|i: int, j: int| 0 <= i < j < missing@.len() ==> missing@[i] < missing@[j],
        2 * concurrency <= usize::MAX,
        c < m.chunk_hashes@.len(),
        c < old(into)@.bits.len(),
    ensures
        call_requires(next_round, (b,)),
        call_requires(fetch_order, (missing, ranked)),
        call_requires(round_chunks, (order, concurrency)),
        call_requires(knows_chunk, (m, c)),
        call_requires(resume_chunk, (m, into, c, data)),
{
}

/// A fetch goes on from wherever it has come: what is to be done next can be asked, and how it
/// ended can be told, as long as it is not at its end.
pub proof fn fetch_goes_on(
    begin: ChunkFetch,
    f: ChunkFetch,
    e: FetchEvent,
    g: ChunkFetch,
    a: FetchAction,
    next: FetchEvent,
)
    requires
        call_ensures(ChunkFetch::new, (), begin),
        call_ensures(ChunkFetch::step, (f, e), g),
        call_ensures(ChunkFetch::action, (&g,), a),
        match a {
            FetchAction::AskTracker => next is QueryFailed || next is Peers,
            FetchAction::Download(_) => next is Downloaded || next is DownloadFailed,
            FetchAction::Pause(_) => next is Paused,
            FetchAction::Finish(_) => false,
        },
    ensures
        call_requires(ChunkFetch::action, (&begin,)),
        call_requires(ChunkFetch::step, (begin, FetchEvent::QueryFailed)),
        call_requires(ChunkFetch::action, (&g,)),
        call_requires(ChunkFetch::step, (g, next)),
{
}

/// A transfer of a chunk of the file goes on from wherever it has come: it takes as many bytes
/// as it wants, and what it has taken can be stored.
pub proof fn transfer_goes_on(
    m: &Manifest,
    peer_id: &str,
    chunk_index: u32,
    begin: Transfer,
    four: Vec<u8>,
    t: Transfer,
    bytes: Vec<u8>,
    u: Transfer,
    wanted: Option<u64>,
    more: Vec<u8>,
    b: &mut ChunkBitmap,
)
    requires
        chunk_index * m.chunk_size <= m.total_size,
        chunk_index < m.chunk_hashes@.len(),
        call_ensures(Transfer::new, (m, peer_id, chunk_index), begin),
        four@.len() == 4,
        call_ensures(Transfer::feed, (t, m, bytes), Ok(u)),
        call_ensures(Transfer::wanted, (&u,), wanted),
        wanted is Some ==> more@.len() == wanted->0,
        old(b)@.bits.len() == old(b)@.chunk_count,
    ensures
        call_requires(Transfer::new, (m, peer_id, chunk_index)),
        call_requires(Transfer::feed, (begin, m, four)),
        wanted is Some ==> call_requires(Transfer::feed, (u, m, more)),
        wanted is None ==> call_requires(Transfer::stored, (u, m, b)),
{
    assert(m@.chunk_hashes.len() == m.chunk_hashes@.len());
}

/// The tracker takes every heartbeat whose bits fit, every eviction, and every request that it
/// says it can answer.
pub proof fn tracker_accepts(
    t: &mut Tracker,
    job_id: &str,
    node_id: String,
    rack_id: String,
    peer_addr: String,
    bytes: &[u8],
    bw: u64,
    now: u64,
    timeout: u64,
    job: &Job,
)
    requires
        8 * bytes@.len() <= usize::MAX / 8,
    ensures
        call_requires(
            Tracker::update_node,
            (t, job_id, node_id, rack_id, peer_addr, bytes, bw, now),
        ),
        call_requires(Tracker::evict_stale_nodes, (t, timeout, now)),
        call_requires(Tracker::cancel_job, (t, job_id)),
        call_requires(Job::snapshot, (job, now)),
        call_requires(Job::completion_ratio, (job,)),
{
}

/// What the tracker says it can answer is answered.
pub proof fn answerable_request_is_accepted(
    t: &mut Tracker,
    req: Request,
    decoded: Option<Result<Manifest, String>>,
    now: u64,
    created_at: u64,
)
    requires
        call_ensures(can_answer, (&*old(t), &req, &decoded), true),
    ensures
        call_requires(dispatch, (t, req, decoded, now, created_at)),
{
}

/// Coders are made of any numbers, encode and reconstruct any shards, and split and merge any
/// data; stripes are built of any chunks.
pub proof fn coding_accepts(
    k: usize,
    m: usize,
    c: ErasureCoder,
    shards: &mut Vec<Vec<u8>>,
    partial: &mut Vec<Option<Vec<u8>>>,
    data: &[u8],
    list: &[Option<Vec<u8>>],
    len: usize,
    chunks: &[(u32, Vec<u8>)],
    cfg: &TailConfig,
)
    requires
        k + m <= usize::MAX,
        call_ensures(ErasureCoder::new, (k, m), Ok(c)),
        cfg.data_shards + cfg.parity_shards <= usize::MAX,
    ensures
        call_requires(ErasureCoder::new, (k, m)),
        call_requires(ErasureCoder::encode, (&c, shards)),
        call_requires(ErasureCoder::reconstruct, (&c, partial)),
        call_requires(ErasureCoder::split_into_shards, (&c, data)),
        call_requires(ErasureCoder::merge_shards, (list, len, k)),
        call_requires(build_ec_stripes, (chunks, cfg)),
{
}

/// A stripe that was built can be reconstructed from any list of indices.
pub proof fn built_stripe_is_accepted(
    chunks: &[(u32, Vec<u8>)],
    cfg: &TailConfig,
    built: Vec<EcStripe>,
    w: int,
    present: &[usize],
)
    requires
        cfg.data_shards + cfg.parity_shards <= usize::MAX,
        call_ensures(build_ec_stripes, (chunks, cfg), Ok(built)),
        0 <= w < built@.len(),
    ensures
        call_requires(reconstruct_stripe, (&built@[w], present, cfg)),
{
    assert(built@[w]@.shards.len() == built@[w].shards@.len());
}

/// Frames take any payload that can be held twice, headers any four bytes; chunk requests and
/// responses take anything.
pub proof fn wire_accepts(
    payload: &[u8],
    header: &[u8],
    job_id: &str,
    c: u32,
    data: Option<&[u8]>,
    n: &PeerNode,
    b: &ChunkBitmap,
)
    requires
        header@.len() == 4,
        payload@.len() + 4 <= isize::MAX / 2,
    ensures
        call_requires(frame, (payload,)),
        call_requires(frame_len, (header,)),
        call_requires(chunk_request, (job_id, c)),
        call_requires(chunk_response, (data,)),
        call_requires(PeerNode::heartbeat, (n, b)),
{
}

} // verus!
