//! Laws of messages: frames, chunk requests and responses, and what a node sends.

use vstd::arithmetic::power2::pow2;
use vstd::prelude::*;
use vstd::string::*;

use crate::bitmap::ChunkBitmap;
use crate::bits::unpacked;
use crate::error::DistError;
use crate::laws::bitmap::lemma_weight;
use crate::manifest::Manifest;
use crate::peer::chunk_server::{
    chunk_request, chunk_response, request_round_trip, response_round_trip,
};
use crate::peer::downloader::{DownloaderConfig, PEERS_PER_QUERY, ROUND_PAUSE_MS};
use crate::peer::{PeerNode, PeerNodeConfig, HEARTBEAT_INTERVAL_SECS};
use crate::proto::client::{ReplyError, TrackerClient};
use crate::proto::wire::{
    be_u32, be_u64, frame, frame_len, push_u32, push_u64, read_u32, read_u64, u32_round_trip,
    u64_round_trip,
};
use crate::proto::{PeerInfo, Request, Response};
use crate::text::decimal;
use crate::tracker::server::EVICTION_INTERVAL_SECS;

verus! {

/// Four bytes are read with the most significant first.
pub proof fn four_bytes_are_read(bytes: &[u8], r: u32)
    requires
        call_ensures(read_u32, (bytes,), r),
    ensures
        r == bytes@[0] * 0x100_0000 + bytes@[1] * 0x1_0000 + bytes@[2] * 0x100 + bytes@[3],
{
}

/// Eight bytes are read with the most significant first.
pub proof fn eight_bytes_are_read(bytes: &[u8], r: u64)
    requires
        call_ensures(read_u64, (bytes,), r),
        bytes@.len() == 8,
    ensures
        r == bytes@[0] * 0x100_0000_0000_0000 + bytes@[1] * 0x1_0000_0000_0000 + bytes@[2]
            * 0x100_0000_0000 + bytes@[3] * 0x1_0000_0000 + bytes@[4] * 0x100_0000 + bytes@[5]
            * 0x1_0000 + bytes@[6] * 0x100 + bytes@[7],
{
    assert(bytes@.take(4) =~= seq![bytes@[0], bytes@[1], bytes@[2], bytes@[3]]);
    assert(bytes@.skip(4) =~= seq![bytes@[4], bytes@[5], bytes@[6], bytes@[7]]);
}

/// A number is appended in four bytes, the most significant first.
pub proof fn four_bytes_are_written(out: &mut Vec<u8>, n: u32)
    requires
        call_ensures(push_u32, (out, n), ()),
    ensures
        final(out)@.len() == old(out)@.len() + 4,
        final(out)@.take(old(out)@.len() as int) == old(out)@,
        ({
            let b = final(out)@.skip(old(out)@.len() as int);
            n == b[0] * 0x100_0000 + b[1] * 0x1_0000 + b[2] * 0x100 + b[3]
        }),
{
    assert(final(out)@.take(old(out)@.len() as int) =~= old(out)@);
    assert(final(out)@.skip(old(out)@.len() as int) =~= be_u32(n));
    u32_round_trip(n);
}

/// A number is appended in eight bytes, the most significant first.
pub proof fn eight_bytes_are_written(out: &mut Vec<u8>, n: u64)
    requires
        call_ensures(push_u64, (out, n), ()),
    ensures
        final(out)@.len() == old(out)@.len() + 8,
        final(out)@.take(old(out)@.len() as int) == old(out)@,
        ({
            let b = final(out)@.skip(old(out)@.len() as int);
            n == b[0] * 0x100_0000_0000_0000 + b[1] * 0x1_0000_0000_0000 + b[2] * 0x100_0000_0000
                + b[3] * 0x1_0000_0000 + b[4] * 0x100_0000 + b[5] * 0x1_0000 + b[6] * 0x100 + b[7]
        }),
{
    let all = be_u64(n);
    assert(final(out)@.take(old(out)@.len() as int) =~= old(out)@);
    assert(final(out)@.skip(old(out)@.len() as int) =~= all);
    u64_round_trip(n);
    assert(all.take(4) =~= seq![all[0], all[1], all[2], all[3]]);
    assert(all.skip(4) =~= seq![all[4], all[5], all[6], all[7]]);
}

/// A frame is four bytes with the length of the payload, the most significant first, and the
/// payload as it is.
pub proof fn frame_is_length_and_payload(payload: &[u8], r: Vec<u8>)
    requires
        call_ensures(frame, (payload,), r),
    ensures
        r@.len() == payload@.len() + 4,
        r@.skip(4) == payload@,
        payload@.len() <= u32::MAX ==> payload@.len() == r@[0] * 0x100_0000 + r@[1] * 0x1_0000
            + r@[2] * 0x100 + r@[3],
{
    let n = (payload@.len() % 0x1_0000_0000) as u32;
    u32_round_trip(n);
    assert(r@.skip(4) =~= payload@);
    assert(r@.take(4) =~= be_u32(n));
    assert(r@.take(4) =~= seq![r@[0], r@[1], r@[2], r@[3]]);
}

/// A reader takes the length from the four bytes, the most significant first, and refuses one
/// of more than 16 MB by its number.
pub proof fn frame_length_is_bounded(header: &[u8], r: Result<usize, DistError>)
    requires
        call_ensures(frame_len, (header,), r),
    ensures
        ({
            let n = header@[0] * 0x100_0000 + header@[1] * 0x1_0000 + header@[2] * 0x100
                + header@[3];
            &&& r is Ok <==> n <= 16 * 1024 * 1024
            &&& r is Ok ==> r->Ok_0 == n
            &&& r is Err ==> r->Err_0 is Proto && r->Err_0->Proto_0@ == "frame too large: "@
                + decimal(n as nat)
        }),
{
}

/// A chunk request is the length of the job id, the job id, and the chunk index; both numbers
/// in four bytes, the most significant first.
pub proof fn chunk_request_names_job_and_chunk(job_id: &str, chunk_index: u32, r: Vec<u8>)
    requires
        call_ensures(chunk_request, (job_id, chunk_index), r),
        job_id.spec_bytes().len() <= u32::MAX,
    ensures
        ({
            let n = job_id.spec_bytes().len() as int;
            &&& r@.len() == n + 8
            &&& n == r@[0] * 0x100_0000 + r@[1] * 0x1_0000 + r@[2] * 0x100 + r@[3]
            &&& r@.subrange(4, 4 + n) == job_id.spec_bytes()
            &&& chunk_index == r@[n + 4] * 0x100_0000 + r@[n + 5] * 0x1_0000 + r@[n + 6] * 0x100
                + r@[n + 7]
        }),
{
    let n = job_id.spec_bytes().len() as int;
    request_round_trip(job_id.spec_bytes(), chunk_index);
    assert(r@.take(4) =~= seq![r@[0], r@[1], r@[2], r@[3]]);
    assert(r@.skip(4 + n) =~= seq![r@[n + 4], r@[n + 5], r@[n + 6], r@[n + 7]]);
}

/// A response serves the chunk: four zeros, its length in eight bytes, the most significant
/// first, and its content. If the chunk is not there it is four bytes, the last a one.
pub proof fn chunk_response_serves_chunk(data: Option<&[u8]>, r: Vec<u8>)
    requires
        call_ensures(chunk_response, (data,), r),
        data is Some ==> data->0@.len() <= u64::MAX,
    ensures
        r@[0] == 0 && r@[1] == 0 && r@[2] == 0,
        data is None ==> r@.len() == 4 && r@[3] == 1,
        data is Some ==> {
            &&& r@[3] == 0
            &&& r@.len() == 12 + data->0@.len()
            &&& data->0@.len() == r@[4] * 0x100_0000_0000_0000 + r@[5] * 0x1_0000_0000_0000 + r@[6]
                * 0x100_0000_0000 + r@[7] * 0x1_0000_0000 + r@[8] * 0x100_0000 + r@[9] * 0x1_0000
                + r@[10] * 0x100 + r@[11]
            &&& r@.skip(12) == data->0@
        },
{
    let view = match data {
        Some(bytes) => Some(bytes@),
        None => None,
    };
    response_round_trip(view);
    if data is Some {
        let size = r@.subrange(4, 12);
        u64_round_trip(data->0@.len() as u64);
        assert(size =~= be_u64(data->0@.len() as u64));
        assert(size.take(4) =~= seq![r@[4], r@[5], r@[6], r@[7]]);
        assert(size.skip(4) =~= seq![r@[8], r@[9], r@[10], r@[11]]);
    }
}

/// A node has the id that it was given, or a random one of 36 characters, and its
/// configuration.
pub proof fn node_has_its_configuration(
    id: String,
    config: PeerNodeConfig,
    known: PeerNode,
    random: PeerNode,
)
    requires
        call_ensures(PeerNode::with_id, (id, config), known),
        call_ensures(PeerNode::new, (config,), random),
    ensures
        known.node_id == id,
        known.config == config,
        random.config == config,
        random.node_id@.len() == 36,
{
}

/// The heartbeat of a node says who and where it is, and which chunks it holds: one bit each,
/// the most significant bit of each byte first.
pub proof fn heartbeat_reports_held_chunks(n: &PeerNode, b: &ChunkBitmap, r: Request)
    requires
        call_ensures(PeerNode::heartbeat, (n, b), r),
    ensures
        r is Heartbeat,
        r->Heartbeat_job_id@ == n.config.job_id@,
        r->Heartbeat_node_id@ == n.node_id@,
        r->Heartbeat_rack_id@ == n.config.rack_id@,
        r->peer_addr@ == n.config.peer_addr@,
        r->upload_bw_mbps == 8_000,
        8 * (r->bitmap_bytes@.len() - 1) < b@.bits.len() <= 8 * r->bitmap_bytes@.len(),
        forall|i: int|
            0 <= i < b@.bits.len() ==> (#[trigger] b@.bits[i] <==> r->bitmap_bytes@[i / 8] as int
                / pow2((7 - i % 8) as nat) as int % 2 == 1),
{
    let bytes = r->bitmap_bytes@;
    let all = unpacked(bytes);
    assert forall|i: int| 0 <= i < b@.bits.len() implies (#[trigger] b@.bits[i] <==> bytes[i
        / 8] as int / pow2((7 - i % 8) as nat) as int % 2 == 1) by {
        lemma_weight(i % 8);
        assert(all.take(b@.bits.len() as int)[i] == all[i]);
    }
}

/// A download runs on the node's own configuration and the manifest of the file.
pub proof fn download_runs_on_configuration(n: &PeerNode, m: &Manifest, r: DownloaderConfig)
    requires
        call_ensures(PeerNode::downloader_config, (n, m), r),
    ensures
        r.node_id@ == n.node_id@,
        r.job_id@ == n.config.job_id@,
        r.rack_id@ == n.config.rack_id@,
        r.tracker_addr@ == n.config.tracker_addr@,
        r.data_dir@ == n.config.data_dir@,
        r.concurrency == n.config.concurrency,
        r.manifest.file_id@ == m.file_id@,
        r.manifest.version@ == m.version@,
        r.manifest.total_size == m.total_size,
        r.manifest.chunk_size == m.chunk_size,
        r.manifest.chunk_count == m.chunk_count,
        r.manifest.chunk_hashes@.len() == m.chunk_hashes@.len(),
        forall|i: int|
            0 <= i < m.chunk_hashes@.len() ==> (#[trigger] r.manifest.chunk_hashes@[i])@
                == m.chunk_hashes@[i]@,
{
    assert(r.manifest@.file_id == r.manifest.file_id@);
    assert(r.manifest@.chunk_hashes.len() == r.manifest.chunk_hashes@.len());
    assert(m@.chunk_hashes.len() == m.chunk_hashes@.len());
    assert forall|i: int| 0 <= i < m.chunk_hashes@.len() implies (
    #[trigger] r.manifest.chunk_hashes@[i])@ == m.chunk_hashes@[i]@ by {
        assert(r.manifest@.chunk_hashes[i] == r.manifest.chunk_hashes@[i]@);
        assert(m@.chunk_hashes[i] == m.chunk_hashes@[i]@);
    }
}

/// A query for peers asks for what it is given.
pub proof fn peer_query_asks_for_chunk(
    job_id: &str,
    node_id: &str,
    rack_id: &str,
    chunk_index: u32,
    top_n: usize,
    r: Request,
)
    requires
        call_ensures(TrackerClient::get_peers, (job_id, node_id, rack_id, chunk_index, top_n), r),
    ensures
        r is GetPeers,
        r->GetPeers_job_id@ == job_id@,
        r->GetPeers_node_id@ == node_id@,
        r->GetPeers_rack_id@ == rack_id@,
        r->chunk_index == chunk_index,
        r->top_n == top_n,
{
}

/// A client takes from a reply the peers that it names, in their order, and nothing from any
/// other reply: an error comes as what the tracker says.
pub proof fn peers_come_from_their_reply<S, J>(
    reply: Response<S, J>,
    r: Result<Vec<PeerInfo>, ReplyError<S, J>>,
)
    requires
        call_ensures(TrackerClient::peer_list::<S, J>, (reply,), r),
    ensures
        r is Ok <==> reply is Peers,
        r is Ok ==> r->Ok_0 == reply->peers,
        reply is Error ==> r->Err_0 is Refused && r->Err_0->Refused_0 is Proto
            && r->Err_0->Refused_0->Proto_0 == reply->message,
        !(reply is Peers) && !(reply is Error) ==> r->Err_0 is Unexpected
            && r->Err_0->Unexpected_0 == reply,
{
}

/// A client takes from a reply the order of chunks that it gives, and nothing from any other.
pub proof fn order_comes_from_its_reply<S, J>(
    reply: Response<S, J>,
    r: Result<Vec<(u32, u32)>, ReplyError<S, J>>,
)
    requires
        call_ensures(TrackerClient::rarity_list::<S, J>, (reply,), r),
    ensures
        r is Ok <==> reply is Rarity,
        r is Ok ==> r->Ok_0 == reply->order,
        reply is Error ==> r->Err_0 is Refused && r->Err_0->Refused_0 is Proto
            && r->Err_0->Refused_0->Proto_0 == reply->message,
{
}

/// A client takes the status, the id of a new job, the acknowledgement of a heartbeat and a
/// plain acknowledgement each from the reply that carries it, and from no other.
pub proof fn results_come_from_their_replies<S, J>(
    reply: Response<S, J>,
    status: Result<S, ReplyError<S, J>>,
    created: Result<String, ReplyError<S, J>>,
    beat: Result<bool, ReplyError<S, J>>,
    ack: Result<(), ReplyError<S, J>>,
)
    requires
        call_ensures(TrackerClient::status_body::<S, J>, (reply,), status),
        call_ensures(TrackerClient::job_created::<S, J>, (reply,), created),
        call_ensures(TrackerClient::heartbeat_ack::<S, J>, (reply,), beat),
        call_ensures(TrackerClient::acknowledged::<S, J>, (reply,), ack),
    ensures
        status is Ok <==> reply is Status,
        status is Ok ==> status->Ok_0 == reply->body,
        created is Ok <==> reply is JobCreated,
        created is Ok ==> created->Ok_0 == reply->JobCreated_job_id,
        beat is Ok <==> reply is HeartbeatAck,
        beat is Ok ==> beat->Ok_0 == reply->job_complete,
        ack is Ok <==> reply is Ack,
{
}

/// The requests of a client name the job that they are about, and carry what they are given.
pub proof fn requests_name_their_job(
    job_id: &str,
    missing: Vec<u32>,
    manifest_bytes: Vec<u8>,
    policy: String,
    status: Request,
    cancel: Request,
    order: Request,
    create: Request,
)
    requires
        call_ensures(TrackerClient::job_status, (job_id,), status),
        call_ensures(TrackerClient::cancel_job, (job_id,), cancel),
        call_ensures(TrackerClient::get_rarity, (job_id, missing), order),
        call_ensures(TrackerClient::create_job, (manifest_bytes, policy), create),
    ensures
        status is GetStatus && status->GetStatus_job_id@ == job_id@,
        cancel is CancelJob && cancel->CancelJob_job_id@ == job_id@,
        order is GetRarity && order->GetRarity_job_id@ == job_id@ && order->missing == missing,
        create is CreateJob && create->manifest_bytes == manifest_bytes && create->policy == policy,
{
}

/// The text of an error says what went wrong, and where.
pub proof fn error_text_says_what(e: &DistError, r: String)
    requires
        call_ensures(DistError::message, (e,), r),
    ensures
        e is HashMismatch ==> r@ == "chunk hash mismatch for chunk "@ + decimal(e->index as nat)
            + ": expected="@ + e->expected@ + " got="@ + e->actual@,
        e is NoPeers ==> r@ == "no peers available for chunk "@ + decimal(e->NoPeers_0 as nat),
        e is JobNotFound ==> r@ == "job not found: "@ + e->JobNotFound_0@,
        e is NodeNotFound ==> r@ == "node not found: "@ + e->NodeNotFound_0@,
        e is ErasureError ==> r@ == "erasure coding error: "@ + e->ErasureError_0@,
        e is Proto ==> r@ == "protocol error: "@ + e->Proto_0@,
{
}

/// Nodes report every five seconds, and rounds are 50 milliseconds apart; five peers are asked
/// for at a time.
pub proof fn pace_of_a_node()
    ensures
        HEARTBEAT_INTERVAL_SECS == 5,
        ROUND_PAUSE_MS == 50,
        PEERS_PER_QUERY == 5,
        EVICTION_INTERVAL_SECS == 30,
{
}

/// A client sends a heartbeat as it is given, and its requests to the address that it was
/// given.
pub proof fn client_sends_what_it_is_given(
    addr: &str,
    c: TrackerClient,
    job_id: &str,
    node_id: &str,
    rack_id: &str,
    peer_addr: &str,
    bytes: &[u8],
    bw: u64,
    r: Request,
)
    requires
        call_ensures(TrackerClient::new, (addr,), c),
        call_ensures(
            TrackerClient::heartbeat,
            (job_id, node_id, rack_id, peer_addr, bytes, bw),
            r,
        ),
    ensures
        c.addr@ == addr@,
        r is Heartbeat,
        r->Heartbeat_job_id@ == job_id@,
        r->Heartbeat_node_id@ == node_id@,
        r->Heartbeat_rack_id@ == rack_id@,
        r->peer_addr@ == peer_addr@,
        r->bitmap_bytes@ == bytes@,
        r->upload_bw_mbps == bw,
{
}

/// A copy of a peer is the same peer.
pub proof fn copied_peer_is_the_same(p: &PeerInfo, r: PeerInfo)
    requires
        call_ensures(<PeerInfo as Clone>::clone, (p,), r),
    ensures
        r.node_id@ == p.node_id@,
        r.peer_addr@ == p.peer_addr@,
        r.rack_id@ == p.rack_id@,
        r.upload_bw_mbps == p.upload_bw_mbps,
{
    assert(r@.node_id == r.node_id@);
}

} // verus!
