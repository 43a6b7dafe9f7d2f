//! Laws of peer selection: whom the tracker names for a chunk, and which chunks come first.

use vstd::prelude::*;

use crate::error::DistError;
use crate::manifest::Manifest;
use crate::proto::{infos_of, Request};
use crate::sorting::{arranged, comes_before, ranks};
use crate::tracker::job::{Job, JobView};
use crate::tracker::node::NodeView;
use crate::tracker::registry::Tracker;
use crate::tracker::scheduler::{
    as_candidate, cost_for, offers, offers_in_order, peers_of, rarity_first, rarity_keys,
    rarity_order, sources, topology_aware, with_replicas, CandidatePeer, PeerView,
};
use crate::tracker::server::{dispatch, Answer};

verus! {

proof fn lemma_offered(
    list: Seq<PeerView>,
    job: JobView,
    from: Set<Seq<char>>,
    cost: spec_fn(NodeView) -> int,
    top_n: int,
) -> (ids: Seq<Seq<char>>)
    requires
        offers(list, job, from, cost, top_n),
        0 <= top_n,
    ensures
        ids.no_duplicates(),
        forall|id: Seq<char>| #[trigger] ids.contains(id) <==> from.contains(id),
        forall|i: int, j: int|
            #![trigger ids[i], ids[j]]
            0 <= i < j < ids.len() ==> cost(job.nodes[ids[i]]) <= cost(job.nodes[ids[j]]),
        list.len() == if top_n < ids.len() {
            top_n
        } else {
            ids.len() as int
        },
        forall|i: int|
            0 <= i < list.len() ==> #[trigger] list[i] == as_candidate(job.nodes[ids[i]]),
{
    let ids = choose|ids: Seq<Seq<char>>| #[trigger]
        offers_in_order(list, job, from, cost, top_n, ids);
    assert forall|id: Seq<char>| #[trigger] ids.contains(id) <==> from.contains(id) by {
        assert(ids.to_set().contains(id) <==> from.contains(id));
    }
    ids
}

/// Rarity-first: the peers are the first of the nodes that hold the chunk, the requester left
/// out, each once and none before a faster one; as many as there are, up to `top_n`.
pub proof fn rarity_first_names_fastest_holders(
    job: &Job,
    requester_id: &str,
    chunk_index: u32,
    top_n: usize,
    r: Vec<CandidatePeer>,
)
    requires
        call_ensures(rarity_first, (job, requester_id, chunk_index, top_n), r),
    ensures
        ({
            let nodes = job@.nodes;
            let peers = r@;
            exists|ids: Seq<Seq<char>>|
                {
                    &&& #[trigger] ids.no_duplicates()
                    &&& forall|id: Seq<char>| #[trigger]
                        ids.contains(id) <==> nodes.contains_key(id) && nodes[id].node_id
                            != requester_id@ && chunk_index < nodes[id].bitmap.chunk_count
                            && nodes[id].bitmap.bits[chunk_index as int]
                    &&& forall|i: int, j: int|
                        #![trigger ids[i], ids[j]]
                        0 <= i < j < ids.len() ==> nodes[ids[i]].upload_bw_mbps
                            >= nodes[ids[j]].upload_bw_mbps
                    &&& peers.len() == if top_n < ids.len() {
                        top_n as int
                    } else {
                        ids.len() as int
                    }
                    &&& forall|i: int|
                        0 <= i < peers.len() ==> (#[trigger] peers[i]).node_id@
                            == nodes[ids[i]].node_id && peers[i].peer_addr@
                            == nodes[ids[i]].peer_addr && peers[i].rack_id@
                            == nodes[ids[i]].rack_id && peers[i].upload_bw_mbps
                            == nodes[ids[i]].upload_bw_mbps
                }
        }),
{
    let job = job@;
    let nodes = job.nodes;
    let peers = r@;
    let cost = cost_for(None);
    let from = sources(job, requester_id@, chunk_index);
    let list = peers_of(peers);
    let ids = lemma_offered(list, job, from, cost, top_n as int);
    assert forall|i: int, j: int|
        #![trigger ids[i], ids[j]]
        0 <= i < j < ids.len() implies nodes[ids[i]].upload_bw_mbps >= nodes[ids[j]].upload_bw_mbps by {
        assert(cost(nodes[ids[i]]) <= cost(nodes[ids[j]]));
    }
    assert forall|i: int| 0 <= i < peers.len() implies (#[trigger] peers[i]).node_id@
        == nodes[ids[i]].node_id && peers[i].peer_addr@ == nodes[ids[i]].peer_addr
        && peers[i].rack_id@ == nodes[ids[i]].rack_id && peers[i].upload_bw_mbps
        == nodes[ids[i]].upload_bw_mbps by {
        assert(list[i] == peers[i]@);
        assert(list[i] == as_candidate(nodes[ids[i]]));
    }
    assert(ids.no_duplicates());
}

/// Topology-aware: the peers are the first of the nodes that hold the chunk, the requester
/// left out, each once: those of the requester's rack before all others, and on either side
/// none before a faster one; as many as there are, up to `top_n`.
pub proof fn topology_aware_names_own_rack_first(
    job: &Job,
    requester_id: &str,
    requester_rack: &str,
    chunk_index: u32,
    top_n: usize,
    r: Vec<CandidatePeer>,
)
    requires
        call_ensures(topology_aware, (job, requester_id, requester_rack, chunk_index, top_n), r),
    ensures
        ({
            let nodes = job@.nodes;
            let peers = r@;
            exists|ids: Seq<Seq<char>>|
                {
                    &&& #[trigger] ids.no_duplicates()
                    &&& forall|id: Seq<char>| #[trigger]
                        ids.contains(id) <==> nodes.contains_key(id) && nodes[id].node_id
                            != requester_id@ && chunk_index < nodes[id].bitmap.chunk_count
                            && nodes[id].bitmap.bits[chunk_index as int]
                    &&& forall|i: int, j: int|
                        #![trigger ids[i], ids[j]]
                        0 <= i < j < ids.len() ==> if (nodes[ids[i]].rack_id == requester_rack@) == (
                        nodes[ids[j]].rack_id == requester_rack@) {
                            nodes[ids[i]].upload_bw_mbps >= nodes[ids[j]].upload_bw_mbps
                        } else {
                            nodes[ids[i]].rack_id == requester_rack@
                        }
                    &&& peers.len() == if top_n < ids.len() {
                        top_n as int
                    } else {
                        ids.len() as int
                    }
                    &&& forall|i: int|
                        0 <= i < peers.len() ==> (#[trigger] peers[i]).node_id@
                            == nodes[ids[i]].node_id && peers[i].peer_addr@
                            == nodes[ids[i]].peer_addr && peers[i].rack_id@
                            == nodes[ids[i]].rack_id && peers[i].upload_bw_mbps
                            == nodes[ids[i]].upload_bw_mbps
                }
        }),
{
    let job = job@;
    let nodes = job.nodes;
    let peers = r@;
    let cost = cost_for(Some(requester_rack@));
    let from = sources(job, requester_id@, chunk_index);
    let list = peers_of(peers);
    let ids = lemma_offered(list, job, from, cost, top_n as int);
    assert forall|i: int, j: int|
        #![trigger ids[i], ids[j]]
        0 <= i < j < ids.len() implies if (nodes[ids[i]].rack_id == requester_rack@) == (
        nodes[ids[j]].rack_id == requester_rack@) {
            nodes[ids[i]].upload_bw_mbps >= nodes[ids[j]].upload_bw_mbps
        } else {
            nodes[ids[i]].rack_id == requester_rack@
        } by {
        assert(cost(nodes[ids[i]]) <= cost(nodes[ids[j]]));
    }
    assert forall|i: int| 0 <= i < peers.len() implies (#[trigger] peers[i]).node_id@
        == nodes[ids[i]].node_id && peers[i].peer_addr@ == nodes[ids[i]].peer_addr
        && peers[i].rack_id@ == nodes[ids[i]].rack_id && peers[i].upload_bw_mbps
        == nodes[ids[i]].upload_bw_mbps by {
        assert(list[i] == peers[i]@);
        assert(list[i] == as_candidate(nodes[ids[i]]));
    }
    assert(ids.no_duplicates());
}

/// A query to a rarity-first job names the fastest of the other nodes that hold the chunk.
pub proof fn query_by_rarity(
    t: &Tracker,
    job_id: &str,
    requester_id: &str,
    requester_rack: &str,
    chunk_index: u32,
    top_n: usize,
    r: Result<Vec<CandidatePeer>, DistError>,
)
    requires
        call_ensures(
            Tracker::get_peers,
            (t, job_id, requester_id, requester_rack, chunk_index, top_n),
            r,
        ),
        t@.jobs.contains_key(job_id@),
        t@.jobs[job_id@].policy is RarityFirst,
    ensures
        r is Ok,
        ({
            let nodes = t@.jobs[job_id@].nodes;
            let peers = r->Ok_0@;
            exists|ids: Seq<Seq<char>>|
                {
                    &&& #[trigger] ids.no_duplicates()
                    &&& forall|id: Seq<char>| #[trigger]
                        ids.contains(id) <==> nodes.contains_key(id) && nodes[id].node_id
                            != requester_id@ && chunk_index < nodes[id].bitmap.chunk_count
                            && nodes[id].bitmap.bits[chunk_index as int]
                    &&& forall|i: int, j: int|
                        #![trigger ids[i], ids[j]]
                        0 <= i < j < ids.len() ==> nodes[ids[i]].upload_bw_mbps
                            >= nodes[ids[j]].upload_bw_mbps
                    &&& peers.len() == if top_n < ids.len() {
                        top_n as int
                    } else {
                        ids.len() as int
                    }
                    &&& forall|i: int|
                        0 <= i < peers.len() ==> (#[trigger] peers[i]).node_id@
                            == nodes[ids[i]].node_id && peers[i].peer_addr@
                            == nodes[ids[i]].peer_addr && peers[i].rack_id@
                            == nodes[ids[i]].rack_id && peers[i].upload_bw_mbps
                            == nodes[ids[i]].upload_bw_mbps
                }
        }),
{
    let job = t@.jobs[job_id@];
    let nodes = job.nodes;
    let peers = r->Ok_0@;
    let cost = cost_for(None);
    let from = sources(job, requester_id@, chunk_index);
    let list = peers_of(peers);
    let ids = lemma_offered(list, job, from, cost, top_n as int);
    assert forall|i: int, j: int|
        #![trigger ids[i], ids[j]]
        0 <= i < j < ids.len() implies nodes[ids[i]].upload_bw_mbps >= nodes[ids[j]].upload_bw_mbps by {
        assert(cost(nodes[ids[i]]) <= cost(nodes[ids[j]]));
    }
    assert forall|i: int| 0 <= i < peers.len() implies (#[trigger] peers[i]).node_id@
        == nodes[ids[i]].node_id && peers[i].peer_addr@ == nodes[ids[i]].peer_addr
        && peers[i].rack_id@ == nodes[ids[i]].rack_id && peers[i].upload_bw_mbps
        == nodes[ids[i]].upload_bw_mbps by {
        assert(list[i] == peers[i]@);
        assert(list[i] == as_candidate(nodes[ids[i]]));
    }
    assert(ids.no_duplicates());
}

/// A query to a topology-aware job names the other nodes that hold the chunk, those on the rack
/// of the requester first.
pub proof fn query_by_topology(
    t: &Tracker,
    job_id: &str,
    requester_id: &str,
    requester_rack: &str,
    chunk_index: u32,
    top_n: usize,
    r: Result<Vec<CandidatePeer>, DistError>,
)
    requires
        call_ensures(
            Tracker::get_peers,
            (t, job_id, requester_id, requester_rack, chunk_index, top_n),
            r,
        ),
        t@.jobs.contains_key(job_id@),
        t@.jobs[job_id@].policy is TopologyAware,
    ensures
        r is Ok,
        ({
            let nodes = t@.jobs[job_id@].nodes;
            let peers = r->Ok_0@;
            exists|ids: Seq<Seq<char>>|
                {
                    &&& #[trigger] ids.no_duplicates()
                    &&& forall|id: Seq<char>| #[trigger]
                        ids.contains(id) <==> nodes.contains_key(id) && nodes[id].node_id
                            != requester_id@ && chunk_index < nodes[id].bitmap.chunk_count
                            && nodes[id].bitmap.bits[chunk_index as int]
                    &&& forall|i: int, j: int|
                        #![trigger ids[i], ids[j]]
                        0 <= i < j < ids.len() ==> if (nodes[ids[i]].rack_id == requester_rack@) == (
                        nodes[ids[j]].rack_id == requester_rack@) {
                            nodes[ids[i]].upload_bw_mbps >= nodes[ids[j]].upload_bw_mbps
                        } else {
                            nodes[ids[i]].rack_id == requester_rack@
                        }
                    &&& peers.len() == if top_n < ids.len() {
                        top_n as int
                    } else {
                        ids.len() as int
                    }
                    &&& forall|i: int|
                        0 <= i < peers.len() ==> (#[trigger] peers[i]).node_id@
                            == nodes[ids[i]].node_id && peers[i].peer_addr@
                            == nodes[ids[i]].peer_addr && peers[i].rack_id@
                            == nodes[ids[i]].rack_id && peers[i].upload_bw_mbps
                            == nodes[ids[i]].upload_bw_mbps
                }
        }),
{
    let job = t@.jobs[job_id@];
    let nodes = job.nodes;
    let peers = r->Ok_0@;
    let cost = cost_for(Some(requester_rack@));
    let from = sources(job, requester_id@, chunk_index);
    let list = peers_of(peers);
    let ids = lemma_offered(list, job, from, cost, top_n as int);
    assert forall|i: int, j: int|
        #![trigger ids[i], ids[j]]
        0 <= i < j < ids.len() implies if (nodes[ids[i]].rack_id == requester_rack@) == (
        nodes[ids[j]].rack_id == requester_rack@) {
            nodes[ids[i]].upload_bw_mbps >= nodes[ids[j]].upload_bw_mbps
        } else {
            nodes[ids[i]].rack_id == requester_rack@
        } by {
        assert(cost(nodes[ids[i]]) <= cost(nodes[ids[j]]));
    }
    assert forall|i: int| 0 <= i < peers.len() implies (#[trigger] peers[i]).node_id@
        == nodes[ids[i]].node_id && peers[i].peer_addr@ == nodes[ids[i]].peer_addr
        && peers[i].rack_id@ == nodes[ids[i]].rack_id && peers[i].upload_bw_mbps
        == nodes[ids[i]].upload_bw_mbps by {
        assert(list[i] == peers[i]@);
        assert(list[i] == as_candidate(nodes[ids[i]]));
    }
    assert(ids.no_duplicates());
}

/// The answer to a request for the peers of a chunk of a rarity-first job: the fastest of the
/// other nodes that hold the chunk.
pub proof fn answer_by_rarity(
    t: &mut Tracker,
    job_id: String,
    node_id: String,
    rack_id: String,
    chunk_index: u32,
    top_n: usize,
    decoded: Option<Result<Manifest, String>>,
    now: u64,
    created_at: u64,
    a: Answer,
)
    requires
        call_ensures(
            dispatch,
            (
                t,
                Request::GetPeers { job_id, node_id, rack_id, chunk_index, top_n },
                decoded,
                now,
                created_at,
            ),
            a,
        ),
        old(t)@.jobs.contains_key(job_id@),
        old(t)@.jobs[job_id@].policy is RarityFirst,
    ensures
        a.response is Peers,
        ({
            let nodes = old(t)@.jobs[job_id@].nodes;
            let peers = a.response->peers@;
            exists|ids: Seq<Seq<char>>|
                {
                    &&& #[trigger] ids.no_duplicates()
                    &&& forall|id: Seq<char>| #[trigger]
                        ids.contains(id) <==> nodes.contains_key(id) && nodes[id].node_id
                            != node_id@ && chunk_index < nodes[id].bitmap.chunk_count
                            && nodes[id].bitmap.bits[chunk_index as int]
                    &&& forall|i: int, j: int|
                        #![trigger ids[i], ids[j]]
                        0 <= i < j < ids.len() ==> nodes[ids[i]].upload_bw_mbps
                            >= nodes[ids[j]].upload_bw_mbps
                    &&& peers.len() == if top_n < ids.len() {
                        top_n as int
                    } else {
                        ids.len() as int
                    }
                    &&& forall|i: int|
                        0 <= i < peers.len() ==> (#[trigger] peers[i]).node_id@
                            == nodes[ids[i]].node_id && peers[i].peer_addr@
                            == nodes[ids[i]].peer_addr && peers[i].rack_id@
                            == nodes[ids[i]].rack_id && peers[i].upload_bw_mbps
                            == nodes[ids[i]].upload_bw_mbps
                }
        }),
{
    let job = old(t)@.jobs[job_id@];
    let nodes = job.nodes;
    let peers = a.response->peers@;
    let cost = cost_for(None);
    let from = sources(job, node_id@, chunk_index);
    let list = infos_of(peers);
    let ids = lemma_offered(list, job, from, cost, top_n as int);
    assert forall|i: int, j: int|
        #![trigger ids[i], ids[j]]
        0 <= i < j < ids.len() implies nodes[ids[i]].upload_bw_mbps >= nodes[ids[j]].upload_bw_mbps by {
        assert(cost(nodes[ids[i]]) <= cost(nodes[ids[j]]));
    }
    assert forall|i: int| 0 <= i < peers.len() implies (#[trigger] peers[i]).node_id@
        == nodes[ids[i]].node_id && peers[i].peer_addr@ == nodes[ids[i]].peer_addr
        && peers[i].rack_id@ == nodes[ids[i]].rack_id && peers[i].upload_bw_mbps
        == nodes[ids[i]].upload_bw_mbps by {
        assert(list[i] == peers[i]@);
        assert(list[i] == as_candidate(nodes[ids[i]]));
    }
    assert(ids.no_duplicates());
}

/// The answer to a request for the peers of a chunk of a topology-aware job: the other nodes
/// that hold the chunk, those of the rack that the request names first.
pub proof fn answer_by_topology(
    t: &mut Tracker,
    job_id: String,
    node_id: String,
    rack_id: String,
    chunk_index: u32,
    top_n: usize,
    decoded: Option<Result<Manifest, String>>,
    now: u64,
    created_at: u64,
    a: Answer,
)
    requires
        call_ensures(
            dispatch,
            (
                t,
                Request::GetPeers { job_id, node_id, rack_id, chunk_index, top_n },
                decoded,
                now,
                created_at,
            ),
            a,
        ),
        old(t)@.jobs.contains_key(job_id@),
        old(t)@.jobs[job_id@].policy is TopologyAware,
    ensures
        a.response is Peers,
        ({
            let nodes = old(t)@.jobs[job_id@].nodes;
            let peers = a.response->peers@;
            exists|ids: Seq<Seq<char>>|
                {
                    &&& #[trigger] ids.no_duplicates()
                    &&& forall|id: Seq<char>| #[trigger]
                        ids.contains(id) <==> nodes.contains_key(id) && nodes[id].node_id
                            != node_id@ && chunk_index < nodes[id].bitmap.chunk_count
                            && nodes[id].bitmap.bits[chunk_index as int]
                    &&& forall|i: int, j: int|
                        #![trigger ids[i], ids[j]]
                        0 <= i < j < ids.len() ==> if (nodes[ids[i]].rack_id == rack_id@) == (
                        nodes[ids[j]].rack_id == rack_id@) {
                            nodes[ids[i]].upload_bw_mbps >= nodes[ids[j]].upload_bw_mbps
                        } else {
                            nodes[ids[i]].rack_id == rack_id@
                        }
                    &&& peers.len() == if top_n < ids.len() {
                        top_n as int
                    } else {
                        ids.len() as int
                    }
                    &&& forall|i: int|
                        0 <= i < peers.len() ==> (#[trigger] peers[i]).node_id@
                            == nodes[ids[i]].node_id && peers[i].peer_addr@
                            == nodes[ids[i]].peer_addr && peers[i].rack_id@
                            == nodes[ids[i]].rack_id && peers[i].upload_bw_mbps
                            == nodes[ids[i]].upload_bw_mbps
                }
        }),
{
    let job = old(t)@.jobs[job_id@];
    let nodes = job.nodes;
    let peers = a.response->peers@;
    let cost = cost_for(Some(rack_id@));
    let from = sources(job, node_id@, chunk_index);
    let list = infos_of(peers);
    let ids = lemma_offered(list, job, from, cost, top_n as int);
    assert forall|i: int, j: int|
        #![trigger ids[i], ids[j]]
        0 <= i < j < ids.len() implies if (nodes[ids[i]].rack_id == rack_id@) == (
        nodes[ids[j]].rack_id == rack_id@) {
            nodes[ids[i]].upload_bw_mbps >= nodes[ids[j]].upload_bw_mbps
        } else {
            nodes[ids[i]].rack_id == rack_id@
        } by {
        assert(cost(nodes[ids[i]]) <= cost(nodes[ids[j]]));
    }
    assert forall|i: int| 0 <= i < peers.len() implies (#[trigger] peers[i]).node_id@
        == nodes[ids[i]].node_id && peers[i].peer_addr@ == nodes[ids[i]].peer_addr
        && peers[i].rack_id@ == nodes[ids[i]].rack_id && peers[i].upload_bw_mbps
        == nodes[ids[i]].upload_bw_mbps by {
        assert(list[i] == peers[i]@);
        assert(list[i] == as_candidate(nodes[ids[i]]));
    }
    assert(ids.no_duplicates());
}

/// In the answer of a topology-aware job, every peer of the rack that the request names comes
/// before every peer of another rack; and as long as one of another rack is named, no node of
/// that rack that holds the chunk is left out.
pub proof fn own_rack_is_exhausted_first(
    t: &mut Tracker,
    job_id: String,
    node_id: String,
    rack_id: String,
    chunk_index: u32,
    top_n: usize,
    decoded: Option<Result<Manifest, String>>,
    now: u64,
    created_at: u64,
    a: Answer,
)
    requires
        call_ensures(
            dispatch,
            (
                t,
                Request::GetPeers { job_id, node_id, rack_id, chunk_index, top_n },
                decoded,
                now,
                created_at,
            ),
            a,
        ),
        old(t)@.jobs.contains_key(job_id@),
        old(t)@.jobs[job_id@].policy is TopologyAware,
    ensures
        a.response is Peers,
        forall|i: int, j: int|
            0 <= i < j < a.response->peers@.len() && (
            #[trigger] a.response->peers@[j]).rack_id@ == rack_id@ ==> (
            #[trigger] a.response->peers@[i]).rack_id@ == rack_id@,
        forall|id: Seq<char>, i: int|
            #![trigger old(t)@.jobs[job_id@].nodes[id], a.response->peers@[i]]
            ({
                let node = old(t)@.jobs[job_id@].nodes[id];
                &&& old(t)@.jobs[job_id@].nodes.contains_key(id)
                &&& node.node_id != node_id@
                &&& node.rack_id == rack_id@
                &&& chunk_index < node.bitmap.chunk_count && node.bitmap.bits[chunk_index as int]
                &&& 0 <= i < a.response->peers@.len()
                &&& a.response->peers@[i].rack_id@ != rack_id@
            }) ==> exists|k: int|
                0 <= k < i && (#[trigger] a.response->peers@[k]).node_id@
                    == old(t)@.jobs[job_id@].nodes[id].node_id
                    && a.response->peers@[k].peer_addr@
                    == old(t)@.jobs[job_id@].nodes[id].peer_addr,
{
    let nodes = old(t)@.jobs[job_id@].nodes;
    let peers = a.response->peers@;
    answer_by_topology(
        t,
        job_id,
        node_id,
        rack_id,
        chunk_index,
        top_n,
        decoded,
        now,
        created_at,
        a,
    );
    let ids = choose|ids: Seq<Seq<char>>|
        {
            &&& #[trigger] ids.no_duplicates()
            &&& forall|id: Seq<char>| #[trigger]
                ids.contains(id) <==> nodes.contains_key(id) && nodes[id].node_id != node_id@
                    && chunk_index < nodes[id].bitmap.chunk_count
                    && nodes[id].bitmap.bits[chunk_index as int]
            &&& forall|i: int, j: int|
                #![trigger ids[i], ids[j]]
                0 <= i < j < ids.len() ==> if (nodes[ids[i]].rack_id == rack_id@) == (
                nodes[ids[j]].rack_id == rack_id@) {
                    nodes[ids[i]].upload_bw_mbps >= nodes[ids[j]].upload_bw_mbps
                } else {
                    nodes[ids[i]].rack_id == rack_id@
                }
            &&& peers.len() == if top_n < ids.len() {
                top_n as int
            } else {
                ids.len() as int
            }
            &&& forall|i: int|
                0 <= i < peers.len() ==> (#[trigger] peers[i]).node_id@ == nodes[ids[i]].node_id
                    && peers[i].peer_addr@ == nodes[ids[i]].peer_addr && peers[i].rack_id@
                    == nodes[ids[i]].rack_id && peers[i].upload_bw_mbps
                    == nodes[ids[i]].upload_bw_mbps
        };
    assert forall|i: int, j: int|
        0 <= i < j < peers.len() && (#[trigger] peers[j]).rack_id@ == rack_id@ implies (
    #[trigger] peers[i]).rack_id@ == rack_id@ by {
        assert(ids[i] == ids[i] && ids[j] == ids[j]);
    }
    assert forall|id: Seq<char>, i: int|
        #![trigger nodes[id], peers[i]]
        nodes.contains_key(id) && nodes[id].node_id != node_id@ && nodes[id].rack_id == rack_id@
            && chunk_index < nodes[id].bitmap.chunk_count
            && nodes[id].bitmap.bits[chunk_index as int] && 0 <= i < peers.len()
            && peers[i].rack_id@ != rack_id@ implies exists|k: int|
        0 <= k < i && (#[trigger] peers[k]).node_id@ == nodes[id].node_id && peers[k].peer_addr@
            == nodes[id].peer_addr by {
        assert(ids.contains(id));
        let k = choose|k: int| 0 <= k < ids.len() && ids[k] == id;
        assert(ids[i] == ids[i] && ids[k] == id);
        assert(k < i);
        assert(peers[k].node_id@ == nodes[id].node_id);
    }
}

/// The order by rarity lists the missing chunks, each in one place, with the number of nodes
/// that have its bit: those with fewer first, and those with as many as they were given.
pub proof fn rarest_chunks_come_first(job: &Job, missing: &[u32], r: Vec<(u32, u32)>)
    requires
        call_ensures(rarity_order, (job, missing), r),
    ensures
        ({
            let job = job@;
            let listed = missing@;
            let ranked = r@;
            exists|order: Seq<usize>|
                {
                    &&& #[trigger] order.no_duplicates()
                    &&& order.len() == listed.len() == ranked.len()
                    &&& forall|i: int|
                        #![trigger order[i]]
                        0 <= i < order.len() ==> order[i] < listed.len() && ranked[i].0
                            == listed[order[i] as int]
                    &&& forall|i: int|
                        #![trigger ranked[i]]
                        0 <= i < ranked.len() ==> ranked[i].1 == if ranked[i].0
                            < job.manifest.chunk_count {
                            job.nodes.dom().filter(
                                |id: Seq<char>|
                                    ranked[i].0 < job.nodes[id].bitmap.chunk_count
                                        && job.nodes[id].bitmap.bits[ranked[i].0 as int],
                            ).len()
                        } else {
                            0
                        }
                    &&& forall|i: int, j: int|
                        #![trigger order[i], order[j]]
                        0 <= i < j < order.len() ==> ranked[i].1 < ranked[j].1 || (ranked[i].1
                            == ranked[j].1 && order[i] < order[j])
                }
        }),
{
    let job = job@;
    let listed = missing@;
    let ranked = r@;
    let pairs = with_replicas(job, listed);
    let keys = rarity_keys(pairs);
    let order = choose|order: Seq<usize>| #[trigger]
        ranks(order, keys) && ranked == arranged(pairs, order);
    assert(order.no_duplicates()) by {
        assert forall|i: int, j: int|
            0 <= i < order.len() && 0 <= j < order.len() && i != j implies order[i] != order[j] by {
            if i < j {
                assert(comes_before(keys, order[i], order[j]));
            } else {
                assert(comes_before(keys, order[j], order[i]));
            }
        }
    }
    assert forall|i: int|
        #![trigger ranked[i]]
        0 <= i < ranked.len() implies ranked[i].1 == if ranked[i].0 < job.manifest.chunk_count {
        job.nodes.dom().filter(
            |id: Seq<char>|
                ranked[i].0 < job.nodes[id].bitmap.chunk_count
                    && job.nodes[id].bitmap.bits[ranked[i].0 as int],
        ).len()
    } else {
        0
    } by {
        assert(job.holders(ranked[i].0) =~= job.nodes.dom().filter(
            |id: Seq<char>|
                ranked[i].0 < job.nodes[id].bitmap.chunk_count
                    && job.nodes[id].bitmap.bits[ranked[i].0 as int],
        ));
    }
    assert forall|i: int, j: int|
        #![trigger order[i], order[j]]
        0 <= i < j < order.len() implies ranked[i].1 < ranked[j].1 || (ranked[i].1 == ranked[j].1
        && order[i] < order[j]) by {
        assert(comes_before(keys, order[i], order[j]));
    }
}

/// The answer to a request for the order of missing chunks: the rarest first, as above.
pub proof fn answered_order_is_rarest_first(
    t: &mut Tracker,
    job_id: String,
    missing: Vec<u32>,
    decoded: Option<Result<Manifest, String>>,
    now: u64,
    created_at: u64,
    a: Answer,
)
    requires
        call_ensures(
            dispatch,
            (t, Request::GetRarity { job_id, missing }, decoded, now, created_at),
            a,
        ),
        old(t)@.jobs.contains_key(job_id@),
    ensures
        a.response is Rarity,
        ({
            let job = old(t)@.jobs[job_id@];
            let listed = missing@;
            let ranked = a.response->order@;
            exists|order: Seq<usize>|
                {
                    &&& #[trigger] order.no_duplicates()
                    &&& order.len() == listed.len() == ranked.len()
                    &&& forall|i: int|
                        #![trigger order[i]]
                        0 <= i < order.len() ==> order[i] < listed.len() && ranked[i].0
                            == listed[order[i] as int]
                    &&& forall|i: int|
                        #![trigger ranked[i]]
                        0 <= i < ranked.len() ==> ranked[i].1 == if ranked[i].0
                            < job.manifest.chunk_count {
                            job.nodes.dom().filter(
                                |id: Seq<char>|
                                    ranked[i].0 < job.nodes[id].bitmap.chunk_count
                                        && job.nodes[id].bitmap.bits[ranked[i].0 as int],
                            ).len()
                        } else {
                            0
                        }
                    &&& forall|i: int, j: int|
                        #![trigger order[i], order[j]]
                        0 <= i < j < order.len() ==> ranked[i].1 < ranked[j].1 || (ranked[i].1
                            == ranked[j].1 && order[i] < order[j])
                }
        }),
{
    let job = old(t)@.jobs[job_id@];
    let listed = missing@;
    let ranked = a.response->order@;
    let pairs = with_replicas(job, listed);
    let keys = rarity_keys(pairs);
    let order = choose|order: Seq<usize>| #[trigger]
        ranks(order, keys) && ranked == arranged(pairs, order);
    assert(order.no_duplicates()) by {
        assert forall|i: int, j: int|
            0 <= i < order.len() && 0 <= j < order.len() && i != j implies order[i] != order[j] by {
            if i < j {
                assert(comes_before(keys, order[i], order[j]));
            } else {
                assert(comes_before(keys, order[j], order[i]));
            }
        }
    }
    assert forall|i: int|
        #![trigger ranked[i]]
        0 <= i < ranked.len() implies ranked[i].1 == if ranked[i].0 < job.manifest.chunk_count {
        job.nodes.dom().filter(
            |id: Seq<char>|
                ranked[i].0 < job.nodes[id].bitmap.chunk_count
                    && job.nodes[id].bitmap.bits[ranked[i].0 as int],
        ).len()
    } else {
        0
    } by {
        assert(job.holders(ranked[i].0) =~= job.nodes.dom().filter(
            |id: Seq<char>|
                ranked[i].0 < job.nodes[id].bitmap.chunk_count
                    && job.nodes[id].bitmap.bits[ranked[i].0 as int],
        ));
    }
    assert forall|i: int, j: int|
        #![trigger order[i], order[j]]
        0 <= i < j < order.len() implies ranked[i].1 < ranked[j].1 || (ranked[i].1 == ranked[j].1
        && order[i] < order[j]) by {
        assert(comes_before(keys, order[i], order[j]));
    }
}

} // verus!
