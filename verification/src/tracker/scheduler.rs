//! Peer selection: which nodes a chunk is fetched from, and which chunks come first.

use vstd::prelude::*;

use crate::erasure::at_most;
use crate::manifest::texts;
use crate::sorting::{
    arranged, comes_before, rank, ranking_is_permutation, ranking_is_stable, ranking_unique, ranks,
};
use crate::text::str_eq;
use crate::tracker::job::{Job, JobView};
use crate::tracker::node::{NodeState, NodeView};
use crate::tracker::tables::{find_node, guarded_node_value, lists_keys, node_keys};

verus! {

/// A peer that a node can fetch a chunk from.
#[derive(Debug)]
pub struct CandidatePeer {
    pub node_id: String,
    pub peer_addr: String,
    pub rack_id: String,
    pub upload_bw_mbps: u64,
}

/// The content of a candidate.
#[verifier::ext_equal]
pub struct PeerView {
    pub node_id: Seq<char>,
    pub peer_addr: Seq<char>,
    pub rack_id: Seq<char>,
    pub upload_bw_mbps: u64,
}

impl View for CandidatePeer {
    type V = PeerView;

    open spec fn view(&self) -> PeerView {
        PeerView {
            node_id: self.node_id@,
            peer_addr: self.peer_addr@,
            rack_id: self.rack_id@,
            upload_bw_mbps: self.upload_bw_mbps,
        }
    }
}

impl Clone for CandidatePeer {
    fn clone(&self) -> (r: Self)
        ensures
            r@ == self@,
    {
        CandidatePeer {
            node_id: self.node_id.clone(),
            peer_addr: self.peer_addr.clone(),
            rack_id: self.rack_id.clone(),
            upload_bw_mbps: self.upload_bw_mbps,
        }
    }
}

/// A node as a candidate.
pub open spec fn as_candidate(node: NodeView) -> PeerView {
    PeerView {
        node_id: node.node_id,
        peer_addr: node.peer_addr,
        rack_id: node.rack_id,
        upload_bw_mbps: node.upload_bw_mbps,
    }
}

/// The content of each candidate of a list.
pub open spec fn peers_of(list: Seq<CandidatePeer>) -> Seq<PeerView> {
    list.map_values(|p: CandidatePeer| p@)
}

/// The keys of the nodes that can give chunk `index` to the node `requester`: the other
/// nodes that hold it.
pub open spec fn sources(job: JobView, requester: Seq<char>, index: u32) -> Set<Seq<char>> {
    job.nodes.dom().filter(
        |id: Seq<char>| job.nodes[id].node_id != requester && job.nodes[id].bitmap.holds(index),
    )
}

/// The bitmaps of the nodes other than `requester` answer for chunk `index`.
pub open spec fn sources_known(job: JobView, requester: Seq<char>, index: u32) -> bool {
    forall|id: Seq<char>| #[trigger]
        job.nodes.contains_key(id) ==> job.nodes[id].node_id == requester
            || job.nodes[id].bitmap.covers(index)
}

/// A node comes before those with a greater cost: the more bandwidth, the smaller.
pub open spec fn bandwidth_cost(node: NodeView) -> int {
    u64::MAX - node.upload_bw_mbps
}

/// The cost of a node for a requester on a rack: every node of that rack is before every
/// other, and among the nodes of the rack, as among the others, bandwidth decides.
pub open spec fn distance_cost(node: NodeView, rack: Seq<char>) -> int {
    bandwidth_cost(node) + if node.rack_id == rack {
        0
    } else {
        u64::MAX + 1
    }
}

/// `list` gives, in the order of `ids`, the first `top_n` of the sources of a chunk, with
/// ascending cost. The order of nodes of the same cost is open.
pub open spec fn offers_in_order(
    list: Seq<PeerView>,
    job: JobView,
    from: Set<Seq<char>>,
    cost: spec_fn(NodeView) -> int,
    top_n: int,
    ids: Seq<Seq<char>>,
) -> bool {
    &&& lists_keys(ids, from)
    &&& forall|i: int, j: int|
        0 <= i < j < ids.len() ==> #[trigger] cost(job.nodes[ids[i]]) <= #[trigger] cost(
            job.nodes[ids[j]],
        )
    &&& list == at_most(ids.map_values(|id: Seq<char>| as_candidate(job.nodes[id])), top_n)
}

/// `list` gives the first `top_n` of the sources of a chunk, with ascending cost.
pub open spec fn offers(
    list: Seq<PeerView>,
    job: JobView,
    from: Set<Seq<char>>,
    cost: spec_fn(NodeView) -> int,
    top_n: int,
) -> bool {
    exists|ids: Seq<Seq<char>>| #[trigger]
        offers_in_order(list, job, from, cost, top_n, ids)
}

/// Sources of a chunk, found so far: their keys, the candidates, and a cost for each.
struct Found {
    peers: Vec<CandidatePeer>,
    costs: Vec<u128>,
    keys: Ghost<Seq<Seq<char>>>,
}

spec fn found_ok(f: Found, job: JobView, cost: spec_fn(NodeView) -> int) -> bool {
    &&& f.peers@.len() == f.keys@.len()
    &&& f.costs@.len() == f.keys@.len()
    &&& forall|i: int|
        0 <= i < f.keys@.len() ==> (#[trigger] f.peers@[i])@ == as_candidate(job.nodes[f.keys@[i]])
    &&& forall|i: int|
        0 <= i < f.keys@.len() ==> #[trigger] f.costs@[i] == cost(job.nodes[f.keys@[i]])
}

/// The cost of a node for a requester on `rack`, or, without a rack, by bandwidth alone.
pub open spec fn cost_for(rack: Option<Seq<char>>) -> spec_fn(NodeView) -> int {
    match rack {
        Some(r) => |n: NodeView| distance_cost(n, r),
        None => |n: NodeView| bandwidth_cost(n),
    }
}

fn node_cost(node: &NodeState, rack: Option<&str>) -> (r: u128)
    ensures
        r == cost_for(
            match rack {
                Some(s) => Some(s@),
                None => None,
            },
        )(node@),
{
    let base: u128 = (u64::MAX - node.upload_bw_mbps) as u128;
    match rack {
        Some(s) => if str_eq(node.rack_id.as_str(), s) {
            base
        } else {
            base + 0x1_0000_0000_0000_0000
        },
        None => base,
    }
}

fn find_sources(job: &Job, requester_id: &str, rack: Option<&str>, chunk_index: u32) -> (r: Found)
    requires
        sources_known(job@, requester_id@, chunk_index),
    ensures
        found_ok(
            r,
            job@,
            cost_for(
                match rack {
                    Some(s) => Some(s@),
                    None => None,
                },
            ),
        ),
        lists_keys(r.keys@, sources(job@, requester_id@, chunk_index)),
{
    let ghost cost = cost_for(
        match rack {
            Some(s) => Some(s@),
            None => None,
        },
    );
    let keys = node_keys(&job.nodes);
    let ghost ids = texts(keys@);
    let ghost from = sources(job@, requester_id@, chunk_index);
    let mut found = Found { peers: Vec::new(), costs: Vec::new(), keys: Ghost(Seq::empty()) };
    let mut k: usize = 0;
    while k < keys.len()
        invariant
            k <= keys@.len(),
            ids == texts(keys@),
            lists_keys(ids, job@.nodes.dom()),
            sources_known(job@, requester_id@, chunk_index),
            from == sources(job@, requester_id@, chunk_index),
            cost == cost_for(
                match rack {
                    Some(s) => Some(s@),
                    None => None,
                },
            ),
            found_ok(found, job@, cost),
            found.keys@.no_duplicates(),
            forall|x: Seq<char>| #[trigger]
                found.keys@.contains(x) <==> from.contains(x) && ids.take(k as int).contains(x),
        decreases keys@.len() - k,
    {
        let ghost before = found.keys@;
        let ghost id = ids[k as int];
        assert(ids.to_set().contains(id));
        assert(ids.take(k + 1) =~= ids.take(k as int).push(id));
        assert(!ids.take(k as int).contains(id)) by {
            if ids.take(k as int).contains(id) {
                let i = choose|i: int|
                    0 <= i < ids.take(k as int).len() && ids.take(k as int)[i] == id;
                assert(ids[i] == id);
            }
        }
        assert(!before.contains(id));
        if let Some(guard) = find_node(&job.nodes, keys[k].as_str()) {
            let node = guarded_node_value(&guard);
            assert(job@.nodes.contains_key(id));
            if !str_eq(node.node_id.as_str(), requester_id) && node.bitmap.has(chunk_index) {
                found.costs.push(node_cost(node, rack));
                found.peers.push(
                    CandidatePeer {
                        node_id: node.node_id.clone(),
                        peer_addr: node.peer_addr.clone(),
                        rack_id: node.rack_id.clone(),
                        upload_bw_mbps: node.upload_bw_mbps,
                    },
                );
                found.keys = Ghost(before.push(id));
                assert(from.contains(id));
            } else {
                assert(!from.contains(id));
            }
        }
        k = k + 1;
        proof {
            let now = found.keys@;
            assert forall|x: Seq<char>| #[trigger] now.contains(x) <==> from.contains(x)
                && ids.take(k as int).contains(x) by {
                broadcast use vstd::seq_lib::group_seq_properties;

                assert(before.contains(x) <==> from.contains(x) && ids.take(k - 1).contains(x));
            }
            assert(now.no_duplicates()) by {
                assert forall|i: int, j: int|
                    0 <= i < now.len() && 0 <= j < now.len() && i != j implies now[i] != now[j] by {
                    if i < before.len() {
                        assert(before.contains(before[i]));
                    }
                    if j < before.len() {
                        assert(before.contains(before[j]));
                    }
                }
            }
        }
    }
    assert(ids.take(k as int) =~= ids);
    assert(found.keys@.to_set() =~= from) by {
        assert forall|x: Seq<char>| found.keys@.to_set().contains(x) <==> from.contains(x) by {
            assert(found.keys@.contains(x) <==> from.contains(x) && ids.take(k as int).contains(
                x,
            ));
            if from.contains(x) {
                assert(ids.to_set().contains(x));
            }
        }
    }
    found
}

/// Puts the sources in order of cost and keeps the first `top_n`.
fn best_of(
    found: Found,
    top_n: usize,
    Ghost(job): Ghost<JobView>,
    Ghost(from): Ghost<Set<Seq<char>>>,
    Ghost(cost): Ghost<spec_fn(NodeView) -> int>,
) -> (r: Vec<CandidatePeer>)
    requires
        found_ok(found, job, cost),
        lists_keys(found.keys@, from),
    ensures
        offers(peers_of(r@), job, from, cost, top_n as int),
{
    let order = rank(&found.costs);
    let ghost ids = arranged(found.keys@, order@);
    let ghost all = ids.map_values(|id: Seq<char>| as_candidate(job.nodes[id]));
    let n: usize = if top_n < order.len() {
        top_n
    } else {
        order.len()
    };
    let mut out: Vec<CandidatePeer> = Vec::new();
    let mut k: usize = 0;
    while k < n
        invariant
            k <= n <= order@.len(),
            ranks(order@, found.costs@),
            found_ok(found, job, cost),
            ids == arranged(found.keys@, order@),
            all == ids.map_values(|id: Seq<char>| as_candidate(job.nodes[id])),
            peers_of(out@) == all.take(k as int),
        decreases n - k,
    {
        let ghost before = out@;
        let p: usize = order[k];
        let peer = found.peers[p].clone();
        out.push(peer);
        k = k + 1;
        assert(peers_of(out@) =~= peers_of(before).push(peer@));
        assert(peers_of(out@) =~= all.take(k as int));
    }
    proof {
        assert(all.len() == order@.len());
        assert(all.take(n as int) =~= at_most(all, top_n as int));
        assert(lists_keys(ids, from)) by {
            let keys = found.keys@;
            assert forall|i: int, j: int| 0 <= i < ids.len() && 0 <= j < ids.len() && i != j
                implies ids[i] != ids[j] by {
                if i < j {
                    assert(comes_before(found.costs@, order@[i], order@[j]));
                } else {
                    assert(comes_before(found.costs@, order@[j], order@[i]));
                }
                assert(keys[order@[i] as int] != keys[order@[j] as int]);
            }
            assert forall|x: Seq<char>| ids.to_set().contains(x) <==> from.contains(x) by {
                if ids.contains(x) {
                    let i = choose|i: int| 0 <= i < ids.len() && ids[i] == x;
                    assert(keys[order@[i] as int] == x);
                    assert(keys.to_set().contains(x));
                }
                if from.contains(x) {
                    assert(keys.to_set().contains(x));
                    let j = choose|j: int| 0 <= j < keys.len() && keys[j] == x;
                    assert(found.costs@.len() == keys.len());
                    assert(found.costs.len() == keys.len());
                    assert(order@.contains(j as usize));
                    let i = choose|i: int| 0 <= i < order@.len() && order@[i] == j as usize;
                    assert(ids[i] == x);
                }
            }
            assert(ids.to_set() =~= from);
        }
        assert forall|i: int, j: int| 0 <= i < j < ids.len() implies #[trigger] cost(
            job.nodes[ids[i]],
        ) <= #[trigger] cost(job.nodes[ids[j]]) by {
            assert(comes_before(found.costs@, order@[i], order@[j]));
            assert(found.costs@[order@[i] as int] == cost(job.nodes[ids[i]]));
            assert(found.costs@[order@[j] as int] == cost(job.nodes[ids[j]]));
        }
        assert(offers_in_order(peers_of(out@), job, from, cost, top_n as int, ids));
    }
    out
}

/// The best `top_n` sources of a chunk: those with the highest upload bandwidth first.
pub fn rarity_first(job: &Job, requester_id: &str, chunk_index: u32, top_n: usize) -> (r: Vec<
    CandidatePeer,
>)
    requires
        sources_known(job@, requester_id@, chunk_index),
    ensures
        offers(
            peers_of(r@),
            job@,
            sources(job@, requester_id@, chunk_index),
            cost_for(None),
            top_n as int,
        ),
{
    let found = find_sources(job, requester_id, None, chunk_index);
    best_of(
        found,
        top_n,
        Ghost(job@),
        Ghost(sources(job@, requester_id@, chunk_index)),
        Ghost(cost_for(None)),
    )
}

/// The best `top_n` sources of a chunk: those on the requester's rack first, and in each of
/// the two groups those with the highest upload bandwidth.
pub fn topology_aware(
    job: &Job,
    requester_id: &str,
    requester_rack: &str,
    chunk_index: u32,
    top_n: usize,
) -> (r: Vec<CandidatePeer>)
    requires
        sources_known(job@, requester_id@, chunk_index),
    ensures
        offers(
            peers_of(r@),
            job@,
            sources(job@, requester_id@, chunk_index),
            cost_for(Some(requester_rack@)),
            top_n as int,
        ),
{
    let found = find_sources(job, requester_id, Some(requester_rack), chunk_index);
    best_of(
        found,
        top_n,
        Ghost(job@),
        Ghost(sources(job@, requester_id@, chunk_index)),
        Ghost(cost_for(Some(requester_rack@))),
    )
}

/// Whether the bitmaps of the nodes other than `requester_id` answer for a chunk.
pub fn knows_sources(job: &Job, requester_id: &str, chunk_index: u32) -> (r: bool)
    ensures
        r == sources_known(job@, requester_id@, chunk_index),
{
    let keys = node_keys(&job.nodes);
    let ghost ids = texts(keys@);
    let mut k: usize = 0;
    while k < keys.len()
        invariant
            k <= keys@.len(),
            ids == texts(keys@),
            lists_keys(ids, job@.nodes.dom()),
            forall|p: int|
                0 <= p < k ==> job@.nodes[#[trigger] ids[p]].node_id == requester_id@
                    || job@.nodes[ids[p]].bitmap.covers(chunk_index),
        decreases keys@.len() - k,
    {
        assert(ids.to_set().contains(ids[k as int]));
        if let Some(guard) = find_node(&job.nodes, keys[k].as_str()) {
            let node = guarded_node_value(&guard);
            if !str_eq(node.node_id.as_str(), requester_id) && !node.bitmap.covers(chunk_index) {
                assert(job@.nodes.contains_key(ids[k as int]));
                return false;
            }
        }
        k = k + 1;
    }
    assert forall|id: Seq<char>| #[trigger] job@.nodes.contains_key(id) implies job@.nodes[
        id].node_id == requester_id@ || job@.nodes[id].bitmap.covers(chunk_index) by {
        assert(ids.to_set().contains(id));
        let p = choose|p: int| 0 <= p < ids.len() && ids[p] == id;
        assert(job@.nodes[ids[p]].node_id == requester_id@
            || job@.nodes[ids[p]].bitmap.covers(chunk_index));
    }
    true
}

/// How many nodes hold a chunk; none holds one that the file does not have.
pub open spec fn replicas(job: JobView, index: u32) -> nat {
    if index < job.manifest.chunk_count {
        job.holders(index).len()
    } else {
        0
    }
}

/// Each chunk with the number of its holders.
pub open spec fn with_replicas(job: JobView, chunks: Seq<u32>) -> Seq<(u32, u32)> {
    chunks.map_values(|i: u32| (i, replicas(job, i) as u32))
}

/// The holder counts of a list, as keys of a ranking.
pub open spec fn rarity_keys(pairs: Seq<(u32, u32)>) -> Seq<u128> {
    pairs.map_values(|p: (u32, u32)| p.1 as u128)
}

/// `r` lists the chunks with their holder counts, the rarest first, and chunks with as many
/// holders as they were given.
pub open spec fn rarest_first(r: Seq<(u32, u32)>, job: JobView, chunks: Seq<u32>) -> bool {
    exists|order: Seq<usize>| #[trigger]
        ranks(order, rarity_keys(with_replicas(job, chunks))) && r == arranged(
            with_replicas(job, chunks),
            order,
        )
}

/// The number beside each chunk is that of the nodes that hold it.
pub open spec fn counts_holders(pairs: Seq<(u32, u32)>, job: JobView) -> bool {
    forall|i: int| 0 <= i < pairs.len() ==> (#[trigger] pairs[i]).1 == replicas(job, pairs[i].0)
}

/// The chunks of a list with holder counts.
pub open spec fn chunks_of(pairs: Seq<(u32, u32)>) -> Seq<u32> {
    pairs.map_values(|p: (u32, u32)| p.0)
}

/// The chunks that have this holder count, in the order of the list.
pub open spec fn with_count(pairs: Seq<(u32, u32)>, count: u32) -> Seq<(u32, u32)> {
    pairs.filter(|p: (u32, u32)| p.1 == count)
}

/// The chunks that a node misses, with the number of nodes that hold each: the rarest first.
pub fn rarity_order(job: &Job, missing: &[u32]) -> (r: Vec<(u32, u32)>)
    requires
        job@.readable(),
        job@.nodes.dom().len() <= u32::MAX,
    ensures
        rarest_first(r@, job@, missing@),
        counts_holders(r@, job@),
{
    let counts = job.replica_counts();
    let mut pairs: Vec<(u32, u32)> = Vec::new();
    let mut keys: Vec<u128> = Vec::new();
    let mut i: usize = 0;
    while i < missing.len()
        invariant
            i <= missing@.len(),
            counts@.len() == job@.manifest.chunk_count,
            forall|c: u32|
                c < job@.manifest.chunk_count ==> #[trigger] counts@[c as int] == job@.holders(
                    c,
                ).len(),
            pairs@ == with_replicas(job@, missing@).take(i as int),
            keys@ == rarity_keys(pairs@),
            counts_holders(pairs@, job@),
        decreases missing@.len() - i,
    {
        let c: u32 = missing[i];
        let count: u32 = if (c as usize) < counts.len() {
            counts[c as usize]
        } else {
            0
        };
        let ghost before = pairs@;
        pairs.push((c, count));
        keys.push(count as u128);
        i = i + 1;
        assert(pairs@ =~= with_replicas(job@, missing@).take(i as int));
        assert(keys@ =~= rarity_keys(pairs@));
    }
    assert(pairs@ =~= with_replicas(job@, missing@));
    let order = rank(&keys);
    let mut sorted: Vec<(u32, u32)> = Vec::new();
    let mut k: usize = 0;
    while k < order.len()
        invariant
            k <= order@.len(),
            ranks(order@, keys@),
            keys@.len() == pairs@.len(),
            sorted@ == arranged(pairs@, order@).take(k as int),
            counts_holders(pairs@, job@),
            counts_holders(sorted@, job@),
        decreases order@.len() - k,
    {
        sorted.push(pairs[order[k]]);
        k = k + 1;
        assert(sorted@ =~= arranged(pairs@, order@).take(k as int));
    }
    assert(sorted@ =~= arranged(pairs@, order@));
    sorted
}

/// The order by rarity is determined: two lists that are in it are equal.
pub proof fn rarity_order_is_unique(
    a: Seq<(u32, u32)>,
    b: Seq<(u32, u32)>,
    job: JobView,
    chunks: Seq<u32>,
)
    requires
        rarest_first(a, job, chunks),
        rarest_first(b, job, chunks),
        chunks.len() <= usize::MAX,
    ensures
        a == b,
{
    let keys = rarity_keys(with_replicas(job, chunks));
    let x = choose|order: Seq<usize>| #[trigger]
        ranks(order, keys) && a == arranged(with_replicas(job, chunks), order);
    let y = choose|order: Seq<usize>| #[trigger]
        ranks(order, keys) && b == arranged(with_replicas(job, chunks), order);
    ranking_unique(x, y, keys);
}

/// In the order by rarity the holder counts ascend, every chunk of the list is there with its
/// own count, as often as in the list, and nothing else is; chunks with one count stay in the
/// order of the list.
pub proof fn rarity_order_ascends(r: Seq<(u32, u32)>, job: JobView, chunks: Seq<u32>)
    requires
        rarest_first(r, job, chunks),
        chunks.len() <= usize::MAX,
    ensures
        r.len() == chunks.len(),
        forall|i: int, j: int| 0 <= i < j < r.len() ==> (#[trigger] r[i]).1 <= (#[trigger] r[j]).1,
        forall|i: int|
            0 <= i < r.len() ==> chunks.contains((#[trigger] r[i]).0) && r[i].1 == replicas(
                job,
                r[i].0,
            ) as u32,
        forall|c: u32| #[trigger] chunks.contains(c) ==> r.contains((c, replicas(job, c) as u32)),
        chunks_of(r).to_multiset() == chunks.to_multiset(),
        forall|n: u32| #[trigger] with_count(r, n) == with_count(with_replicas(job, chunks), n),
        job.nodes.dom().finite() && job.nodes.dom().len() <= u32::MAX ==> counts_holders(r, job),
{
    let pairs = with_replicas(job, chunks);
    let keys = rarity_keys(pairs);
    let order = choose|order: Seq<usize>| #[trigger]
        ranks(order, keys) && r == arranged(pairs, order);
    assert forall|i: int, j: int| 0 <= i < j < r.len() implies (#[trigger] r[i]).1 <= (
    #[trigger] r[j]).1 by {
        assert(comes_before(keys, order[i], order[j]));
    }
    assert forall|i: int| 0 <= i < r.len() implies chunks.contains((#[trigger] r[i]).0) && r[i].1
        == replicas(job, r[i].0) as u32 by {
        assert(chunks[order[i] as int] == r[i].0);
    }
    assert forall|c: u32| #[trigger] chunks.contains(c) implies r.contains(
        (c, replicas(job, c) as u32),
    ) by {
        let j = choose|j: int| 0 <= j < chunks.len() && chunks[j] == c;
        assert(order.contains(j as usize));
        let i = choose|i: int| 0 <= i < order.len() && order[i] == j as usize;
        assert(r[i] == (c, replicas(job, c) as u32));
    }
    ranking_is_permutation(chunks, keys, order);
    assert(chunks_of(r) =~= arranged(chunks, order));
    assert forall|n: u32| #[trigger] with_count(r, n) == with_count(pairs, n) by {
        ranking_is_stable(pairs, keys, order, n as u128, |p: (u32, u32)| p.1 == n);
    }
    if job.nodes.dom().finite() && job.nodes.dom().len() <= u32::MAX {
        assert forall|i: int| 0 <= i < r.len() implies (#[trigger] r[i]).1 == replicas(
            job,
            r[i].0,
        ) by {
            vstd::set_lib::lemma_len_subset(job.holders(r[i].0), job.nodes.dom());
        }
    }
}

/// What is offered are sources of the chunk: never the requester, only nodes that hold it,
/// as many as there are up to `top_n`.
pub proof fn offers_only_sources(
    list: Seq<PeerView>,
    job: JobView,
    requester: Seq<char>,
    index: u32,
    cost: spec_fn(NodeView) -> int,
    top_n: int,
)
    requires
        0 <= top_n,
        offers(list, job, sources(job, requester, index), cost, top_n),
    ensures
        list.len() == if top_n < sources(job, requester, index).len() {
            top_n as nat
        } else {
            sources(job, requester, index).len()
        },
        forall|i: int|
            0 <= i < list.len() ==> (#[trigger] list[i]).node_id != requester && exists|
                id: Seq<char>,
            |
                job.holders(index).contains(id) && list[i] == as_candidate(
                    #[trigger] job.nodes[id],
                ),
{
    let from = sources(job, requester, index);
    let ids = choose|ids: Seq<Seq<char>>| #[trigger]
        offers_in_order(list, job, from, cost, top_n, ids);
    ids.unique_seq_to_set();
    assert forall|i: int| 0 <= i < list.len() implies (#[trigger] list[i]).node_id != requester
        && exists|id: Seq<char>|
        job.holders(index).contains(id) && list[i] == as_candidate(#[trigger] job.nodes[id]) by {
        assert(ids.to_set().contains(ids[i]));
        assert(list[i] == as_candidate(job.nodes[ids[i]]));
        assert(job.holders(index).contains(ids[i]));
    }
}

/// By bandwidth, a peer never comes after a slower one, and no faster source is left out.
pub proof fn fastest_sources_first(
    list: Seq<PeerView>,
    job: JobView,
    from: Set<Seq<char>>,
    top_n: int,
)
    requires
        0 <= top_n,
        offers(list, job, from, cost_for(None), top_n),
    ensures
        forall|i: int, j: int|
            0 <= i < j < list.len() ==> (#[trigger] list[i]).upload_bw_mbps >= (
            #[trigger] list[j]).upload_bw_mbps,
        forall|id: Seq<char>, i: int|
            from.contains(id) && !list.contains(as_candidate(job.nodes[id])) && 0 <= i < list.len()
                ==> (#[trigger] list[i]).upload_bw_mbps >= (
            #[trigger] job.nodes[id]).upload_bw_mbps,
{
    let cost = cost_for(None);
    let ids = choose|ids: Seq<Seq<char>>| #[trigger]
        offers_in_order(list, job, from, cost, top_n, ids);
    assert forall|i: int, j: int| 0 <= i < j < list.len() implies (
    #[trigger] list[i]).upload_bw_mbps >= (#[trigger] list[j]).upload_bw_mbps by {
        assert(cost(job.nodes[ids[i]]) <= cost(job.nodes[ids[j]]));
    }
    assert forall|id: Seq<char>, i: int|
        from.contains(id) && !list.contains(as_candidate(job.nodes[id])) && 0 <= i
            < list.len() implies (#[trigger] list[i]).upload_bw_mbps >= (
    #[trigger] job.nodes[id]).upload_bw_mbps by {
        assert(ids.to_set().contains(id));
        let j = choose|j: int| 0 <= j < ids.len() && ids[j] == id;
        if j < list.len() {
            assert(list[j] == as_candidate(job.nodes[id]));
        }
        assert(cost(job.nodes[ids[i]]) <= cost(job.nodes[ids[j]]));
    }
}

/// By topology, every peer of the requester's rack comes before every other; among those of
/// the rack, as among the others, none comes after a slower one; a source of the rack is left
/// out only if all offered ones are of the rack and none is slower; and one of another rack
/// only if no offered one of another rack is slower.
pub proof fn local_sources_first(
    list: Seq<PeerView>,
    job: JobView,
    from: Set<Seq<char>>,
    rack: Seq<char>,
    top_n: int,
)
    requires
        0 <= top_n,
        offers(list, job, from, cost_for(Some(rack)), top_n),
    ensures
        forall|i: int, j: int|
            0 <= i < j < list.len() && (#[trigger] list[j]).rack_id == rack ==> (
            #[trigger] list[i]).rack_id == rack,
        forall|i: int, j: int|
            0 <= i < j < list.len() && ((#[trigger] list[i]).rack_id == rack) == ((
            #[trigger] list[j]).rack_id == rack) ==> list[i].upload_bw_mbps
                >= list[j].upload_bw_mbps,
        forall|id: Seq<char>, i: int|
            from.contains(id) && job.nodes[id].rack_id == rack && !list.contains(
                as_candidate(job.nodes[id]),
            ) && 0 <= i < list.len() ==> (#[trigger] list[i]).rack_id == rack
                && list[i].upload_bw_mbps >= (#[trigger] job.nodes[id]).upload_bw_mbps,
        forall|id: Seq<char>, i: int|
            from.contains(id) && job.nodes[id].rack_id != rack && !list.contains(
                as_candidate(job.nodes[id]),
            ) && 0 <= i < list.len() && (#[trigger] list[i]).rack_id != rack
                ==> list[i].upload_bw_mbps >= (#[trigger] job.nodes[id]).upload_bw_mbps,
{
    let cost = cost_for(Some(rack));
    let ids = choose|ids: Seq<Seq<char>>| #[trigger]
        offers_in_order(list, job, from, cost, top_n, ids);
    assert forall|i: int, j: int|
        0 <= i < j < list.len() && (#[trigger] list[j]).rack_id == rack implies (
    #[trigger] list[i]).rack_id == rack by {
        assert(cost(job.nodes[ids[i]]) <= cost(job.nodes[ids[j]]));
    }
    assert forall|i: int, j: int|
        0 <= i < j < list.len() && ((#[trigger] list[i]).rack_id == rack) == ((
        #[trigger] list[j]).rack_id == rack) implies list[i].upload_bw_mbps
        >= list[j].upload_bw_mbps by {
        assert(cost(job.nodes[ids[i]]) <= cost(job.nodes[ids[j]]));
    }
    assert forall|id: Seq<char>, i: int|
        from.contains(id) && job.nodes[id].rack_id == rack && !list.contains(
            as_candidate(job.nodes[id]),
        ) && 0 <= i < list.len() implies (#[trigger] list[i]).rack_id == rack
        && list[i].upload_bw_mbps >= (#[trigger] job.nodes[id]).upload_bw_mbps by {
        assert(ids.to_set().contains(id));
        let j = choose|j: int| 0 <= j < ids.len() && ids[j] == id;
        if j < list.len() {
            assert(list[j] == as_candidate(job.nodes[id]));
        }
        assert(cost(job.nodes[ids[i]]) <= cost(job.nodes[ids[j]]));
    }
    assert forall|id: Seq<char>, i: int|
        from.contains(id) && job.nodes[id].rack_id != rack && !list.contains(
            as_candidate(job.nodes[id]),
        ) && 0 <= i < list.len() && (#[trigger] list[i]).rack_id != rack implies list[
        i].upload_bw_mbps >= (#[trigger] job.nodes[id]).upload_bw_mbps by {
        assert(ids.to_set().contains(id));
        let j = choose|j: int| 0 <= j < ids.len() && ids[j] == id;
        if j < list.len() {
            assert(list[j] == as_candidate(job.nodes[id]));
        }
        assert(cost(job.nodes[ids[i]]) <= cost(job.nodes[ids[j]]));
    }
}

} // verus!
