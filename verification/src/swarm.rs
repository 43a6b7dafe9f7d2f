//! A tracker for a single file, in one process: the nodes report their bitmaps to it, and
//! ask it for the chunks to fetch next.

use vstd::prelude::*;
use vstd::string::*;

use crate::bitmap::{lists_missing, BitmapView, ChunkBitmap};
use crate::codec::{codec_exists, codec_refusal, rs_check, rs_encode, shard_bytes};
use crate::erasure::at_most;
use crate::error::DistError;
use crate::hash::{hash_bytes, hash_text};
use crate::manifest::{chunk_end, chunk_start, Manifest};
use crate::sorting::{arranged, comes_before, rank, ranking_is_permutation, ranks};
use crate::text::{decimal, push_decimal, str_eq};

verus! {

/// A chunk is scarce if fewer nodes than this hold it.
pub const SCARCE_BELOW: u32 = 3;

/// How long a node waits when there is nothing to fetch, in milliseconds.
pub const IDLE_PAUSE_MS: u64 = 200;

/// The upload bandwidth that a node reports, in Mbit/s.
pub const REPORTED_UPLOAD_BW: u64 = 8_000;

/// What the tracker keeps of a node. `last_seen` is in nanoseconds of a clock that never goes
/// back.
#[derive(Debug)]
pub struct NodeState {
    pub node_id: String,
    pub bitmap: ChunkBitmap,
    /// In Mbit/s.
    pub available_upload_bw: u64,
    pub rack_id: String,
    pub last_seen: u64,
}

/// The content of a node's state.
#[verifier::ext_equal]
pub struct NodeView {
    pub node_id: Seq<char>,
    pub bitmap: BitmapView,
    pub available_upload_bw: u64,
    pub rack_id: Seq<char>,
    pub last_seen: u64,
}

impl View for NodeState {
    type V = NodeView;

    open spec fn view(&self) -> NodeView {
        NodeView {
            node_id: self.node_id@,
            bitmap: self.bitmap@,
            available_upload_bw: self.available_upload_bw,
            rack_id: self.rack_id@,
            last_seen: self.last_seen,
        }
    }
}

/// A peer that a node can fetch a chunk from.
#[derive(Debug)]
pub struct CandidatePeer {
    pub node_id: String,
    pub rack_id: String,
    pub upload_bw: u64,
}

/// The content of a candidate.
#[verifier::ext_equal]
pub struct PeerView {
    pub node_id: Seq<char>,
    pub rack_id: Seq<char>,
    pub upload_bw: u64,
}

impl View for CandidatePeer {
    type V = PeerView;

    open spec fn view(&self) -> PeerView {
        PeerView { node_id: self.node_id@, rack_id: self.rack_id@, upload_bw: self.upload_bw }
    }
}

/// The content of each candidate of a list.
pub open spec fn peers_of(list: Seq<CandidatePeer>) -> Seq<PeerView> {
    list.map_values(|p: CandidatePeer| p@)
}

/// The content of each node of a list.
pub open spec fn nodes_of(list: Seq<NodeState>) -> Seq<NodeView> {
    list.map_values(|n: NodeState| n@)
}

/// The global view on which peers are selected: the nodes, each once.
pub struct Tracker {
    nodes: Vec<NodeState>,
    chunk_count: u32,
}

/// The content of the tracker.
#[verifier::ext_equal]
pub struct TrackerView {
    pub nodes: Seq<NodeView>,
    pub chunk_count: u32,
}

/// No two nodes of a list have the same id.
pub open spec fn ids_differ(nodes: Seq<NodeView>) -> bool {
    forall|i: int, j: int| 0 <= i < j < nodes.len() ==> nodes[i].node_id != nodes[j].node_id
}

/// Where the node with an id is, among the first nodes of a list; the length of the list if
/// it is not there.
pub open spec fn position(nodes: Seq<NodeView>, id: Seq<char>) -> int
    decreases nodes.len(),
{
    if nodes.len() == 0 {
        0
    } else if position(nodes.drop_last(), id) < nodes.len() - 1 {
        position(nodes.drop_last(), id)
    } else if nodes.last().node_id == id {
        nodes.len() - 1
    } else {
        nodes.len() as int
    }
}

/// The node takes the place of the one with its id, or comes behind the others.
pub open spec fn with_node(nodes: Seq<NodeView>, node: NodeView) -> Seq<NodeView> {
    let p = position(nodes, node.node_id);
    if p < nodes.len() {
        nodes.update(p, node)
    } else {
        nodes.push(node)
    }
}

/// The nodes other than `requester` that hold a chunk.
pub open spec fn holders(nodes: Seq<NodeView>, requester: Seq<char>, chunk: u32) -> Seq<NodeView>
    decreases nodes.len(),
{
    if nodes.len() == 0 {
        Seq::empty()
    } else {
        let front = holders(nodes.drop_last(), requester, chunk);
        let last = nodes.last();
        if last.node_id != requester && last.bitmap.holds(chunk) {
            front.push(last)
        } else {
            front
        }
    }
}

/// How many nodes hold a chunk.
pub open spec fn replicas(nodes: Seq<NodeView>, chunk: u32) -> nat
    decreases nodes.len(),
{
    if nodes.len() == 0 {
        0
    } else {
        replicas(nodes.drop_last(), chunk) + if nodes.last().bitmap.holds(chunk) {
            1nat
        } else {
            0nat
        }
    }
}

/// A node as a candidate.
pub open spec fn as_candidate(node: NodeView) -> PeerView {
    PeerView {
        node_id: node.node_id,
        rack_id: node.rack_id,
        upload_bw: node.available_upload_bw,
    }
}

/// The cost of a node, by which candidates are put in ascending order: the more bandwidth the
/// smaller, and for a requester on a rack every node of that rack before every other.
pub open spec fn cost(node: NodeView, rack: Option<Seq<char>>) -> u128 {
    let base = (u64::MAX - node.available_upload_bw) as u128;
    match rack {
        Some(r) => if node.rack_id == r {
            base
        } else {
            (base + 0x1_0000_0000_0000_0000) as u128
        },
        None => base,
    }
}

/// The costs of the nodes of a list.
pub open spec fn costs(nodes: Seq<NodeView>, rack: Option<Seq<char>>) -> Seq<u128> {
    nodes.map_values(|n: NodeView| cost(n, rack))
}

/// `list` offers all nodes of `from`, in ascending order of cost, and nodes of the same cost
/// in the order of `from`.
pub open spec fn offers(list: Seq<PeerView>, from: Seq<NodeView>, rack: Option<Seq<char>>) -> bool {
    exists|order: Seq<usize>| #[trigger]
        ranks(order, costs(from, rack)) && list == arranged(from, order).map_values(
            |n: NodeView| as_candidate(n),
        )
}

/// `r` assigns to each of the chunks, in their order, the candidates for it.
pub open spec fn assigns(
    r: Seq<(u32, Vec<CandidatePeer>)>,
    chunks: Seq<u32>,
    nodes: Seq<NodeView>,
    requester: Seq<char>,
    rack: Option<Seq<char>>,
) -> bool {
    &&& r.len() == chunks.len()
    &&& forall|i: int| #![trigger r[i]]
        0 <= i < r.len() ==> r[i].0 == chunks[i] && offers(
            peers_of(r[i].1@),
            holders(nodes, requester, chunks[i]),
            rack,
        )
}

/// How many candidates each chunk has, as keys of a ranking.
pub open spec fn holder_counts(
    chunks: Seq<u32>,
    nodes: Seq<NodeView>,
    requester: Seq<char>,
) -> Seq<u128> {
    chunks.map_values(|c: u32| holders(nodes, requester, c).len() as u128)
}

/// `ranked` lists the chunks, those with the fewest candidates first, and chunks with as many
/// candidates as they were given.
pub open spec fn rarest_first(
    ranked: Seq<u32>,
    chunks: Seq<u32>,
    nodes: Seq<NodeView>,
    requester: Seq<char>,
) -> bool {
    exists|order: Seq<usize>| #[trigger]
        ranks(order, holder_counts(chunks, nodes, requester)) && ranked == arranged(chunks, order)
}

/// The bitmaps of the nodes other than `requester` answer for a chunk.
pub open spec fn answers_for(nodes: Seq<NodeView>, requester: Seq<char>, chunk: u32) -> bool {
    forall|i: int|
        0 <= i < nodes.len() ==> (#[trigger] nodes[i]).node_id == requester
            || nodes[i].bitmap.covers(chunk)
}

impl View for Tracker {
    type V = TrackerView;

    closed spec fn view(&self) -> TrackerView {
        TrackerView { nodes: nodes_of(self.nodes@), chunk_count: self.chunk_count }
    }
}

proof fn lemma_position(nodes: Seq<NodeView>, id: Seq<char>)
    ensures
        0 <= position(nodes, id) <= nodes.len(),
        position(nodes, id) < nodes.len() ==> nodes[position(nodes, id)].node_id == id,
        forall|i: int| 0 <= i < position(nodes, id) ==> (#[trigger] nodes[i]).node_id != id,
    decreases nodes.len(),
{
    if nodes.len() > 0 {
        let front = nodes.drop_last();
        lemma_position(front, id);
        assert forall|i: int| 0 <= i < position(nodes, id) implies (#[trigger] nodes[i]).node_id
            != id by {
            if i < front.len() {
                assert(front[i].node_id == nodes[i].node_id);
            }
        }
        if position(front, id) < front.len() {
            assert(front[position(front, id)] == nodes[position(front, id)]);
        }
    }
}

proof fn lemma_position_at(nodes: Seq<NodeView>, id: Seq<char>, p: int)
    requires
        0 <= p <= nodes.len(),
        forall|i: int| 0 <= i < p ==> (#[trigger] nodes[i]).node_id != id,
        p < nodes.len() ==> nodes[p].node_id == id,
    ensures
        position(nodes, id) == p,
{
    lemma_position(nodes, id);
    let q = position(nodes, id);
    if q < p {
        assert(nodes[q].node_id != id);
    } else if p < q {
        assert(nodes[p].node_id != id);
    }
}

impl Tracker {
    #[verifier::type_invariant]
    spec fn well_formed(self) -> bool {
        ids_differ(nodes_of(self.nodes@))
    }

    /// A tracker without nodes.
    pub fn new(chunk_count: u32) -> (r: Self)
        ensures
            r@ == (TrackerView { nodes: Seq::empty(), chunk_count }),
            ids_differ(r@.nodes),
    {
        let r = Tracker { nodes: Vec::new(), chunk_count };
        assert(r@.nodes =~= Seq::empty());
        r
    }

    /// Takes in the latest state of a node, in place of what was known of it.
    pub fn update_node(
        &mut self,
        node_id: String,
        bitmap: ChunkBitmap,
        upload_bw: u64,
        rack_id: String,
        now: u64,
    )
        ensures
            final(self)@ == (TrackerView {
                nodes: with_node(
                    old(self)@.nodes,
                    NodeView {
                        node_id: node_id@,
                        bitmap: bitmap@,
                        available_upload_bw: upload_bw,
                        rack_id: rack_id@,
                        last_seen: now,
                    },
                ),
                ..old(self)@
            }),
            ids_differ(final(self)@.nodes),
    {
        let ghost was = self@;
        let mut taken = Tracker::new(0);
        std::mem::swap(&mut taken, self);
        proof {
            use_type_invariant(&taken);
        }
        let Tracker { mut nodes, chunk_count } = taken;
        let ghost before = nodes_of(nodes@);
        let mut p: usize = 0;
        while p < nodes.len() && !str_eq(nodes[p].node_id.as_str(), node_id.as_str())
            invariant
                p <= nodes@.len(),
                before == nodes_of(nodes@),
                forall|i: int| 0 <= i < p ==> (#[trigger] before[i]).node_id != node_id@,
            decreases nodes@.len() - p,
        {
            assert(before[p as int] == nodes@[p as int]@);
            p = p + 1;
        }
        proof {
            if p < nodes@.len() {
                assert(before[p as int] == nodes@[p as int]@);
            }
            lemma_position_at(before, node_id@, p as int);
        }
        let node = NodeState {
            node_id,
            bitmap,
            available_upload_bw: upload_bw,
            rack_id,
            last_seen: now,
        };
        let ghost view = node@;
        if p < nodes.len() {
            nodes[p] = node;
        } else {
            nodes.push(node);
        }
        assert(nodes_of(nodes@) =~= with_node(before, view));
        assert(ids_differ(nodes_of(nodes@))) by {
            let after = nodes_of(nodes@);
            assert forall|i: int, j: int| 0 <= i < j < after.len() implies after[i].node_id
                != after[j].node_id by {
                if i < before.len() && i != p {
                    assert(before[i].node_id == after[i].node_id);
                }
                if j < before.len() && j != p {
                    assert(before[j].node_id == after[j].node_id);
                }
                if p < before.len() {
                    assert(before[p as int].node_id == view.node_id);
                }
            }
        }
        *self = Tracker { nodes, chunk_count };
        assert(self@.nodes =~= with_node(was.nodes, view));
    }

    /// The candidates for a chunk, in ascending order of cost.
    fn candidates(&self, requester_id: &str, rack: Option<&str>, chunk: u32) -> (r: Vec<
        CandidatePeer,
    >)
        requires
            answers_for(self@.nodes, requester_id@, chunk),
        ensures
            offers(
                peers_of(r@),
                holders(self@.nodes, requester_id@, chunk),
                match rack {
                    Some(s) => Some(s@),
                    None => None,
                },
            ),
    {
        let ghost rack_view = match rack {
            Some(s) => Some(s@),
            None => None,
        };
        let ghost nodes = self@.nodes;
        let mut found: Vec<usize> = Vec::new();
        let mut keys: Vec<u128> = Vec::new();
        let mut i: usize = 0;
        let ghost mut from = Seq::<NodeView>::empty();
        assert(nodes.take(0) =~= Seq::empty());
        while i < self.nodes.len()
            invariant
                i <= self.nodes@.len(),
                nodes == self@.nodes,
                nodes == nodes_of(self.nodes@),
                answers_for(nodes, requester_id@, chunk),
                rack_view == (match rack {
                    Some(s) => Some(s@),
                    None => None,
                }),
                from == holders(nodes.take(i as int), requester_id@, chunk),
                found@.len() == from.len(),
                keys@ == costs(from, rack_view),
                forall|j: int|
                    0 <= j < found@.len() ==> #[trigger] found@[j] < nodes.len()
                        && nodes[found@[j] as int] == from[j],
            decreases self.nodes@.len() - i,
        {
            let node = &self.nodes[i];
            assert(nodes[i as int] == node@);
            assert(nodes.take(i + 1).drop_last() =~= nodes.take(i as int));
            assert(nodes.take(i + 1).last() == node@);
            if !str_eq(node.node_id.as_str(), requester_id) && node.bitmap.has(chunk) {
                let base: u128 = (u64::MAX - node.available_upload_bw) as u128;
                let key: u128 = match rack {
                    Some(s) => if str_eq(node.rack_id.as_str(), s) {
                        base
                    } else {
                        base + 0x1_0000_0000_0000_0000
                    },
                    None => base,
                };
                let ghost before = from;
                proof {
                    from = before.push(node@);
                }
                found.push(i);
                keys.push(key);
                assert(keys@ =~= costs(from, rack_view));
            }
            i = i + 1;
        }
        assert(nodes.take(i as int) =~= nodes);
        let order = rank(&keys);
        let ghost all = arranged(from, order@).map_values(|n: NodeView| as_candidate(n));
        let mut out: Vec<CandidatePeer> = Vec::new();
        let mut k: usize = 0;
        while k < order.len()
            invariant
                k <= order@.len(),
                nodes == nodes_of(self.nodes@),
                ranks(order@, keys@),
                keys@.len() == from.len(),
                found@.len() == from.len(),
                forall|j: int|
                    0 <= j < found@.len() ==> #[trigger] found@[j] < nodes.len()
                        && nodes[found@[j] as int] == from[j],
                all == arranged(from, order@).map_values(|n: NodeView| as_candidate(n)),
                peers_of(out@) == all.take(k as int),
            decreases order@.len() - k,
        {
            let at: usize = found[order[k]];
            let node = &self.nodes[at];
            assert(nodes[at as int] == node@);
            let ghost before = out@;
            let peer = CandidatePeer {
                node_id: node.node_id.clone(),
                rack_id: node.rack_id.clone(),
                upload_bw: node.available_upload_bw,
            };
            out.push(peer);
            k = k + 1;
            assert(peers_of(out@) =~= peers_of(before).push(peer@));
            assert(peers_of(out@) =~= all.take(k as int));
        }
        assert(peers_of(out@) =~= all);
        out
    }

    /// How many candidates a chunk has.
    fn candidate_count(&self, requester_id: &str, chunk: u32) -> (r: usize)
        requires
            answers_for(self@.nodes, requester_id@, chunk),
        ensures
            r == holders(self@.nodes, requester_id@, chunk).len(),
    {
        let ghost nodes = self@.nodes;
        let mut count: usize = 0;
        let mut i: usize = 0;
        assert(nodes.take(0) =~= Seq::empty());
        while i < self.nodes.len()
            invariant
                i <= self.nodes@.len(),
                nodes == nodes_of(self.nodes@),
                answers_for(nodes, requester_id@, chunk),
                count <= i,
                count == holders(nodes.take(i as int), requester_id@, chunk).len(),
            decreases self.nodes@.len() - i,
        {
            let node = &self.nodes[i];
            assert(nodes[i as int] == node@);
            assert(nodes.take(i + 1).drop_last() =~= nodes.take(i as int));
            assert(nodes.take(i + 1).last() == node@);
            if !str_eq(node.node_id.as_str(), requester_id) && node.bitmap.has(chunk) {
                count = count + 1;
            }
            i = i + 1;
        }
        assert(nodes.take(i as int) =~= nodes);
        count
    }

    /// The first `top_n` missing chunks, the rarest first, each with the peers that hold it,
    /// those with the most bandwidth first.
    pub fn get_peers_rarity_first(&self, requester_id: &str, missing: &[u32], top_n: usize) -> (r:
        Vec<(u32, Vec<CandidatePeer>)>)
        requires
            forall|i: int|
                0 <= i < missing@.len() ==> answers_for(
                    self@.nodes,
                    requester_id@,
                    #[trigger] missing@[i],
                ),
        ensures
            exists|ranked: Seq<u32>| #[trigger]
                rarest_first(ranked, missing@, self@.nodes, requester_id@) && assigns(
                    r@,
                    at_most(ranked, top_n as int),
                    self@.nodes,
                    requester_id@,
                    None,
                ),
    {
        let ghost nodes = self@.nodes;
        let mut keys: Vec<u128> = Vec::new();
        let mut i: usize = 0;
        while i < missing.len()
            invariant
                i <= missing@.len(),
                nodes == self@.nodes,
                forall|j: int|
                    0 <= j < missing@.len() ==> answers_for(
                        nodes,
                        requester_id@,
                        #[trigger] missing@[j],
                    ),
                keys@ == holder_counts(missing@, nodes, requester_id@).take(i as int),
            decreases missing@.len() - i,
        {
            let count: usize = self.candidate_count(requester_id, missing[i]);
            keys.push(count as u128);
            i = i + 1;
            assert(keys@ =~= holder_counts(missing@, nodes, requester_id@).take(i as int));
        }
        assert(keys@ =~= holder_counts(missing@, nodes, requester_id@));
        let order = rank(&keys);
        let ghost ranked = arranged(missing@, order@);
        let n: usize = if top_n < order.len() {
            top_n
        } else {
            order.len()
        };
        let mut out: Vec<(u32, Vec<CandidatePeer>)> = Vec::new();
        let mut k: usize = 0;
        while k < n
            invariant
                k <= n <= order@.len(),
                nodes == self@.nodes,
                ranks(order@, keys@),
                keys@.len() == missing@.len(),
                ranked == arranged(missing@, order@),
                forall|j: int|
                    0 <= j < missing@.len() ==> answers_for(
                        nodes,
                        requester_id@,
                        #[trigger] missing@[j],
                    ),
                assigns(out@, ranked.take(k as int), nodes, requester_id@, None),
            decreases n - k,
        {
            let chunk: u32 = missing[order[k]];
            let peers = self.candidates(requester_id, None, chunk);
            out.push((chunk, peers));
            k = k + 1;
        }
        assert(ranked.take(n as int) =~= at_most(ranked, top_n as int));
        assert(rarest_first(ranked, missing@, nodes, requester_id@));
        out
    }

    /// The first `top_n` missing chunks, as they were given, each with the peers that hold
    /// it: those of the requester's rack first, and in each of the two groups those with the
    /// most bandwidth.
    pub fn get_peers_topology_aware(
        &self,
        requester_id: &str,
        requester_rack: &str,
        missing: &[u32],
        top_n: usize,
    ) -> (r: Vec<(u32, Vec<CandidatePeer>)>)
        requires
            forall|i: int|
                0 <= i < missing@.len() && i < top_n ==> answers_for(
                    self@.nodes,
                    requester_id@,
                    #[trigger] missing@[i],
                ),
        ensures
            assigns(
                r@,
                at_most(missing@, top_n as int),
                self@.nodes,
                requester_id@,
                Some(requester_rack@),
            ),
    {
        let n: usize = if top_n < missing.len() {
            top_n
        } else {
            missing.len()
        };
        let mut out: Vec<(u32, Vec<CandidatePeer>)> = Vec::new();
        let mut k: usize = 0;
        while k < n
            invariant
                k <= n <= missing@.len(),
                n <= top_n,
                forall|i: int|
                    0 <= i < missing@.len() && i < top_n ==> answers_for(
                        self@.nodes,
                        requester_id@,
                        #[trigger] missing@[i],
                    ),
                assigns(
                    out@,
                    missing@.take(k as int),
                    self@.nodes,
                    requester_id@,
                    Some(requester_rack@),
                ),
            decreases n - k,
        {
            let chunk: u32 = missing[k];
            let peers = self.candidates(requester_id, Some(requester_rack), chunk);
            out.push((chunk, peers));
            k = k + 1;
        }
        assert(missing@.take(n as int) =~= at_most(missing@, top_n as int));
        out
    }

    /// How many nodes hold each chunk.
    pub fn replica_counts(&self) -> (r: Vec<u32>)
        requires
            forall|i: int, c: u32|
                #![trigger self@.nodes[i].bitmap.covers(c)]
                0 <= i < self@.nodes.len() && c < self@.chunk_count
                    ==> self@.nodes[i].bitmap.covers(c),
            self@.nodes.len() <= u32::MAX,
        ensures
            r@.len() == self@.chunk_count,
            forall|c: u32|
                c < self@.chunk_count ==> #[trigger] r@[c as int] == replicas(self@.nodes, c),
    {
        let ghost nodes = self@.nodes;
        let n: u32 = self.chunk_count;
        let mut counts: Vec<u32> = vec![0u32; n as usize];
        let mut k: usize = 0;
        assert(nodes.take(0) =~= Seq::empty());
        while k < self.nodes.len()
            invariant
                k <= self.nodes@.len(),
                nodes == nodes_of(self.nodes@),
                nodes.len() <= u32::MAX,
                n == self@.chunk_count,
                forall|i: int, c: u32|
                    #![trigger nodes[i].bitmap.covers(c)]
                    0 <= i < nodes.len() && c < n ==> nodes[i].bitmap.covers(c),
                counts@.len() == n,
                forall|c: u32|
                    c < n ==> #[trigger] counts@[c as int] <= k && counts@[c as int] == replicas(
                        nodes.take(k as int),
                        c,
                    ),
            decreases self.nodes@.len() - k,
        {
            let ghost before = counts@;
            let node = &self.nodes[k];
            assert(nodes[k as int] == node@);
            assert(nodes.take(k + 1).drop_last() =~= nodes.take(k as int));
            assert(nodes.take(k + 1).last() == node@);
            let mut c: u32 = 0;
            while c < n
                invariant
                    c <= n,
                    k < nodes.len() <= u32::MAX,
                    node@ == nodes[k as int],
                    forall|i: int, d: u32|
                        #![trigger nodes[i].bitmap.covers(d)]
                        0 <= i < nodes.len() && d < n ==> nodes[i].bitmap.covers(d),
                    counts@.len() == n,
                    before.len() == n,
                    forall|d: u32| d < n ==> #[trigger] before[d as int] <= k,
                    forall|d: u32|
                        d < n ==> #[trigger] counts@[d as int] == before[d as int] + if d < c
                            && node@.bitmap.holds(d) {
                            1int
                        } else {
                            0
                        },
                decreases n - c,
            {
                assert(nodes[k as int].bitmap.covers(c));
                assert(before[c as int] <= k);
                if node.bitmap.has(c) {
                    let x: u32 = counts[c as usize];
                    counts[c as usize] = x + 1;
                }
                c = c + 1;
            }
            k = k + 1;
            assert forall|d: u32| d < n implies #[trigger] counts@[d as int] <= k
                && counts@[d as int] == replicas(nodes.take(k as int), d) by {
                assert(before[d as int] <= k - 1);
            }
        }
        assert(nodes.take(k as int) =~= nodes);
        counts
    }
}

/// Whether the bitmaps of the nodes other than `requester_id` answer for a chunk.
pub fn can_answer(tracker: &Tracker, requester_id: &str, chunk: u32) -> (r: bool)
    ensures
        r == answers_for(tracker@.nodes, requester_id@, chunk),
{
    let ghost nodes = tracker@.nodes;
    let mut i: usize = 0;
    while i < tracker.nodes.len()
        invariant
            i <= tracker.nodes@.len(),
            nodes == nodes_of(tracker.nodes@),
            forall|j: int|
                0 <= j < i ==> (#[trigger] nodes[j]).node_id == requester_id@
                    || nodes[j].bitmap.covers(chunk),
        decreases tracker.nodes@.len() - i,
    {
        let node = &tracker.nodes[i];
        assert(nodes[i as int] == node@);
        if !str_eq(node.node_id.as_str(), requester_id) && !node.bitmap.covers(chunk) {
            return false;
        }
        i = i + 1;
    }
    true
}

/// The text of a digest mismatch.
pub open spec fn mismatch_text(expected: Seq<char>, actual: Seq<char>) -> Seq<char> {
    "chunk hash mismatch: expected="@ + expected + " got="@ + actual
}

/// Checks downloaded chunk data against the digest text of the manifest.
pub fn verify_chunk(data: &[u8], expected: &str) -> (r: Result<(), String>)
    ensures
        match r {
            Ok(()) => hash_text(data@) == expected@,
            Err(text) => hash_text(data@) != expected@ && text@ == mismatch_text(
                expected@,
                hash_text(data@),
            ),
        },
{
    let actual = hash_bytes(data);
    if str_eq(actual.as_str(), expected) {
        return Ok(());
    }
    let mut text = "chunk hash mismatch: expected=".to_owned();
    text.append(expected);
    text.append(" got=");
    text.append(actual.as_str());
    assert(text@ =~= mismatch_text(expected@, hash_text(data@)));
    Err(text)
}

/// Where a peer serves a chunk.
pub fn chunk_url(peer_id: &str, manifest: &Manifest, chunk_idx: u32) -> (r: String)
    ensures
        r@ == "http://"@ + peer_id@ + "/chunks/"@ + manifest@.file_id + "/"@ + decimal(
            chunk_idx as nat,
        ),
{
    let mut url = "http://".to_owned();
    url.append(peer_id);
    url.append("/chunks/");
    url.append(manifest.file_id.as_str());
    url.append("/");
    push_decimal(&mut url, chunk_idx as u64);
    assert(url@ =~= "http://"@ + peer_id@ + "/chunks/"@ + manifest@.file_id + "/"@ + decimal(
        chunk_idx as nat,
    ));
    url
}

/// The range of bytes that a chunk takes up in the file, as the value of a `Range` header.
/// Both ends are part of the range.
pub fn range_header(manifest: &Manifest, chunk_idx: u32) -> (r: String)
    requires
        chunk_start(chunk_idx as int, manifest.chunk_size as int) <= u64::MAX,
        chunk_end(chunk_idx as int, manifest.chunk_size as int, manifest.total_size as int) > 0,
    ensures
        r@ == "bytes="@ + decimal(
            chunk_start(chunk_idx as int, manifest@.chunk_size as int) as nat,
        ) + "-"@ + decimal(
            (chunk_end(
                chunk_idx as int,
                manifest@.chunk_size as int,
                manifest@.total_size as int,
            ) - 1) as nat,
        ),
{
    let (start, end) = manifest.chunk_range(chunk_idx);
    let mut text = "bytes=".to_owned();
    push_decimal(&mut text, start);
    text.append("-");
    push_decimal(&mut text, end - 1);
    assert(text@ =~= "bytes="@ + decimal(start as nat) + "-"@ + decimal((end - 1) as nat));
    text
}

/// A node that fetches a file with the help of the tracker.
#[derive(Debug)]
pub struct PeerNode {
    pub node_id: String,
    pub rack_id: String,
    pub manifest: Manifest,
    pub bitmap: ChunkBitmap,
    /// How many chunks are downloaded at a time.
    pub max_concurrent: usize,
}

/// What a node does next.
#[derive(Debug)]
pub enum Step {
    /// Nothing: the file has chunks, and all are there.
    Done,
    /// Wait this many milliseconds.
    Wait(u64),
    /// Fetch these chunks, each from the first of its peers that delivers.
    Fetch(Vec<(u32, Vec<CandidatePeer>)>),
}

/// `r` assigns the rarest of the missing chunks to their candidates, `top_n` at most.
pub open spec fn assigns_rarest(
    r: Seq<(u32, Vec<CandidatePeer>)>,
    missing: Seq<u32>,
    nodes: Seq<NodeView>,
    requester: Seq<char>,
    top_n: int,
) -> bool {
    exists|ranked: Seq<u32>| #[trigger]
        rarest_first(ranked, missing, nodes, requester) && assigns(
            r,
            at_most(ranked, top_n),
            nodes,
            requester,
            None,
        )
}

/// What a node with this bitmap does next: it is done when the file has chunks and all are
/// there; otherwise it fetches the rarest of those that are missing, or waits if there is
/// nothing to fetch. On a file without chunks it waits: it is never done.
pub open spec fn planned(
    step: Step,
    bitmap: BitmapView,
    missing: Seq<u32>,
    nodes: Seq<NodeView>,
    requester: Seq<char>,
    top_n: int,
) -> bool {
    if bitmap.chunk_count > 0 && bitmap.is_complete() {
        step is Done
    } else {
        match step {
            Step::Done => false,
            Step::Wait(ms) => ms == IDLE_PAUSE_MS && (missing.len() == 0 || top_n == 0),
            Step::Fetch(r) => {
                &&& missing.len() > 0 && top_n > 0
                &&& assigns_rarest(r@, missing, nodes, requester, top_n)
            },
        }
    }
}

impl PeerNode {
    /// Decides what to do next.
    pub fn plan(&self, tracker: &Tracker) -> (r: Step)
        requires
            2 * self.max_concurrent <= usize::MAX,
            forall|c: u32|
                c < self.bitmap@.bits.len() && !self.bitmap@.bits[c as int]
                    ==> #[trigger] answers_for(tracker@.nodes, self.node_id@, c),
        ensures
            exists|missing: Seq<u32>| #[trigger]
                lists_missing(missing, self.bitmap@.bits) && planned(
                    r,
                    self.bitmap@,
                    missing,
                    tracker@.nodes,
                    self.node_id@,
                    2 * self.max_concurrent,
                ),
    {
        let missing = self.bitmap.missing();
        if self.bitmap.chunk_count() > 0 && self.bitmap.is_complete() {
            assert(lists_missing(missing@, self.bitmap@.bits));
            return Step::Done;
        }
        let top_n: usize = self.max_concurrent * 2;
        let assignments = tracker.get_peers_rarity_first(
            self.node_id.as_str(),
            missing.as_slice(),
            top_n,
        );
        assert(lists_missing(missing@, self.bitmap@.bits));
        assert(assigns_rarest(
            assignments@,
            missing@,
            tracker@.nodes,
            self.node_id@,
            top_n as int,
        ));
        if assignments.len() == 0 {
            Step::Wait(IDLE_PAUSE_MS)
        } else {
            Step::Fetch(assignments)
        }
    }

    /// Takes in what a peer delivered for a chunk, if it did. The chunk counts as received if
    /// it has the digest of the manifest; tells whether it does. If not, the next peer is
    /// tried.
    pub fn receive(&mut self, chunk_idx: u32, delivered: Option<&[u8]>) -> (r: bool)
        requires
            delivered is Some ==> chunk_idx < old(self).manifest@.chunk_hashes.len(),
            old(self).bitmap@.covers(chunk_idx),
        ensures
            r == (delivered is Some && hash_text(delivered->0@)
                == old(self).manifest@.chunk_hashes[chunk_idx as int]),
            final(self).bitmap@ == if r {
                old(self).bitmap@.marked(chunk_idx)
            } else {
                old(self).bitmap@
            },
            final(self).node_id == old(self).node_id,
            final(self).rack_id == old(self).rack_id,
            final(self).manifest == old(self).manifest,
            final(self).max_concurrent == old(self).max_concurrent,
    {
        match delivered {
            Some(data) => {
                let expected = self.manifest.chunk_hashes[chunk_idx as usize].as_str();
                match verify_chunk(data, expected) {
                    Ok(()) => {
                        self.bitmap.mark_complete(chunk_idx);
                        true
                    },
                    Err(_) => false,
                }
            },
            None => false,
        }
    }

    /// Reports to the tracker which chunks the node holds.
    pub fn report(&self, tracker: &mut Tracker, now: u64)
        ensures
            final(tracker)@ == (TrackerView {
                nodes: with_node(old(tracker)@.nodes, self.reported(now)),
                ..old(tracker)@
            }),
            ids_differ(final(tracker)@.nodes),
    {
        tracker.update_node(
            self.node_id.clone(),
            self.bitmap.clone(),
            REPORTED_UPLOAD_BW,
            self.rack_id.clone(),
            now,
        );
    }

    /// What the node reports of itself.
    pub open spec fn reported(self, now: u64) -> NodeView {
        NodeView {
            node_id: self.node_id@,
            bitmap: self.bitmap@,
            available_upload_bw: REPORTED_UPLOAD_BW,
            rack_id: self.rack_id@,
            last_seen: now,
        }
    }
}

/// The tracker has every node once, with what it reported last; the others stay.
pub proof fn report_replaces_one_node(nodes: Seq<NodeView>, node: NodeView)
    requires
        ids_differ(nodes),
    ensures
        ids_differ(with_node(nodes, node)),
        with_node(nodes, node).contains(node),
        forall|n: NodeView|
            n.node_id != node.node_id ==> (#[trigger] nodes.contains(n) <==> with_node(
                nodes,
                node,
            ).contains(n)),
        forall|n: NodeView|
            n.node_id == node.node_id && #[trigger] with_node(nodes, node).contains(n) ==> n
                == node,
{
    let p = position(nodes, node.node_id);
    let after = with_node(nodes, node);
    lemma_position(nodes, node.node_id);
    assert(after[p] == node);
    assert forall|i: int, j: int| 0 <= i < j < after.len() implies after[i].node_id
        != after[j].node_id by {
        if i < nodes.len() && i != p {
            assert(nodes[i].node_id == after[i].node_id);
        }
        if j < nodes.len() && j != p {
            assert(nodes[j].node_id == after[j].node_id);
        }
    }
    assert forall|n: NodeView| n.node_id != node.node_id implies (#[trigger] nodes.contains(n)
        <==> after.contains(n)) by {
        if nodes.contains(n) {
            let i = choose|i: int| 0 <= i < nodes.len() && nodes[i] == n;
            assert(after[i] == n);
        }
        if after.contains(n) {
            let i = choose|i: int| 0 <= i < after.len() && after[i] == n;
            assert(nodes[i] == n);
        }
    }
    assert forall|n: NodeView|
        n.node_id == node.node_id && #[trigger] after.contains(n) implies n == node by {
        let i = choose|i: int| 0 <= i < after.len() && after[i] == n;
        if i != p {
            assert(after[i].node_id != after[p].node_id);
        }
    }
}

/// The candidates for a chunk are the other nodes that hold it.
pub proof fn holders_are_holding_nodes(nodes: Seq<NodeView>, requester: Seq<char>, chunk: u32)
    ensures
        forall|n: NodeView| #[trigger]
            holders(nodes, requester, chunk).contains(n) <==> nodes.contains(n) && n.node_id
                != requester && n.bitmap.holds(chunk),
    decreases nodes.len(),
{
    if nodes.len() > 0 {
        let front = nodes.drop_last();
        let last = nodes.last();
        let found = holders(front, requester, chunk);
        holders_are_holding_nodes(front, requester, chunk);
        assert forall|n: NodeView| #[trigger]
            holders(nodes, requester, chunk).contains(n) <==> nodes.contains(n) && n.node_id
                != requester && n.bitmap.holds(chunk) by {
            assert(found.contains(n) <==> front.contains(n) && n.node_id != requester
                && n.bitmap.holds(chunk));
            assert(nodes =~= front.push(last));
            assert(nodes.contains(n) <==> front.contains(n) || n == last) by {
                if nodes.contains(n) {
                    let i = choose|i: int| 0 <= i < nodes.len() && nodes[i] == n;
                    if i < front.len() {
                        assert(front[i] == n);
                    }
                }
                if front.contains(n) {
                    let i = choose|i: int| 0 <= i < front.len() && front[i] == n;
                    assert(nodes[i] == n);
                }
                if n == last {
                    assert(nodes[nodes.len() - 1] == n);
                }
            }
            if last.node_id != requester && last.bitmap.holds(chunk) {
                let grown = found.push(last);
                if grown.contains(n) {
                    let i = choose|i: int| 0 <= i < grown.len() && grown[i] == n;
                    if i < found.len() {
                        assert(found[i] == n);
                    }
                }
                if found.contains(n) {
                    let i = choose|i: int| 0 <= i < found.len() && found[i] == n;
                    assert(grown[i] == n);
                }
                if n == last {
                    assert(grown[found.len() as int] == n);
                }
            }
        }
    }
}

/// In what is offered for a chunk no peer comes after one that costs more: by bandwidth, none
/// after a slower one; for a requester on a rack, none of the rack after one of another.
pub proof fn offered_peers_are_in_order(
    list: Seq<PeerView>,
    from: Seq<NodeView>,
    rack: Option<Seq<char>>,
)
    requires
        offers(list, from, rack),
    ensures
        list.len() == from.len(),
        forall|i: int, j: int|
            0 <= i < j < list.len() && (rack is None || (list[i].rack_id == rack->0) == (
            list[j].rack_id == rack->0)) ==> (#[trigger] list[i]).upload_bw >= (
            #[trigger] list[j]).upload_bw,
        forall|i: int, j: int|
            0 <= i < j < list.len() && rack is Some && (#[trigger] list[j]).rack_id == rack->0
                ==> (#[trigger] list[i]).rack_id == rack->0,
{
    let order = choose|order: Seq<usize>| #[trigger]
        ranks(order, costs(from, rack)) && list == arranged(from, order).map_values(
            |n: NodeView| as_candidate(n),
        );
    let keys = costs(from, rack);
    assert forall|i: int, j: int|
        0 <= i < j < list.len() && (rack is None || (list[i].rack_id == rack->0) == (
        list[j].rack_id == rack->0)) implies (#[trigger] list[i]).upload_bw >= (
    #[trigger] list[j]).upload_bw by {
        assert(comes_before(keys, order[i], order[j]));
    }
    assert forall|i: int, j: int|
        0 <= i < j < list.len() && rack is Some && (#[trigger] list[j]).rack_id == rack->0 implies (
    #[trigger] list[i]).rack_id == rack->0 by {
        assert(comes_before(keys, order[i], order[j]));
    }
}

/// The chunks that are assigned come with ascending numbers of candidates, and they are the
/// missing ones, each as often as it was listed: the rarest are fetched first.
pub proof fn ranked_chunks_ascend_in_holders(
    ranked: Seq<u32>,
    chunks: Seq<u32>,
    nodes: Seq<NodeView>,
    requester: Seq<char>,
)
    requires
        rarest_first(ranked, chunks, nodes, requester),
        chunks.len() <= usize::MAX,
        nodes.len() <= usize::MAX,
    ensures
        ranked.len() == chunks.len(),
        forall|i: int, j: int|
            0 <= i < j < ranked.len() ==> holders(nodes, requester, #[trigger] ranked[i]).len()
                <= holders(nodes, requester, #[trigger] ranked[j]).len(),
        forall|c: u32| #[trigger] ranked.contains(c) <==> chunks.contains(c),
        ranked.to_multiset() == chunks.to_multiset(),
{
    let keys = holder_counts(chunks, nodes, requester);
    let order = choose|order: Seq<usize>| #[trigger]
        ranks(order, keys) && ranked == arranged(chunks, order);
    assert forall|i: int, j: int| 0 <= i < j < ranked.len() implies holders(
        nodes,
        requester,
        #[trigger] ranked[i],
    ).len() <= holders(nodes, requester, #[trigger] ranked[j]).len() by {
        lemma_holders_len(nodes, requester, ranked[i]);
        lemma_holders_len(nodes, requester, ranked[j]);
        assert(comes_before(keys, order[i], order[j]));
    }
    assert forall|c: u32| #[trigger] ranked.contains(c) <==> chunks.contains(c) by {
        if ranked.contains(c) {
            let i = choose|i: int| 0 <= i < ranked.len() && ranked[i] == c;
            assert(chunks[order[i] as int] == c);
        }
        if chunks.contains(c) {
            let j = choose|j: int| 0 <= j < chunks.len() && chunks[j] == c;
            assert(order.contains(j as usize));
            let i = choose|i: int| 0 <= i < order.len() && order[i] == j as usize;
            assert(ranked[i] == c);
        }
    }
    ranking_is_permutation(chunks, keys, order);
}

proof fn lemma_holders_len(nodes: Seq<NodeView>, requester: Seq<char>, chunk: u32)
    ensures
        holders(nodes, requester, chunk).len() <= nodes.len(),
    decreases nodes.len(),
{
    if nodes.len() > 0 {
        lemma_holders_len(nodes.drop_last(), requester, chunk);
    }
}

/// The chunks that fewer than `SCARCE_BELOW` nodes hold, in ascending order.
pub open spec fn lists_scarce(list: Seq<u32>, counts: Seq<u32>) -> bool {
    &&& forall|a: int, b: int| 0 <= a < b < list.len() ==> list[a] < list[b]
    &&& forall|i: u32| #[trigger]
        list.contains(i) <==> i < counts.len() && counts[i as int] < SCARCE_BELOW
}

/// Finds the scarce chunks.
pub fn scarce_chunks(counts: &Vec<u32>) -> (r: Vec<u32>)
    requires
        counts@.len() <= u32::MAX,
    ensures
        lists_scarce(r@, counts@),
{
    let n: u32 = counts.len() as u32;
    let mut list: Vec<u32> = Vec::new();
    let mut i: u32 = 0;
    while i < n
        invariant
            i <= n,
            n == counts@.len(),
            forall|a: int, b: int| 0 <= a < b < list@.len() ==> list@[a] < list@[b],
            forall|a: int| 0 <= a < list@.len() ==> #[trigger] list@[a] < i,
            forall|c: u32| #[trigger]
                list@.contains(c) <==> c < i && counts@[c as int] < SCARCE_BELOW,
        decreases n - i,
    {
        let ghost before = list@;
        if counts[i as usize] < SCARCE_BELOW {
            list.push(i);
        }
        i = i + 1;
        assert forall|c: u32| #[trigger] list@.contains(c) <==> c < i && counts@[c as int]
            < SCARCE_BELOW by {
            assert(before.contains(c) <==> c < i - 1 && counts@[c as int] < SCARCE_BELOW);
            if list@.contains(c) {
                let k = choose|k: int| 0 <= k < list@.len() && list@[k] == c;
                if k < before.len() {
                    assert(before[k] == c);
                }
            }
            if before.contains(c) {
                let k = choose|k: int| 0 <= k < before.len() && before[k] == c;
                assert(list@[k] == c);
            }
            if c == i - 1 && counts@[c as int] < SCARCE_BELOW {
                assert(list@[before.len() as int] == c);
            }
        }
    }
    list
}

/// What the tail phase reports, for `n` scarce chunks of `chunk_size` bytes: they are taken
/// `k` at a time, and `k` of them can be encoded if they are not empty; a rest of fewer
/// cannot.
pub open spec fn tail_outcome(
    n: int,
    chunk_size: int,
    k: int,
    m: int,
    r: Result<(), DistError>,
) -> bool {
    match r {
        Ok(()) => codec_exists(k, m) && (n == 0 || (chunk_size > 0 && n % k == 0)),
        Err(DistError::ErasureError(text)) => if !codec_exists(k, m) {
            codec_refusal(k, m) == Some(text@)
        } else if n >= k && chunk_size == 0 {
            text@ == "The first shard provided is of zero length"@
        } else {
            &&& n % k != 0
            &&& text@ == "The number of provided shards is smaller than the one in codec"@
        },
        Err(_) => false,
    }
}

/// The tail phase: encodes the chunks that are scarce among the nodes, in stripes of
/// `data_shards` chunks. The shards hold zeros; their content is filled in where the chunks
/// are fetched.
pub fn tail_phase_ec(
    tracker: &Tracker,
    manifest: &Manifest,
    data_shards: usize,
    par_shards: usize,
) -> (r: Result<(), DistError>)
    requires
        data_shards + par_shards <= usize::MAX,
        manifest.chunk_size <= isize::MAX,
        forall|i: int, c: u32|
            #![trigger tracker@.nodes[i].bitmap.covers(c)]
            0 <= i < tracker@.nodes.len() && c < tracker@.chunk_count
                ==> tracker@.nodes[i].bitmap.covers(c),
        tracker@.nodes.len() <= u32::MAX,
    ensures
        exists|counts: Seq<u32>, scarce: Seq<u32>| #[trigger]
            lists_scarce(scarce, counts) && counts.len() == tracker@.chunk_count && (forall|c: u32|
                c < tracker@.chunk_count ==> #[trigger] counts[c as int] == replicas(
                    tracker@.nodes,
                    c,
                )) && tail_outcome(
                scarce.len() as int,
                manifest@.chunk_size as int,
                data_shards as int,
                par_shards as int,
                r,
            ),
{
    let counts = tracker.replica_counts();
    let scarce = scarce_chunks(&counts);
    assert(lists_scarce(scarce@, counts@));
    if let Err(text) = rs_check(data_shards, par_shards) {
        return Err(DistError::ErasureError(text));
    }
    let size: usize = manifest.chunk_size as usize;
    let mut left: usize = scarce.len();
    let ghost n = scarce@.len() as int;
    let ghost mut done = 0int;
    assert(0 * data_shards == 0) by (nonlinear_arith);
    while left > 0
        invariant
            codec_exists(data_shards as int, par_shards as int),
            size == manifest.chunk_size,
            n == scarce@.len(),
            lists_scarce(scarce@, counts@),
            counts@.len() == tracker@.chunk_count,
            forall|c: u32|
                c < tracker@.chunk_count ==> #[trigger] counts@[c as int] == replicas(
                    tracker@.nodes,
                    c,
                ),
            0 <= done,
            left == n - done * data_shards,
            done > 0 ==> size > 0,
            n >= 0,
        decreases left,
    {
        let stripe: usize = if data_shards <= left {
            data_shards
        } else {
            left
        };
        let mut shards: Vec<Vec<u8>> = Vec::new();
        while shards.len() < stripe + par_shards
            invariant
                stripe <= data_shards,
                codec_exists(data_shards as int, par_shards as int),
                shards@.len() <= stripe + par_shards,
                forall|i: int|
                    0 <= i < shards@.len() ==> (#[trigger] shard_bytes(shards@)[i]).len() == size,
            decreases stripe + par_shards - shards@.len(),
        {
            let ghost before = shard_bytes(shards@);
            let zeros: Vec<u8> = vec![0u8; size];
            shards.push(zeros);
            assert(shard_bytes(shards@) =~= before.push(zeros@));
        }
        proof {
            assert(shard_bytes(shards@)[0].len() == size);
            lemma_rest(n, data_shards as int, done);
        }
        if let Err(text) = rs_encode(data_shards, par_shards, &mut shards) {
            return Err(DistError::ErasureError(text));
        }
        assert((done + 1) * data_shards == done * data_shards + data_shards) by (nonlinear_arith);
        left = left - stripe;
        proof {
            done = done + 1;
        }
    }
    proof {
        lemma_multiple(n, data_shards as int, done);
    }
    Ok(())
}

proof fn lemma_rest(n: int, k: int, done: int)
    requires
        k >= 1,
        0 <= done,
        done * k < n,
    ensures
        n - done * k < k ==> n % k != 0,
        n - done * k >= k ==> n >= k,
        done > 0 ==> n >= k,
{
    let rest = n - done * k;
    if rest < k {
        assert(n % k == rest) by (nonlinear_arith)
            requires
                n == done * k + rest,
                0 < rest < k,
        ;
    }
    assert(done * k >= 0) by (nonlinear_arith)
        requires
            done >= 0,
            k >= 1,
    ;
    if done > 0 {
        assert(done * k >= k) by (nonlinear_arith)
            requires
                done >= 1,
                k >= 1,
        ;
    }
}

proof fn lemma_multiple(n: int, k: int, done: int)
    requires
        k >= 1,
        n == done * k,
    ensures
        n % k == 0,
{
    assert(n % k == 0) by (nonlinear_arith)
        requires
            k >= 1,
            n == done * k,
    ;
}

} // verus!
