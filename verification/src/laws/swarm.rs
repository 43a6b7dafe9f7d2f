//! Laws of the swarm: a tracker for one file, and a node that fetches with its help.

use vstd::prelude::*;

use crate::bitmap::{lists_missing, ChunkBitmap};
use crate::erasure::at_most;
use crate::error::DistError;
use crate::hash::hash_text;
use crate::laws::bitmap::lemma_all_places;
use crate::manifest::Manifest;
use crate::sorting::{arranged, comes_before, ranks};
use crate::swarm::{
    as_candidate, assigns, can_answer, chunk_url, costs, holder_counts, holders, lists_scarce, offers,
    peers_of, planned, range_header, rarest_first, replicas, report_replaces_one_node,
    scarce_chunks, tail_outcome, tail_phase_ec, verify_chunk, with_node, CandidatePeer, NodeView,
    PeerNode, Step, Tracker,
};
use crate::text::decimal;

verus! {

/// A new tracker knows no nodes, and how many chunks the file has.
pub proof fn new_tracker_is_empty(chunk_count: u32, r: Tracker)
    requires
        call_ensures(Tracker::new, (chunk_count,), r),
    ensures
        r@.nodes.len() == 0,
        r@.chunk_count == chunk_count,
{
}

/// An update makes the tracker know one node as it is given, and no other under its id; what
/// it knows of the other nodes stays.
pub proof fn update_is_what_is_known(
    t: &mut Tracker,
    node_id: String,
    bitmap: ChunkBitmap,
    upload_bw: u64,
    rack_id: String,
    now: u64,
)
    requires
        call_ensures(Tracker::update_node, (t, node_id, bitmap, upload_bw, rack_id, now), ()),
        forall|i: int, j: int|
            0 <= i < j < old(t)@.nodes.len() ==> old(t)@.nodes[i].node_id
                != old(t)@.nodes[j].node_id,
    ensures
        final(t)@.chunk_count == old(t)@.chunk_count,
        forall|i: int, j: int|
            0 <= i < j < final(t)@.nodes.len() ==> final(t)@.nodes[i].node_id
                != final(t)@.nodes[j].node_id,
        exists|i: int|
            0 <= i < final(t)@.nodes.len() && (#[trigger] final(t)@.nodes[i]).node_id == node_id@
                && final(t)@.nodes[i].bitmap == bitmap@ && final(t)@.nodes[i].rack_id == rack_id@
                && final(t)@.nodes[i].available_upload_bw == upload_bw
                && final(t)@.nodes[i].last_seen == now,
        forall|n: NodeView|
            n.node_id != node_id@ ==> (#[trigger] final(t)@.nodes.contains(n)
                <==> old(t)@.nodes.contains(n)),
{
    let node = NodeView {
        node_id: node_id@,
        bitmap: bitmap@,
        available_upload_bw: upload_bw,
        rack_id: rack_id@,
        last_seen: now,
    };
    report_replaces_one_node(old(t)@.nodes, node);
    let after = final(t)@.nodes;
    assert(after == with_node(old(t)@.nodes, node));
    assert(after.contains(node));
    let i = choose|i: int| 0 <= i < after.len() && after[i] == node;
    assert(after[i].node_id == node_id@);
    assert forall|n: NodeView| n.node_id != node_id@ implies (#[trigger] after.contains(n)
        <==> old(t)@.nodes.contains(n)) by {
        assert(old(t)@.nodes.contains(n) <==> with_node(old(t)@.nodes, node).contains(n));
    }
}

proof fn lemma_holder_places(nodes: Seq<NodeView>, requester: Seq<char>, chunk: u32) -> (places:
    Seq<int>)
    ensures
        places.len() == holders(nodes, requester, chunk).len(),
        forall|i: int, j: int| 0 <= i < j < places.len() ==> places[i] < places[j],
        forall|i: int|
            #![trigger places[i]]
            0 <= i < places.len() ==> 0 <= places[i] < nodes.len() && holders(
                nodes,
                requester,
                chunk,
            )[i] == nodes[places[i]],
        forall|p: int| #[trigger]
            places.contains(p) <==> 0 <= p < nodes.len() && nodes[p].node_id != requester && chunk
                < nodes[p].bitmap.chunk_count && nodes[p].bitmap.bits[chunk as int],
    decreases nodes.len(),
{
    if nodes.len() == 0 {
        Seq::empty()
    } else {
        let front = nodes.drop_last();
        let last = nodes.len() - 1;
        let before = lemma_holder_places(front, requester, chunk);
        let holds = nodes[last].node_id != requester && chunk < nodes[last].bitmap.chunk_count
            && nodes[last].bitmap.bits[chunk as int];
        let places = if holds {
            before.push(last)
        } else {
            before
        };
        assert forall|p: int| #[trigger] places.contains(p) <==> 0 <= p < nodes.len()
            && nodes[p].node_id != requester && chunk < nodes[p].bitmap.chunk_count
            && nodes[p].bitmap.bits[chunk as int] by {
            assert(before.contains(p) <==> 0 <= p < front.len() && front[p].node_id != requester
                && chunk < front[p].bitmap.chunk_count && front[p].bitmap.bits[chunk as int]);
            if places.contains(p) {
                let k = choose|k: int| 0 <= k < places.len() && places[k] == p;
                if k < before.len() {
                    assert(before[k] == p);
                    assert(before.contains(p));
                    assert(front[p] == nodes[p]);
                }
            }
            if before.contains(p) {
                let k = choose|k: int| 0 <= k < before.len() && before[k] == p;
                assert(places[k] == p);
            }
            if 0 <= p < front.len() {
                assert(front[p] == nodes[p]);
            }
            if p == last && holds {
                assert(places[before.len() as int] == p);
            }
        }
        assert forall|i: int|
            #![trigger places[i]]
            0 <= i < places.len() implies 0 <= places[i] < nodes.len() && holders(
            nodes,
            requester,
            chunk,
        )[i] == nodes[places[i]] by {
            if i < before.len() {
                assert(before[i] == places[i]);
                assert(front[before[i]] == nodes[before[i]]);
            }
        }
        assert forall|i: int, j: int| 0 <= i < j < places.len() implies places[i] < places[j] by {
            assert(before[i] == places[i]);
            if j < before.len() {
                assert(before[j] == places[j]);
            }
        }
        places
    }
}

proof fn lemma_candidates(
    list: Seq<CandidatePeer>,
    nodes: Seq<NodeView>,
    requester: Seq<char>,
    chunk: u32,
    rack: Option<Seq<char>>,
) -> (places: Seq<int>)
    requires
        offers(peers_of(list), holders(nodes, requester, chunk), rack),
        nodes.len() <= usize::MAX,
    ensures
        places.no_duplicates(),
        places.len() == list.len(),
        forall|p: int| #[trigger]
            places.contains(p) <==> 0 <= p < nodes.len() && nodes[p].node_id != requester && chunk
                < nodes[p].bitmap.chunk_count && nodes[p].bitmap.bits[chunk as int],
        forall|i: int|
            0 <= i < list.len() ==> (#[trigger] list[i]).node_id@ == nodes[places[i]].node_id
                && list[i].rack_id@ == nodes[places[i]].rack_id && list[i].upload_bw
                == nodes[places[i]].available_upload_bw,
        forall|i: int, j: int|
            #![trigger list[i], list[j]]
            0 <= i < j < list.len() ==> match rack {
                None => list[i].upload_bw >= list[j].upload_bw,
                Some(own) => if (list[i].rack_id@ == own) == (list[j].rack_id@ == own) {
                    list[i].upload_bw >= list[j].upload_bw
                } else {
                    list[i].rack_id@ == own
                },
            },
{
    let from = holders(nodes, requester, chunk);
    let keys = costs(from, rack);
    let views = peers_of(list);
    let order = choose|order: Seq<usize>| #[trigger]
        ranks(order, costs(from, rack)) && views == arranged(from, order).map_values(
            |n: NodeView| as_candidate(n),
        );
    let at = lemma_holder_places(nodes, requester, chunk);
    let places = Seq::new(order.len(), |i: int| at[order[i] as int]);
    assert(views.len() == list.len());
    lemma_places_fit(at, nodes.len() as int);
    assert forall|i: int, j: int|
        0 <= i < places.len() && 0 <= j < places.len() && i != j implies places[i] != places[j] by {
        if i < j {
            assert(comes_before(keys, order[i], order[j]));
        } else {
            assert(comes_before(keys, order[j], order[i]));
        }
        let a = order[i] as int;
        let b = order[j] as int;
        assert(at[a] != at[b]) by {
            if a < b {
                assert(at[a] < at[b]);
            } else {
                assert(at[b] < at[a]);
            }
        }
    }
    assert forall|p: int| #[trigger] places.contains(p) <==> at.contains(p) by {
        if places.contains(p) {
            let i = choose|i: int| 0 <= i < places.len() && places[i] == p;
            assert(at[order[i] as int] == p);
        }
        if at.contains(p) {
            let a = choose|a: int| 0 <= a < at.len() && at[a] == p;
            assert(order.contains(a as usize));
            let i = choose|i: int| 0 <= i < order.len() && order[i] == a as usize;
            assert(places[i] == p);
        }
    }
    assert forall|i: int| 0 <= i < list.len() implies (#[trigger] list[i]).node_id@
        == nodes[places[i]].node_id && list[i].rack_id@ == nodes[places[i]].rack_id
        && list[i].upload_bw == nodes[places[i]].available_upload_bw by {
        assert(views[i] == list[i]@);
        assert(at[order[i] as int] == places[i]);
        assert(views[i] == as_candidate(from[order[i] as int]));
    }
    assert forall|i: int, j: int|
        #![trigger list[i], list[j]]
        0 <= i < j < list.len() implies match rack {
        None => list[i].upload_bw >= list[j].upload_bw,
        Some(own) => if (list[i].rack_id@ == own) == (list[j].rack_id@ == own) {
            list[i].upload_bw >= list[j].upload_bw
        } else {
            list[i].rack_id@ == own
        },
    } by {
        assert(comes_before(keys, order[i], order[j]));
        assert(from[order[i] as int] == nodes[places[i]]) by {
            assert(at[order[i] as int] == places[i]);
        }
        assert(from[order[j] as int] == nodes[places[j]]) by {
            assert(at[order[j] as int] == places[j]);
        }
    }
    places
}

proof fn lemma_places_fit(at: Seq<int>, n: int)
    requires
        forall|i: int, j: int| 0 <= i < j < at.len() ==> at[i] < at[j],
        forall|i: int| 0 <= i < at.len() ==> 0 <= #[trigger] at[i] < n,
    ensures
        at.len() <= n || at.len() == 0,
    decreases at.len(),
{
    if at.len() > 0 {
        let front = at.drop_last();
        assert forall|i: int| 0 <= i < front.len() implies 0 <= #[trigger] front[i] < at.last() by {
            assert(front[i] == at[i]);
            assert(at[i] < at[at.len() - 1]);
        }
        lemma_places_fit(front, at.last());
        assert(0 <= at[at.len() - 1] < n);
    }
}

/// By topology, the first missing chunks are assigned as they were listed, `top_n` at most:
/// each to all other nodes that hold it, those of the requester's rack before all others, and
/// on either side none before a faster one.
pub proof fn topology_assigns_own_rack_first(
    t: &Tracker,
    requester_id: &str,
    requester_rack: &str,
    missing: &[u32],
    top_n: usize,
    r: Vec<(u32, Vec<CandidatePeer>)>,
    c: int,
)
    requires
        call_ensures(
            Tracker::get_peers_topology_aware,
            (t, requester_id, requester_rack, missing, top_n),
            r,
        ),
        t@.nodes.len() <= usize::MAX,
        0 <= c < r@.len(),
    ensures
        r@.len() == if top_n < missing@.len() {
            top_n as int
        } else {
            missing@.len() as int
        },
        r@[c].0 == missing@[c],
        exists|places: Seq<int>|
            {
                &&& #[trigger] places.no_duplicates()
                &&& places.len() == r@[c].1@.len()
                &&& forall|p: int| #[trigger]
                    places.contains(p) <==> 0 <= p < t@.nodes.len() && t@.nodes[p].node_id
                        != requester_id@ && missing@[c] < t@.nodes[p].bitmap.chunk_count
                        && t@.nodes[p].bitmap.bits[missing@[c] as int]
                &&& forall|i: int|
                    0 <= i < places.len() ==> (#[trigger] r@[c].1@[i]).node_id@
                        == t@.nodes[places[i]].node_id && r@[c].1@[i].rack_id@
                        == t@.nodes[places[i]].rack_id && r@[c].1@[i].upload_bw
                        == t@.nodes[places[i]].available_upload_bw
            },
        forall|i: int, j: int|
            #![trigger r@[c].1@[i], r@[c].1@[j]]
            0 <= i < j < r@[c].1@.len() ==> if (r@[c].1@[i].rack_id@ == requester_rack@) == (
            r@[c].1@[j].rack_id@ == requester_rack@) {
                r@[c].1@[i].upload_bw >= r@[c].1@[j].upload_bw
            } else {
                r@[c].1@[i].rack_id@ == requester_rack@
            },
{
    let chunks = at_most(missing@, top_n as int);
    assert(assigns(r@, chunks, t@.nodes, requester_id@, Some(requester_rack@)));
    assert(r@[c].0 == chunks[c]);
    let places = lemma_candidates(
        r@[c].1@,
        t@.nodes,
        requester_id@,
        missing@[c],
        Some(requester_rack@),
    );
    assert(places.no_duplicates());
}

/// By rarity, missing chunks are assigned, `top_n` at most: those with fewer other holders
/// before those with more, and those with as many as they were listed; each to all other nodes
/// that hold it, none before a faster one. A chunk that is left out has no fewer holders than
/// one that is assigned.
pub proof fn rarity_assigns_rarest_first(
    t: &Tracker,
    requester_id: &str,
    missing: &[u32],
    top_n: usize,
    r: Vec<(u32, Vec<CandidatePeer>)>,
)
    requires
        call_ensures(Tracker::get_peers_rarity_first, (t, requester_id, missing, top_n), r),
        t@.nodes.len() <= usize::MAX,
        missing@.len() <= usize::MAX,
    ensures
        r@.len() == if top_n < missing@.len() {
            top_n as int
        } else {
            missing@.len() as int
        },
        exists|order: Seq<usize>|
            {
                &&& #[trigger] order.no_duplicates()
                &&& order.len() == missing@.len()
                &&& forall|i: int|
                    #![trigger order[i]]
                    0 <= i < order.len() ==> order[i] < missing@.len()
                &&& forall|i: int|
                    #![trigger r@[i]]
                    0 <= i < r@.len() ==> r@[i].0 == missing@[order[i] as int]
                &&& forall|i: int, j: int|
                    #![trigger order[i], order[j]]
                    0 <= i < j < order.len() ==> ({
                        let a = Set::new(
                            |p: int|
                                0 <= p < t@.nodes.len() && t@.nodes[p].node_id != requester_id@
                                    && missing@[order[i] as int] < t@.nodes[p].bitmap.chunk_count
                                    && t@.nodes[p].bitmap.bits[missing@[order[i] as int] as int],
                        ).len();
                        let b = Set::new(
                            |p: int|
                                0 <= p < t@.nodes.len() && t@.nodes[p].node_id != requester_id@
                                    && missing@[order[j] as int] < t@.nodes[p].bitmap.chunk_count
                                    && t@.nodes[p].bitmap.bits[missing@[order[j] as int] as int],
                        ).len();
                        a < b || (a == b && order[i] < order[j])
                    })
            },
{
    let ranked = choose|ranked: Seq<u32>| #[trigger]
        rarest_first(ranked, missing@, t@.nodes, requester_id@) && assigns(
            r@,
            at_most(ranked, top_n as int),
            t@.nodes,
            requester_id@,
            None,
        );
    let keys = holder_counts(missing@, t@.nodes, requester_id@);
    let order = choose|order: Seq<usize>| #[trigger]
        ranks(order, keys) && ranked == arranged(missing@, order);
    assert(order.no_duplicates()) by {
        assert forall|i: int, j: int|
            0 <= i < order.len() && 0 <= j < order.len() && i != j implies order[i] != order[j] by {
            if i < j {
                assert(comes_before(keys, order[i], order[j]));
            } else {
                assert(comes_before(keys, order[j], order[i]));
            }
        }
    }
    assert forall|i: int|
        #![trigger r@[i]]
        0 <= i < r@.len() implies r@[i].0 == missing@[order[i] as int] by {
        assert(r@[i].0 == at_most(ranked, top_n as int)[i]);
    }
    assert forall|i: int, j: int|
        #![trigger order[i], order[j]]
        0 <= i < j < order.len() implies ({
        let a = Set::new(
            |p: int|
                0 <= p < t@.nodes.len() && t@.nodes[p].node_id != requester_id@
                    && missing@[order[i] as int] < t@.nodes[p].bitmap.chunk_count
                    && t@.nodes[p].bitmap.bits[missing@[order[i] as int] as int],
        ).len();
        let b = Set::new(
            |p: int|
                0 <= p < t@.nodes.len() && t@.nodes[p].node_id != requester_id@
                    && missing@[order[j] as int] < t@.nodes[p].bitmap.chunk_count
                    && t@.nodes[p].bitmap.bits[missing@[order[j] as int] as int],
        ).len();
        a < b || (a == b && order[i] < order[j])
    }) by {
        assert(comes_before(keys, order[i], order[j]));
        lemma_holder_count(t@.nodes, requester_id@, missing@[order[i] as int]);
        lemma_holder_count(t@.nodes, requester_id@, missing@[order[j] as int]);
    }
}

proof fn lemma_holder_count(nodes: Seq<NodeView>, requester: Seq<char>, chunk: u32)
    ensures
        holders(nodes, requester, chunk).len() <= nodes.len(),
        holders(nodes, requester, chunk).len() == Set::new(
            |p: int|
                0 <= p < nodes.len() && nodes[p].node_id != requester && chunk
                    < nodes[p].bitmap.chunk_count && nodes[p].bitmap.bits[chunk as int],
        ).len(),
{
    let places = lemma_holder_places(nodes, requester, chunk);
    let set = Set::new(
        |p: int|
            0 <= p < nodes.len() && nodes[p].node_id != requester && chunk
                < nodes[p].bitmap.chunk_count && nodes[p].bitmap.bits[chunk as int],
    );
    assert(places.no_duplicates()) by {
        assert forall|i: int, j: int|
            0 <= i < places.len() && 0 <= j < places.len() && i != j implies places[i]
            != places[j] by {
            if i < j {
                assert(places[i] < places[j]);
            } else {
                assert(places[j] < places[i]);
            }
        }
    }
    places.unique_seq_to_set();
    assert forall|p: int| places.to_set().contains(p) <==> set.contains(p) by {
        assert(places.contains(p) <==> set.contains(p));
    }
    assert(places.to_set() =~= set);
    lemma_places_fit(places, nodes.len() as int);
}

/// The peers that a chunk is assigned to by rarity are all other nodes that hold it, none
/// before a faster one.
pub proof fn rarity_assigns_fastest_first(
    t: &Tracker,
    requester_id: &str,
    missing: &[u32],
    top_n: usize,
    r: Vec<(u32, Vec<CandidatePeer>)>,
    c: int,
)
    requires
        call_ensures(Tracker::get_peers_rarity_first, (t, requester_id, missing, top_n), r),
        t@.nodes.len() <= usize::MAX,
        0 <= c < r@.len(),
    ensures
        exists|places: Seq<int>|
            {
                &&& #[trigger] places.no_duplicates()
                &&& places.len() == r@[c].1@.len()
                &&& forall|p: int| #[trigger]
                    places.contains(p) <==> 0 <= p < t@.nodes.len() && t@.nodes[p].node_id
                        != requester_id@ && r@[c].0 < t@.nodes[p].bitmap.chunk_count
                        && t@.nodes[p].bitmap.bits[r@[c].0 as int]
                &&& forall|i: int|
                    0 <= i < places.len() ==> (#[trigger] r@[c].1@[i]).node_id@
                        == t@.nodes[places[i]].node_id && r@[c].1@[i].rack_id@
                        == t@.nodes[places[i]].rack_id && r@[c].1@[i].upload_bw
                        == t@.nodes[places[i]].available_upload_bw
            },
        forall|i: int, j: int|
            #![trigger r@[c].1@[i], r@[c].1@[j]]
            0 <= i < j < r@[c].1@.len() ==> r@[c].1@[i].upload_bw >= r@[c].1@[j].upload_bw,
{
    let ranked = choose|ranked: Seq<u32>| #[trigger]
        rarest_first(ranked, missing@, t@.nodes, requester_id@) && assigns(
            r@,
            at_most(ranked, top_n as int),
            t@.nodes,
            requester_id@,
            None,
        );
    assert(r@[c].0 == at_most(ranked, top_n as int)[c]);
    let places = lemma_candidates(r@[c].1@, t@.nodes, requester_id@, r@[c].0, None);
    assert(places.no_duplicates());
}

proof fn lemma_replica_places(nodes: Seq<NodeView>, chunk: u32)
    ensures
        Set::new(
            |p: int|
                0 <= p < nodes.len() && chunk < nodes[p].bitmap.chunk_count
                    && nodes[p].bitmap.bits[chunk as int],
        ).finite(),
        replicas(nodes, chunk) == Set::new(
            |p: int|
                0 <= p < nodes.len() && chunk < nodes[p].bitmap.chunk_count
                    && nodes[p].bitmap.bits[chunk as int],
        ).len(),
    decreases nodes.len(),
{
    let set = Set::new(
        |p: int|
            0 <= p < nodes.len() && chunk < nodes[p].bitmap.chunk_count
                && nodes[p].bitmap.bits[chunk as int],
    );
    if nodes.len() == 0 {
        assert(set =~= Set::empty());
    } else {
        let front = nodes.drop_last();
        let last = nodes.len() - 1;
        lemma_replica_places(front, chunk);
        let fewer = Set::new(
            |p: int|
                0 <= p < front.len() && chunk < front[p].bitmap.chunk_count
                    && front[p].bitmap.bits[chunk as int],
        );
        if chunk < nodes[last].bitmap.chunk_count && nodes[last].bitmap.bits[chunk as int] {
            assert(set =~= fewer.insert(last));
        } else {
            assert(set =~= fewer);
        }
    }
}

/// The replica count of a chunk is the number of nodes that have its bit.
pub proof fn replicas_are_nodes_with_the_bit(t: &Tracker, r: Vec<u32>)
    requires
        call_ensures(Tracker::replica_counts, (t,), r),
    ensures
        r@.len() == t@.chunk_count,
        forall|c: u32|
            c < r@.len() ==> #[trigger] r@[c as int] == Set::new(
                |p: int|
                    0 <= p < t@.nodes.len() && c < t@.nodes[p].bitmap.chunk_count
                        && t@.nodes[p].bitmap.bits[c as int],
            ).len(),
{
    assert forall|c: u32| c < r@.len() implies #[trigger] r@[c as int] == Set::new(
        |p: int|
            0 <= p < t@.nodes.len() && c < t@.nodes[p].bitmap.chunk_count
                && t@.nodes[p].bitmap.bits[c as int],
    ).len() by {
        lemma_replica_places(t@.nodes, c);
    }
}

/// Scarce are exactly the chunks with fewer than three replicas; they come in ascending order.
pub proof fn scarce_chunks_have_few_replicas(counts: &Vec<u32>, r: Vec<u32>)
    requires
        call_ensures(scarce_chunks, (counts,), r),
    ensures
        forall|i: int, j: int| 0 <= i < j < r@.len() ==> r@[i] < r@[j],
        forall|c: u32| #[trigger]
            r@.contains(c) <==> c < counts@.len() && counts@[c as int] < 3,
{
}

/// Chunk data is accepted exactly if it has the expected digest text; otherwise both texts are
/// told.
pub proof fn data_is_checked_by_digest(data: &[u8], expected: &str, r: Result<(), String>)
    requires
        call_ensures(verify_chunk, (data, expected), r),
    ensures
        r is Ok <==> hash_text(data@) == expected@,
        r is Err ==> r->Err_0@ == "chunk hash mismatch: expected="@ + expected@ + " got="@
            + hash_text(data@),
{
}

/// A chunk is fetched from its peer, by the name of the file and its number, and by the range
/// of bytes that it has in the file; the last byte is the one before its end.
pub proof fn chunk_is_fetched_by_range(
    peer_id: &str,
    m: &Manifest,
    chunk_idx: u32,
    url: String,
    range: String,
)
    requires
        call_ensures(chunk_url, (peer_id, m, chunk_idx), url),
        call_ensures(range_header, (m, chunk_idx), range),
    ensures
        url@ == "http://"@ + peer_id@ + "/chunks/"@ + m.file_id@ + "/"@ + decimal(
            chunk_idx as nat,
        ),
        ({
            let start = chunk_idx * m.chunk_size;
            let end = if start + m.chunk_size <= m.total_size {
                start + m.chunk_size
            } else {
                m.total_size as int
            };
            range@ == "bytes="@ + decimal(start as nat) + "-"@ + decimal((end - 1) as nat)
        }),
{
}

/// A node is done exactly when the file has chunks and it has the bit of each. As long as
/// bits are clear it fetches, unless it may fetch nothing; otherwise it waits 200 ms. What it
/// fetches are missing chunks, twice as many as it fetches at a time, or all if there are
/// fewer.
pub proof fn node_fetches_missing_chunks(n: &PeerNode, t: &Tracker, r: Step)
    requires
        call_ensures(PeerNode::plan, (n, t), r),
        n.bitmap@.bits.len() <= n.bitmap@.chunk_count,
        t@.nodes.len() <= usize::MAX,
    ensures
        r is Done <==> n.bitmap@.chunk_count > 0 && n.bitmap@.bits.len()
            == n.bitmap@.chunk_count && forall|i: int|
            0 <= i < n.bitmap@.bits.len() ==> #[trigger] n.bitmap@.bits[i],
        r is Fetch <==> n.max_concurrent > 0 && exists|i: int|
            0 <= i < n.bitmap@.bits.len() && !#[trigger] n.bitmap@.bits[i],
        r is Wait ==> r->Wait_0 == 200,
        r is Fetch ==> forall|c: int|
            #![trigger r->Fetch_0@[c]]
            0 <= c < r->Fetch_0@.len() ==> r->Fetch_0@[c].0 < n.bitmap@.bits.len()
                && !n.bitmap@.bits[r->Fetch_0@[c].0 as int],
        r is Fetch ==> forall|c: int, d: int|
            #![trigger r->Fetch_0@[c], r->Fetch_0@[d]]
            0 <= c < d < r->Fetch_0@.len() ==> r->Fetch_0@[c].0 != r->Fetch_0@[d].0,
{
    let bits = n.bitmap@.bits;
    lemma_all_places(bits);
    let top_n = 2 * n.max_concurrent;
    let missing = choose|missing: Seq<u32>| #[trigger]
        lists_missing(missing, bits) && planned(
            r,
            n.bitmap@,
            missing,
            t@.nodes,
            n.node_id@,
            top_n,
        );
    if exists|i: int| 0 <= i < bits.len() && !#[trigger] bits[i] {
        let i = choose|i: int| 0 <= i < bits.len() && !#[trigger] bits[i];
        assert(missing.contains(i as u32));
        assert(missing.len() > 0);
    }
    if missing.len() > 0 {
        assert(!bits[missing[0] as int]);
    }
    if r is Fetch {
        let list = r->Fetch_0@;
        let ranked = choose|ranked: Seq<u32>| #[trigger]
            rarest_first(ranked, missing, t@.nodes, n.node_id@) && assigns(
                list,
                at_most(ranked, top_n),
                t@.nodes,
                n.node_id@,
                None,
            );
        let keys = holder_counts(missing, t@.nodes, n.node_id@);
        let order = choose|order: Seq<usize>| #[trigger]
            ranks(order, keys) && ranked == arranged(missing, order);
        assert forall|c: int|
            #![trigger list[c]]
            0 <= c < list.len() implies list[c].0 < bits.len() && !bits[list[c].0 as int] by {
            assert(list[c].0 == at_most(ranked, top_n)[c]);
            assert(list[c].0 == missing[order[c] as int]);
        }
        assert forall|c: int, d: int|
            #![trigger list[c], list[d]]
            0 <= c < d < list.len() implies list[c].0 != list[d].0 by {
            assert(list[c].0 == missing[order[c] as int]);
            assert(list[d].0 == missing[order[d] as int]);
            assert(comes_before(keys, order[c], order[d]));
            assert(order[c] != order[d]);
            if order[c] < order[d] {
                assert(missing[order[c] as int] < missing[order[d] as int]);
            } else {
                assert(missing[order[d] as int] < missing[order[c] as int]);
            }
        }
    }
}

/// What a node fetches are the rarest of the missing chunks: as many as two for each that it
/// fetches at a time, or all; those with fewer other holders first; and a chunk that it leaves
/// for later has no fewer of them.
pub proof fn node_fetches_rarest_chunks(n: &PeerNode, t: &Tracker, r: Step)
    requires
        call_ensures(PeerNode::plan, (n, t), r),
        t@.nodes.len() <= usize::MAX,
        n.bitmap@.bits.len() <= usize::MAX,
        r is Fetch,
    ensures
        exists|ranked: Seq<u32>|
            {
                &&& #[trigger] ranked.no_duplicates()
                &&& forall|c: u32| #[trigger]
                    ranked.contains(c) <==> c < n.bitmap@.bits.len() && !n.bitmap@.bits[c as int]
                &&& r->Fetch_0@.len() == if 2 * n.max_concurrent < ranked.len() {
                    2 * n.max_concurrent as int
                } else {
                    ranked.len() as int
                }
                &&& forall|i: int|
                    #![trigger r->Fetch_0@[i]]
                    0 <= i < r->Fetch_0@.len() ==> r->Fetch_0@[i].0 == ranked[i]
                &&& forall|i: int, j: int|
                    #![trigger ranked[i], ranked[j]]
                    0 <= i < j < ranked.len() ==> Set::new(
                        |p: int|
                            0 <= p < t@.nodes.len() && t@.nodes[p].node_id != n.node_id@
                                && ranked[i] < t@.nodes[p].bitmap.chunk_count
                                && t@.nodes[p].bitmap.bits[ranked[i] as int],
                    ).len() <= Set::new(
                        |p: int|
                            0 <= p < t@.nodes.len() && t@.nodes[p].node_id != n.node_id@
                                && ranked[j] < t@.nodes[p].bitmap.chunk_count
                                && t@.nodes[p].bitmap.bits[ranked[j] as int],
                    ).len()
            },
{
    let bits = n.bitmap@.bits;
    let top_n = 2 * n.max_concurrent;
    let missing = choose|missing: Seq<u32>| #[trigger]
        lists_missing(missing, bits) && planned(
            r,
            n.bitmap@,
            missing,
            t@.nodes,
            n.node_id@,
            top_n,
        );
    let list = r->Fetch_0@;
    let ranked = choose|ranked: Seq<u32>| #[trigger]
        rarest_first(ranked, missing, t@.nodes, n.node_id@) && assigns(
            list,
            at_most(ranked, top_n),
            t@.nodes,
            n.node_id@,
            None,
        );
    let keys = holder_counts(missing, t@.nodes, n.node_id@);
    let order = choose|order: Seq<usize>| #[trigger]
        ranks(order, keys) && ranked == arranged(missing, order);
    lemma_missing_fit(missing, bits.len() as int);
    assert(ranked.no_duplicates()) by {
        assert forall|c: int, d: int|
            0 <= c < ranked.len() && 0 <= d < ranked.len() && c != d implies ranked[c]
            != ranked[d] by {
            if c < d {
                assert(comes_before(keys, order[c], order[d]));
            } else {
                assert(comes_before(keys, order[d], order[c]));
            }
            if order[c] < order[d] {
                assert(missing[order[c] as int] < missing[order[d] as int]);
            } else {
                assert(missing[order[d] as int] < missing[order[c] as int]);
            }
        }
    }
    assert forall|c: u32| #[trigger] ranked.contains(c) <==> c < bits.len() && !bits[c as int] by {
        if ranked.contains(c) {
            let i = choose|i: int| 0 <= i < ranked.len() && ranked[i] == c;
            assert(missing[order[i] as int] == c);
        }
        if c < bits.len() && !bits[c as int] {
            assert(missing.contains(c));
            let j = choose|j: int| 0 <= j < missing.len() && missing[j] == c;
            assert(order.contains(j as usize));
            let i = choose|i: int| 0 <= i < order.len() && order[i] == j as usize;
            assert(ranked[i] == c);
        }
    }
    assert forall|i: int|
        #![trigger list[i]]
        0 <= i < list.len() implies list[i].0 == ranked[i] by {
        assert(list[i].0 == at_most(ranked, top_n)[i]);
    }
    assert forall|i: int, j: int|
        #![trigger ranked[i], ranked[j]]
        0 <= i < j < ranked.len() implies Set::new(
        |p: int|
            0 <= p < t@.nodes.len() && t@.nodes[p].node_id != n.node_id@ && ranked[i]
                < t@.nodes[p].bitmap.chunk_count && t@.nodes[p].bitmap.bits[ranked[i] as int],
    ).len() <= Set::new(
        |p: int|
            0 <= p < t@.nodes.len() && t@.nodes[p].node_id != n.node_id@ && ranked[j]
                < t@.nodes[p].bitmap.chunk_count && t@.nodes[p].bitmap.bits[ranked[j] as int],
    ).len() by {
        assert(comes_before(keys, order[i], order[j]));
        lemma_holder_count(t@.nodes, n.node_id@, ranked[i]);
        lemma_holder_count(t@.nodes, n.node_id@, ranked[j]);
    }
}

proof fn lemma_missing_fit(missing: Seq<u32>, n: int)
    requires
        forall|i: int, j: int| 0 <= i < j < missing.len() ==> missing[i] < missing[j],
        forall|i: int| 0 <= i < missing.len() ==> #[trigger] missing[i] < n,
    ensures
        missing.len() <= n || missing.len() == 0,
{
    let at = missing.map_values(|c: u32| c as int);
    assert forall|i: int| 0 <= i < at.len() implies 0 <= #[trigger] at[i] < n by {
        assert(missing[i] < n);
    }
    lemma_places_fit(at, n);
}

/// The peers that a node fetches a chunk from are all other nodes that hold it, none before a
/// faster one.
pub proof fn node_fetches_from_fastest_holders(n: &PeerNode, t: &Tracker, r: Step, c: int)
    requires
        call_ensures(PeerNode::plan, (n, t), r),
        t@.nodes.len() <= usize::MAX,
        r is Fetch,
        0 <= c < r->Fetch_0@.len(),
    ensures
        exists|places: Seq<int>|
            {
                &&& #[trigger] places.no_duplicates()
                &&& places.len() == r->Fetch_0@[c].1@.len()
                &&& forall|p: int| #[trigger]
                    places.contains(p) <==> 0 <= p < t@.nodes.len() && t@.nodes[p].node_id
                        != n.node_id@ && r->Fetch_0@[c].0 < t@.nodes[p].bitmap.chunk_count
                        && t@.nodes[p].bitmap.bits[r->Fetch_0@[c].0 as int]
                &&& forall|i: int|
                    0 <= i < places.len() ==> (#[trigger] r->Fetch_0@[c].1@[i]).node_id@
                        == t@.nodes[places[i]].node_id && r->Fetch_0@[c].1@[i].upload_bw
                        == t@.nodes[places[i]].available_upload_bw
            },
        forall|i: int, j: int|
            #![trigger r->Fetch_0@[c].1@[i], r->Fetch_0@[c].1@[j]]
            0 <= i < j < r->Fetch_0@[c].1@.len() ==> r->Fetch_0@[c].1@[i].upload_bw
                >= r->Fetch_0@[c].1@[j].upload_bw,
{
    let top_n = 2 * n.max_concurrent;
    let missing = choose|missing: Seq<u32>| #[trigger]
        lists_missing(missing, n.bitmap@.bits) && planned(
            r,
            n.bitmap@,
            missing,
            t@.nodes,
            n.node_id@,
            top_n,
        );
    let list = r->Fetch_0@;
    let ranked = choose|ranked: Seq<u32>| #[trigger]
        rarest_first(ranked, missing, t@.nodes, n.node_id@) && assigns(
            list,
            at_most(ranked, top_n),
            t@.nodes,
            n.node_id@,
            None,
        );
    assert(list[c].0 == at_most(ranked, top_n)[c]);
    let places = lemma_candidates(list[c].1@, t@.nodes, n.node_id@, list[c].0, None);
    assert(places.no_duplicates());
}

/// What a peer delivers counts as received exactly if it has the digest of the manifest; no
/// other bit changes, and nothing else of the node.
pub proof fn delivered_chunk_has_its_digest(
    n: &mut PeerNode,
    chunk_idx: u32,
    delivered: Option<&[u8]>,
    r: bool,
)
    requires
        call_ensures(PeerNode::receive, (n, chunk_idx, delivered), r),
        delivered is Some ==> chunk_idx < old(n).manifest.chunk_hashes@.len(),
        chunk_idx < old(n).bitmap@.bits.len() <= old(n).bitmap@.chunk_count,
    ensures
        r <==> delivered is Some && hash_text(delivered->0@)
            == old(n).manifest.chunk_hashes@[chunk_idx as int]@,
        final(n).bitmap@.bits.len() == old(n).bitmap@.bits.len(),
        final(n).bitmap@.chunk_count == old(n).bitmap@.chunk_count,
        final(n).bitmap@.bits[chunk_idx as int] == (r || old(n).bitmap@.bits[chunk_idx as int]),
        forall|i: int|
            0 <= i < old(n).bitmap@.bits.len() && i != chunk_idx
                ==> #[trigger] final(n).bitmap@.bits[i] == old(n).bitmap@.bits[i],
        final(n).node_id == old(n).node_id,
        final(n).rack_id == old(n).rack_id,
        final(n).manifest == old(n).manifest,
{
    if delivered is Some {
        assert(old(n).manifest@.chunk_hashes[chunk_idx as int]
            == old(n).manifest.chunk_hashes@[chunk_idx as int]@);
    }
}

/// A report makes the tracker know the node's own bits, its rack and the time; what it knows
/// of the other nodes stays.
pub proof fn report_is_what_is_known(n: &PeerNode, t: &mut Tracker, now: u64)
    requires
        call_ensures(PeerNode::report, (n, t, now), ()),
        forall|i: int, j: int|
            0 <= i < j < old(t)@.nodes.len() ==> old(t)@.nodes[i].node_id
                != old(t)@.nodes[j].node_id,
    ensures
        final(t)@.chunk_count == old(t)@.chunk_count,
        exists|i: int|
            0 <= i < final(t)@.nodes.len() && (#[trigger] final(t)@.nodes[i]).node_id == n.node_id@
                && final(t)@.nodes[i].bitmap == n.bitmap@ && final(t)@.nodes[i].rack_id
                == n.rack_id@ && final(t)@.nodes[i].available_upload_bw == 8_000
                && final(t)@.nodes[i].last_seen == now,
        forall|i: int, j: int|
            0 <= i < j < final(t)@.nodes.len() ==> final(t)@.nodes[i].node_id
                != final(t)@.nodes[j].node_id,
        forall|m: NodeView|
            m.node_id != n.node_id@ ==> (#[trigger] final(t)@.nodes.contains(m)
                <==> old(t)@.nodes.contains(m)),
{
    let node = n.reported(now);
    report_replaces_one_node(old(t)@.nodes, node);
    let after = final(t)@.nodes;
    assert(after == with_node(old(t)@.nodes, node));
    assert(after.contains(node));
    let i = choose|i: int| 0 <= i < after.len() && after[i] == node;
    assert(after[i].node_id == n.node_id@);
    assert forall|m: NodeView| m.node_id != n.node_id@ implies (#[trigger] after.contains(m)
        <==> old(t)@.nodes.contains(m)) by {
        assert(old(t)@.nodes.contains(m) <==> with_node(old(t)@.nodes, node).contains(m));
    }
}

proof fn lemma_listed_count(list: Seq<u32>, set: Set<int>)
    requires
        forall|i: int, j: int| 0 <= i < j < list.len() ==> list[i] < list[j],
        forall|p: int| #[trigger] set.contains(p) ==> 0 <= p <= u32::MAX,
        forall|c: u32| #[trigger] list.contains(c) <==> set.contains(c as int),
    ensures
        set.len() == list.len(),
{
    let at = list.map_values(|c: u32| c as int);
    assert(at.no_duplicates()) by {
        assert forall|i: int, j: int|
            0 <= i < at.len() && 0 <= j < at.len() && i != j implies at[i] != at[j] by {
            if i < j {
                assert(list[i] < list[j]);
            } else {
                assert(list[j] < list[i]);
            }
        }
    }
    at.unique_seq_to_set();
    assert forall|p: int| at.to_set().contains(p) <==> set.contains(p) by {
        if at.contains(p) {
            let i = choose|i: int| 0 <= i < at.len() && at[i] == p;
            assert(list.contains(list[i]));
            assert(set.contains(list[i] as int));
        }
        if set.contains(p) {
            assert(list.contains(p as u32));
            let i = choose|i: int| 0 <= i < list.len() && list[i] == p as u32;
            assert(at[i] == p);
        }
    }
    assert(at.to_set() =~= set);
}

/// The tail phase succeeds exactly if there is a codec, and the chunks with fewer than three
/// replicas, if there are any, are not empty and make up full stripes.
pub proof fn tail_phase_encodes_scarce_chunks(
    t: &Tracker,
    m: &Manifest,
    data_shards: usize,
    par_shards: usize,
    r: Result<(), DistError>,
)
    requires
        call_ensures(tail_phase_ec, (t, m, data_shards, par_shards), r),
        t@.chunk_count <= u32::MAX,
    ensures
        r is Err ==> r->Err_0 is ErasureError,
        ({
            let scarce = Set::new(
                |c: int|
                    0 <= c < t@.chunk_count && Set::new(
                        |p: int|
                            0 <= p < t@.nodes.len() && c < t@.nodes[p].bitmap.chunk_count
                                && t@.nodes[p].bitmap.bits[c],
                    ).len() < 3,
            ).len();
            r is Ok <==> 1 <= data_shards && 1 <= par_shards && data_shards + par_shards <= 256 && (
            scarce == 0 || (m.chunk_size > 0 && scarce % (data_shards as nat) == 0))
        }),
{
    let (counts, scarce) = choose|counts: Seq<u32>, scarce: Seq<u32>| #[trigger]
        lists_scarce(scarce, counts) && counts.len() == t@.chunk_count && (forall|c: u32|
            c < t@.chunk_count ==> #[trigger] counts[c as int] == replicas(t@.nodes, c))
            && tail_outcome(
            scarce.len() as int,
            m@.chunk_size as int,
            data_shards as int,
            par_shards as int,
            r,
        );
    let set = Set::new(
        |c: int|
            0 <= c < t@.chunk_count && Set::new(
                |p: int|
                    0 <= p < t@.nodes.len() && c < t@.nodes[p].bitmap.chunk_count
                        && t@.nodes[p].bitmap.bits[c],
            ).len() < 3,
    );
    assert forall|c: u32| #[trigger] scarce.contains(c) <==> set.contains(c as int) by {
        lemma_replica_places(t@.nodes, c);
        let a = Set::new(
            |p: int|
                0 <= p < t@.nodes.len() && c < t@.nodes[p].bitmap.chunk_count
                    && t@.nodes[p].bitmap.bits[c as int],
        );
        let i = c as int;
        let b = Set::new(
            |p: int|
                0 <= p < t@.nodes.len() && i < t@.nodes[p].bitmap.chunk_count
                    && t@.nodes[p].bitmap.bits[i],
        );
        assert(a =~= b);
        if c < t@.chunk_count {
            assert(counts[c as int] == replicas(t@.nodes, c));
        }
    }
    lemma_listed_count(scarce, set);
}

/// The tracker can tell who holds a chunk exactly when every node but the requester has a bit
/// for the chunk, or is of a file without it.
pub proof fn tracker_answers_by_bits(t: &Tracker, requester_id: &str, chunk: u32, r: bool)
    requires
        call_ensures(can_answer, (t, requester_id, chunk), r),
    ensures
        r <==> forall|i: int|
            0 <= i < t@.nodes.len() ==> (#[trigger] t@.nodes[i]).node_id == requester_id@ || chunk
                >= t@.nodes[i].bitmap.chunk_count || chunk < t@.nodes[i].bitmap.bits.len(),
{
}

} // verus!
