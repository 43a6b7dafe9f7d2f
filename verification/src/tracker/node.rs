//! What the tracker knows of one node of a job.

use vstd::prelude::*;

use crate::bitmap::{empty_bitmap, BitmapView, ChunkBitmap};
use crate::bits::max_bits;

verus! {

/// Live state that the tracker keeps for each peer node. Times are in nanoseconds of a
/// clock that never goes back.
#[derive(Debug)]
pub struct NodeState {
    pub node_id: String,
    pub rack_id: String,
    /// Address for chunk requests of other peers.
    pub peer_addr: String,
    pub bitmap: ChunkBitmap,
    pub upload_bw_mbps: u64,
    pub last_seen: u64,
}

/// The content of a node's state.
#[verifier::ext_equal]
pub struct NodeView {
    pub node_id: Seq<char>,
    pub rack_id: Seq<char>,
    pub peer_addr: Seq<char>,
    pub bitmap: BitmapView,
    pub upload_bw_mbps: u64,
    pub last_seen: u64,
}

/// The whole seconds between two times; 0 if the second is not later.
pub open spec fn whole_seconds(from: u64, now: u64) -> int {
    if from <= now {
        (now - from) / 1_000_000_000
    } else {
        0
    }
}

impl NodeView {
    /// The node has not been heard of for more than `timeout_secs` whole seconds.
    pub open spec fn is_stale(self, timeout_secs: u64, now: u64) -> bool {
        whole_seconds(self.last_seen, now) > timeout_secs
    }
}

impl View for NodeState {
    type V = NodeView;

    open spec fn view(&self) -> NodeView {
        NodeView {
            node_id: self.node_id@,
            rack_id: self.rack_id@,
            peer_addr: self.peer_addr@,
            bitmap: self.bitmap@,
            upload_bw_mbps: self.upload_bw_mbps,
            last_seen: self.last_seen,
        }
    }
}

impl NodeState {
    /// A node that holds no chunk yet, heard of just now.
    pub fn new(
        node_id: String,
        rack_id: String,
        peer_addr: String,
        chunk_count: u32,
        upload_bw_mbps: u64,
        now: u64,
    ) -> (r: Self)
        requires
            chunk_count <= max_bits(),
        ensures
            r@ == (NodeView {
                node_id: node_id@,
                rack_id: rack_id@,
                peer_addr: peer_addr@,
                bitmap: empty_bitmap(chunk_count),
                upload_bw_mbps,
                last_seen: now,
            }),
    {
        NodeState {
            node_id,
            rack_id,
            peer_addr,
            bitmap: ChunkBitmap::new(chunk_count),
            upload_bw_mbps,
            last_seen: now,
        }
    }

    /// Notes that the node was heard of.
    pub fn touch(&mut self, now: u64)
        ensures
            final(self)@ == (NodeView { last_seen: now, ..old(self)@ }),
    {
        self.last_seen = now;
    }

    /// For how many whole seconds the node has not been heard of.
    pub fn silent_secs(&self, now: u64) -> (r: u64)
        ensures
            r == whole_seconds(self@.last_seen, now),
    {
        if self.last_seen <= now {
            (now - self.last_seen) / 1_000_000_000
        } else {
            0
        }
    }

    /// Whether the node has not been heard of for more than `timeout_secs` whole seconds.
    pub fn is_stale(&self, timeout_secs: u64, now: u64) -> (r: bool)
        ensures
            r == self@.is_stale(timeout_secs, now),
    {
        self.silent_secs(now) > timeout_secs
    }
}

/// A node that was just heard of is not stale, whatever the timeout.
pub proof fn touched_node_is_not_stale(n: NodeView, timeout_secs: u64, now: u64)
    requires
        n.last_seen == now,
    ensures
        !n.is_stale(timeout_secs, now),
{
}

/// A node that is stale stays stale until it is heard of again.
pub proof fn staleness_persists(n: NodeView, timeout_secs: u64, earlier: u64, later: u64)
    requires
        earlier <= later,
        n.is_stale(timeout_secs, earlier),
    ensures
        n.is_stale(timeout_secs, later),
{
    assert(later - n.last_seen >= earlier - n.last_seen);
}

} // verus!
