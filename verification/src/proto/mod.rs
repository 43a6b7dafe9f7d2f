//! The control-plane protocol between the tracker and the nodes and clients.

pub mod client;
pub mod wire;

pub use wire::MAX_FRAME;

use vstd::prelude::*;
use vstd::std_specs::convert::FromSpecImpl;

use crate::tracker::scheduler::{CandidatePeer, PeerView};

verus! {

/// What a node or a client asks of the tracker.
#[derive(Debug)]
pub enum Request {
    /// Create a new distribution job.
    CreateJob { manifest_bytes: Vec<u8>, policy: String },
    /// Node heartbeat: I exist, here is my bitmap.
    Heartbeat {
        job_id: String,
        node_id: String,
        rack_id: String,
        peer_addr: String,
        bitmap_bytes: Vec<u8>,
        upload_bw_mbps: u64,
    },
    /// Request the peer list for a chunk.
    GetPeers { job_id: String, node_id: String, rack_id: String, chunk_index: u32, top_n: usize },
    /// Request the order in which to fetch missing chunks.
    GetRarity { job_id: String, missing: Vec<u32> },
    /// Retrieve the status of a job.
    GetStatus { job_id: String },
    /// Cancel a job.
    CancelJob { job_id: String },
    /// List all jobs.
    ListJobs,
}

/// What the tracker answers. `S` is the form of a job's status, and `J` that of a job in
/// the list of jobs.
#[derive(Debug)]
pub enum Response<S, J> {
    /// Job created successfully.
    JobCreated { job_id: String },
    /// Heartbeat acknowledged.
    HeartbeatAck { job_complete: bool },
    /// Peer list for a chunk.
    Peers { peers: Vec<PeerInfo> },
    /// Missing chunks with the number of their holders, the rarest first.
    Rarity { order: Vec<(u32, u32)> },
    /// The status of a job.
    Status { body: S },
    /// List of all jobs.
    JobList { jobs: Vec<J> },
    /// Generic acknowledgement.
    Ack,
    /// Error response.
    Error { message: String },
}

/// A peer, as the tracker names it to a node.
#[derive(Debug)]
pub struct PeerInfo {
    pub node_id: String,
    pub peer_addr: String,
    pub rack_id: String,
    pub upload_bw_mbps: u64,
}

impl View for PeerInfo {
    type V = PeerView;

    open spec fn view(&self) -> PeerView {
        PeerView {
            node_id: self.node_id@,
            peer_addr: self.peer_addr@,
            rack_id: self.rack_id@,
            upload_bw_mbps: self.upload_bw_mbps,
        }
    }
}

impl Clone for PeerInfo {
    fn clone(&self) -> (r: Self)
        ensures
            r@ == self@,
    {
        PeerInfo {
            node_id: self.node_id.clone(),
            peer_addr: self.peer_addr.clone(),
            rack_id: self.rack_id.clone(),
            upload_bw_mbps: self.upload_bw_mbps,
        }
    }
}

/// The content of each peer of a list.
pub open spec fn infos_of(list: Seq<PeerInfo>) -> Seq<PeerView> {
    list.map_values(|p: PeerInfo| p@)
}

impl From<CandidatePeer> for PeerInfo {
    fn from(p: CandidatePeer) -> (r: Self) {
        PeerInfo {
            node_id: p.node_id,
            peer_addr: p.peer_addr,
            rack_id: p.rack_id,
            upload_bw_mbps: p.upload_bw_mbps,
        }
    }
}

impl FromSpecImpl<CandidatePeer> for PeerInfo {
    open spec fn obeys_from_spec() -> bool {
        true
    }

    open spec fn from_spec(p: CandidatePeer) -> Self {
        PeerInfo {
            node_id: p.node_id,
            peer_addr: p.peer_addr,
            rack_id: p.rack_id,
            upload_bw_mbps: p.upload_bw_mbps,
        }
    }
}

} // verus!
