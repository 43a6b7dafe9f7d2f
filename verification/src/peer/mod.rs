//! A peer node: it fetches the chunks of a job, and serves those it has.

pub mod chunk_server;
pub mod downloader;

use vstd::prelude::*;

use crate::bitmap::ChunkBitmap;
use crate::bits::unpacked;
use crate::ids::{is_random_id, random_id};
use crate::manifest::Manifest;
use crate::peer::downloader::DownloaderConfig;
use crate::proto::client::TrackerClient;
use crate::proto::Request;

verus! {

/// How many seconds pass between two heartbeats.
pub const HEARTBEAT_INTERVAL_SECS: u64 = 5;

/// The upload bandwidth that a node reports, in Mbit/s.
pub const REPORTED_UPLOAD_BW_MBPS: u64 = 8_000;

/// How a node is set up.
#[derive(Debug)]
pub struct PeerNodeConfig {
    pub tracker_addr: String,
    /// The address on which this node serves chunks.
    pub peer_addr: String,
    pub rack_id: String,
    pub job_id: String,
    pub data_dir: String,
    pub concurrency: usize,
}

/// A node that takes part in a job.
#[derive(Debug)]
pub struct PeerNode {
    pub node_id: String,
    pub config: PeerNodeConfig,
}

impl PeerNode {
    /// A node with a given id.
    pub fn with_id(node_id: String, config: PeerNodeConfig) -> (r: Self)
        ensures
            r.node_id == node_id,
            r.config == config,
    {
        PeerNode { node_id, config }
    }

    /// A node with a random id.
    pub fn new(config: PeerNodeConfig) -> (r: Self)
        ensures
            is_random_id(r.node_id@),
            r.config == config,
    {
        PeerNode::with_id(random_id(), config)
    }

    /// The heartbeat of the node: where it is, and which chunks it holds.
    pub fn heartbeat(&self, bitmap: &ChunkBitmap) -> (r: Request)
        ensures
            r matches Request::Heartbeat {
                job_id,
                node_id,
                rack_id,
                peer_addr,
                bitmap_bytes,
                upload_bw_mbps,
            } && job_id@ == self.config.job_id@ && node_id@ == self.node_id@ && rack_id@
                == self.config.rack_id@ && peer_addr@ == self.config.peer_addr@
                && bitmap_bytes@.len() == (bitmap@.bits.len() + 7) / 8 && unpacked(
                bitmap_bytes@,
            ).take(bitmap@.bits.len() as int) == bitmap@.bits && upload_bw_mbps
                == REPORTED_UPLOAD_BW_MBPS,
    {
        TrackerClient::heartbeat(
            self.config.job_id.as_str(),
            self.node_id.as_str(),
            self.config.rack_id.as_str(),
            self.config.peer_addr.as_str(),
            bitmap.as_bytes(),
            REPORTED_UPLOAD_BW_MBPS,
        )
    }

    /// What the node's download of a file runs on.
    pub fn downloader_config(&self, manifest: &Manifest) -> (r: DownloaderConfig)
        ensures
            r.node_id@ == self.node_id@,
            r.job_id@ == self.config.job_id@,
            r.rack_id@ == self.config.rack_id@,
            r.tracker_addr@ == self.config.tracker_addr@,
            r.data_dir@ == self.config.data_dir@,
            r.manifest@ == manifest@,
            r.concurrency == self.config.concurrency,
    {
        DownloaderConfig {
            node_id: self.node_id.clone(),
            job_id: self.config.job_id.clone(),
            rack_id: self.config.rack_id.clone(),
            tracker_addr: self.config.tracker_addr.clone(),
            data_dir: self.config.data_dir.clone(),
            manifest: manifest.clone(),
            concurrency: self.config.concurrency,
        }
    }
}

} // verus!
