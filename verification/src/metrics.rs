//! The figures that the system reports: what they are called and what they mean.

use vstd::prelude::*;

use crate::ratio::Ratio;

verus! {

/// How a metric behaves: a counter only grows, a gauge goes up and down.
#[derive(Debug, Clone, Copy, PartialEq, Eq, Structural)]
pub enum MetricKind {
    Counter,
    Gauge,
}

/// A metric with its description.
#[derive(Debug, Clone, Copy)]
pub struct Metric {
    pub name: &'static str,
    pub kind: MetricKind,
    pub help: &'static str,
}

/// Something that happened and is to be counted or shown.
#[derive(Debug)]
pub enum Measurement {
    /// A job was created.
    JobCreated,
    /// All nodes of a job have become complete.
    JobComplete,
    /// Peers were selected for a node of the job.
    PeerQuery { job_id: String },
    /// A node of the job reported how far it is.
    NodeCompletion { job_id: String, node_id: String, ratio: Ratio },
    /// A chunk was downloaded and verified.
    ChunkReceived,
    /// A chunk was served to another peer.
    ChunkServed,
}

impl Measurement {
    /// The name of the metric that a measurement belongs to.
    pub open spec fn metric_name(self) -> Seq<char> {
        match self {
            Measurement::JobCreated => "tracker_jobs_created_total"@,
            Measurement::JobComplete => "tracker_jobs_complete_total"@,
            Measurement::PeerQuery { .. } => "tracker_peer_queries_total"@,
            Measurement::NodeCompletion { .. } => "node_completion_ratio"@,
            Measurement::ChunkReceived => "peer_chunks_received_total"@,
            Measurement::ChunkServed => "peer_chunks_served_total"@,
        }
    }

    /// The name of the metric that a measurement belongs to.
    pub fn metric(&self) -> (r: &'static str)
        ensures
            r@ == self.metric_name(),
    {
        match self {
            Measurement::JobCreated => "tracker_jobs_created_total",
            Measurement::JobComplete => "tracker_jobs_complete_total",
            Measurement::PeerQuery { .. } => "tracker_peer_queries_total",
            Measurement::NodeCompletion { .. } => "node_completion_ratio",
            Measurement::ChunkReceived => "peer_chunks_received_total",
            Measurement::ChunkServed => "peer_chunks_served_total",
        }
    }
}

/// `m` is the metric with this name, kind and description.
pub open spec fn describes(m: Metric, name: Seq<char>, kind: MetricKind, help: Seq<char>) -> bool {
    &&& m.name@ == name
    &&& m.kind == kind
    &&& m.help@ == help
}

/// All metrics, with their descriptions.
pub fn describe_metrics() -> (r: Vec<Metric>)
    ensures
        r@.len() == 6,
        describes(
            r@[0],
            "tracker_jobs_created_total"@,
            MetricKind::Counter,
            "Total distribution jobs created."@,
        ),
        describes(
            r@[1],
            "tracker_jobs_complete_total"@,
            MetricKind::Counter,
            "Total distribution jobs where all nodes completed."@,
        ),
        describes(
            r@[2],
            "tracker_peer_queries_total"@,
            MetricKind::Counter,
            "Total peer-selection queries handled by the Tracker."@,
        ),
        describes(
            r@[3],
            "peer_chunks_received_total"@,
            MetricKind::Counter,
            "Total chunks successfully downloaded and verified by peer nodes."@,
        ),
        describes(
            r@[4],
            "peer_chunks_served_total"@,
            MetricKind::Counter,
            "Total chunks served to other peers by the chunk server."@,
        ),
        describes(
            r@[5],
            "node_completion_ratio"@,
            MetricKind::Gauge,
            "Per-node fraction of chunks completed (0.0 – 1.0)."@,
        ),
{
    let mut list: Vec<Metric> = Vec::new();
    list.push(
        Metric {
            name: "tracker_jobs_created_total",
            kind: MetricKind::Counter,
            help: "Total distribution jobs created.",
        },
    );
    list.push(
        Metric {
            name: "tracker_jobs_complete_total",
            kind: MetricKind::Counter,
            help: "Total distribution jobs where all nodes completed.",
        },
    );
    list.push(
        Metric {
            name: "tracker_peer_queries_total",
            kind: MetricKind::Counter,
            help: "Total peer-selection queries handled by the Tracker.",
        },
    );
    list.push(
        Metric {
            name: "peer_chunks_received_total",
            kind: MetricKind::Counter,
            help: "Total chunks successfully downloaded and verified by peer nodes.",
        },
    );
    list.push(
        Metric {
            name: "peer_chunks_served_total",
            kind: MetricKind::Counter,
            help: "Total chunks served to other peers by the chunk server.",
        },
    );
    list.push(
        Metric {
            name: "node_completion_ratio",
            kind: MetricKind::Gauge,
            help: "Per-node fraction of chunks completed (0.0 – 1.0).",
        },
    );
    list
}

} // verus!
