//! The tracker: which nodes hold which chunks, job by job.

pub mod job;
pub mod node;
pub mod registry;
pub mod scheduler;
pub mod server;
pub mod tables;

pub use job::{Job, JobSnapshot, JobStatus, NodeSnapshot, SchedulingPolicy};
pub use node::NodeState;
pub use registry::Tracker;
pub use scheduler::CandidatePeer;
