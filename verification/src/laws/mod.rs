//! What the operations are for: laws that relate their arguments to their results, over the
//! plain content of both.

pub mod accepted;
pub mod bitmap;
pub mod coding;
pub mod delta;
pub mod download;
pub mod manifest;
pub mod selection;
pub mod server;
pub mod sorting;
pub mod swarm;
pub mod tracker;
pub mod wire;
