//! Verified core of a controlled peer-to-peer model distribution system.

pub mod bitmap;
pub mod bits;
pub mod codec;
pub mod delta;
pub mod erasure;
pub mod error;
pub mod hash;
pub mod ids;
pub mod laws;
pub mod manifest;
pub mod metrics;
pub mod paths;
pub mod peer;
pub mod proto;
pub mod ratio;
pub mod sorting;
pub mod stripes;
pub mod swarm;
pub mod text;
pub mod tracker;
