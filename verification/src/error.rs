//! The errors that the library reports.

use vstd::prelude::*;
use vstd::string::*;

use crate::text::{decimal, push_decimal};

verus! {

/// What can go wrong while a model is distributed.
#[derive(Debug, PartialEq, Eq)]
pub enum DistError {
    /// The data of a chunk does not have the digest that was recorded for it.
    HashMismatch { index: u32, expected: String, actual: String },
    /// Nobody holds the chunk.
    NoPeers(u32),
    /// No job has this identifier.
    JobNotFound(String),
    /// No node has this identifier.
    NodeNotFound(String),
    /// The erasure codec refused its input.
    ErasureError(String),
    /// A message or an argument breaks the protocol.
    Proto(String),
}

impl DistError {
    /// The text of the error.
    pub open spec fn text(&self) -> Seq<char> {
        match self {
            DistError::HashMismatch { index, expected, actual } => {
                "chunk hash mismatch for chunk "@ + decimal(*index as nat) + ": expected="@
                    + expected@ + " got="@ + actual@
            },
            DistError::NoPeers(chunk) => "no peers available for chunk "@ + decimal(*chunk as nat),
            DistError::JobNotFound(id) => "job not found: "@ + id@,
            DistError::NodeNotFound(id) => "node not found: "@ + id@,
            DistError::ErasureError(what) => "erasure coding error: "@ + what@,
            DistError::Proto(what) => "protocol error: "@ + what@,
        }
    }

    /// Renders the error for people and for error responses.
    pub fn message(&self) -> (r: String)
        ensures
            r@ == self.text(),
    {
        let mut out = String::new();
        match self {
            DistError::HashMismatch { index, expected, actual } => {
                out.append("chunk hash mismatch for chunk ");
                push_decimal(&mut out, *index as u64);
                out.append(": expected=");
                out.append(expected.as_str());
                out.append(" got=");
                out.append(actual.as_str());
            },
            DistError::NoPeers(chunk) => {
                out.append("no peers available for chunk ");
                push_decimal(&mut out, *chunk as u64);
            },
            DistError::JobNotFound(id) => {
                out.append("job not found: ");
                out.append(id.as_str());
            },
            DistError::NodeNotFound(id) => {
                out.append("node not found: ");
                out.append(id.as_str());
            },
            DistError::ErasureError(what) => {
                out.append("erasure coding error: ");
                out.append(what.as_str());
            },
            DistError::Proto(what) => {
                out.append("protocol error: ");
                out.append(what.as_str());
            },
        }
        assert(out@ =~= self.text());
        out
    }
}

} // verus!
