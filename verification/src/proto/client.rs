//! The client's side of the protocol: the requests it sends, and what it makes of the
//! replies.

use vstd::prelude::*;

use crate::error::DistError;
use crate::proto::{PeerInfo, Request, Response};

verus! {

/// A client of the tracker at an address. Each request goes over a connection of its own.
#[derive(Debug)]
pub struct TrackerClient {
    pub addr: String,
}

/// Why a reply is not what was asked for: the tracker refused, or it answered something
/// else.
#[derive(Debug)]
pub enum ReplyError<S, J> {
    Refused(DistError),
    Unexpected(Response<S, J>),
}

/// A reply that refuses a request, or does not answer it.
pub open spec fn no_answer<S, J>(reply: Response<S, J>, e: ReplyError<S, J>) -> bool {
    match reply {
        Response::Error { message } => e == ReplyError::<S, J>::Refused(DistError::Proto(message)),
        _ => e == ReplyError::<S, J>::Unexpected(reply),
    }
}

fn refusal<S, J>(reply: Response<S, J>) -> (e: ReplyError<S, J>)
    ensures
        no_answer(reply, e),
{
    match reply {
        Response::Error { message } => ReplyError::Refused(DistError::Proto(message)),
        other => ReplyError::Unexpected(other),
    }
}

impl TrackerClient {
    /// A client of the tracker at `addr`.
    pub fn new(addr: &str) -> (r: Self)
        ensures
            r.addr@ == addr@,
    {
        TrackerClient { addr: addr.to_owned() }
    }

    /// The request for a new job; the manifest comes serialised.
    pub fn create_job(manifest_bytes: Vec<u8>, policy: String) -> (r: Request)
        ensures
            r == (Request::CreateJob { manifest_bytes, policy }),
    {
        Request::CreateJob { manifest_bytes, policy }
    }

    /// The id of the job that was created.
    pub fn job_created<S, J>(reply: Response<S, J>) -> (r: Result<String, ReplyError<S, J>>)
        ensures
            match r {
                Ok(id) => reply == (Response::<S, J>::JobCreated { job_id: id }),
                Err(e) => !(reply is JobCreated) && no_answer(reply, e),
            },
    {
        match reply {
            Response::JobCreated { job_id } => Ok(job_id),
            other => Err(refusal(other)),
        }
    }

    /// The request for the status of a job.
    pub fn job_status(job_id: &str) -> (r: Request)
        ensures
            r matches Request::GetStatus { job_id: id } && id@ == job_id@,
    {
        Request::GetStatus { job_id: job_id.to_owned() }
    }

    /// The status of the job.
    pub fn status_body<S, J>(reply: Response<S, J>) -> (r: Result<S, ReplyError<S, J>>)
        ensures
            match r {
                Ok(s) => reply == (Response::<S, J>::Status { body: s }),
                Err(e) => !(reply is Status) && no_answer(reply, e),
            },
    {
        match reply {
            Response::Status { body } => Ok(body),
            other => Err(refusal(other)),
        }
    }

    /// The request to cancel a job.
    pub fn cancel_job(job_id: &str) -> (r: Request)
        ensures
            r matches Request::CancelJob { job_id: id } && id@ == job_id@,
    {
        Request::CancelJob { job_id: job_id.to_owned() }
    }

    /// The acknowledgement of a request without other result.
    pub fn acknowledged<S, J>(reply: Response<S, J>) -> (r: Result<(), ReplyError<S, J>>)
        ensures
            match r {
                Ok(()) => reply is Ack,
                Err(e) => !(reply is Ack) && no_answer(reply, e),
            },
    {
        match reply {
            Response::Ack => Ok(()),
            other => Err(refusal(other)),
        }
    }

    /// The heartbeat of a node.
    pub fn heartbeat(
        job_id: &str,
        node_id: &str,
        rack_id: &str,
        peer_addr: &str,
        bitmap_bytes: &[u8],
        upload_bw_mbps: u64,
    ) -> (r: Request)
        ensures
            r matches Request::Heartbeat {
                job_id: job,
                node_id: node,
                rack_id: rack,
                peer_addr: addr,
                bitmap_bytes: bytes,
                upload_bw_mbps: bw,
            } && job@ == job_id@ && node@ == node_id@ && rack@ == rack_id@ && addr@ == peer_addr@
                && bytes@ == bitmap_bytes@ && bw == upload_bw_mbps,
    {
        let mut bytes: Vec<u8> = Vec::new();
        bytes.extend_from_slice(bitmap_bytes);
        assert(bytes@ =~= bitmap_bytes@);
        Request::Heartbeat {
            job_id: job_id.to_owned(),
            node_id: node_id.to_owned(),
            rack_id: rack_id.to_owned(),
            peer_addr: peer_addr.to_owned(),
            bitmap_bytes: bytes,
            upload_bw_mbps,
        }
    }

    /// Whether the job is complete, as the answer to a heartbeat tells.
    pub fn heartbeat_ack<S, J>(reply: Response<S, J>) -> (r: Result<bool, ReplyError<S, J>>)
        ensures
            match r {
                Ok(done) => reply == (Response::<S, J>::HeartbeatAck { job_complete: done }),
                Err(e) => !(reply is HeartbeatAck) && no_answer(reply, e),
            },
    {
        match reply {
            Response::HeartbeatAck { job_complete } => Ok(job_complete),
            other => Err(refusal(other)),
        }
    }

    /// The request for the peers of a chunk.
    pub fn get_peers(
        job_id: &str,
        node_id: &str,
        rack_id: &str,
        chunk_index: u32,
        top_n: usize,
    ) -> (r: Request)
        ensures
            r matches Request::GetPeers {
                job_id: job,
                node_id: node,
                rack_id: rack,
                chunk_index: index,
                top_n: n,
            } && job@ == job_id@ && node@ == node_id@ && rack@ == rack_id@ && index == chunk_index
                && n == top_n,
    {
        Request::GetPeers {
            job_id: job_id.to_owned(),
            node_id: node_id.to_owned(),
            rack_id: rack_id.to_owned(),
            chunk_index,
            top_n,
        }
    }

    /// The peers that the tracker names.
    pub fn peer_list<S, J>(reply: Response<S, J>) -> (r: Result<
        Vec<PeerInfo>,
        ReplyError<S, J>,
    >)
        ensures
            match r {
                Ok(list) => reply == (Response::<S, J>::Peers { peers: list }),
                Err(e) => !(reply is Peers) && no_answer(reply, e),
            },
    {
        match reply {
            Response::Peers { peers } => Ok(peers),
            other => Err(refusal(other)),
        }
    }

    /// The request for the order in which to fetch missing chunks.
    pub fn get_rarity(job_id: &str, missing: Vec<u32>) -> (r: Request)
        ensures
            r matches Request::GetRarity { job_id: job, missing: list } && job@ == job_id@ && list
                == missing,
    {
        Request::GetRarity { job_id: job_id.to_owned(), missing }
    }

    /// The missing chunks with the number of their holders, the rarest first.
    pub fn rarity_list<S, J>(reply: Response<S, J>) -> (r: Result<
        Vec<(u32, u32)>,
        ReplyError<S, J>,
    >)
        ensures
            match r {
                Ok(list) => reply == (Response::<S, J>::Rarity { order: list }),
                Err(e) => !(reply is Rarity) && no_answer(reply, e),
            },
    {
        match reply {
            Response::Rarity { order } => Ok(order),
            other => Err(refusal(other)),
        }
    }
}

} // verus!
