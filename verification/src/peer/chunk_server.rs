//! The data plane: how a chunk is asked for, and how it is served.
//!
//! A request is the length of the job id in four bytes, the job id, and the chunk index in
//! four bytes. A response is a status in four bytes, and for a chunk that is there its
//! length in eight bytes and its content. Numbers have the most significant byte first.

use vstd::prelude::*;
use vstd::string::*;

use crate::proto::wire::{
    be_u32, be_u64, from_be_u32, from_be_u64, push_u32, push_u64, u32_round_trip, u64_round_trip,
};

verus! {

/// The status of a response that carries a chunk.
pub const STATUS_OK: u32 = 0;

/// The status of a response without a chunk.
pub const STATUS_NOT_FOUND: u32 = 1;

/// The request for a chunk of a job. Only the last 32 bits of the length are sent.
pub open spec fn request_of(job_id: Seq<u8>, chunk_index: u32) -> Seq<u8> {
    be_u32((job_id.len() % 0x1_0000_0000) as u32) + job_id + be_u32(chunk_index)
}

/// The response to a request: the chunk, if it is there.
pub open spec fn response_of(data: Option<Seq<u8>>) -> Seq<u8> {
    match data {
        Some(bytes) => be_u32(STATUS_OK) + be_u64(bytes.len() as u64) + bytes,
        None => be_u32(STATUS_NOT_FOUND),
    }
}

/// The request for a chunk.
pub fn chunk_request(job_id: &str, chunk_index: u32) -> (r: Vec<u8>)
    ensures
        r@ == request_of(job_id.spec_bytes(), chunk_index),
{
    let id = job_id.as_bytes();
    let len: u64 = id.len() as u64;
    assert(len as u32 == len % 0x1_0000_0000) by (bit_vector);
    let mut out: Vec<u8> = Vec::new();
    push_u32(&mut out, len as u32);
    out.extend_from_slice(id);
    push_u32(&mut out, chunk_index);
    assert(out@ =~= request_of(job_id.spec_bytes(), chunk_index));
    out
}

/// The response that serves a chunk, or says that it is not there.
pub fn chunk_response(data: Option<&[u8]>) -> (r: Vec<u8>)
    ensures
        r@ == response_of(
            match data {
                Some(bytes) => Some(bytes@),
                None => None,
            },
        ),
{
    let mut out: Vec<u8> = Vec::new();
    match data {
        Some(bytes) => {
            let len: usize = bytes.len();
            push_u32(&mut out, STATUS_OK);
            push_u64(&mut out, len as u64);
            out.extend_from_slice(bytes);
            assert(out@ =~= response_of(Some(bytes@)));
        },
        None => {
            push_u32(&mut out, STATUS_NOT_FOUND);
            assert(out@ =~= response_of(None));
        },
    }
    out
}

/// What a server reads from a request is what was asked for: the length in front is that
/// of the job id, the job id follows, and behind it comes the chunk index.
pub proof fn request_round_trip(job_id: Seq<u8>, chunk_index: u32)
    requires
        job_id.len() <= u32::MAX,
    ensures
        ({
            let sent = request_of(job_id, chunk_index);
            let len = from_be_u32(sent.take(4));
            &&& len == job_id.len()
            &&& sent.subrange(4, 4 + len) == job_id
            &&& from_be_u32(sent.skip(4 + len)) == chunk_index
            &&& sent.len() == 8 + len
        }),
{
    let n = (job_id.len() % 0x1_0000_0000) as u32;
    u32_round_trip(n);
    u32_round_trip(chunk_index);
    let sent = request_of(job_id, chunk_index);
    assert(sent.take(4) =~= be_u32(n));
    assert(sent.subrange(4, 4 + job_id.len() as int) =~= job_id);
    assert(sent.skip(4 + job_id.len() as int) =~= be_u32(chunk_index));
}

/// What a node reads from a response is what was served: status 0, the length and the
/// content of the chunk; or another status if the chunk is not there.
pub proof fn response_round_trip(data: Option<Seq<u8>>)
    requires
        data is Some ==> data->0.len() <= u64::MAX,
    ensures
        ({
            let sent = response_of(data);
            &&& (from_be_u32(sent.take(4)) == STATUS_OK) == (data is Some)
            &&& data matches Some(bytes) ==> {
                &&& from_be_u64(sent.subrange(4, 12)) == bytes.len()
                &&& sent.skip(12) == bytes
            }
        }),
{
    let sent = response_of(data);
    u32_round_trip(STATUS_OK);
    u32_round_trip(STATUS_NOT_FOUND);
    match data {
        Some(bytes) => {
            u64_round_trip(bytes.len() as u64);
            assert(sent.take(4) =~= be_u32(STATUS_OK));
            assert(sent.subrange(4, 12) =~= be_u64(bytes.len() as u64));
            assert(sent.skip(12) =~= bytes);
        },
        None => {
            assert(sent.take(4) =~= be_u32(STATUS_NOT_FOUND));
        },
    }
}

} // verus!
