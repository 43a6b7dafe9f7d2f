//! The tracker's answers: one response to each request.

use vstd::prelude::*;

use crate::bits::max_bits;
use crate::error::DistError;
use crate::ids::is_random_id;
use crate::manifest::Manifest;
use crate::metrics::Measurement;
use crate::proto::{infos_of, PeerInfo, Request, Response};
use crate::tracker::job::{
    new_job, shows_job, shows_job_in_order, shows_node, JobSnapshot, JobStatus, JobView,
    SchedulingPolicy,
};
use crate::tracker::registry::{shows_all_jobs, Heartbeat, Tracker, TrackerView};
use crate::tracker::scheduler::{
    counts_holders, knows_sources, peers_of, rarest_first, rarity_order, sources_known, CandidatePeer,
};
use crate::tracker::tables::guarded_job_value;

verus! {

/// Nodes that have not been heard of for more seconds than this are evicted.
pub const STALE_AFTER_SECS: u64 = 60;

/// How many seconds pass between two evictions.
pub const EVICTION_INTERVAL_SECS: u64 = 30;

/// The status of a job: how far it is, and the manifest of its file.
#[derive(Debug)]
pub struct StatusBody {
    pub snapshot: JobSnapshot,
    pub manifest: Manifest,
}

/// A response of the tracker.
pub type TrackerResponse = Response<StatusBody, JobSnapshot>;

/// A response, and what is to be counted on account of the request.
#[derive(Debug)]
pub struct Answer {
    pub response: TrackerResponse,
    pub measurements: Vec<Measurement>,
}

/// The answer is an error with this text, and nothing is counted.
pub open spec fn is_error(a: Answer, text: Seq<char>) -> bool {
    &&& a.response matches Response::Error { message } && message@ == text
    &&& a.measurements@.len() == 0
}

/// The answer says that there is no such job.
pub open spec fn is_job_not_found(a: Answer, job_id: Seq<char>) -> bool {
    is_error(a, "job not found: "@ + job_id)
}

/// The policy that a text names.
pub open spec fn named_policy(text: Seq<char>) -> Option<SchedulingPolicy> {
    if text == "rarity-first"@ {
        Some(SchedulingPolicy::RarityFirst)
    } else if text == "topology-aware"@ {
        Some(SchedulingPolicy::TopologyAware)
    } else {
        None
    }
}

/// The answer to the creation of a job: a bad manifest or an unknown policy is reported and
/// changes nothing; otherwise the job is there, under the id that is returned.
pub open spec fn answers_create(
    before: TrackerView,
    decoded: Result<Manifest, String>,
    policy: Seq<char>,
    created_at: u64,
    a: Answer,
    after: TrackerView,
) -> bool {
    match decoded {
        Err(why) => is_error(a, why@) && after == before,
        Ok(manifest) => match named_policy(policy) {
            None => is_error(a, "protocol error: unknown policy: "@ + policy) && after == before,
            Some(p) => {
                &&& a.response matches Response::JobCreated { job_id } && is_random_id(job_id@)
                    && after == before.with_job(
                    job_id@,
                    new_job(job_id@, manifest@, p, created_at),
                )
                &&& a.measurements@.len() == 1
                &&& a.measurements@[0] is JobCreated
            },
        },
    }
}

/// The answer to a heartbeat: the node is taken in, and the answer tells whether the job is
/// complete.
pub open spec fn answers_heartbeat(
    before: TrackerView,
    job_id: Seq<char>,
    beat: Heartbeat,
    a: Answer,
    after: TrackerView,
) -> bool {
    if before.jobs.contains_key(job_id) {
        let job = before.jobs[job_id].after_heartbeat(beat);
        let newly = before.jobs[job_id].with_heartbeat(beat).all_finished()
            && before.jobs[job_id].status != JobStatus::Complete;
        &&& after == before.with_job(job_id, job)
        &&& a.response matches Response::HeartbeatAck { job_complete } && job_complete == (
        job.status == JobStatus::Complete)
        &&& a.measurements@.len() == if newly {
            2nat
        } else {
            1nat
        }
        &&& a.measurements@[0] matches Measurement::NodeCompletion { job_id: j, node_id, ratio }
            && j@ == job_id && node_id@ == beat.node_id && ratio
            == job.nodes[beat.node_id].bitmap.ratio()
        &&& newly ==> a.measurements@[1] is JobComplete
    } else {
        is_job_not_found(a, job_id) && after == before
    }
}

/// The answer to a query for peers: what the job's policy offers.
pub open spec fn answers_peers(
    before: TrackerView,
    job_id: Seq<char>,
    node_id: Seq<char>,
    rack_id: Seq<char>,
    chunk_index: u32,
    top_n: int,
    a: Answer,
) -> bool {
    if before.jobs.contains_key(job_id) {
        &&& a.response matches Response::Peers { peers } && before.jobs[job_id].offered(
            infos_of(peers@),
            node_id,
            rack_id,
            chunk_index,
            top_n,
        )
        &&& a.measurements@.len() == 1
        &&& a.measurements@[0] matches Measurement::PeerQuery { job_id: j } && j@ == job_id
    } else {
        is_job_not_found(a, job_id)
    }
}

/// The answer to a query for the order of missing chunks: the rarest first.
pub open spec fn answers_rarity(
    before: TrackerView,
    job_id: Seq<char>,
    missing: Seq<u32>,
    a: Answer,
) -> bool {
    if before.jobs.contains_key(job_id) {
        &&& a.response matches Response::Rarity { order } && rarest_first(
            order@,
            before.jobs[job_id],
            missing,
        ) && counts_holders(order@, before.jobs[job_id])
        &&& a.measurements@.len() == 0
    } else {
        is_job_not_found(a, job_id)
    }
}

/// The answer to a query for the status of a job.
pub open spec fn answers_status(
    before: TrackerView,
    job_id: Seq<char>,
    now: u64,
    a: Answer,
) -> bool {
    if before.jobs.contains_key(job_id) {
        &&& a.response matches Response::Status { body } && shows_job(
            body.snapshot,
            before.jobs[job_id],
            now,
        ) && body.manifest@ == before.jobs[job_id].manifest
        &&& a.measurements@.len() == 0
    } else {
        is_job_not_found(a, job_id)
    }
}

/// The answer to a cancellation.
pub open spec fn answers_cancel(
    before: TrackerView,
    job_id: Seq<char>,
    a: Answer,
    after: TrackerView,
) -> bool {
    if before.jobs.contains_key(job_id) {
        &&& a.response is Ack
        &&& a.measurements@.len() == 0
        &&& after == before.with_job(job_id, before.jobs[job_id].cancelled())
    } else {
        is_job_not_found(a, job_id) && after == before
    }
}

/// The answer to the request for all jobs.
pub open spec fn answers_list(before: TrackerView, now: u64, a: Answer) -> bool {
    &&& a.response matches Response::JobList { jobs } && shows_all_jobs(jobs@, before, now)
    &&& a.measurements@.len() == 0
}

/// `a` answers the request, and takes the tracker from `before` to `after`.
pub open spec fn answers(
    before: TrackerView,
    req: Request,
    decoded: Option<Result<Manifest, String>>,
    now: u64,
    created_at: u64,
    a: Answer,
    after: TrackerView,
) -> bool {
    match req {
        Request::CreateJob { manifest_bytes, policy } => answers_create(
            before,
            decoded->0,
            policy@,
            created_at,
            a,
            after,
        ),
        Request::Heartbeat { job_id, node_id, rack_id, peer_addr, bitmap_bytes, upload_bw_mbps }
            => answers_heartbeat(
            before,
            job_id@,
            Heartbeat {
                node_id: node_id@,
                rack_id: rack_id@,
                peer_addr: peer_addr@,
                bitmap_bytes: bitmap_bytes@,
                upload_bw_mbps,
                now,
            },
            a,
            after,
        ),
        Request::GetPeers { job_id, node_id, rack_id, chunk_index, top_n } => {
            &&& answers_peers(before, job_id@, node_id@, rack_id@, chunk_index, top_n as int, a)
            &&& after == before
        },
        Request::GetRarity { job_id, missing } => {
            &&& answers_rarity(before, job_id@, missing@, a)
            &&& after == before
        },
        Request::GetStatus { job_id } => {
            &&& answers_status(before, job_id@, now, a)
            &&& after == before
        },
        Request::CancelJob { job_id } => answers_cancel(before, job_id@, a, after),
        Request::ListJobs => {
            &&& answers_list(before, now, a)
            &&& after == before
        },
    }
}

/// The request can be answered: a manifest comes with its outcome of decoding, a bitmap
/// is not too long for the machine, and the bitmaps of the job answer for the chunks that
/// are asked for.
pub open spec fn answerable(
    before: TrackerView,
    req: Request,
    decoded: Option<Result<Manifest, String>>,
) -> bool {
    match req {
        Request::CreateJob { .. } => decoded is Some,
        Request::Heartbeat { bitmap_bytes, .. } => 8 * bitmap_bytes@.len() <= max_bits(),
        Request::GetPeers { job_id, node_id, chunk_index, .. } => before.jobs.contains_key(job_id@)
            ==> sources_known(before.jobs[job_id@], node_id@, chunk_index),
        Request::GetRarity { job_id, .. } => before.jobs.contains_key(job_id@)
            ==> before.jobs[job_id@].readable() && before.jobs[job_id@].nodes.dom().len()
            <= u32::MAX,
        _ => true,
    }
}

fn failed(e: DistError) -> (a: Answer)
    ensures
        is_error(a, e.text()),
{
    Answer { response: Response::Error { message: e.message() }, measurements: Vec::new() }
}

fn plain(response: TrackerResponse) -> (a: Answer)
    ensures
        a.response == response,
        a.measurements@.len() == 0,
{
    Answer { response, measurements: Vec::new() }
}

fn counted(response: TrackerResponse, m: Measurement) -> (a: Answer)
    ensures
        a.response == response,
        a.measurements@ == seq![m],
{
    let mut measurements: Vec<Measurement> = Vec::new();
    measurements.push(m);
    assert(measurements@ =~= seq![m]);
    Answer { response, measurements }
}

fn create(
    tracker: &mut Tracker,
    decoded: Result<Manifest, String>,
    policy: &str,
    created_at: u64,
) -> (a: Answer)
    ensures
        answers_create(old(tracker)@, decoded, policy@, created_at, a, final(tracker)@),
{
    let manifest = match decoded {
        Ok(m) => m,
        Err(message) => return plain(Response::Error { message }),
    };
    let parsed = match SchedulingPolicy::from_str(policy) {
        Ok(p) => p,
        Err(e) => {
            let a = failed(e);
            assert(e.text() =~= "protocol error: unknown policy: "@ + policy@) by {
                reveal_strlit("protocol error: ");
                reveal_strlit("unknown policy: ");
                reveal_strlit("protocol error: unknown policy: ");
                assert("protocol error: "@ + "unknown policy: "@
                    =~= "protocol error: unknown policy: "@);
            }
            return a;
        },
    };
    proof {
        reveal_strlit("rarity-first");
        reveal_strlit("topology-aware");
    }
    let job_id = tracker.create_job(manifest, parsed, created_at);
    counted(Response::JobCreated { job_id }, Measurement::JobCreated)
}

fn peer_infos(peers: Vec<CandidatePeer>) -> (r: Vec<PeerInfo>)
    ensures
        infos_of(r@) == peers_of(peers@),
{
    let mut out: Vec<PeerInfo> = Vec::new();
    let mut i: usize = 0;
    while i < peers.len()
        invariant
            i <= peers@.len(),
            out@.len() == i,
            forall|j: int| 0 <= j < i ==> (#[trigger] out@[j])@ == peers@[j]@,
        decreases peers@.len() - i,
    {
        let copy = peers[i].clone();
        out.push(PeerInfo::from(copy));
        i = i + 1;
    }
    assert(infos_of(out@) =~= peers_of(peers@));
    out
}

/// Answers a request. For the creation of a job, `decoded` is what decoding the manifest
/// gave. Times: `now` in nanoseconds of a clock that never goes back, `created_at` in
/// seconds of the wall clock.
pub fn dispatch(
    tracker: &mut Tracker,
    req: Request,
    decoded: Option<Result<Manifest, String>>,
    now: u64,
    created_at: u64,
) -> (a: Answer)
    requires
        answerable(old(tracker)@, req, decoded),
    ensures
        answers(old(tracker)@, req, decoded, now, created_at, a, final(tracker)@),
{
    match req {
        Request::CreateJob { manifest_bytes, policy } => {
            let outcome = match decoded {
                Some(outcome) => outcome,
                None => {
                    assert(false);
                    Err(policy.clone())
                },
            };
            create(tracker, outcome, policy.as_str(), created_at)
        },
        Request::Heartbeat {
            job_id,
            node_id,
            rack_id,
            peer_addr,
            bitmap_bytes,
            upload_bw_mbps,
        } => {
            let sender = node_id.clone();
            match tracker.update_node(
                job_id.as_str(),
                node_id,
                rack_id,
                peer_addr,
                bitmap_bytes.as_slice(),
                upload_bw_mbps,
                now,
            ) {
                Ok(update) => {
                    let job_complete = match tracker.get_job(job_id.as_str()) {
                        Ok(guard) => guarded_job_value(&guard).status == JobStatus::Complete,
                        Err(_) => false,
                    };
                    let mut a = counted(
                        Response::HeartbeatAck { job_complete },
                        Measurement::NodeCompletion {
                            job_id,
                            node_id: sender,
                            ratio: update.completion,
                        },
                    );
                    if update.job_completed {
                        a.measurements.push(Measurement::JobComplete);
                    }
                    a
                },
                Err(e) => failed(e),
            }
        },
        Request::GetPeers { job_id, node_id, rack_id, chunk_index, top_n } => {
            match tracker.get_peers(
                job_id.as_str(),
                node_id.as_str(),
                rack_id.as_str(),
                chunk_index,
                top_n,
            ) {
                Ok(peers) => counted(
                    Response::Peers { peers: peer_infos(peers) },
                    Measurement::PeerQuery { job_id },
                ),
                Err(e) => failed(e),
            }
        },
        Request::GetRarity { job_id, missing } => {
            match tracker.get_job(job_id.as_str()) {
                Ok(guard) => {
                    let order = rarity_order(guarded_job_value(&guard), missing.as_slice());
                    plain(Response::Rarity { order })
                },
                Err(e) => failed(e),
            }
        },
        Request::GetStatus { job_id } => {
            match tracker.get_job(job_id.as_str()) {
                Ok(guard) => {
                    let job = guarded_job_value(&guard);
                    let body = StatusBody {
                        snapshot: job.snapshot(now),
                        manifest: job.manifest.clone(),
                    };
                    plain(Response::Status { body })
                },
                Err(e) => failed(e),
            }
        },
        Request::CancelJob { job_id } => {
            match tracker.cancel_job(job_id.as_str()) {
                Ok(()) => plain(Response::Ack),
                Err(e) => failed(e),
            }
        },
        Request::ListJobs => {
            let jobs = tracker.all_job_snapshots(now);
            plain(Response::JobList { jobs })
        },
    }
}

/// Whether a request can be answered.
pub fn can_answer(
    tracker: &Tracker,
    req: &Request,
    decoded: &Option<Result<Manifest, String>>,
) -> (r: bool)
    ensures
        r == answerable(tracker@, *req, *decoded),
{
    match req {
        Request::CreateJob { .. } => decoded.is_some(),
        Request::Heartbeat { bitmap_bytes, .. } => bitmap_bytes.len() <= usize::MAX / 8 / 8,
        Request::GetPeers { job_id, node_id, chunk_index, .. } => {
            match tracker.get_job(job_id.as_str()) {
                Ok(guard) => knows_sources(
                    guarded_job_value(&guard),
                    node_id.as_str(),
                    *chunk_index,
                ),
                Err(_) => true,
            }
        },
        Request::GetRarity { job_id, .. } => {
            match tracker.get_job(job_id.as_str()) {
                Ok(guard) => {
                    let job = guarded_job_value(&guard);
                    job.is_readable() && job.node_total() as u64 <= u32::MAX as u64
                },
                Err(_) => true,
            }
        },
        _ => true,
    }
}

/// The job that a request is about.
pub open spec fn job_named(req: Request) -> Option<Seq<char>> {
    match req {
        Request::CreateJob { .. } => None,
        Request::Heartbeat { job_id, .. } => Some(job_id@),
        Request::GetPeers { job_id, .. } => Some(job_id@),
        Request::GetRarity { job_id, .. } => Some(job_id@),
        Request::GetStatus { job_id } => Some(job_id@),
        Request::CancelJob { job_id } => Some(job_id@),
        Request::ListJobs => None,
    }
}

/// A request about a job that does not exist is answered with an error that names the job,
/// changes nothing and counts for nothing.
pub proof fn unknown_job_is_refused(
    before: TrackerView,
    req: Request,
    decoded: Option<Result<Manifest, String>>,
    now: u64,
    created_at: u64,
    a: Answer,
    after: TrackerView,
)
    requires
        answers(before, req, decoded, now, created_at, a, after),
        job_named(req) is Some,
        !before.jobs.contains_key(job_named(req)->0),
    ensures
        is_job_not_found(a, job_named(req)->0),
        after == before,
{
}

/// An answer that is an error leaves the tracker as it was.
pub proof fn refused_request_changes_nothing(
    before: TrackerView,
    req: Request,
    decoded: Option<Result<Manifest, String>>,
    now: u64,
    created_at: u64,
    a: Answer,
    after: TrackerView,
)
    requires
        answers(before, req, decoded, now, created_at, a, after),
        a.response is Error,
    ensures
        after == before,
        a.measurements@.len() == 0,
{
}

/// Only the creation of a job, a heartbeat and a cancellation change the tracker.
pub proof fn queries_change_nothing(
    before: TrackerView,
    req: Request,
    decoded: Option<Result<Manifest, String>>,
    now: u64,
    created_at: u64,
    a: Answer,
    after: TrackerView,
)
    requires
        answers(before, req, decoded, now, created_at, a, after),
        !(req is CreateJob),
        !(req is Heartbeat),
        !(req is CancelJob),
    ensures
        after == before,
{
}

/// A job that was created is there: its status can be asked for under the id that was
/// returned, and shows the manifest that was handed in, a running job, and no nodes.
pub proof fn created_job_has_status(
    before: TrackerView,
    create: Request,
    decoded: Option<Result<Manifest, String>>,
    now: u64,
    created_at: u64,
    a: Answer,
    after: TrackerView,
    query: Request,
    then: u64,
    b: Answer,
    end: TrackerView,
)
    requires
        create is CreateJob,
        answerable(before, create, decoded),
        answers(before, create, decoded, now, created_at, a, after),
        a.response is JobCreated,
        query is GetStatus,
        job_named(query) == Some(a.response->job_id@),
        answers(after, query, None, then, created_at, b, end),
    ensures
        decoded matches Some(Ok(m)) && b.response matches Response::Status { body }
            && body.manifest@ == m@ && body.snapshot.job_id@ == a.response->job_id@
            && body.snapshot.status@ == "Running"@ && body.snapshot.nodes@.len() == 0
            && body.snapshot.total_chunks == m@.chunk_count,
{
    let id = a.response->job_id@;
    let job = after.jobs[id];
    assert(after.jobs.contains_key(id));
    let s = b.response->body.snapshot;
    let ids = choose|ids: Seq<Seq<char>>| #[trigger] shows_job_in_order(s, job, then, ids);
    if ids.len() > 0 {
        assert(ids.to_set().contains(ids[0]));
        assert(job.nodes.contains_key(ids[0]));
    }
}

/// The status of a job names every node of the job once, with what it has received.
pub proof fn status_shows_every_node(s: JobSnapshot, job: JobView, now: u64, id: Seq<char>)
    requires
        shows_job(s, job, now),
        job.nodes.contains_key(id),
    ensures
        exists|i: int|
            0 <= i < s.nodes@.len() && shows_node(
                #[trigger] s.nodes@[i],
                id,
                job.nodes[id],
                job.manifest.chunk_count,
                now,
            ),
        s.nodes@.len() == job.nodes.dom().len(),
{
    let ids = choose|ids: Seq<Seq<char>>| #[trigger] shows_job_in_order(s, job, now, ids);
    ids.unique_seq_to_set();
    assert(ids.to_set().contains(id));
    let i = choose|i: int| 0 <= i < ids.len() && ids[i] == id;
    assert(shows_node(s.nodes@[i], ids[i], job.nodes[ids[i]], job.manifest.chunk_count, now));
}

} // verus!
