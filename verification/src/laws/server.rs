//! Laws of what the tracker shows and answers.

use vstd::arithmetic::power2::pow2;
use vstd::prelude::*;

use crate::laws::bitmap::{counted_bits_are_places, lemma_all_places, lemma_weight};
use crate::laws::tracker::lemma_readable;
use crate::manifest::Manifest;
use crate::proto::Request;
use crate::tracker::job::{
    chunks_received, shows_job, shows_job_in_order, Job, JobSnapshot, JobView, NodeSnapshot,
};
use crate::tracker::registry::{shows_jobs_in_order, Heartbeat, Tracker};
use crate::tracker::server::{can_answer, dispatch, Answer};

verus! {

proof fn lemma_shown(s: JobSnapshot, job: JobView, now: u64)
    requires
        shows_job(s, job, now),
    ensures
        s.job_id@ == job.job_id,
        s.file_id@ == job.manifest.file_id,
        s.version@ == job.manifest.version,
        job.status is Running ==> s.status@ == "Running"@,
        job.status is Complete ==> s.status@ == "Complete"@,
        job.status is Cancelled ==> s.status@ == "Cancelled"@,
        job.policy is RarityFirst ==> s.policy@ == "RarityFirst"@,
        job.policy is TopologyAware ==> s.policy@ == "TopologyAware"@,
        s.total_chunks == job.manifest.chunk_count,
        job.nodes.dom().finite(),
        s.node_count == job.nodes.dom().len() % 0x1_0000_0000,
        s.nodes@.len() == job.nodes.dom().len(),
        forall|id: Seq<char>| #[trigger]
            job.nodes.contains_key(id) ==> exists|i: int|
                0 <= i < s.nodes@.len() && (#[trigger] s.nodes@[i]).node_id@ == id,
        forall|i: int, j: int|
            0 <= i < j < s.nodes@.len() ==> (#[trigger] s.nodes@[i]).node_id@ != (
            #[trigger] s.nodes@[j]).node_id@,
        forall|i: int|
            0 <= i < s.nodes@.len() ==> {
                let node = job.nodes[(#[trigger] s.nodes@[i]).node_id@];
                &&& job.nodes.contains_key(s.nodes@[i].node_id@)
                &&& s.nodes@[i].rack_id@ == node.rack_id
                &&& s.nodes@[i].upload_bw_mbps == node.upload_bw_mbps
                &&& s.nodes@[i].total_chunks == job.manifest.chunk_count
                &&& s.nodes@[i].completed_chunks == Set::new(
                    |k: int| 0 <= k < node.bitmap.bits.len() && node.bitmap.bits[k],
                ).len()
                &&& node.last_seen <= now ==> s.nodes@[i].last_seen_secs * 1_000_000_000
                    <= now - node.last_seen < (s.nodes@[i].last_seen_secs + 1)
                    * 1_000_000_000
                &&& node.last_seen > now ==> s.nodes@[i].last_seen_secs == 0
            },
{
    let ids = choose|ids: Seq<Seq<char>>| #[trigger] shows_job_in_order(s, job, now, ids);
    ids.unique_seq_to_set();
    assert forall|id: Seq<char>| #[trigger] job.nodes.contains_key(id) implies exists|i: int|
        0 <= i < s.nodes@.len() && (#[trigger] s.nodes@[i]).node_id@ == id by {
        assert(ids.to_set().contains(id));
        let i = choose|i: int| 0 <= i < ids.len() && ids[i] == id;
        assert(s.nodes@[i].node_id@ == id);
    }
    assert forall|i: int| 0 <= i < s.nodes@.len() implies {
        let node = job.nodes[(#[trigger] s.nodes@[i]).node_id@];
        &&& job.nodes.contains_key(s.nodes@[i].node_id@)
        &&& s.nodes@[i].completed_chunks == Set::new(
            |k: int| 0 <= k < node.bitmap.bits.len() && node.bitmap.bits[k],
        ).len()
    } by {
        assert(ids.to_set().contains(ids[i]));
        counted_bits_are_places(job.nodes[ids[i]].bitmap.bits);
    }
}

/// A snapshot shows the job as it is: whose it is, where it stands, and every node once, with
/// its rack, its bandwidth, the number of its set bits and the full seconds of its silence.
pub proof fn snapshot_shows_job(job: &Job, now: u64, s: JobSnapshot)
    requires
        call_ensures(Job::snapshot, (job, now), s),
    ensures
        s.job_id@ == job@.job_id,
        s.file_id@ == job@.manifest.file_id,
        s.version@ == job@.manifest.version,
        job@.status is Running ==> s.status@ == "Running"@,
        job@.status is Complete ==> s.status@ == "Complete"@,
        job@.status is Cancelled ==> s.status@ == "Cancelled"@,
        job@.policy is RarityFirst ==> s.policy@ == "RarityFirst"@,
        job@.policy is TopologyAware ==> s.policy@ == "TopologyAware"@,
        s.total_chunks == job@.manifest.chunk_count,
        job@.nodes.dom().finite(),
        s.node_count == job@.nodes.dom().len() % 0x1_0000_0000,
        s.nodes@.len() == job@.nodes.dom().len(),
        forall|id: Seq<char>| #[trigger]
            job@.nodes.contains_key(id) ==> exists|i: int|
                0 <= i < s.nodes@.len() && (#[trigger] s.nodes@[i]).node_id@ == id,
        forall|i: int, j: int|
            0 <= i < j < s.nodes@.len() ==> (#[trigger] s.nodes@[i]).node_id@ != (
            #[trigger] s.nodes@[j]).node_id@,
        forall|i: int|
            0 <= i < s.nodes@.len() ==> {
                let node = job@.nodes[(#[trigger] s.nodes@[i]).node_id@];
                &&& job@.nodes.contains_key(s.nodes@[i].node_id@)
                &&& s.nodes@[i].rack_id@ == node.rack_id
                &&& s.nodes@[i].upload_bw_mbps == node.upload_bw_mbps
                &&& s.nodes@[i].total_chunks == job@.manifest.chunk_count
                &&& s.nodes@[i].completed_chunks == Set::new(
                    |k: int| 0 <= k < node.bitmap.bits.len() && node.bitmap.bits[k],
                ).len()
                &&& node.last_seen <= now ==> s.nodes@[i].last_seen_secs * 1_000_000_000
                    <= now - node.last_seen < (s.nodes@[i].last_seen_secs + 1)
                    * 1_000_000_000
                &&& node.last_seen > now ==> s.nodes@[i].last_seen_secs == 0
            },
{
    lemma_shown(s, job@, now);
}

proof fn lemma_total_received(
    nodes: Seq<NodeSnapshot>,
    ids: Seq<Seq<char>>,
    job: JobView,
)
    requires
        nodes.len() == ids.len(),
        forall|i: int|
            0 <= i < ids.len() ==> (#[trigger] nodes[i]).completed_chunks
                == job.nodes[ids[i]].bitmap.completed(),
    ensures
        chunks_received(ids, job.nodes) == nodes.map_values(
            |n: NodeSnapshot| n.completed_chunks as int,
        ).fold_left(0, |sum: int, n: int| sum + n),
        chunks_received(ids, job.nodes) <= ids.len() * u32::MAX,
    decreases ids.len(),
{
    let counts = nodes.map_values(|n: NodeSnapshot| n.completed_chunks as int);
    if ids.len() > 0 {
        let front = nodes.drop_last();
        assert forall|i: int| 0 <= i < ids.drop_last().len() implies (
        #[trigger] front[i]).completed_chunks == job.nodes[ids.drop_last()[i]].bitmap.completed() by {
            assert(front[i] == nodes[i]);
        }
        lemma_total_received(front, ids.drop_last(), job);
        assert(front.map_values(|n: NodeSnapshot| n.completed_chunks as int)
            =~= counts.drop_last());
        assert(nodes[ids.len() - 1].completed_chunks == job.nodes[ids.last()].bitmap.completed());
    }
}

/// The average completion is the sum of what the nodes have received over what they should
/// have, in percent; 0 without nodes.
pub proof fn average_is_over_all_nodes(job: &Job, now: u64, s: JobSnapshot)
    requires
        call_ensures(Job::snapshot, (job, now), s),
        s.nodes@.len() <= u64::MAX,
    ensures
        s.nodes@.len() == 0 ==> s.avg_completion_pct.num == 0 && s.avg_completion_pct.den == 1,
        s.nodes@.len() > 0 ==> s.avg_completion_pct.num == 100 * s.nodes@.map_values(
            |n: NodeSnapshot| n.completed_chunks as int,
        ).fold_left(0, |sum: int, n: int| sum + n) && s.avg_completion_pct.den == s.nodes@.len()
            * s.total_chunks,
{
    let ids = choose|ids: Seq<Seq<char>>| #[trigger] shows_job_in_order(s, job@, now, ids);
    assert forall|i: int| 0 <= i < ids.len() implies (#[trigger] s.nodes@[i]).completed_chunks
        == job@.nodes[ids[i]].bitmap.completed() by {}
    lemma_total_received(s.nodes@, ids, job@);
    assert(ids.len() * s.total_chunks <= u64::MAX * u32::MAX) by (nonlinear_arith)
        requires
            ids.len() <= u64::MAX,
            s.total_chunks <= u32::MAX,
    ;
    assert(0 <= ids.len() * s.total_chunks) by (nonlinear_arith)
        requires
            0 <= ids.len(),
            0 <= s.total_chunks,
    ;
    assert(ids.len() * u32::MAX <= u64::MAX * u32::MAX) by (nonlinear_arith)
        requires
            ids.len() <= u64::MAX,
    ;
}

/// The list of all jobs shows every job once: as many as there are, and each of them.
pub proof fn all_jobs_are_shown(t: &Tracker, now: u64, r: Vec<JobSnapshot>)
    requires
        call_ensures(Tracker::all_job_snapshots, (t, now), r),
    ensures
        exists|ids: Seq<Seq<char>>|
            {
                &&& #[trigger] ids.no_duplicates()
                &&& forall|id: Seq<char>| #[trigger] ids.contains(id) <==> t@.jobs.contains_key(id)
                &&& r@.len() == ids.len()
                &&& forall|i: int|
                    0 <= i < ids.len() ==> {
                        let job = t@.jobs[ids[i]];
                        &&& (#[trigger] r@[i]).job_id@ == job.job_id
                        &&& r@[i].file_id@ == job.manifest.file_id
                        &&& r@[i].version@ == job.manifest.version
                        &&& r@[i].total_chunks == job.manifest.chunk_count
                        &&& r@[i].nodes@.len() == job.nodes.dom().len()
                        &&& job.status is Running ==> r@[i].status@ == "Running"@
                        &&& job.status is Complete ==> r@[i].status@ == "Complete"@
                        &&& job.status is Cancelled ==> r@[i].status@ == "Cancelled"@
                    }
            },
{
    let ids = choose|ids: Seq<Seq<char>>| #[trigger] shows_jobs_in_order(r@, t@, now, ids);
    assert forall|id: Seq<char>| #[trigger] ids.contains(id) <==> t@.jobs.contains_key(id) by {
        assert(ids.to_set().contains(id) <==> t@.jobs.contains_key(id));
    }
    assert forall|i: int| 0 <= i < ids.len() implies {
        let job = t@.jobs[ids[i]];
        &&& (#[trigger] r@[i]).job_id@ == job.job_id
        &&& r@[i].file_id@ == job.manifest.file_id
        &&& r@[i].version@ == job.manifest.version
        &&& r@[i].total_chunks == job.manifest.chunk_count
        &&& r@[i].nodes@.len() == job.nodes.dom().len()
        &&& job.status is Running ==> r@[i].status@ == "Running"@
        &&& job.status is Complete ==> r@[i].status@ == "Complete"@
        &&& job.status is Cancelled ==> r@[i].status@ == "Cancelled"@
    } by {
        lemma_shown(r@[i], t@.jobs[ids[i]], now);
    }
    assert(ids.no_duplicates());
}

/// A request for peers that names a job that is not there is answered with an error that names
/// the job; nothing changes and nothing is counted.
pub proof fn peers_of_unknown_job(
    t: &mut Tracker,
    job_id: String,
    node_id: String,
    rack_id: String,
    chunk_index: u32,
    top_n: usize,
    decoded: Option<Result<Manifest, String>>,
    now: u64,
    created_at: u64,
    a: Answer,
)
    requires
        call_ensures(
            dispatch,
            (
                t,
                Request::GetPeers { job_id, node_id, rack_id, chunk_index, top_n },
                decoded,
                now,
                created_at,
            ),
            a,
        ),
        !old(t)@.jobs.contains_key(job_id@),
    ensures
        a.response is Error,
        a.response->message@ == "job not found: "@ + job_id@,
        a.measurements@.len() == 0,
        final(t)@.jobs == old(t)@.jobs,
{
}

/// A request for the order of chunks that names a job that is not there is answered with an
/// error that names the job; nothing changes and nothing is counted.
pub proof fn order_of_unknown_job(
    t: &mut Tracker,
    job_id: String,
    missing: Vec<u32>,
    decoded: Option<Result<Manifest, String>>,
    now: u64,
    created_at: u64,
    a: Answer,
)
    requires
        call_ensures(
            dispatch,
            (
                t,
                Request::GetRarity { job_id, missing },
                decoded,
                now,
                created_at,
            ),
            a,
        ),
        !old(t)@.jobs.contains_key(job_id@),
    ensures
        a.response is Error,
        a.response->message@ == "job not found: "@ + job_id@,
        a.measurements@.len() == 0,
        final(t)@.jobs == old(t)@.jobs,
{
}

/// A request for a status that names a job that is not there is answered with an error that names
/// the job; nothing changes and nothing is counted.
pub proof fn status_of_unknown_job(
    t: &mut Tracker,
    job_id: String,
    decoded: Option<Result<Manifest, String>>,
    now: u64,
    created_at: u64,
    a: Answer,
)
    requires
        call_ensures(
            dispatch,
            (
                t,
                Request::GetStatus { job_id },
                decoded,
                now,
                created_at,
            ),
            a,
        ),
        !old(t)@.jobs.contains_key(job_id@),
    ensures
        a.response is Error,
        a.response->message@ == "job not found: "@ + job_id@,
        a.measurements@.len() == 0,
        final(t)@.jobs == old(t)@.jobs,
{
}

/// A cancellation that names a job that is not there is answered with an error that names
/// the job; nothing changes and nothing is counted.
pub proof fn cancellation_of_unknown_job(
    t: &mut Tracker,
    job_id: String,
    decoded: Option<Result<Manifest, String>>,
    now: u64,
    created_at: u64,
    a: Answer,
)
    requires
        call_ensures(
            dispatch,
            (
                t,
                Request::CancelJob { job_id },
                decoded,
                now,
                created_at,
            ),
            a,
        ),
        !old(t)@.jobs.contains_key(job_id@),
    ensures
        a.response is Error,
        a.response->message@ == "job not found: "@ + job_id@,
        a.measurements@.len() == 0,
        final(t)@.jobs == old(t)@.jobs,
{
}

/// A heartbeat that names a job that is not there is answered with an error that names
/// the job; nothing changes and nothing is counted.
pub proof fn heartbeat_of_unknown_job(
    t: &mut Tracker,
    job_id: String,
    node_id: String,
    rack_id: String,
    peer_addr: String,
    bitmap_bytes: Vec<u8>,
    upload_bw_mbps: u64,
    decoded: Option<Result<Manifest, String>>,
    now: u64,
    created_at: u64,
    a: Answer,
)
    requires
        call_ensures(
            dispatch,
            (
                t,
                Request::Heartbeat {
                    job_id,
                    node_id,
                    rack_id,
                    peer_addr,
                    bitmap_bytes,
                    upload_bw_mbps,
                },
                decoded,
                now,
                created_at,
            ),
            a,
        ),
        !old(t)@.jobs.contains_key(job_id@),
    ensures
        a.response is Error,
        a.response->message@ == "job not found: "@ + job_id@,
        a.measurements@.len() == 0,
        final(t)@.jobs == old(t)@.jobs,
{
}

/// A request for peers of a job that is there is counted once for that job, and changes
/// nothing.
pub proof fn peer_query_is_counted(
    t: &mut Tracker,
    job_id: String,
    node_id: String,
    rack_id: String,
    chunk_index: u32,
    top_n: usize,
    decoded: Option<Result<Manifest, String>>,
    now: u64,
    created_at: u64,
    a: Answer,
)
    requires
        call_ensures(
            dispatch,
            (
                t,
                Request::GetPeers { job_id, node_id, rack_id, chunk_index, top_n },
                decoded,
                now,
                created_at,
            ),
            a,
        ),
        old(t)@.jobs.contains_key(job_id@),
    ensures
        final(t)@.jobs == old(t)@.jobs,
        a.measurements@.len() == 1,
        a.measurements@[0] is PeerQuery,
        a.measurements@[0]->PeerQuery_job_id@ == job_id@,
{
}

/// A request for the order of chunks changes nothing and counts for nothing.
pub proof fn order_query_changes_nothing(
    t: &mut Tracker,
    job_id: String,
    missing: Vec<u32>,
    decoded: Option<Result<Manifest, String>>,
    now: u64,
    created_at: u64,
    a: Answer,
)
    requires
        call_ensures(
            dispatch,
            (
                t,
                Request::GetRarity { job_id, missing },
                decoded,
                now,
                created_at,
            ),
            a,
        ),
    ensures
        final(t)@.jobs == old(t)@.jobs,
        a.measurements@.len() == 0,
{
}

/// The status of a job shows it as it is now, with its manifest, and changes nothing.
pub proof fn status_answer_shows_job(
    t: &mut Tracker,
    job_id: String,
    decoded: Option<Result<Manifest, String>>,
    now: u64,
    created_at: u64,
    a: Answer,
)
    requires
        call_ensures(
            dispatch,
            (
                t,
                Request::GetStatus { job_id },
                decoded,
                now,
                created_at,
            ),
            a,
        ),
        old(t)@.jobs.contains_key(job_id@),
    ensures
        final(t)@.jobs == old(t)@.jobs,
        a.response is Status,
        a.response->body.manifest@ == old(t)@.jobs[job_id@].manifest,
        a.measurements@.len() == 0,
        ({
            let s = a.response->body.snapshot;
            let job = old(t)@.jobs[job_id@];
            &&& s.job_id@ == job.job_id
            &&& s.file_id@ == job.manifest.file_id
            &&& s.version@ == job.manifest.version
            &&& job.status is Running ==> s.status@ == "Running"@
            &&& job.status is Complete ==> s.status@ == "Complete"@
            &&& job.status is Cancelled ==> s.status@ == "Cancelled"@
            &&& job.policy is RarityFirst ==> s.policy@ == "RarityFirst"@
            &&& job.policy is TopologyAware ==> s.policy@ == "TopologyAware"@
            &&& s.total_chunks == job.manifest.chunk_count
            &&& s.node_count == job.nodes.dom().len() % 0x1_0000_0000
            &&& s.nodes@.len() == job.nodes.dom().len()
            &&& forall|id: Seq<char>| #[trigger]
                job.nodes.contains_key(id) ==> exists|i: int|
                    0 <= i < s.nodes@.len() && (#[trigger] s.nodes@[i]).node_id@ == id
            &&& forall|i: int, j: int|
                0 <= i < j < s.nodes@.len() ==> (#[trigger] s.nodes@[i]).node_id@ != (
                #[trigger] s.nodes@[j]).node_id@
            &&& forall|i: int|
                0 <= i < s.nodes@.len() ==> {
                    let node = job.nodes[(#[trigger] s.nodes@[i]).node_id@];
                    &&& job.nodes.contains_key(s.nodes@[i].node_id@)
                    &&& s.nodes@[i].rack_id@ == node.rack_id
                    &&& s.nodes@[i].upload_bw_mbps == node.upload_bw_mbps
                    &&& s.nodes@[i].total_chunks == job.manifest.chunk_count
                    &&& s.nodes@[i].completed_chunks == Set::new(
                        |k: int| 0 <= k < node.bitmap.bits.len() && node.bitmap.bits[k],
                    ).len()
                    &&& node.last_seen <= now ==> s.nodes@[i].last_seen_secs * 1_000_000_000
                        <= now - node.last_seen < (s.nodes@[i].last_seen_secs + 1)
                        * 1_000_000_000
                    &&& node.last_seen > now ==> s.nodes@[i].last_seen_secs == 0
                }
        }),
{
    lemma_shown(a.response->body.snapshot, old(t)@.jobs[job_id@], now);
}

/// A cancellation marks the job as cancelled, whatever its status was, and changes nothing
/// else.
pub proof fn cancel_answer_marks_job(
    t: &mut Tracker,
    job_id: String,
    decoded: Option<Result<Manifest, String>>,
    now: u64,
    created_at: u64,
    a: Answer,
)
    requires
        call_ensures(
            dispatch,
            (
                t,
                Request::CancelJob { job_id },
                decoded,
                now,
                created_at,
            ),
            a,
        ),
        old(t)@.jobs.contains_key(job_id@),
    ensures
        a.response is Ack,
        a.measurements@.len() == 0,
        final(t)@.jobs.dom() == old(t)@.jobs.dom(),
        final(t)@.jobs[job_id@].status is Cancelled,
        final(t)@.jobs[job_id@].job_id == old(t)@.jobs[job_id@].job_id,
        final(t)@.jobs[job_id@].manifest == old(t)@.jobs[job_id@].manifest,
        final(t)@.jobs[job_id@].policy == old(t)@.jobs[job_id@].policy,
        final(t)@.jobs[job_id@].created_at == old(t)@.jobs[job_id@].created_at,
        final(t)@.jobs[job_id@].nodes == old(t)@.jobs[job_id@].nodes,
        forall|j: Seq<char>|
            j != job_id@ && #[trigger] old(t)@.jobs.contains_key(j) ==> final(t)@.jobs[j]
                == old(t)@.jobs[j],
{
    assert(final(t)@.jobs.dom() =~= old(t)@.jobs.dom());
}

/// The answer to the request for all jobs shows every job once, and changes nothing.
pub proof fn list_answer_shows_all_jobs(
    t: &mut Tracker,
    decoded: Option<Result<Manifest, String>>,
    now: u64,
    created_at: u64,
    a: Answer,
)
    requires
        call_ensures(
            dispatch,
            (
                t,
                Request::ListJobs,
                decoded,
                now,
                created_at,
            ),
            a,
        ),
    ensures
        final(t)@.jobs == old(t)@.jobs,
        a.response is JobList,
        a.measurements@.len() == 0,
        exists|ids: Seq<Seq<char>>|
            {
                &&& #[trigger] ids.no_duplicates()
                &&& forall|id: Seq<char>| #[trigger] ids.contains(id) <==> old(t)@.jobs.contains_key(id)
                &&& a.response->jobs@.len() == ids.len()
                &&& forall|i: int|
                    0 <= i < ids.len() ==> {
                        let job = old(t)@.jobs[ids[i]];
                        &&& (#[trigger] a.response->jobs@[i]).job_id@ == job.job_id
                        &&& a.response->jobs@[i].file_id@ == job.manifest.file_id
                        &&& a.response->jobs@[i].version@ == job.manifest.version
                        &&& a.response->jobs@[i].total_chunks == job.manifest.chunk_count
                        &&& a.response->jobs@[i].nodes@.len() == job.nodes.dom().len()
                        &&& job.status is Running ==> a.response->jobs@[i].status@ == "Running"@
                        &&& job.status is Complete ==> a.response->jobs@[i].status@ == "Complete"@
                        &&& job.status is Cancelled ==> a.response->jobs@[i].status@ == "Cancelled"@
                    }
            },
{
    let list = a.response->jobs@;
    let jobs = old(t)@.jobs;
    let ids = choose|ids: Seq<Seq<char>>| #[trigger]
        shows_jobs_in_order(list, old(t)@, now, ids);
    assert forall|id: Seq<char>| #[trigger] ids.contains(id) <==> jobs.contains_key(id) by {
        assert(ids.to_set().contains(id) <==> jobs.contains_key(id));
    }
    assert forall|i: int| 0 <= i < ids.len() implies {
        let job = jobs[ids[i]];
        &&& (#[trigger] list[i]).job_id@ == job.job_id
        &&& list[i].file_id@ == job.manifest.file_id
        &&& list[i].version@ == job.manifest.version
        &&& list[i].total_chunks == job.manifest.chunk_count
        &&& list[i].nodes@.len() == job.nodes.dom().len()
        &&& job.status is Running ==> list[i].status@ == "Running"@
        &&& job.status is Complete ==> list[i].status@ == "Complete"@
        &&& job.status is Cancelled ==> list[i].status@ == "Cancelled"@
    } by {
        lemma_shown(list[i], jobs[ids[i]], now);
    }
    assert(ids.no_duplicates());
}

/// The creation of a job: a manifest that could not be decoded and an unknown policy are
/// reported and change nothing; otherwise there is one job more, under the id that is
/// returned, that runs, has what it was given and no nodes.
pub proof fn create_answer_adds_job(
    t: &mut Tracker,
    manifest_bytes: Vec<u8>,
    policy: String,
    decoded: Option<Result<Manifest, String>>,
    now: u64,
    created_at: u64,
    a: Answer,
)
    requires
        call_ensures(
            dispatch,
            (
                t,
                Request::CreateJob { manifest_bytes, policy },
                decoded,
                now,
                created_at,
            ),
            a,
        ),
        decoded is Some,
    ensures
        decoded->0 is Err ==> {
            &&& a.response is Error
            &&& a.response->message@ == decoded->0->Err_0@
            &&& a.measurements@.len() == 0
            &&& final(t)@.jobs == old(t)@.jobs
        },
        decoded->0 is Ok && policy@ != "rarity-first"@ && policy@ != "topology-aware"@ ==> {
            &&& a.response is Error
            &&& a.response->message@ == "protocol error: unknown policy: "@ + policy@
            &&& a.measurements@.len() == 0
            &&& final(t)@.jobs == old(t)@.jobs
        },
        decoded->0 is Ok && (policy@ == "rarity-first"@ || policy@ == "topology-aware"@) ==> {
            let id = a.response->JobCreated_job_id@;
            &&& a.response is JobCreated
            &&& a.measurements@.len() == 1 && a.measurements@[0] is JobCreated
            &&& final(t)@.jobs.dom() == old(t)@.jobs.dom().insert(id)
            &&& final(t)@.jobs[id].job_id == id
            &&& final(t)@.jobs[id].manifest == decoded->0->Ok_0@
            &&& final(t)@.jobs[id].status is Running
            &&& final(t)@.jobs[id].created_at == created_at
            &&& final(t)@.jobs[id].policy is RarityFirst <==> policy@ == "rarity-first"@
            &&& forall|n: Seq<char>| !#[trigger] final(t)@.jobs[id].nodes.contains_key(n)
            &&& forall|j: Seq<char>|
                j != id && #[trigger] old(t)@.jobs.contains_key(j) ==> final(t)@.jobs[j]
                    == old(t)@.jobs[j]
        },
{
    reveal_strlit("rarity-first");
    reveal_strlit("topology-aware");
    assert("rarity-first"@.len() != "topology-aware"@.len());
    if decoded->0 is Ok && (policy@ == "rarity-first"@ || policy@ == "topology-aware"@) {
        let id = a.response->JobCreated_job_id@;
        assert(final(t)@.jobs.dom() =~= old(t)@.jobs.dom().insert(id));
    }
}

/// A heartbeat makes the tracker know the node as the request says, bit for bit, and as heard
/// of now; all other nodes and all other jobs stay. It is counted with the share of the
/// chunks whose bits are set.
pub proof fn heartbeat_answer_takes_in_node(
    t: &mut Tracker,
    job_id: String,
    node_id: String,
    rack_id: String,
    peer_addr: String,
    bitmap_bytes: Vec<u8>,
    upload_bw_mbps: u64,
    decoded: Option<Result<Manifest, String>>,
    now: u64,
    created_at: u64,
    a: Answer,
)
    requires
        call_ensures(
            dispatch,
            (
                t,
                Request::Heartbeat {
                    job_id,
                    node_id,
                    rack_id,
                    peer_addr,
                    bitmap_bytes,
                    upload_bw_mbps,
                },
                decoded,
                now,
                created_at,
            ),
            a,
        ),
        old(t)@.jobs.contains_key(job_id@),
    ensures
        a.response is HeartbeatAck,
        final(t)@.jobs.dom() == old(t)@.jobs.dom(),
        forall|j: Seq<char>| #[trigger]
            old(t)@.jobs.contains_key(j) && j != job_id@ ==> final(t)@.jobs[j] == old(t)@.jobs[j],
        final(t)@.jobs[job_id@].job_id == old(t)@.jobs[job_id@].job_id,
        final(t)@.jobs[job_id@].manifest == old(t)@.jobs[job_id@].manifest,
        final(t)@.jobs[job_id@].policy == old(t)@.jobs[job_id@].policy,
        final(t)@.jobs[job_id@].created_at == old(t)@.jobs[job_id@].created_at,
        forall|id: Seq<char>| #[trigger]
            final(t)@.jobs[job_id@].nodes.contains_key(id) <==> id == node_id@
                || old(t)@.jobs[job_id@].nodes.contains_key(id),
        forall|id: Seq<char>| #[trigger]
            old(t)@.jobs[job_id@].nodes.contains_key(id) && id != node_id@
                ==> final(t)@.jobs[job_id@].nodes[id] == old(t)@.jobs[job_id@].nodes[id],
        ({
            let node = final(t)@.jobs[job_id@].nodes[node_id@];
            let count = old(t)@.jobs[job_id@].manifest.chunk_count;
            &&& !old(t)@.jobs[job_id@].nodes.contains_key(node_id@) ==> node.node_id == node_id@
            &&& node.rack_id == rack_id@
            &&& node.peer_addr == peer_addr@
            &&& node.upload_bw_mbps == upload_bw_mbps
            &&& node.last_seen == now
            &&& node.bitmap.chunk_count == count
            &&& node.bitmap.bits.len() == if count < 8 * bitmap_bytes@.len() {
                count as int
            } else {
                8 * bitmap_bytes@.len() as int
            }
        }),
        forall|i: int|
            0 <= i < final(t)@.jobs[job_id@].nodes[node_id@].bitmap.bits.len() ==> (
            #[trigger] final(t)@.jobs[job_id@].nodes[node_id@].bitmap.bits[i] <==> bitmap_bytes@[i
                / 8] as int / pow2((7 - i % 8) as nat) as int % 2 == 1),
        a.measurements@.len() >= 1,
        a.measurements@[0] is NodeCompletion,
        a.measurements@[0]->NodeCompletion_job_id@ == job_id@,
        a.measurements@[0]->NodeCompletion_node_id@ == node_id@,
        old(t)@.jobs[job_id@].manifest.chunk_count > 0 ==> ({
            let bits = final(t)@.jobs[job_id@].nodes[node_id@].bitmap.bits;
            a.measurements@[0]->ratio.den > 0 && a.measurements@[0]->ratio.num
                * old(t)@.jobs[job_id@].manifest.chunk_count == Set::new(
                |i: int| 0 <= i < bits.len() && bits[i],
            ).len() * a.measurements@[0]->ratio.den
        }),
{
    assert(final(t)@.jobs.dom() =~= old(t)@.jobs.dom());
    let bits = final(t)@.jobs[job_id@].nodes[node_id@].bitmap.bits;
    counted_bits_are_places(bits);
    lemma_all_places(bits);
    assert forall|i: int| 0 <= i < bits.len() implies (#[trigger] bits[i] <==> bitmap_bytes@[i
        / 8] as int / pow2((7 - i % 8) as nat) as int % 2 == 1) by {
        lemma_weight(i % 8);
    }
}

/// A heartbeat completes its job exactly when every node of the job then has the bit of every
/// chunk; that is counted once, at the moment it becomes so. Otherwise the status stays. The
/// answer tells whether the job is complete.
pub proof fn heartbeat_answer_completes_job(
    t: &mut Tracker,
    job_id: String,
    node_id: String,
    rack_id: String,
    peer_addr: String,
    bitmap_bytes: Vec<u8>,
    upload_bw_mbps: u64,
    decoded: Option<Result<Manifest, String>>,
    now: u64,
    created_at: u64,
    a: Answer,
)
    requires
        call_ensures(
            dispatch,
            (
                t,
                Request::Heartbeat {
                    job_id,
                    node_id,
                    rack_id,
                    peer_addr,
                    bitmap_bytes,
                    upload_bw_mbps,
                },
                decoded,
                now,
                created_at,
            ),
            a,
        ),
        old(t)@.jobs.contains_key(job_id@),
        forall|id: Seq<char>| #[trigger]
            old(t)@.jobs[job_id@].nodes.contains_key(id)
                ==> old(t)@.jobs[job_id@].nodes[id].bitmap.bits.len()
                <= old(t)@.jobs[job_id@].nodes[id].bitmap.chunk_count,
    ensures
        ({
            let after = final(t)@.jobs[job_id@];
            let all_set = forall|id: Seq<char>| #[trigger]
                after.nodes.contains_key(id) ==> after.nodes[id].bitmap.bits.len()
                    == after.nodes[id].bitmap.chunk_count && forall|i: int|
                    0 <= i < after.nodes[id].bitmap.bits.len()
                        ==> #[trigger] after.nodes[id].bitmap.bits[i];
            let newly = all_set && !(old(t)@.jobs[job_id@].status is Complete);
            &&& all_set ==> after.status is Complete
            &&& !all_set ==> after.status == old(t)@.jobs[job_id@].status
            &&& a.response->job_complete <==> after.status is Complete
            &&& newly ==> a.measurements@.len() == 2 && a.measurements@[1] is JobComplete
            &&& !newly ==> a.measurements@.len() == 1
        }),
{
    heartbeat_answer_takes_in_node(
        t,
        job_id,
        node_id,
        rack_id,
        peer_addr,
        bitmap_bytes,
        upload_bw_mbps,
        decoded,
        now,
        created_at,
        a,
    );
    let beat = Heartbeat {
        node_id: node_id@,
        rack_id: rack_id@,
        peer_addr: peer_addr@,
        bitmap_bytes: bitmap_bytes@,
        upload_bw_mbps,
        now,
    };
    let next = old(t)@.jobs[job_id@].with_heartbeat(beat);
    let after = final(t)@.jobs[job_id@];
    assert(next.nodes == after.nodes);
    assert forall|id: Seq<char>| #[trigger] after.nodes.contains_key(id) implies (
    after.nodes[id].bitmap.is_complete() <==> after.nodes[id].bitmap.bits.len()
        == after.nodes[id].bitmap.chunk_count && forall|i: int|
        0 <= i < after.nodes[id].bitmap.bits.len()
            ==> #[trigger] after.nodes[id].bitmap.bits[i]) by {
        lemma_all_places(after.nodes[id].bitmap.bits);
    }
    let all_set = forall|id: Seq<char>| #[trigger]
        after.nodes.contains_key(id) ==> after.nodes[id].bitmap.bits.len()
            == after.nodes[id].bitmap.chunk_count && forall|i: int|
            0 <= i < after.nodes[id].bitmap.bits.len()
                ==> #[trigger] after.nodes[id].bitmap.bits[i];
    if all_set {
        assert forall|id: Seq<char>| #[trigger] next.nodes.contains_key(id) implies next.nodes[
            id].bitmap.is_complete() by {
            assert(after.nodes.contains_key(id));
        }
    } else {
        let id = choose|id: Seq<char>| #[trigger]
            after.nodes.contains_key(id) && !(after.nodes[id].bitmap.bits.len()
                == after.nodes[id].bitmap.chunk_count && forall|i: int|
                0 <= i < after.nodes[id].bitmap.bits.len()
                    ==> #[trigger] after.nodes[id].bitmap.bits[i]);
        assert(next.nodes.contains_key(id));
        assert(!next.nodes[id].bitmap.is_complete());
    }
}

/// Requests that can be answered: all but a creation without a decoded manifest, a heartbeat
/// with more bits than fit, and a question about a chunk for which a node has no bit.
pub proof fn requests_that_are_answered(
    t: &Tracker,
    req: &Request,
    decoded: &Option<Result<Manifest, String>>,
    r: bool,
)
    requires
        call_ensures(can_answer, (t, req, decoded), r),
    ensures
        req is GetStatus || req is CancelJob || req is ListJobs ==> r,
        req is CreateJob ==> (r <==> *decoded is Some),
        req is Heartbeat ==> (r <==> 8 * req->bitmap_bytes@.len() <= usize::MAX as int / 8),
        req is GetPeers && !t@.jobs.contains_key(req->GetPeers_job_id@) ==> r,
        req is GetRarity && !t@.jobs.contains_key(req->GetRarity_job_id@) ==> r,
        req is GetPeers && t@.jobs.contains_key(req->GetPeers_job_id@) ==> (r <==> ({
            let nodes = t@.jobs[req->GetPeers_job_id@].nodes;
            forall|id: Seq<char>| #[trigger]
                nodes.contains_key(id) ==> nodes[id].node_id == req->GetPeers_node_id@
                    || req->chunk_index >= nodes[id].bitmap.chunk_count || req->chunk_index
                    < nodes[id].bitmap.bits.len()
        })),
        req is GetRarity && t@.jobs.contains_key(req->GetRarity_job_id@) ==> (r <==> ({
            let job = t@.jobs[req->GetRarity_job_id@];
            &&& job.nodes.dom().len() <= u32::MAX
            &&& forall|id: Seq<char>| #[trigger]
                job.nodes.contains_key(id) ==> job.nodes[id].bitmap.bits.len()
                    >= job.manifest.chunk_count || job.nodes[id].bitmap.bits.len()
                    >= job.nodes[id].bitmap.chunk_count
        })),
{
    if req is GetRarity && t@.jobs.contains_key(req->GetRarity_job_id@) {
        let job = t@.jobs[req->GetRarity_job_id@];
        lemma_readable(job);
    }
}

} // verus!
