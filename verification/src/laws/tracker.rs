//! Laws of the tracker: nodes, jobs, heartbeats and evictions.

use dashmap::mapref::one::Ref;
use vstd::arithmetic::power2::pow2;
use vstd::prelude::*;

use crate::error::DistError;
use crate::laws::bitmap::{counted_bits_are_places, lemma_all_places, lemma_weight};
use crate::manifest::Manifest;
use crate::metrics::{describe_metrics, Measurement, Metric};
use crate::ratio::Ratio;
use crate::tracker::job::{Job, JobStatus, JobView, SchedulingPolicy};
use crate::tracker::node::NodeState;
use crate::tracker::registry::{Heartbeat, NodeUpdate, Tracker};
use crate::tracker::scheduler::knows_sources;
use crate::tracker::server::STALE_AFTER_SECS;
use crate::tracker::tables::guarded_job;

verus! {

/// A new node holds no chunk, was just heard of, and is where it says.
pub proof fn new_node_holds_nothing(
    node_id: String,
    rack_id: String,
    peer_addr: String,
    chunk_count: u32,
    upload_bw_mbps: u64,
    now: u64,
    r: NodeState,
)
    requires
        call_ensures(
            NodeState::new,
            (node_id, rack_id, peer_addr, chunk_count, upload_bw_mbps, now),
            r,
        ),
    ensures
        r.node_id@ == node_id@,
        r.rack_id@ == rack_id@,
        r.peer_addr@ == peer_addr@,
        r.upload_bw_mbps == upload_bw_mbps,
        r.last_seen == now,
        r.bitmap@.chunk_count == chunk_count,
        r.bitmap@.bits.len() == chunk_count,
        forall|i: int| 0 <= i < chunk_count ==> !#[trigger] r.bitmap@.bits[i],
{
    assert(r@.node_id == r.node_id@);
}

/// Being heard of sets the time and changes nothing else.
pub proof fn touching_sets_the_time(n: &mut NodeState, now: u64)
    requires
        call_ensures(NodeState::touch, (n, now), ()),
    ensures
        final(n).last_seen == now,
        final(n).node_id@ == old(n).node_id@,
        final(n).rack_id@ == old(n).rack_id@,
        final(n).peer_addr@ == old(n).peer_addr@,
        final(n).upload_bw_mbps == old(n).upload_bw_mbps,
        final(n).bitmap@ == old(n).bitmap@,
{
    assert(final(n)@.last_seen == final(n).last_seen);
}

/// The silence of a node is the number of full seconds since it was heard of.
pub proof fn silence_is_full_seconds(n: &NodeState, now: u64, r: u64)
    requires
        call_ensures(NodeState::silent_secs, (n, now), r),
    ensures
        n.last_seen <= now ==> r * 1_000_000_000 <= now - n.last_seen < (r + 1) * 1_000_000_000,
        n.last_seen > now ==> r == 0,
{
}

/// A node is stale exactly when more than the timeout in full seconds has gone by since it
/// was heard of, whatever else is known of it.
pub proof fn stale_node_is_long_silent(n: &NodeState, timeout_secs: u64, now: u64, r: bool)
    requires
        call_ensures(NodeState::is_stale, (n, timeout_secs, now), r),
    ensures
        r <==> now >= n.last_seen + (timeout_secs + 1) * 1_000_000_000,
{
}

/// An eviction leaves in every job exactly the nodes that were heard of within the timeout,
/// counted in full seconds, as they were; it changes nothing else of any job.
pub proof fn eviction_goes_by_time_alone(t: &mut Tracker, timeout_secs: u64, now: u64)
    requires
        call_ensures(Tracker::evict_stale_nodes, (t, timeout_secs, now), ()),
    ensures
        final(t)@.jobs.dom() == old(t)@.jobs.dom(),
        forall|job: Seq<char>, id: Seq<char>|
            old(t)@.jobs.contains_key(job) ==> (
            #[trigger] final(t)@.jobs[job].nodes.contains_key(id)
                <==> old(t)@.jobs[job].nodes.contains_key(id) && now
                < old(t)@.jobs[job].nodes[id].last_seen + (timeout_secs + 1) * 1_000_000_000),
        forall|job: Seq<char>, id: Seq<char>|
            old(t)@.jobs.contains_key(job) && #[trigger] final(t)@.jobs[job].nodes.contains_key(id)
                ==> final(t)@.jobs[job].nodes[id] == old(t)@.jobs[job].nodes[id],
        forall|job: Seq<char>| #[trigger]
            old(t)@.jobs.contains_key(job) ==> {
                &&& final(t)@.jobs[job].job_id == old(t)@.jobs[job].job_id
                &&& final(t)@.jobs[job].manifest == old(t)@.jobs[job].manifest
                &&& final(t)@.jobs[job].policy == old(t)@.jobs[job].policy
                &&& final(t)@.jobs[job].status == old(t)@.jobs[job].status
                &&& final(t)@.jobs[job].created_at == old(t)@.jobs[job].created_at
            },
{
    assert(final(t)@.jobs.dom() =~= old(t)@.jobs.dom());
}

/// With the timeout that the tracker runs on, a node stays for a minute of silence, and up to
/// a second more; after that it goes.
pub proof fn silent_node_goes_after_a_minute(
    t: &mut Tracker,
    now: u64,
    job: Seq<char>,
    id: Seq<char>,
)
    requires
        call_ensures(Tracker::evict_stale_nodes, (t, STALE_AFTER_SECS, now), ()),
        old(t)@.jobs.contains_key(job),
        old(t)@.jobs[job].nodes.contains_key(id),
    ensures
        now >= old(t)@.jobs[job].nodes[id].last_seen + 61_000_000_000
            ==> !final(t)@.jobs[job].nodes.contains_key(id),
        now < old(t)@.jobs[job].nodes[id].last_seen + 61_000_000_000
            ==> final(t)@.jobs[job].nodes.contains_key(id),
{
    eviction_goes_by_time_alone(t, STALE_AFTER_SECS, now);
}

/// A heartbeat of a job that does not exist is refused by name and changes nothing; any other
/// is taken in.
pub proof fn heartbeat_needs_its_job(
    t: &mut Tracker,
    job_id: &str,
    node_id: String,
    rack_id: String,
    peer_addr: String,
    bitmap_bytes: &[u8],
    upload_bw_mbps: u64,
    now: u64,
    r: Result<NodeUpdate, DistError>,
)
    requires
        call_ensures(
            Tracker::update_node,
            (t, job_id, node_id, rack_id, peer_addr, bitmap_bytes, upload_bw_mbps, now),
            r,
        ),
    ensures
        r is Ok <==> old(t)@.jobs.contains_key(job_id@),
        r is Err ==> final(t)@.jobs == old(t)@.jobs && r->Err_0 is JobNotFound
            && r->Err_0->JobNotFound_0@ == job_id@,
{
}

/// A heartbeat makes the tracker know the node as it reports itself, bit for bit, and as
/// heard of now; all other nodes and all other jobs stay.
pub proof fn heartbeat_is_what_is_known(
    t: &mut Tracker,
    job_id: &str,
    node_id: String,
    rack_id: String,
    peer_addr: String,
    bitmap_bytes: &[u8],
    upload_bw_mbps: u64,
    now: u64,
    r: Result<NodeUpdate, DistError>,
)
    requires
        call_ensures(
            Tracker::update_node,
            (t, job_id, node_id, rack_id, peer_addr, bitmap_bytes, upload_bw_mbps, now),
            r,
        ),
        r is Ok,
    ensures
        final(t)@.jobs.dom() == old(t)@.jobs.dom(),
        forall|j: Seq<char>| #[trigger]
            old(t)@.jobs.contains_key(j) && j != job_id@ ==> final(t)@.jobs[j] == old(t)@.jobs[j],
        final(t)@.jobs[job_id@].job_id == old(t)@.jobs[job_id@].job_id,
        final(t)@.jobs[job_id@].manifest == old(t)@.jobs[job_id@].manifest,
        final(t)@.jobs[job_id@].policy == old(t)@.jobs[job_id@].policy,
        final(t)@.jobs[job_id@].created_at == old(t)@.jobs[job_id@].created_at,
        forall|id: Seq<char>| #[trigger]
            final(t)@.jobs[job_id@].nodes.contains_key(id) <==> id == node_id@
                || old(t)@.jobs[job_id@].nodes.contains_key(id),
        forall|id: Seq<char>| #[trigger]
            old(t)@.jobs[job_id@].nodes.contains_key(id) && id != node_id@
                ==> final(t)@.jobs[job_id@].nodes[id] == old(t)@.jobs[job_id@].nodes[id],
        ({
            let node = final(t)@.jobs[job_id@].nodes[node_id@];
            let count = old(t)@.jobs[job_id@].manifest.chunk_count;
            &&& !old(t)@.jobs[job_id@].nodes.contains_key(node_id@) ==> node.node_id == node_id@
            &&& old(t)@.jobs[job_id@].nodes.contains_key(node_id@) ==> node.node_id
                == old(t)@.jobs[job_id@].nodes[node_id@].node_id
            &&& node.rack_id == rack_id@
            &&& node.peer_addr == peer_addr@
            &&& node.upload_bw_mbps == upload_bw_mbps
            &&& node.last_seen == now
            &&& node.bitmap.chunk_count == count
            &&& node.bitmap.bits.len() == if count < 8 * bitmap_bytes@.len() {
                count as int
            } else {
                8 * bitmap_bytes@.len() as int
            }
        }),
        forall|i: int|
            0 <= i < final(t)@.jobs[job_id@].nodes[node_id@].bitmap.bits.len() ==> (
            #[trigger] final(t)@.jobs[job_id@].nodes[node_id@].bitmap.bits[i] <==> bitmap_bytes@[i
                / 8] as int / pow2((7 - i % 8) as nat) as int % 2 == 1),
{
    assert(final(t)@.jobs.dom() =~= old(t)@.jobs.dom());
    let bits = final(t)@.jobs[job_id@].nodes[node_id@].bitmap.bits;
    assert forall|i: int| 0 <= i < bits.len() implies (#[trigger] bits[i] <==> bitmap_bytes@[i
        / 8] as int / pow2((7 - i % 8) as nat) as int % 2 == 1) by {
        lemma_weight(i % 8);
    }
}

/// A heartbeat completes its job exactly when every node of the job then has the bit of every
/// chunk; it says so only the first time. Otherwise the status stays.
pub proof fn job_completes_when_all_bits_are_set(
    t: &mut Tracker,
    job_id: &str,
    node_id: String,
    rack_id: String,
    peer_addr: String,
    bitmap_bytes: &[u8],
    upload_bw_mbps: u64,
    now: u64,
    r: Result<NodeUpdate, DistError>,
)
    requires
        call_ensures(
            Tracker::update_node,
            (t, job_id, node_id, rack_id, peer_addr, bitmap_bytes, upload_bw_mbps, now),
            r,
        ),
        r is Ok,
        forall|id: Seq<char>| #[trigger]
            old(t)@.jobs[job_id@].nodes.contains_key(id)
                ==> old(t)@.jobs[job_id@].nodes[id].bitmap.bits.len()
                <= old(t)@.jobs[job_id@].nodes[id].bitmap.chunk_count,
    ensures
        ({
            let after = final(t)@.jobs[job_id@];
            let all_set = forall|id: Seq<char>| #[trigger]
                after.nodes.contains_key(id) ==> after.nodes[id].bitmap.bits.len()
                    == after.nodes[id].bitmap.chunk_count && forall|i: int|
                    0 <= i < after.nodes[id].bitmap.bits.len()
                        ==> #[trigger] after.nodes[id].bitmap.bits[i];
            &&& all_set ==> after.status is Complete
            &&& !all_set ==> after.status == old(t)@.jobs[job_id@].status
            &&& r->Ok_0.job_completed <==> all_set && !(old(t)@.jobs[job_id@].status is Complete)
        }),
{
    heartbeat_is_what_is_known(
        t,
        job_id,
        node_id,
        rack_id,
        peer_addr,
        bitmap_bytes,
        upload_bw_mbps,
        now,
        r,
    );
    let beat = Heartbeat {
        node_id: node_id@,
        rack_id: rack_id@,
        peer_addr: peer_addr@,
        bitmap_bytes: bitmap_bytes@,
        upload_bw_mbps,
        now,
    };
    let next = old(t)@.jobs[job_id@].with_heartbeat(beat);
    let after = final(t)@.jobs[job_id@];
    assert(next.nodes == after.nodes);
    assert forall|id: Seq<char>| #[trigger] after.nodes.contains_key(id) implies (
    after.nodes[id].bitmap.is_complete() <==> after.nodes[id].bitmap.bits.len()
        == after.nodes[id].bitmap.chunk_count && forall|i: int|
        0 <= i < after.nodes[id].bitmap.bits.len()
            ==> #[trigger] after.nodes[id].bitmap.bits[i]) by {
        lemma_all_places(after.nodes[id].bitmap.bits);
    }
    let all_set = forall|id: Seq<char>| #[trigger]
        after.nodes.contains_key(id) ==> after.nodes[id].bitmap.bits.len()
            == after.nodes[id].bitmap.chunk_count && forall|i: int|
            0 <= i < after.nodes[id].bitmap.bits.len()
                ==> #[trigger] after.nodes[id].bitmap.bits[i];
    if all_set {
        assert forall|id: Seq<char>| #[trigger] next.nodes.contains_key(id) implies next.nodes[
            id].bitmap.is_complete() by {
            assert(after.nodes.contains_key(id));
        }
    } else {
        let id = choose|id: Seq<char>| #[trigger]
            after.nodes.contains_key(id) && !(after.nodes[id].bitmap.bits.len()
                == after.nodes[id].bitmap.chunk_count && forall|i: int|
                0 <= i < after.nodes[id].bitmap.bits.len()
                    ==> #[trigger] after.nodes[id].bitmap.bits[i]);
        assert(next.nodes.contains_key(id));
        assert(!next.nodes[id].bitmap.is_complete());
    }
}

/// The completion that a heartbeat reports is the share of the chunks whose bits the node has
/// set.
pub proof fn reported_completion_is_share_of_bits(
    t: &mut Tracker,
    job_id: &str,
    node_id: String,
    rack_id: String,
    peer_addr: String,
    bitmap_bytes: &[u8],
    upload_bw_mbps: u64,
    now: u64,
    r: Result<NodeUpdate, DistError>,
)
    requires
        call_ensures(
            Tracker::update_node,
            (t, job_id, node_id, rack_id, peer_addr, bitmap_bytes, upload_bw_mbps, now),
            r,
        ),
        r is Ok,
    ensures
        ({
            let bits = final(t)@.jobs[job_id@].nodes[node_id@].bitmap.bits;
            let count = old(t)@.jobs[job_id@].manifest.chunk_count;
            let ratio = r->Ok_0.completion;
            &&& ratio.den > 0
            &&& count == 0 ==> ratio.num == ratio.den
            &&& count > 0 ==> ratio.num * count == Set::new(
                |i: int| 0 <= i < bits.len() && bits[i],
            ).len() * ratio.den
        }),
{
    let bits = final(t)@.jobs[job_id@].nodes[node_id@].bitmap.bits;
    counted_bits_are_places(bits);
    lemma_all_places(bits);
}

/// A job that is added stands under its own id, as it is; all other jobs stay.
pub proof fn added_job_is_there(t: &mut Tracker, job: Job, r: String)
    requires
        call_ensures(Tracker::add_job, (t, job), r),
    ensures
        r@ == job.job_id@,
        final(t)@.jobs == old(t)@.jobs.insert(job.job_id@, job@),
{
}

/// A job that is created runs, has the manifest, the policy and the time that it was given and
/// no nodes, and stands under the id that is returned; all other jobs stay.
pub proof fn created_job_runs_without_nodes(
    t: &mut Tracker,
    manifest: Manifest,
    policy: SchedulingPolicy,
    created_at: u64,
    r: String,
)
    requires
        call_ensures(Tracker::create_job, (t, manifest, policy, created_at), r),
    ensures
        final(t)@.jobs.contains_key(r@),
        final(t)@.jobs[r@].job_id == r@,
        final(t)@.jobs[r@].manifest == manifest@,
        final(t)@.jobs[r@].policy == policy,
        final(t)@.jobs[r@].status is Running,
        final(t)@.jobs[r@].created_at == created_at,
        forall|id: Seq<char>| !#[trigger] final(t)@.jobs[r@].nodes.contains_key(id),
        forall|j: Seq<char>|
            j != r@ ==> (#[trigger] final(t)@.jobs.contains_key(j)
                <==> old(t)@.jobs.contains_key(j)),
        forall|j: Seq<char>|
            j != r@ && #[trigger] old(t)@.jobs.contains_key(j) ==> final(t)@.jobs[j]
                == old(t)@.jobs[j],
        r@.len() == 36,
{
}

/// A job under a given id: as above.
pub proof fn new_job_runs_without_nodes(
    job_id: String,
    manifest: Manifest,
    policy: SchedulingPolicy,
    created_at: u64,
    r: Job,
)
    requires
        call_ensures(Job::with_id, (job_id, manifest, policy, created_at), r),
    ensures
        r.job_id@ == job_id@,
        r.manifest@ == manifest@,
        r.policy == policy,
        r.status is Running,
        r.created_at == created_at,
        forall|id: Seq<char>| !#[trigger] r@.nodes.contains_key(id),
{
    assert(r@.job_id == r.job_id@);
}

/// Cancelling marks one job and changes nothing else; a job that does not exist is refused by
/// name.
pub proof fn cancelling_marks_one_job(t: &mut Tracker, job_id: &str, r: Result<(), DistError>)
    requires
        call_ensures(Tracker::cancel_job, (t, job_id), r),
    ensures
        r is Ok <==> old(t)@.jobs.contains_key(job_id@),
        r is Err ==> final(t)@.jobs == old(t)@.jobs && r->Err_0 is JobNotFound
            && r->Err_0->JobNotFound_0@ == job_id@,
        r is Ok ==> {
            &&& final(t)@.jobs.dom() == old(t)@.jobs.dom()
            &&& final(t)@.jobs[job_id@].status is Cancelled
            &&& final(t)@.jobs[job_id@].job_id == old(t)@.jobs[job_id@].job_id
            &&& final(t)@.jobs[job_id@].manifest == old(t)@.jobs[job_id@].manifest
            &&& final(t)@.jobs[job_id@].policy == old(t)@.jobs[job_id@].policy
            &&& final(t)@.jobs[job_id@].created_at == old(t)@.jobs[job_id@].created_at
            &&& final(t)@.jobs[job_id@].nodes == old(t)@.jobs[job_id@].nodes
        },
        forall|j: Seq<char>|
            j != job_id@ && #[trigger] old(t)@.jobs.contains_key(j) ==> final(t)@.jobs[j]
                == old(t)@.jobs[j],
{
    if r is Ok {
        assert(final(t)@.jobs.dom() =~= old(t)@.jobs.dom());
    }
}

/// The policies are known by two names, and by no other.
pub proof fn policy_has_its_name(s: &str, r: Result<SchedulingPolicy, DistError>)
    requires
        call_ensures(SchedulingPolicy::from_str, (s,), r),
    ensures
        s@ == "rarity-first"@ ==> r == Ok::<SchedulingPolicy, DistError>(
            SchedulingPolicy::RarityFirst,
        ),
        s@ == "topology-aware"@ ==> r == Ok::<SchedulingPolicy, DistError>(
            SchedulingPolicy::TopologyAware,
        ),
        s@ != "rarity-first"@ && s@ != "topology-aware"@ ==> r is Err && r->Err_0 is Proto
            && r->Err_0->Proto_0@ == "unknown policy: "@ + s@,
{
    reveal_strlit("rarity-first");
    reveal_strlit("topology-aware");
    assert("rarity-first"@.len() != "topology-aware"@.len());
}

/// Policies and states are shown by the names of their variants.
pub proof fn names_are_those_of_variants(
    policy: &SchedulingPolicy,
    p: String,
    status: &JobStatus,
    s: String,
)
    requires
        call_ensures(SchedulingPolicy::name, (policy,), p),
        call_ensures(JobStatus::name, (status,), s),
    ensures
        policy is RarityFirst ==> p@ == "RarityFirst"@,
        policy is TopologyAware ==> p@ == "TopologyAware"@,
        status is Running ==> s@ == "Running"@,
        status is Complete ==> s@ == "Complete"@,
        status is Cancelled ==> s@ == "Cancelled"@,
{
}

/// Every measurement belongs to the metric that is described for it.
pub proof fn measurement_has_its_metric(m: &Measurement, r: &'static str)
    requires
        call_ensures(Measurement::metric, (m,), r),
    ensures
        m is JobCreated ==> r@ == "tracker_jobs_created_total"@,
        m is JobComplete ==> r@ == "tracker_jobs_complete_total"@,
        m is PeerQuery ==> r@ == "tracker_peer_queries_total"@,
        m is NodeCompletion ==> r@ == "node_completion_ratio"@,
        m is ChunkReceived ==> r@ == "peer_chunks_received_total"@,
        m is ChunkServed ==> r@ == "peer_chunks_served_total"@,
{
}

/// The share of the nodes of a job that have the bit of every chunk.
pub proof fn job_ratio_counts_full_nodes(job: &Job, r: Ratio)
    requires
        call_ensures(Job::completion_ratio, (job,), r),
        job@.nodes.dom().finite(),
        job@.nodes.dom().len() <= u64::MAX,
        forall|id: Seq<char>| #[trigger]
            job@.nodes.contains_key(id) ==> job@.nodes[id].bitmap.bits.len()
                <= job@.nodes[id].bitmap.chunk_count,
    ensures
        r.den > 0,
        job@.nodes.dom().len() == 0 ==> r.num == 0,
        r.num * job@.nodes.dom().len() == job@.nodes.dom().filter(
            |id: Seq<char>|
                job@.nodes[id].bitmap.bits.len() == job@.nodes[id].bitmap.chunk_count && forall|
                    i: int,
                |
                    0 <= i < job@.nodes[id].bitmap.bits.len()
                        ==> #[trigger] job@.nodes[id].bitmap.bits[i],
        ).len() * r.den,
{
    let full = job@.nodes.dom().filter(
        |id: Seq<char>|
            job@.nodes[id].bitmap.bits.len() == job@.nodes[id].bitmap.chunk_count && forall|
                i: int,
            |
                0 <= i < job@.nodes[id].bitmap.bits.len()
                    ==> #[trigger] job@.nodes[id].bitmap.bits[i],
    );
    assert forall|id: Seq<char>| #[trigger] full.contains(id) <==> job@.finished().contains(id) by {
        if job@.nodes.contains_key(id) {
            lemma_all_places(job@.nodes[id].bitmap.bits);
        }
    }
    assert(full =~= job@.finished());
    vstd::set_lib::lemma_len_subset(full, job@.nodes.dom());
    if job@.nodes.dom().len() == 0 {
        assert(full =~= Set::empty());
    }
}

/// The replica count of a chunk is the number of nodes that have its bit.
pub proof fn replicas_are_nodes_with_the_bit(job: &Job, r: Vec<u32>)
    requires
        call_ensures(Job::replica_counts, (job,), r),
    ensures
        r@.len() == job@.manifest.chunk_count,
        forall|c: u32|
            c < r@.len() ==> #[trigger] r@[c as int] == job@.nodes.dom().filter(
                |id: Seq<char>|
                    c < job@.nodes[id].bitmap.chunk_count && job@.nodes[id].bitmap.bits[c as int],
            ).len(),
{
    assert forall|c: u32| c < r@.len() implies #[trigger] r@[c as int] == job@.nodes.dom().filter(
        |id: Seq<char>|
            c < job@.nodes[id].bitmap.chunk_count && job@.nodes[id].bitmap.bits[c as int],
    ).len() by {
        assert(job@.holders(c) =~= job@.nodes.dom().filter(
            |id: Seq<char>|
                c < job@.nodes[id].bitmap.chunk_count && job@.nodes[id].bitmap.bits[c as int],
        ));
    }
}

/// A job is finished exactly when each of its nodes has the bit of every chunk.
pub proof fn finished_job_has_all_bits(job: &Job, r: bool)
    requires
        call_ensures(Job::is_finished, (job,), r),
        forall|id: Seq<char>| #[trigger]
            job@.nodes.contains_key(id) ==> job@.nodes[id].bitmap.bits.len()
                <= job@.nodes[id].bitmap.chunk_count,
    ensures
        r <==> forall|id: Seq<char>| #[trigger]
            job@.nodes.contains_key(id) ==> job@.nodes[id].bitmap.bits.len()
                == job@.nodes[id].bitmap.chunk_count && forall|i: int|
                0 <= i < job@.nodes[id].bitmap.bits.len()
                    ==> #[trigger] job@.nodes[id].bitmap.bits[i],
{
    assert forall|id: Seq<char>| #[trigger] job@.nodes.contains_key(id) implies (
    job@.nodes[id].bitmap.is_complete() <==> job@.nodes[id].bitmap.bits.len()
        == job@.nodes[id].bitmap.chunk_count && forall|i: int|
        0 <= i < job@.nodes[id].bitmap.bits.len()
            ==> #[trigger] job@.nodes[id].bitmap.bits[i]) by {
        lemma_all_places(job@.nodes[id].bitmap.bits);
    }
}

/// The number of nodes of a job.
pub proof fn nodes_are_counted(job: &Job, r: usize)
    requires
        call_ensures(Job::node_total, (job,), r),
    ensures
        r == job@.nodes.dom().len(),
{
}

/// Every node has a bit for each chunk that it can be asked for.
pub proof fn lemma_readable(job: JobView)
    ensures
        job.readable() <==> forall|id: Seq<char>| #[trigger]
            job.nodes.contains_key(id) ==> job.nodes[id].bitmap.bits.len()
                >= job.manifest.chunk_count || job.nodes[id].bitmap.bits.len()
                >= job.nodes[id].bitmap.chunk_count,
{
    let nodes = job.nodes;
    if job.readable() {
        assert forall|id: Seq<char>| #[trigger] nodes.contains_key(id) implies nodes[
            id].bitmap.bits.len() >= job.manifest.chunk_count || nodes[id].bitmap.bits.len()
            >= nodes[id].bitmap.chunk_count by {
            let len = nodes[id].bitmap.bits.len();
            if len < job.manifest.chunk_count && len < nodes[id].bitmap.chunk_count {
                assert(nodes[id].bitmap.covers(len as u32));
            }
        }
    } else {
        let (id, c) = choose|id: Seq<char>, c: u32|
            nodes.contains_key(id) && c < job.manifest.chunk_count
                && !#[trigger] nodes[id].bitmap.covers(c);
        assert(nodes.contains_key(id));
    }
}

/// A job is readable exactly when no node is asked for a bit that it does not have.
pub proof fn readable_job_has_bits_to_ask_for(job: &Job, r: bool)
    requires
        call_ensures(Job::is_readable, (job,), r),
    ensures
        r <==> forall|id: Seq<char>| #[trigger]
            job@.nodes.contains_key(id) ==> job@.nodes[id].bitmap.bits.len()
                >= job@.manifest.chunk_count || job@.nodes[id].bitmap.bits.len()
                >= job@.nodes[id].bitmap.chunk_count,
{
    lemma_readable(job@);
}

/// The sources of a chunk are known exactly when every node but the requester has a bit for
/// the chunk, or is of a file without it.
pub proof fn known_sources_have_the_bit(job: &Job, requester_id: &str, c: u32, r: bool)
    requires
        call_ensures(knows_sources, (job, requester_id, c), r),
    ensures
        r <==> forall|id: Seq<char>| #[trigger]
            job@.nodes.contains_key(id) ==> job@.nodes[id].node_id == requester_id@ || c
                >= job@.nodes[id].bitmap.chunk_count || c < job@.nodes[id].bitmap.bits.len(),
{
}

/// A new tracker has no jobs.
pub proof fn new_tracker_has_no_jobs(t: Tracker)
    requires
        call_ensures(Tracker::new, (), t),
    ensures
        forall|j: Seq<char>| !#[trigger] t@.jobs.contains_key(j),
{
}

/// A new job has a random id of 36 characters, and otherwise what it was given.
pub proof fn new_job_has_random_id(
    manifest: Manifest,
    policy: SchedulingPolicy,
    created_at: u64,
    r: Job,
)
    requires
        call_ensures(Job::new, (manifest, policy, created_at), r),
    ensures
        r.job_id@.len() == 36,
        r.manifest@ == manifest@,
        r.policy == policy,
        r.status is Running,
        r.created_at == created_at,
        forall|id: Seq<char>| !#[trigger] r@.nodes.contains_key(id),
{
    assert(r@.job_id == r.job_id@);
}

/// What is measured is described: the metric of every measurement is in the list, once, as a
/// gauge if it is the completion of a node and as a counter otherwise.
pub proof fn every_measurement_is_described(m: &Measurement, name: &'static str, list: Vec<Metric>)
    requires
        call_ensures(Measurement::metric, (m,), name),
        call_ensures(describe_metrics, (), list),
    ensures
        exists|i: int|
            0 <= i < list@.len() && (#[trigger] list@[i]).name@ == name@ && (list@[i].kind is Gauge
                <==> m is NodeCompletion),
        list@.len() == 6,
{
    if m is JobCreated {
        assert(list@[0].name@ == name@);
    } else if m is JobComplete {
        assert(list@[1].name@ == name@);
    } else if m is PeerQuery {
        assert(list@[2].name@ == name@);
    } else if m is ChunkReceived {
        assert(list@[3].name@ == name@);
    } else if m is ChunkServed {
        assert(list@[4].name@ == name@);
    } else {
        assert(list@[5].name@ == name@);
    }
}

/// A job is found by its id, as it is, and not found exactly if there is none; the error names
/// it.
pub proof fn job_is_found_by_id<'a>(
    t: &'a Tracker,
    job_id: &str,
    r: Result<Ref<'a, String, Job>, DistError>,
)
    requires
        call_ensures(Tracker::get_job, (t, job_id), r),
    ensures
        r is Ok <==> t@.jobs.contains_key(job_id@),
        r is Ok ==> guarded_job(r->Ok_0) == t@.jobs[job_id@],
        r is Err ==> r->Err_0 is JobNotFound && r->Err_0->JobNotFound_0@ == job_id@,
{
}

} // verus!
