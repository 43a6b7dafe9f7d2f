//! The tracker itself: all jobs, and what the nodes report.

use dashmap::mapref::one::Ref;
use dashmap::DashMap;
use vstd::prelude::*;

use crate::bitmap::{bitmap_round_trip, received_bitmap, BitmapView, ChunkBitmap};
use crate::bits::{max_bits, unpacked};
use crate::error::DistError;
use crate::ids::is_random_id;
use crate::manifest::{texts, Manifest};
use crate::ratio::Ratio;
use crate::tracker::job::{
    new_job, shows_job, Job, JobSnapshot, JobStatus, JobView, SchedulingPolicy,
};
use crate::tracker::node::{touched_node_is_not_stale, NodeState, NodeView};
use crate::tracker::scheduler::{
    cost_for, offers, peers_of, rarity_first, sources, sources_known,
    topology_aware, CandidatePeer, PeerView,
};
use crate::tracker::tables::{
    drop_stale_nodes, find_job, find_node, fresh_nodes, guarded_job, guarded_job_value,
    guarded_node_value, job_keys, job_table, lists_keys, no_jobs, put_job, put_node, take_job,
};

verus! {

/// The central control-plane service. It holds all job and node state, and never touches
/// chunk data.
pub struct Tracker {
    jobs: DashMap<String, Job>,
}

/// The content of the tracker: the jobs, by job id.
#[verifier::ext_equal]
pub struct TrackerView {
    pub jobs: Map<Seq<char>, JobView>,
}

impl View for Tracker {
    type V = TrackerView;

    closed spec fn view(&self) -> TrackerView {
        TrackerView { jobs: job_table(self.jobs) }
    }
}

/// What a heartbeat brought: the completion of the node that sent it, and whether it was the
/// last one that the job was waiting for.
#[derive(Debug, Clone, Copy, PartialEq, Eq, Structural)]
pub struct NodeUpdate {
    pub completion: Ratio,
    pub job_completed: bool,
}

/// A heartbeat of a node.
#[verifier::ext_equal]
pub struct Heartbeat {
    pub node_id: Seq<char>,
    pub rack_id: Seq<char>,
    pub peer_addr: Seq<char>,
    pub bitmap_bytes: Seq<u8>,
    pub upload_bw_mbps: u64,
    pub now: u64,
}

impl JobView {
    /// The state of the node that sent a heartbeat: what the heartbeat says. A node that was
    /// there before keeps the id it had.
    pub open spec fn node_after(self, beat: Heartbeat) -> NodeView {
        NodeView {
            node_id: if self.nodes.contains_key(beat.node_id) {
                self.nodes[beat.node_id].node_id
            } else {
                beat.node_id
            },
            rack_id: beat.rack_id,
            peer_addr: beat.peer_addr,
            bitmap: received_bitmap(beat.bitmap_bytes, self.manifest.chunk_count),
            upload_bw_mbps: beat.upload_bw_mbps,
            last_seen: beat.now,
        }
    }

    /// The job with the state of the node that sent a heartbeat.
    pub open spec fn with_heartbeat(self, beat: Heartbeat) -> JobView {
        JobView { nodes: self.nodes.insert(beat.node_id, self.node_after(beat)), ..self }
    }

    /// The job after a heartbeat: complete, if all nodes now hold all chunks.
    pub open spec fn after_heartbeat(self, beat: Heartbeat) -> JobView {
        let next = self.with_heartbeat(beat);
        if next.all_finished() {
            JobView { status: JobStatus::Complete, ..next }
        } else {
            next
        }
    }

    /// The job after it was cancelled.
    pub open spec fn cancelled(self) -> JobView {
        JobView { status: JobStatus::Cancelled, ..self }
    }

    /// The job without its stale nodes.
    pub open spec fn evicted(self, timeout_secs: u64, now: u64) -> JobView {
        JobView { nodes: fresh_nodes(self.nodes, timeout_secs, now), ..self }
    }

    /// `list` is what the job's policy offers for a chunk.
    pub open spec fn offered(
        self,
        list: Seq<PeerView>,
        requester: Seq<char>,
        rack: Seq<char>,
        index: u32,
        top_n: int,
    ) -> bool {
        let from = sources(self, requester, index);
        match self.policy {
            SchedulingPolicy::RarityFirst => offers(
                list,
                self,
                from,
                cost_for(None),
                top_n,
            ),
            SchedulingPolicy::TopologyAware => offers(
                list,
                self,
                from,
                cost_for(Some(rack)),
                top_n,
            ),
        }
    }
}

impl TrackerView {
    /// The tracker with a job in it, in place of the one that may have had the id.
    pub open spec fn with_job(self, job_id: Seq<char>, job: JobView) -> TrackerView {
        TrackerView { jobs: self.jobs.insert(job_id, job) }
    }

    /// The tracker without the stale nodes of all jobs.
    pub open spec fn evicted(self, timeout_secs: u64, now: u64) -> TrackerView {
        TrackerView { jobs: self.jobs.map_values(|j: JobView| j.evicted(timeout_secs, now)) }
    }
}

/// The error says that there is no such job.
pub open spec fn job_not_found(e: DistError, job_id: Seq<char>) -> bool {
    e matches DistError::JobNotFound(id) && id@ == job_id
}

impl Tracker {
    /// A tracker without jobs.
    pub fn new() -> (r: Self)
        ensures
            r@.jobs == Map::<Seq<char>, JobView>::empty(),
    {
        let r = Tracker { jobs: no_jobs() };
        assert(r@.jobs =~= Map::<Seq<char>, JobView>::empty());
        r
    }

    /// Adds a job under its own id, which is returned.
    pub fn add_job(&mut self, job: Job) -> (job_id: String)
        ensures
            job_id@ == job@.job_id,
            final(self)@ == old(self)@.with_job(job@.job_id, job@),
    {
        let job_id = job.job_id.clone();
        put_job(&mut self.jobs, job.job_id.clone(), job);
        job_id
    }

    /// Creates a job under a random id, which is returned.
    pub fn create_job(
        &mut self,
        manifest: Manifest,
        policy: SchedulingPolicy,
        created_at: u64,
    ) -> (job_id: String)
        ensures
            is_random_id(job_id@),
            final(self)@ == old(self)@.with_job(
                job_id@,
                new_job(job_id@, manifest@, policy, created_at),
            ),
    {
        let job = Job::new(manifest, policy, created_at);
        self.add_job(job)
    }

    /// Finds a job.
    pub fn get_job(&self, job_id: &str) -> (r: Result<Ref<'_, String, Job>, DistError>)
        ensures
            match r {
                Ok(guard) => self@.jobs.contains_key(job_id@) && guarded_job(guard)
                    == self@.jobs[job_id@],
                Err(e) => !self@.jobs.contains_key(job_id@) && job_not_found(e, job_id@),
            },
    {
        match find_job(&self.jobs, job_id) {
            Some(guard) => Ok(guard),
            None => Err(DistError::JobNotFound(job_id.to_owned())),
        }
    }

    /// Cancels a job.
    pub fn cancel_job(&mut self, job_id: &str) -> (r: Result<(), DistError>)
        ensures
            match r {
                Ok(()) => {
                    &&& old(self)@.jobs.contains_key(job_id@)
                    &&& final(self)@ == old(self)@.with_job(
                        job_id@,
                        old(self)@.jobs[job_id@].cancelled(),
                    )
                },
                Err(e) => {
                    &&& !old(self)@.jobs.contains_key(job_id@)
                    &&& job_not_found(e, job_id@)
                    &&& final(self)@ == old(self)@
                },
            },
    {
        match take_job(&mut self.jobs, job_id) {
            Some((key, mut job)) => {
                job.status = JobStatus::Cancelled;
                put_job(&mut self.jobs, key, job);
                assert(self@ =~= old(self)@.with_job(
                    job_id@,
                    old(self)@.jobs[job_id@].cancelled(),
                ));
                Ok(())
            },
            None => {
                assert(self@ =~= old(self)@);
                Err(DistError::JobNotFound(job_id.to_owned()))
            },
        }
    }

    /// Takes in the heartbeat of a node: its bitmap, its bandwidth, and where it is. The job is
    /// complete once all its nodes hold all chunks.
    pub fn update_node(
        &mut self,
        job_id: &str,
        node_id: String,
        rack_id: String,
        peer_addr: String,
        bitmap_bytes: &[u8],
        upload_bw_mbps: u64,
        now: u64,
    ) -> (r: Result<NodeUpdate, DistError>)
        requires
            8 * bitmap_bytes@.len() <= max_bits(),
        ensures
            ({
                let beat = Heartbeat {
                    node_id: node_id@,
                    rack_id: rack_id@,
                    peer_addr: peer_addr@,
                    bitmap_bytes: bitmap_bytes@,
                    upload_bw_mbps,
                    now,
                };
                let before = old(self)@.jobs[job_id@];
                match r {
                    Ok(update) => {
                        &&& old(self)@.jobs.contains_key(job_id@)
                        &&& final(self)@ == old(self)@.with_job(
                            job_id@,
                            before.after_heartbeat(beat),
                        )
                        &&& update.completion == before.node_after(beat).bitmap.ratio()
                        &&& update.job_completed == (before.with_heartbeat(beat).all_finished()
                            && before.status != JobStatus::Complete)
                    },
                    Err(e) => {
                        &&& !old(self)@.jobs.contains_key(job_id@)
                        &&& job_not_found(e, job_id@)
                        &&& final(self)@ == old(self)@
                    },
                }
            }),
    {
        let ghost beat = Heartbeat {
            node_id: node_id@,
            rack_id: rack_id@,
            peer_addr: peer_addr@,
            bitmap_bytes: bitmap_bytes@,
            upload_bw_mbps,
            now,
        };
        match take_job(&mut self.jobs, job_id) {
            Some((key, mut job)) => {
                let ghost before = job@;
                let known_as = match find_node(&job.nodes, node_id.as_str()) {
                    Some(guard) => guarded_node_value(&guard).node_id.clone(),
                    None => node_id.clone(),
                };
                let bitmap = ChunkBitmap::from_bytes(bitmap_bytes, job.manifest.chunk_count);
                let completion = bitmap.completion_ratio();
                let mut node = NodeState {
                    node_id: known_as,
                    rack_id,
                    peer_addr,
                    bitmap,
                    upload_bw_mbps,
                    last_seen: 0,
                };
                node.touch(now);
                assert(node@ =~= before.node_after(beat));
                put_node(&mut job.nodes, node_id, node);
                assert(job@ =~= before.with_heartbeat(beat));
                let mut job_completed = false;
                if job.is_finished() {
                    job_completed = job.status != JobStatus::Complete;
                    job.status = JobStatus::Complete;
                }
                assert(job@ =~= before.after_heartbeat(beat));
                put_job(&mut self.jobs, key, job);
                assert(self@ =~= old(self)@.with_job(job_id@, before.after_heartbeat(beat)));
                Ok(NodeUpdate { completion, job_completed })
            },
            None => {
                assert(self@ =~= old(self)@);
                Err(DistError::JobNotFound(job_id.to_owned()))
            },
        }
    }

    /// The best `top_n` peers that a node can fetch a chunk from, by the policy of the job.
    pub fn get_peers(
        &self,
        job_id: &str,
        requester_id: &str,
        requester_rack: &str,
        chunk_index: u32,
        top_n: usize,
    ) -> (r: Result<Vec<CandidatePeer>, DistError>)
        requires
            self@.jobs.contains_key(job_id@) ==> sources_known(
                self@.jobs[job_id@],
                requester_id@,
                chunk_index,
            ),
        ensures
            match r {
                Ok(peers) => {
                    &&& self@.jobs.contains_key(job_id@)
                    &&& self@.jobs[job_id@].offered(
                        peers_of(peers@),
                        requester_id@,
                        requester_rack@,
                        chunk_index,
                        top_n as int,
                    )
                },
                Err(e) => !self@.jobs.contains_key(job_id@) && job_not_found(e, job_id@),
            },
    {
        let guard = match self.get_job(job_id) {
            Ok(guard) => guard,
            Err(e) => return Err(e),
        };
        let job = guarded_job_value(&guard);
        let peers = match job.policy {
            SchedulingPolicy::RarityFirst => rarity_first(job, requester_id, chunk_index, top_n),
            SchedulingPolicy::TopologyAware => topology_aware(
                job,
                requester_id,
                requester_rack,
                chunk_index,
                top_n,
            ),
        };
        Ok(peers)
    }

    /// Drops from all jobs the nodes that have not been heard of for more than
    /// `timeout_secs` whole seconds.
    pub fn evict_stale_nodes(&mut self, timeout_secs: u64, now: u64)
        ensures
            final(self)@ == old(self)@.evicted(timeout_secs, now),
    {
        let keys = job_keys(&self.jobs);
        let ghost ids = texts(keys@);
        let ghost start = self@;
        let mut k: usize = 0;
        while k < keys.len()
            invariant
                k <= keys@.len(),
                ids == texts(keys@),
                lists_keys(ids, start.jobs.dom()),
                self@.jobs.dom() == start.jobs.dom(),
                forall|p: int|
                    0 <= p < k ==> self@.jobs[#[trigger] ids[p]] == start.jobs[ids[p]].evicted(
                        timeout_secs,
                        now,
                    ),
                forall|p: int|
                    k <= p < ids.len() ==> self@.jobs[#[trigger] ids[p]] == start.jobs[ids[p]],
            decreases keys@.len() - k,
        {
            let ghost before = self@;
            assert(ids.to_set().contains(ids[k as int]));
            assert(before.jobs.contains_key(ids[k as int]));
            if let Some((key, mut job)) = take_job(&mut self.jobs, keys[k].as_str()) {
                let ghost was = job@;
                drop_stale_nodes(&mut job.nodes, timeout_secs, now);
                assert(job@ =~= was.evicted(timeout_secs, now));
                put_job(&mut self.jobs, key, job);
                assert(self@.jobs =~= before.jobs.insert(ids[k as int], job@));
            }
            k = k + 1;
        }
        assert(self@.jobs =~= start.evicted(timeout_secs, now).jobs) by {
            assert forall|id: Seq<char>| #[trigger] self@.jobs.contains_key(id) implies self@.jobs[
                id] == start.jobs[id].evicted(timeout_secs, now) by {
                assert(ids.to_set().contains(id));
                let p = choose|p: int| 0 <= p < ids.len() && ids[p] == id;
                assert(self@.jobs[ids[p]] == start.jobs[ids[p]].evicted(timeout_secs, now));
            }
        }
    }

    /// Views of all jobs, for display. In which order they come is left open.
    pub fn all_job_snapshots(&self, now: u64) -> (r: Vec<JobSnapshot>)
        ensures
            shows_all_jobs(r@, self@, now),
    {
        let keys = job_keys(&self.jobs);
        let ghost ids = texts(keys@);
        let mut out: Vec<JobSnapshot> = Vec::new();
        let mut k: usize = 0;
        while k < keys.len()
            invariant
                k <= keys@.len(),
                ids == texts(keys@),
                lists_keys(ids, self@.jobs.dom()),
                out@.len() == k,
                forall|p: int|
                    0 <= p < k ==> shows_job(#[trigger] out@[p], self@.jobs[ids[p]], now),
            decreases keys@.len() - k,
        {
            assert(ids.to_set().contains(ids[k as int]));
            if let Some(guard) = find_job(&self.jobs, keys[k].as_str()) {
                out.push(guarded_job_value(&guard).snapshot(now));
            }
            k = k + 1;
        }
        assert(shows_jobs_in_order(out@, self@, now, ids));
        out
    }
}

/// `list` shows the jobs of the tracker, in the order of `ids`.
pub open spec fn shows_jobs_in_order(
    list: Seq<JobSnapshot>,
    tracker: TrackerView,
    now: u64,
    ids: Seq<Seq<char>>,
) -> bool {
    &&& lists_keys(ids, tracker.jobs.dom())
    &&& list.len() == ids.len()
    &&& forall|i: int|
        0 <= i < ids.len() ==> shows_job(#[trigger] list[i], tracker.jobs[ids[i]], now)
}

/// `list` shows every job of the tracker once.
pub open spec fn shows_all_jobs(list: Seq<JobSnapshot>, tracker: TrackerView, now: u64) -> bool {
    exists|ids: Seq<Seq<char>>| #[trigger] shows_jobs_in_order(list, tracker, now, ids)
}

/// A heartbeat touches nothing but the node that sent it and the status of its job: all
/// other nodes and all other jobs stay as they were.
pub proof fn heartbeat_touches_one_node(
    tracker: TrackerView,
    job_id: Seq<char>,
    beat: Heartbeat,
    other_job: Seq<char>,
    other_node: Seq<char>,
)
    requires
        tracker.jobs.contains_key(job_id),
        other_job != job_id,
        other_node != beat.node_id,
    ensures
        ({
            let before = tracker.jobs[job_id];
            let after = before.after_heartbeat(beat);
            let next = tracker.with_job(job_id, after);
            &&& next.jobs.contains_key(other_job) == tracker.jobs.contains_key(other_job)
            &&& tracker.jobs.contains_key(other_job) ==> next.jobs[other_job]
                == tracker.jobs[other_job]
            &&& after.nodes.contains_key(other_node) == before.nodes.contains_key(other_node)
            &&& before.nodes.contains_key(other_node) ==> after.nodes[other_node]
                == before.nodes[other_node]
            &&& after.manifest == before.manifest
            &&& after.policy == before.policy
            &&& after.job_id == before.job_id
        }),
{
}

/// The tracker knows a node by what the node knows of itself: after a heartbeat with the
/// bytes of a bitmap that has a bit for each chunk of the job, it holds that bitmap.
pub proof fn heartbeat_carries_bitmap(job: JobView, beat: Heartbeat, sent: BitmapView)
    requires
        sent.full_length(),
        sent.chunk_count == job.manifest.chunk_count,
        beat.bitmap_bytes.len() == (sent.bits.len() + 7) / 8,
        unpacked(beat.bitmap_bytes).take(sent.bits.len() as int) == sent.bits,
    ensures
        job.after_heartbeat(beat).nodes[beat.node_id].bitmap == sent,
{
    bitmap_round_trip(sent, beat.bitmap_bytes);
}

/// A chunk that a node has reported can be fetched from it by every other node.
pub proof fn reported_chunk_is_available(
    job: JobView,
    beat: Heartbeat,
    requester: Seq<char>,
    index: u32,
)
    requires
        job.node_after(beat).bitmap.holds(index),
        job.node_after(beat).node_id != requester,
    ensures
        sources(job.after_heartbeat(beat), requester, index).contains(beat.node_id),
{
}

/// A job becomes complete by a heartbeat exactly when all nodes then hold all chunks;
/// otherwise its status stays.
pub proof fn job_completes_with_its_nodes(job: JobView, beat: Heartbeat)
    ensures
        ({
            let after = job.after_heartbeat(beat);
            if after.all_finished() {
                after.status == JobStatus::Complete
            } else {
                after.status == job.status
            }
        }),
        job.status == JobStatus::Complete ==> job.after_heartbeat(beat).status
            == JobStatus::Complete,
{
    let next = job.with_heartbeat(beat);
    let after = job.after_heartbeat(beat);
    assert(after.nodes == next.nodes);
    if after.all_finished() {
        assert(next.all_finished()) by {
            assert forall|id: Seq<char>| #[trigger] next.nodes.contains_key(id) implies next.nodes[
                id].bitmap.is_complete() by {
                assert(after.nodes.contains_key(id));
            }
        }
    } else {
        assert(!next.all_finished()) by {
            let id = choose|id: Seq<char>| #[trigger]
                after.nodes.contains_key(id) && !after.nodes[id].bitmap.is_complete();
            assert(next.nodes.contains_key(id));
        }
    }
}

/// The same heartbeat twice does no more than once.
pub proof fn repeated_heartbeat_changes_nothing(job: JobView, beat: Heartbeat)
    ensures
        job.after_heartbeat(beat).after_heartbeat(beat) == job.after_heartbeat(beat),
{
    let once = job.after_heartbeat(beat);
    let twice = once.after_heartbeat(beat);
    assert(once.with_heartbeat(beat).nodes =~= once.nodes);
    assert(once.with_heartbeat(beat) =~= once);
    job_completes_with_its_nodes(job, beat);
    assert(twice =~= once);
}

/// As long as the nodes send at least one bit per chunk, the bitmaps of a job answer for every
/// chunk of the file.
pub proof fn full_heartbeats_keep_job_readable(job: JobView, beat: Heartbeat)
    requires
        job.readable(),
        8 * beat.bitmap_bytes.len() >= job.manifest.chunk_count,
    ensures
        job.after_heartbeat(beat).readable(),
{
    let after = job.after_heartbeat(beat);
    assert forall|id: Seq<char>, i: u32|
        #![trigger after.nodes[id].bitmap.covers(i)]
        after.nodes.contains_key(id) && i < after.manifest.chunk_count implies after.nodes[
        id].bitmap.covers(i) by {
        if id != beat.node_id {
            assert(job.nodes[id].bitmap.covers(i));
        }
    }
}

/// What is readable for all chunks is readable for every query on a chunk of the file.
pub proof fn readable_job_knows_sources(job: JobView, requester: Seq<char>, index: u32)
    requires
        job.readable(),
        index < job.manifest.chunk_count,
    ensures
        sources_known(job, requester, index),
{
    assert forall|id: Seq<char>| #[trigger] job.nodes.contains_key(id) implies job.nodes[id].node_id
        == requester || job.nodes[id].bitmap.covers(index) by {
        assert(job.nodes[id].bitmap.covers(index));
    }
}

/// Eviction drops exactly the nodes that have been silent too long, and leaves the jobs
/// otherwise as they are.
pub proof fn eviction_drops_stale_nodes(
    tracker: TrackerView,
    timeout_secs: u64,
    now: u64,
    job_id: Seq<char>,
    node_id: Seq<char>,
)
    requires
        tracker.jobs.contains_key(job_id),
    ensures
        ({
            let before = tracker.jobs[job_id];
            let after = tracker.evicted(timeout_secs, now).jobs[job_id];
            &&& tracker.evicted(timeout_secs, now).jobs.dom() == tracker.jobs.dom()
            &&& after.nodes.contains_key(node_id) <==> before.nodes.contains_key(node_id)
                && !before.nodes[node_id].is_stale(timeout_secs, now)
            &&& after.nodes.contains_key(node_id) ==> after.nodes[node_id] == before.nodes[node_id]
            &&& after.status == before.status
            &&& after.manifest == before.manifest
            &&& after.policy == before.policy
        }),
{
    assert(tracker.evicted(timeout_secs, now).jobs.dom() =~= tracker.jobs.dom());
}

/// A second eviction at the same time finds nothing to drop.
pub proof fn eviction_is_idempotent(tracker: TrackerView, timeout_secs: u64, now: u64)
    ensures
        tracker.evicted(timeout_secs, now).evicted(timeout_secs, now) == tracker.evicted(
            timeout_secs,
            now,
        ),
{
    let once = tracker.evicted(timeout_secs, now);
    let twice = once.evicted(timeout_secs, now);
    assert forall|id: Seq<char>| #[trigger] once.jobs.contains_key(id) implies twice.jobs[id]
        == once.jobs[id] by {
        assert(twice.jobs[id].nodes =~= once.jobs[id].nodes);
        assert(twice.jobs[id] =~= once.jobs[id]);
    }
    assert(twice.jobs =~= once.jobs);
}

/// A node that was heard of at the time of an eviction survives it.
pub proof fn heartbeat_prevents_eviction(job: JobView, beat: Heartbeat, timeout_secs: u64)
    ensures
        job.after_heartbeat(beat).evicted(timeout_secs, beat.now).nodes.contains_key(beat.node_id),
{
    touched_node_is_not_stale(job.node_after(beat), timeout_secs, beat.now);
}

} // verus!
