//! A distribution job: one model version that is pushed to the cluster.

use dashmap::DashMap;
use vstd::prelude::*;

use crate::error::DistError;
use crate::ids::{is_random_id, random_id};
use crate::manifest::{texts, Manifest, ManifestView};
use crate::ratio::Ratio;
use crate::text::str_eq;
use crate::tracker::node::{whole_seconds, NodeState, NodeView};
use crate::tracker::tables::{
    count_if, find_node, guarded_node_value, lemma_count_if, lists_keys, no_nodes, node_keys,
    node_table,
};

verus! {

/// How the peers for a chunk are chosen.
#[derive(Debug, Clone, Copy, PartialEq, Eq, Structural)]
pub enum SchedulingPolicy {
    RarityFirst,
    TopologyAware,
}

impl SchedulingPolicy {
    /// The name of the variant.
    pub open spec fn text(self) -> Seq<char> {
        match self {
            SchedulingPolicy::RarityFirst => "RarityFirst"@,
            SchedulingPolicy::TopologyAware => "TopologyAware"@,
        }
    }

    /// The name of the variant.
    pub fn name(&self) -> (r: String)
        ensures
            r@ == self.text(),
    {
        match self {
            SchedulingPolicy::RarityFirst => "RarityFirst".to_owned(),
            SchedulingPolicy::TopologyAware => "TopologyAware".to_owned(),
        }
    }

    /// Reads a policy as it is written on the command line.
    pub fn from_str(s: &str) -> (r: Result<Self, DistError>)
        ensures
            match r {
                Ok(SchedulingPolicy::RarityFirst) => s@ == "rarity-first"@,
                Ok(SchedulingPolicy::TopologyAware) => s@ == "topology-aware"@,
                Err(DistError::Proto(text)) => {
                    &&& s@ != "rarity-first"@
                    &&& s@ != "topology-aware"@
                    &&& text@ == "unknown policy: "@ + s@
                },
                Err(_) => false,
            },
    {
        if str_eq(s, "rarity-first") {
            return Ok(SchedulingPolicy::RarityFirst);
        }
        if str_eq(s, "topology-aware") {
            return Ok(SchedulingPolicy::TopologyAware);
        }
        let mut text = "unknown policy: ".to_owned();
        text.append(s);
        Err(DistError::Proto(text))
    }
}

/// Where a job stands.
#[derive(Debug, Clone, Copy, PartialEq, Eq, Structural)]
pub enum JobStatus {
    Running,
    Complete,
    Cancelled,
}

impl JobStatus {
    /// The name of the variant.
    pub open spec fn text(self) -> Seq<char> {
        match self {
            JobStatus::Running => "Running"@,
            JobStatus::Complete => "Complete"@,
            JobStatus::Cancelled => "Cancelled"@,
        }
    }

    /// The name of the variant.
    pub fn name(&self) -> (r: String)
        ensures
            r@ == self.text(),
    {
        match self {
            JobStatus::Running => "Running".to_owned(),
            JobStatus::Complete => "Complete".to_owned(),
            JobStatus::Cancelled => "Cancelled".to_owned(),
        }
    }
}

/// A distribution job. `created_at` is in seconds of the wall clock.
#[derive(Debug)]
pub struct Job {
    pub job_id: String,
    pub manifest: Manifest,
    pub policy: SchedulingPolicy,
    pub status: JobStatus,
    pub created_at: u64,
    /// The state of each node, by node id. The contracts of the functions that take a job hold
    /// as long as nobody changes this table through a shared reference while they run; who
    /// changes it needs exclusive access to the job.
    pub nodes: DashMap<String, NodeState>,
}

/// The content of a job.
#[verifier::ext_equal]
pub struct JobView {
    pub job_id: Seq<char>,
    pub manifest: ManifestView,
    pub policy: SchedulingPolicy,
    pub status: JobStatus,
    pub created_at: u64,
    pub nodes: Map<Seq<char>, NodeView>,
}

impl View for Job {
    type V = JobView;

    open spec fn view(&self) -> JobView {
        JobView {
            job_id: self.job_id@,
            manifest: self.manifest@,
            policy: self.policy,
            status: self.status,
            created_at: self.created_at,
            nodes: node_table(self.nodes),
        }
    }
}

/// A job that has just been created.
pub open spec fn new_job(
    job_id: Seq<char>,
    manifest: ManifestView,
    policy: SchedulingPolicy,
    created_at: u64,
) -> JobView {
    JobView {
        job_id,
        manifest,
        policy,
        status: JobStatus::Running,
        created_at,
        nodes: Map::empty(),
    }
}

impl JobView {
    /// The nodes that hold chunk `index`.
    pub open spec fn holders(self, index: u32) -> Set<Seq<char>> {
        self.nodes.dom().filter(|id: Seq<char>| self.nodes[id].bitmap.holds(index))
    }

    /// The nodes that hold all chunks.
    pub open spec fn finished(self) -> Set<Seq<char>> {
        self.nodes.dom().filter(|id: Seq<char>| self.nodes[id].bitmap.is_complete())
    }

    /// All nodes hold all chunks.
    pub open spec fn all_finished(self) -> bool {
        forall|id: Seq<char>| #[trigger]
            self.nodes.contains_key(id) ==> self.nodes[id].bitmap.is_complete()
    }

    /// The bitmaps of all nodes answer for every chunk of the file.
    pub open spec fn readable(self) -> bool {
        forall|id: Seq<char>, i: u32|
            #![trigger self.nodes[id].bitmap.covers(i)]
            self.nodes.contains_key(id) && i < self.manifest.chunk_count
                ==> self.nodes[id].bitmap.covers(i)
    }

    /// The share of the nodes that hold all chunks.
    pub open spec fn ratio(self) -> Ratio {
        if self.nodes.dom().len() == 0 {
            Ratio { num: 0, den: 1 }
        } else {
            Ratio { num: self.finished().len() as u128, den: self.nodes.dom().len() as u128 }
        }
    }
}

/// A view of a node, for display.
#[derive(Debug)]
pub struct NodeSnapshot {
    pub node_id: String,
    pub rack_id: String,
    pub completed_chunks: u32,
    pub total_chunks: u32,
    pub upload_bw_mbps: u64,
    pub last_seen_secs: u64,
}

/// A view of a job, for display.
#[derive(Debug)]
pub struct JobSnapshot {
    pub job_id: String,
    pub file_id: String,
    pub version: String,
    pub status: String,
    pub policy: String,
    pub total_chunks: u32,
    pub node_count: u32,
    pub avg_completion_pct: Ratio,
    pub nodes: Vec<NodeSnapshot>,
}

/// `s` shows the node with key `id`.
pub open spec fn shows_node(
    s: NodeSnapshot,
    id: Seq<char>,
    node: NodeView,
    total_chunks: u32,
    now: u64,
) -> bool {
    &&& s.node_id@ == id
    &&& s.rack_id@ == node.rack_id
    &&& s.completed_chunks == node.bitmap.completed()
    &&& s.total_chunks == total_chunks
    &&& s.upload_bw_mbps == node.upload_bw_mbps
    &&& s.last_seen_secs == whole_seconds(node.last_seen, now)
}

/// How many chunks the nodes have received in all.
pub open spec fn chunks_received(ids: Seq<Seq<char>>, nodes: Map<Seq<char>, NodeView>) -> nat
    decreases ids.len(),
{
    if ids.len() == 0 {
        0
    } else {
        chunks_received(ids.drop_last(), nodes) + nodes[ids.last()].bitmap.completed()
    }
}

/// The average completion of the nodes, in percent; 0 without nodes, and not defined for a
/// file without chunks.
pub open spec fn average_completion(received: nat, nodes: nat, total_chunks: u32) -> Ratio {
    if nodes == 0 {
        Ratio { num: 0, den: 1 }
    } else {
        Ratio { num: (100 * received) as u128, den: (nodes * total_chunks) as u128 }
    }
}

/// `s` shows the job, with its nodes in the order of `ids`.
pub open spec fn shows_job_in_order(
    s: JobSnapshot,
    job: JobView,
    now: u64,
    ids: Seq<Seq<char>>,
) -> bool {
    &&& lists_keys(ids, job.nodes.dom())
    &&& s.job_id@ == job.job_id
    &&& s.file_id@ == job.manifest.file_id
    &&& s.version@ == job.manifest.version
    &&& s.status@ == job.status.text()
    &&& s.policy@ == job.policy.text()
    &&& s.total_chunks == job.manifest.chunk_count
    &&& s.node_count == ids.len() % 0x1_0000_0000
    &&& s.avg_completion_pct == average_completion(
        chunks_received(ids, job.nodes),
        ids.len(),
        job.manifest.chunk_count,
    )
    &&& s.nodes@.len() == ids.len()
    &&& forall|i: int|
        0 <= i < ids.len() ==> shows_node(
            #[trigger] s.nodes@[i],
            ids[i],
            job.nodes[ids[i]],
            job.manifest.chunk_count,
            now,
        )
}

/// `s` shows the job, with its nodes in some order.
pub open spec fn shows_job(s: JobSnapshot, job: JobView, now: u64) -> bool {
    exists|ids: Seq<Seq<char>>| #[trigger] shows_job_in_order(s, job, now, ids)
}

impl Job {
    /// A job without nodes, under a given id.
    pub fn with_id(
        job_id: String,
        manifest: Manifest,
        policy: SchedulingPolicy,
        created_at: u64,
    ) -> (r: Self)
        ensures
            r@ == new_job(job_id@, manifest@, policy, created_at),
    {
        Job {
            job_id,
            manifest,
            policy,
            status: JobStatus::Running,
            created_at,
            nodes: no_nodes(),
        }
    }

    /// A job without nodes, under a random id.
    pub fn new(manifest: Manifest, policy: SchedulingPolicy, created_at: u64) -> (r: Self)
        ensures
            is_random_id(r@.job_id),
            r@ == new_job(r@.job_id, manifest@, policy, created_at),
    {
        Job::with_id(random_id(), manifest, policy, created_at)
    }

    /// The share of the nodes that hold all chunks.
    pub fn completion_ratio(&self) -> (r: Ratio)
        ensures
            r == self@.ratio(),
    {
        let keys = node_keys(&self.nodes);
        let ghost ids = texts(keys@);
        let ghost p = |id: Seq<char>| self@.nodes[id].bitmap.is_complete();
        proof {
            lemma_count_if(ids, self@.nodes.dom(), p);
        }
        let total: usize = keys.len();
        if total == 0 {
            return Ratio { num: 0, den: 1 };
        }
        let mut done: usize = 0;
        let mut k: usize = 0;
        assert(ids.take(0) =~= Seq::empty());
        while k < keys.len()
            invariant
                k <= keys@.len(),
                ids == texts(keys@),
                lists_keys(ids, self@.nodes.dom()),
                p == (|id: Seq<char>| self@.nodes[id].bitmap.is_complete()),
                done <= k,
                done == count_if(ids.take(k as int), p),
            decreases keys@.len() - k,
        {
            assert(ids.take(k + 1).drop_last() =~= ids.take(k as int));
            assert(ids.to_set().contains(ids[k as int]));
            if let Some(guard) = find_node(&self.nodes, keys[k].as_str()) {
                if guarded_node_value(&guard).bitmap.is_complete() {
                    done = done + 1;
                }
            }
            k = k + 1;
        }
        assert(ids.take(k as int) =~= ids);
        Ratio { num: done as u128, den: total as u128 }
    }

    /// How many nodes hold each chunk.
    pub fn replica_counts(&self) -> (r: Vec<u32>)
        requires
            self@.readable(),
            self@.nodes.dom().len() <= u32::MAX,
        ensures
            r@.len() == self@.manifest.chunk_count,
            forall|i: u32|
                i < self@.manifest.chunk_count ==> #[trigger] r@[i as int] == self@.holders(
                    i,
                ).len(),
    {
        let n: u32 = self.manifest.chunk_count;
        let mut counts: Vec<u32> = vec![0u32; n as usize];
        let keys = node_keys(&self.nodes);
        let ghost ids = texts(keys@);
        proof {
            lemma_count_if(ids, self@.nodes.dom(), |id: Seq<char>| true);
        }
        let mut k: usize = 0;
        assert(ids.take(0) =~= Seq::empty());
        while k < keys.len()
            invariant
                k <= keys@.len(),
                n == self@.manifest.chunk_count,
                ids == texts(keys@),
                ids.len() <= u32::MAX,
                lists_keys(ids, self@.nodes.dom()),
                self@.readable(),
                counts@.len() == n,
                forall|i: u32|
                    i < n ==> #[trigger] counts@[i as int] <= k && counts@[i as int] == count_if(
                        ids.take(k as int),
                        |id: Seq<char>| self@.nodes[id].bitmap.holds(i),
                    ),
            decreases keys@.len() - k,
        {
            let ghost before = counts@;
            assert(ids.take(k + 1).drop_last() =~= ids.take(k as int));
            assert(ids.take(k + 1).last() == ids[k as int]);
            assert(ids.to_set().contains(ids[k as int]));
            if let Some(guard) = find_node(&self.nodes, keys[k].as_str()) {
                let node = guarded_node_value(&guard);
                let mut i: u32 = 0;
                while i < n
                    invariant
                        i <= n,
                        k < ids.len() <= u32::MAX,
                        n == self@.manifest.chunk_count,
                        self@.nodes.contains_key(ids[k as int]),
                        node@ == self@.nodes[ids[k as int]],
                        self@.readable(),
                        counts@.len() == n,
                        before.len() == n,
                        forall|j: u32| j < n ==> #[trigger] before[j as int] <= k,
                        forall|j: u32|
                            j < n ==> #[trigger] counts@[j as int] == before[j as int] + if j < i
                                && node@.bitmap.holds(j) {
                                1int
                            } else {
                                0
                            },
                    decreases n - i,
                {
                    assert(self@.nodes[ids[k as int]].bitmap.covers(i));
                    assert(before[i as int] <= k);
                    if node.bitmap.has(i) {
                        let c: u32 = counts[i as usize];
                        counts[i as usize] = c + 1;
                    }
                    i = i + 1;
                }
            }
            k = k + 1;
            assert forall|i: u32| i < n implies #[trigger] counts@[i as int] <= k
                && counts@[i as int] == count_if(
                ids.take(k as int),
                |id: Seq<char>| self@.nodes[id].bitmap.holds(i),
            ) by {
                assert(before[i as int] <= k - 1);
            }
        }
        assert(ids.take(k as int) =~= ids);
        assert forall|i: u32| i < n implies #[trigger] counts@[i as int] == self@.holders(
            i,
        ).len() by {
            lemma_count_if(
                ids,
                self@.nodes.dom(),
                |id: Seq<char>| self@.nodes[id].bitmap.holds(i),
            );
        }
        counts
    }

    /// How many nodes there are.
    pub fn node_total(&self) -> (r: usize)
        ensures
            r == self@.nodes.dom().len(),
    {
        let keys = node_keys(&self.nodes);
        proof {
            texts(keys@).unique_seq_to_set();
        }
        keys.len()
    }

    /// Whether the bitmaps of all nodes answer for every chunk of the file.
    pub fn is_readable(&self) -> (r: bool)
        ensures
            r == self@.readable(),
    {
        let n: u32 = self.manifest.chunk_count;
        if n == 0 {
            return true;
        }
        let keys = node_keys(&self.nodes);
        let ghost ids = texts(keys@);
        let mut k: usize = 0;
        while k < keys.len()
            invariant
                k <= keys@.len(),
                n == self@.manifest.chunk_count,
                n > 0,
                ids == texts(keys@),
                lists_keys(ids, self@.nodes.dom()),
                forall|p: int, i: u32|
                    #![trigger self@.nodes[ids[p]].bitmap.covers(i)]
                    0 <= p < k && i < n ==> self@.nodes[ids[p]].bitmap.covers(i),
            decreases keys@.len() - k,
        {
            assert(ids.to_set().contains(ids[k as int]));
            if let Some(guard) = find_node(&self.nodes, keys[k].as_str()) {
                let node = guarded_node_value(&guard);
                // The last chunk that the node can be asked for decides.
                let count: u32 = node.bitmap.chunk_count();
                let last: u32 = if count < n {
                    count
                } else {
                    n
                };
                if last > 0 && !node.bitmap.covers(last - 1) {
                    assert(!self@.nodes[ids[k as int]].bitmap.covers((last - 1) as u32));
                    return false;
                }
            }
            k = k + 1;
        }
        assert forall|id: Seq<char>, i: u32|
            #![trigger self@.nodes[id].bitmap.covers(i)]
            self@.nodes.contains_key(id) && i < self@.manifest.chunk_count implies self@.nodes[
            id].bitmap.covers(i) by {
            assert(ids.to_set().contains(id));
            let p = choose|p: int| 0 <= p < ids.len() && ids[p] == id;
            assert(self@.nodes[ids[p]].bitmap.covers(i));
        }
        true
    }

    /// Whether all nodes hold all chunks.
    pub fn is_finished(&self) -> (r: bool)
        ensures
            r == self@.all_finished(),
    {
        let keys = node_keys(&self.nodes);
        let ghost ids = texts(keys@);
        let mut k: usize = 0;
        while k < keys.len()
            invariant
                k <= keys@.len(),
                ids == texts(keys@),
                lists_keys(ids, self@.nodes.dom()),
                forall|p: int|
                    0 <= p < k ==> self@.nodes[#[trigger] ids[p]].bitmap.is_complete(),
            decreases keys@.len() - k,
        {
            assert(ids.to_set().contains(ids[k as int]));
            if let Some(guard) = find_node(&self.nodes, keys[k].as_str()) {
                if !guarded_node_value(&guard).bitmap.is_complete() {
                    assert(self@.nodes.contains_key(ids[k as int]));
                    return false;
                }
            }
            k = k + 1;
        }
        assert forall|id: Seq<char>| #[trigger] self@.nodes.contains_key(id) implies self@.nodes[
            id].bitmap.is_complete() by {
            assert(ids.to_set().contains(id));
            let p = choose|p: int| 0 <= p < ids.len() && ids[p] == id;
            assert(self@.nodes[ids[p]].bitmap.is_complete());
        }
        true
    }

    /// A view of the job, for display. In which order its nodes come is left open.
    pub fn snapshot(&self, now: u64) -> (r: JobSnapshot)
        ensures
            shows_job(r, self@, now),
    {
        let total_chunks: u32 = self.manifest.chunk_count;
        let keys = node_keys(&self.nodes);
        let ghost ids = texts(keys@);
        let mut nodes: Vec<NodeSnapshot> = Vec::new();
        let mut received: u128 = 0;
        let mut k: usize = 0;
        assert(ids.take(0) =~= Seq::empty());
        while k < keys.len()
            invariant
                k <= keys@.len(),
                total_chunks == self@.manifest.chunk_count,
                ids == texts(keys@),
                lists_keys(ids, self@.nodes.dom()),
                nodes@.len() == k,
                received == chunks_received(ids.take(k as int), self@.nodes),
                received <= k * u32::MAX,
                forall|i: int|
                    0 <= i < k ==> shows_node(
                        #[trigger] nodes@[i],
                        ids[i],
                        self@.nodes[ids[i]],
                        total_chunks,
                        now,
                    ),
            decreases keys@.len() - k,
        {
            assert(ids.take(k + 1).drop_last() =~= ids.take(k as int));
            assert(ids.take(k + 1).last() == ids[k as int]);
            assert(ids.to_set().contains(ids[k as int]));
            if let Some(guard) = find_node(&self.nodes, keys[k].as_str()) {
                let node = guarded_node_value(&guard);
                let completed: u32 = node.bitmap.completed_count();
                received = received + completed as u128;
                nodes.push(
                    NodeSnapshot {
                        node_id: keys[k].clone(),
                        rack_id: node.rack_id.clone(),
                        completed_chunks: completed,
                        total_chunks,
                        upload_bw_mbps: node.upload_bw_mbps,
                        last_seen_secs: node.silent_secs(now),
                    },
                );
            }
            k = k + 1;
        }
        assert(ids.take(k as int) =~= ids);
        let count: u64 = nodes.len() as u64;
        assert(count as u32 == count % 0x1_0000_0000) by (bit_vector);
        let avg: Ratio = if count == 0 {
            Ratio { num: 0, den: 1 }
        } else {
            assert(count * total_chunks <= u64::MAX * u32::MAX) by (nonlinear_arith)
                requires
                    count <= u64::MAX,
                    total_chunks <= u32::MAX,
            ;
            Ratio { num: 100 * received, den: count as u128 * total_chunks as u128 }
        };
        let s = JobSnapshot {
            job_id: self.job_id.clone(),
            file_id: self.manifest.file_id.clone(),
            version: self.manifest.version.clone(),
            status: self.status.name(),
            policy: self.policy.name(),
            total_chunks,
            node_count: count as u32,
            avg_completion_pct: avg,
            nodes,
        };
        assert(shows_job_in_order(s, self@, now, ids));
        s
    }
}

/// The share of the nodes that hold all chunks is one exactly when there are nodes and all
/// of them do.
pub proof fn full_ratio_means_all_finished(job: JobView)
    requires
        job.nodes.dom().finite(),
        job.nodes.dom().len() <= u64::MAX,
    ensures
        job.ratio().num <= job.ratio().den,
        job.ratio().num == job.ratio().den <==> job.nodes.dom().len() > 0 && job.all_finished(),
{
    let all = job.nodes.dom();
    let done = job.finished();
    assert(done.subset_of(all));
    vstd::set_lib::lemma_len_subset(done, all);
    if job.all_finished() {
        assert forall|id: Seq<char>| all.contains(id) implies #[trigger] done.contains(id) by {
            assert(job.nodes.contains_key(id));
        }
        assert(done =~= all);
    }
    if all.len() > 0 && done.len() == all.len() {
        vstd::set_lib::lemma_subset_equality(done, all);
        assert forall|id: Seq<char>| #[trigger] job.nodes.contains_key(id) implies job.nodes[
            id].bitmap.is_complete() by {
            assert(done.contains(id));
        }
    }
}

} // verus!
