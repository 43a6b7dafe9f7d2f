use model_dist::bitmap::ChunkBitmap;
use model_dist::manifest::Manifest;
use model_dist::tracker::job::{Job, SchedulingPolicy};
use model_dist::tracker::node::NodeState;
use model_dist::tracker::scheduler::{
    knows_sources, rarity_first, rarity_order, topology_aware,
};

fn make_job() -> Job {
    let data = vec![0u8; 100 * 1024 * 1024];
    let mf = Manifest::build("m", "1", &data, 50 * 1024 * 1024).unwrap();
    Job::new(mf, SchedulingPolicy::RarityFirst, 0)
}

fn add_node(job: &Job, id: &str, rack: &str, has_chunks: &[u32], bw: u64) {
    let mut ns = NodeState::new(id.into(), rack.into(), format!("{id}:7100"), 2, bw, 0);
    for &c in has_chunks {
        ns.bitmap.mark_complete(c);
    }
    job.nodes.insert(id.into(), ns);
}

#[test]
fn rarity_first_returns_holders() {
    let job = make_job();
    add_node(&job, "seed", "rack-A", &[0, 1], 10_000);
    add_node(&job, "n1", "rack-B", &[0], 5_000);

    let peers = rarity_first(&job, "requester", 0, 5);
    assert_eq!(peers.len(), 2);
    assert_eq!(peers[0].node_id, "seed"); // higher BW first
}

#[test]
fn topology_aware_prefers_local() {
    let job = make_job();
    add_node(&job, "seed", "rack-A", &[0, 1], 10_000);
    add_node(&job, "local1", "rack-B", &[0], 8_000);
    add_node(&job, "remote1", "rack-C", &[0], 9_000); // higher BW but remote

    let peers = topology_aware(&job, "requester", "rack-B", 0, 5);
    // local1 (rack-B) should come before remote1 despite lower BW
    assert_eq!(peers[0].node_id, "local1");
}

#[test]
fn rarity_order_sorts_correctly() {
    let job = make_job();
    // chunk 0 held by 2 nodes, chunk 1 held by 1 node → chunk 1 is rarer
    add_node(&job, "seed", "rack-A", &[0, 1], 10_000);
    add_node(&job, "n1", "rack-B", &[0], 5_000);

    let order = rarity_order(&job, &[0, 1]);
    assert_eq!(order[0].0, 1); // chunk 1 rarest
}

fn small_job(chunks: usize) -> Job {
    let data = vec![7u8; chunks];
    let mf = Manifest::build("m", "1", &data, 1).unwrap();
    Job::with_id("job".into(), mf, SchedulingPolicy::TopologyAware, 5)
}

fn add(job: &Job, id: &str, rack: &str, bits: &[u8], bw: u64) {
    let mut ns = NodeState::new(
        id.into(),
        rack.into(),
        format!("{id}:7100"),
        job.manifest.chunk_count,
        bw,
        0,
    );
    ns.bitmap = ChunkBitmap::from_bytes(bits, job.manifest.chunk_count);
    job.nodes.insert(id.into(), ns);
}

#[test]
fn rarity_first_ranks_and_cuts() {
    let job = small_job(8);
    add(&job, "a", "r1", &[0b1000_0000], 10);
    add(&job, "b", "r2", &[0b1000_0000], 30);
    add(&job, "c", "r1", &[0b1000_0000], 20);
    add(&job, "d", "r1", &[0b0111_1111], 99);
    add(&job, "me", "r1", &[0b1000_0000], 50);
    let ids = |n: usize| -> Vec<String> {
        rarity_first(&job, "me", 0, n).into_iter().map(|p| p.node_id).collect()
    };
    assert_eq!(ids(5), vec!["b", "c", "a"]);
    assert_eq!(ids(2), vec!["b", "c"]);
    assert!(ids(0).is_empty());
    let peers = rarity_first(&job, "me", 1, 5);
    assert_eq!(peers.len(), 1);
    assert_eq!(peers[0].node_id, "d");
    assert_eq!(peers[0].peer_addr, "d:7100");
    assert_eq!(peers[0].rack_id, "r1");
    assert_eq!(peers[0].upload_bw_mbps, 99);
    assert!(rarity_first(&job, "me", 8, 5).is_empty());
}

#[test]
fn topology_aware_ranks_groups() {
    let job = small_job(8);
    add(&job, "a", "r1", &[0xFF], 10);
    add(&job, "b", "r2", &[0xFF], 30);
    add(&job, "c", "r1", &[0xFF], 20);
    add(&job, "d", "r3", &[0xFF], 40);
    let ids: Vec<String> = topology_aware(&job, "x", "r1", 3, 3)
        .into_iter()
        .map(|p| p.node_id)
        .collect();
    assert_eq!(ids, vec!["c", "a", "d"]);
}

#[test]
fn rarity_order_is_stable_and_counts_holders() {
    let job = small_job(4);
    add(&job, "a", "r", &[0b1110_0000], 1);
    add(&job, "b", "r", &[0b1000_0000], 1);
    assert_eq!(
        rarity_order(&job, &[2, 0, 1, 3, 9]),
        vec![(3, 0), (9, 0), (2, 1), (1, 1), (0, 2)]
    );
    assert_eq!(
        rarity_order(&job, &[1, 0, 1, 2]),
        vec![(1, 1), (1, 1), (2, 1), (0, 2)]
    );
    assert_eq!(job.replica_counts(), vec![2, 1, 1, 0]);
}

#[test]
fn short_bitmaps_are_noticed() {
    let job = small_job(16);
    add(&job, "a", "r", &[0xFF], 1);
    assert!(!job.is_readable());
    assert!(knows_sources(&job, "x", 7));
    assert!(!knows_sources(&job, "x", 8));
    assert!(knows_sources(&job, "a", 8));
    add(&job, "a", "r", &[0xFF, 0], 1);
    assert!(job.is_readable());
    assert!(knows_sources(&job, "x", 8));
}
