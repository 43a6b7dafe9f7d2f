use model_dist::bitmap::ChunkBitmap;
use model_dist::error::DistError;
use model_dist::manifest::Manifest;
use model_dist::metrics::Measurement;
use model_dist::proto::{Request, Response};
use model_dist::ratio::Ratio;
use model_dist::tracker::job::{Job, JobStatus, SchedulingPolicy};
use model_dist::tracker::node::NodeState;
use model_dist::tracker::registry::Tracker;
use model_dist::tracker::server::{
    can_answer, dispatch, Answer, EVICTION_INTERVAL_SECS, STALE_AFTER_SECS,
};

const SEC: u64 = 1_000_000_000;

fn manifest(chunks: usize) -> Manifest {
    Manifest::build("m", "1", &vec![7u8; chunks], 1).unwrap()
}

fn tracker_with(job_id: &str, chunks: usize, policy: SchedulingPolicy) -> Tracker {
    let mut t = Tracker::new();
    let id = t.add_job(Job::with_id(job_id.into(), manifest(chunks), policy, 0));
    assert_eq!(id, job_id);
    t
}

fn beat(t: &mut Tracker, job: &str, node: &str, bits: &[u8], now: u64) -> (Ratio, bool) {
    let u = t
        .update_node(job, node.into(), "r".into(), format!("{node}:1"), bits, 100, now)
        .unwrap();
    (u.completion, u.job_completed)
}

fn status(t: &Tracker, job: &str) -> JobStatus {
    t.get_job(job).unwrap().value().status
}

fn hex_id(id: &str) -> bool {
    id.len() == 36
        && id.chars().enumerate().all(|(i, c)| match i {
            8 | 13 | 18 | 23 => c == '-',
            14 => c == '4',
            19 => "89ab".contains(c),
            _ => "0123456789abcdef".contains(c),
        })
}

#[test]
fn policies_are_read_and_named() {
    assert_eq!(
        SchedulingPolicy::from_str("rarity-first"),
        Ok(SchedulingPolicy::RarityFirst)
    );
    assert_eq!(
        SchedulingPolicy::from_str("topology-aware"),
        Ok(SchedulingPolicy::TopologyAware)
    );
    assert_eq!(
        SchedulingPolicy::from_str("Rarity-First"),
        Err(DistError::Proto("unknown policy: Rarity-First".into()))
    );
    assert_eq!(SchedulingPolicy::RarityFirst.name(), "RarityFirst");
    assert_eq!(SchedulingPolicy::TopologyAware.name(), "TopologyAware");
    assert_eq!(JobStatus::Running.name(), "Running");
    assert_eq!(JobStatus::Complete.name(), "Complete");
    assert_eq!(JobStatus::Cancelled.name(), "Cancelled");
}

#[test]
fn created_jobs_have_random_ids() {
    let mut t = Tracker::new();
    let a = t.create_job(manifest(2), SchedulingPolicy::RarityFirst, 11);
    let b = t.create_job(manifest(2), SchedulingPolicy::RarityFirst, 12);
    assert!(hex_id(&a));
    assert!(hex_id(&b));
    assert_ne!(a, b);
    let guard = t.get_job(&a).unwrap();
    assert_eq!(guard.value().job_id, a);
    assert_eq!(guard.value().created_at, 11);
    assert_eq!(guard.value().status, JobStatus::Running);
    assert_eq!(guard.value().node_total(), 0);
}

#[test]
fn unknown_jobs_are_reported() {
    let mut t = tracker_with("j", 2, SchedulingPolicy::RarityFirst);
    let missing = DistError::JobNotFound("x".into());
    assert_eq!(t.get_job("x").err(), Some(DistError::JobNotFound("x".into())));
    assert_eq!(t.cancel_job("x").err(), Some(missing));
    assert_eq!(
        t.update_node("x", "n".into(), "r".into(), "a".into(), &[0], 1, 0).err(),
        Some(DistError::JobNotFound("x".into()))
    );
    assert_eq!(
        t.get_peers("x", "n", "r", 0, 5).err(),
        Some(DistError::JobNotFound("x".into()))
    );
    assert_eq!(status(&t, "j"), JobStatus::Running);
}

#[test]
fn cancelling_a_job() {
    let mut t = tracker_with("j", 2, SchedulingPolicy::RarityFirst);
    assert_eq!(t.cancel_job("j"), Ok(()));
    assert_eq!(status(&t, "j"), JobStatus::Cancelled);
    beat(&mut t, "j", "a", &[0], 0);
    assert_eq!(status(&t, "j"), JobStatus::Cancelled);
}

#[test]
fn heartbeats_update_nodes_and_complete_the_job() {
    let mut t = tracker_with("j", 10, SchedulingPolicy::RarityFirst);
    assert_eq!(
        beat(&mut t, "j", "a", &[0xFF, 0xC0], 0),
        (Ratio { num: 10, den: 10 }, true)
    );
    assert_eq!(status(&t, "j"), JobStatus::Complete);

    let mut t = tracker_with("j", 10, SchedulingPolicy::RarityFirst);
    assert_eq!(
        beat(&mut t, "j", "a", &[0xF0, 0], 0),
        (Ratio { num: 4, den: 10 }, false)
    );
    assert_eq!(
        beat(&mut t, "j", "b", &[0xFF, 0xFF], 1),
        (Ratio { num: 10, den: 10 }, false)
    );
    assert_eq!(status(&t, "j"), JobStatus::Running);
    assert_eq!(
        t.get_job("j").unwrap().value().completion_ratio(),
        Ratio { num: 1, den: 2 }
    );
    assert_eq!(
        beat(&mut t, "j", "a", &[0xFF, 0xC0], 2),
        (Ratio { num: 10, den: 10 }, true)
    );
    assert_eq!(status(&t, "j"), JobStatus::Complete);
    // The job completes once.
    assert_eq!(
        beat(&mut t, "j", "a", &[0xFF, 0xC0], 3),
        (Ratio { num: 10, den: 10 }, false)
    );
    let guard = t.get_job("j").unwrap();
    assert_eq!(guard.value().node_total(), 2);
    let node = guard.value().nodes.get("a").unwrap();
    assert_eq!(node.value().node_id, "a");
    assert_eq!(node.value().rack_id, "r");
    assert_eq!(node.value().peer_addr, "a:1");
    assert_eq!(node.value().upload_bw_mbps, 100);
    assert_eq!(node.value().last_seen, 3);
}

#[test]
fn jobs_are_independent() {
    let mut t = tracker_with("j", 2, SchedulingPolicy::RarityFirst);
    t.add_job(Job::with_id("k".into(), manifest(2), SchedulingPolicy::RarityFirst, 0));
    beat(&mut t, "j", "a", &[0xFF], 0);
    assert_eq!(status(&t, "j"), JobStatus::Complete);
    assert_eq!(status(&t, "k"), JobStatus::Running);
    assert_eq!(t.get_job("k").unwrap().value().node_total(), 0);
    assert_eq!(
        t.get_job("k").unwrap().value().completion_ratio(),
        Ratio { num: 0, den: 1 }
    );
}

#[test]
fn bitmap_travels_in_heartbeat() {
    let mut t = tracker_with("j", 11, SchedulingPolicy::RarityFirst);
    let mut bm = ChunkBitmap::new(11);
    bm.mark_complete(2);
    bm.mark_complete(10);
    beat(&mut t, "j", "a", bm.as_bytes(), 0);
    let guard = t.get_job("j").unwrap();
    assert_eq!(
        guard.value().replica_counts(),
        vec![0, 0, 1, 0, 0, 0, 0, 0, 0, 0, 1]
    );
}

#[test]
fn stale_nodes_are_evicted() {
    let mut t = tracker_with("j", 2, SchedulingPolicy::RarityFirst);
    beat(&mut t, "j", "old", &[0x80], 0);
    beat(&mut t, "j", "new", &[0x80], 10 * SEC);
    // Sixty whole seconds are not more than sixty.
    t.evict_stale_nodes(60, 60 * SEC + 999_999_999);
    assert_eq!(t.get_job("j").unwrap().value().node_total(), 2);
    t.evict_stale_nodes(60, 61 * SEC);
    assert_eq!(t.get_job("j").unwrap().value().node_total(), 1);
    assert!(t.get_job("j").unwrap().value().nodes.contains_key("new"));
    assert_eq!(status(&t, "j"), JobStatus::Running);
    assert_eq!(STALE_AFTER_SECS, 60);
    assert_eq!(EVICTION_INTERVAL_SECS, 30);
}

#[test]
fn staleness_of_a_node() {
    let mut n = NodeState::new("n".into(), "r".into(), "a".into(), 3, 5, 10 * SEC);
    assert_eq!(n.bitmap.completed_count(), 0);
    assert_eq!(n.silent_secs(12 * SEC + 5), 2);
    assert_eq!(n.silent_secs(0), 0);
    assert!(!n.is_stale(2, 12 * SEC + 5));
    assert!(n.is_stale(1, 12 * SEC));
    n.touch(20 * SEC);
    assert_eq!(n.last_seen, 20 * SEC);
    assert!(!n.is_stale(0, 20 * SEC));
}

#[test]
fn snapshot_shows_job_and_nodes() {
    let mut t = tracker_with("j", 4, SchedulingPolicy::TopologyAware);
    let s = t.get_job("j").unwrap().value().snapshot(0);
    assert_eq!(s.avg_completion_pct, Ratio { num: 0, den: 1 });
    assert_eq!(s.node_count, 0);
    beat(&mut t, "j", "a", &[0b1100_0000], 2 * SEC);
    beat(&mut t, "j", "b", &[0b1000_0000], 5 * SEC);
    let mut s = t.get_job("j").unwrap().value().snapshot(9 * SEC);
    s.nodes.sort_by(|x, y| x.node_id.cmp(&y.node_id));
    assert_eq!(s.job_id, "j");
    assert_eq!(s.file_id, "m");
    assert_eq!(s.version, "1");
    assert_eq!(s.status, "Running");
    assert_eq!(s.policy, "TopologyAware");
    assert_eq!(s.total_chunks, 4);
    assert_eq!(s.node_count, 2);
    assert_eq!(s.avg_completion_pct, Ratio { num: 300, den: 8 });
    assert_eq!(s.nodes[0].node_id, "a");
    assert_eq!(s.nodes[0].rack_id, "r");
    assert_eq!(s.nodes[0].completed_chunks, 2);
    assert_eq!(s.nodes[0].total_chunks, 4);
    assert_eq!(s.nodes[0].upload_bw_mbps, 100);
    assert_eq!(s.nodes[0].last_seen_secs, 7);
    assert_eq!(s.nodes[1].last_seen_secs, 4);
    assert_eq!(t.all_job_snapshots(0).len(), 1);
}

#[test]
fn peers_follow_the_policy_of_the_job() {
    for (policy, first) in [
        (SchedulingPolicy::RarityFirst, "fast"),
        (SchedulingPolicy::TopologyAware, "near"),
    ] {
        let mut t = tracker_with("j", 2, policy);
        t.update_node("j", "fast".into(), "r2".into(), "f:1".into(), &[0xC0], 90, 0)
            .unwrap();
        t.update_node("j", "near".into(), "r1".into(), "n:1".into(), &[0xC0], 10, 0)
            .unwrap();
        let peers = t.get_peers("j", "me", "r1", 0, 5).unwrap();
        assert_eq!(peers.len(), 2);
        assert_eq!(peers[0].node_id, first);
        assert_eq!(t.get_peers("j", "fast", "r1", 0, 5).unwrap().len(), 1);
    }
}

fn ask(t: &mut Tracker, req: Request) -> Answer {
    assert!(can_answer(t, &req, &None));
    dispatch(t, req, None, 7 * SEC, 0)
}

fn error_of(a: Answer) -> String {
    assert!(a.measurements.is_empty());
    match a.response {
        Response::Error { message } => message,
        other => panic!("{:?}", other),
    }
}

fn heartbeat(job: &str, node: &str, bits: &[u8]) -> Request {
    Request::Heartbeat {
        job_id: job.into(),
        node_id: node.into(),
        rack_id: "r".into(),
        peer_addr: format!("{node}:1"),
        bitmap_bytes: bits.to_vec(),
        upload_bw_mbps: 100,
    }
}

fn create(policy: &str) -> Request {
    Request::CreateJob { manifest_bytes: vec![], policy: policy.into() }
}

#[test]
fn dispatch_creates_jobs() {
    let mut t = Tracker::new();
    assert!(!can_answer(&t, &create("rarity-first"), &None));
    let a = dispatch(&mut t, create("rarity-first"), Some(Ok(manifest(2))), 0, 77);
    let id = match a.response {
        Response::JobCreated { job_id } => job_id,
        other => panic!("{:?}", other),
    };
    assert!(hex_id(&id));
    assert!(matches!(a.measurements[..], [Measurement::JobCreated]));
    assert_eq!(t.get_job(&id).unwrap().value().created_at, 77);
    match ask(&mut t, Request::GetStatus { job_id: id.clone() }).response {
        Response::Status { body } => {
            assert_eq!(body.snapshot.job_id, id);
            assert_eq!(body.snapshot.status, "Running");
            assert!(body.snapshot.nodes.is_empty());
            assert_eq!(body.manifest, manifest(2));
        }
        other => panic!("{:?}", other),
    }
}

#[test]
fn dispatch_refuses_bad_jobs() {
    let mut t = Tracker::new();
    let a = dispatch(&mut t, create("fastest"), Some(Ok(manifest(2))), 0, 0);
    assert_eq!(error_of(a), "protocol error: unknown policy: fastest");
    let a = dispatch(&mut t, create("rarity-first"), Some(Err("no manifest".into())), 0, 0);
    assert_eq!(error_of(a), "no manifest");
    assert!(t.all_job_snapshots(0).is_empty());
}

#[test]
fn dispatch_refuses_unknown_jobs() {
    let mut t = tracker_with("j", 2, SchedulingPolicy::RarityFirst);
    let requests = [
        heartbeat("x", "n", &[0]),
        Request::GetPeers {
            job_id: "x".into(),
            node_id: "n".into(),
            rack_id: "r".into(),
            chunk_index: 0,
            top_n: 5,
        },
        Request::GetRarity { job_id: "x".into(), missing: vec![0] },
        Request::GetStatus { job_id: "x".into() },
        Request::CancelJob { job_id: "x".into() },
    ];
    for req in requests {
        assert_eq!(error_of(ask(&mut t, req)), "job not found: x");
    }
    assert_eq!(t.all_job_snapshots(0).len(), 1);
}

#[test]
fn dispatch_takes_heartbeats() {
    let mut t = tracker_with("j", 4, SchedulingPolicy::RarityFirst);
    let a = ask(&mut t, heartbeat("j", "n", &[0x80]));
    assert!(matches!(a.response, Response::HeartbeatAck { job_complete: false }));
    match &a.measurements[..] {
        [Measurement::NodeCompletion { job_id, node_id, ratio }] => {
            assert_eq!(job_id, "j");
            assert_eq!(node_id, "n");
            assert_eq!(*ratio, Ratio { num: 1, den: 4 });
        }
        other => panic!("{:?}", other),
    }
    let a = ask(&mut t, heartbeat("j", "n", &[0xF0]));
    assert!(matches!(a.response, Response::HeartbeatAck { job_complete: true }));
    assert!(matches!(
        a.measurements[..],
        [Measurement::NodeCompletion { .. }, Measurement::JobComplete]
    ));
    // A node that joins late does not undo completion.
    let a = ask(&mut t, heartbeat("j", "late", &[0]));
    assert!(matches!(a.response, Response::HeartbeatAck { job_complete: true }));
    assert_eq!(a.measurements.len(), 1);
}

#[test]
fn dispatch_answers_queries() {
    let mut t = tracker_with("j", 4, SchedulingPolicy::RarityFirst);
    ask(&mut t, heartbeat("j", "a", &[0b1110_0000]));
    ask(&mut t, heartbeat("j", "b", &[0b1000_0000]));
    let a = ask(
        &mut t,
        Request::GetPeers {
            job_id: "j".into(),
            node_id: "b".into(),
            rack_id: "r".into(),
            chunk_index: 1,
            top_n: 5,
        },
    );
    match a.response {
        Response::Peers { peers } => {
            assert_eq!(peers.len(), 1);
            assert_eq!(peers[0].node_id, "a");
            assert_eq!(peers[0].peer_addr, "a:1");
            assert_eq!(peers[0].rack_id, "r");
            assert_eq!(peers[0].upload_bw_mbps, 100);
        }
        other => panic!("{:?}", other),
    }
    assert!(matches!(&a.measurements[..], [Measurement::PeerQuery { job_id }] if job_id == "j"));
    let a = ask(&mut t, Request::GetRarity { job_id: "j".into(), missing: vec![0, 1, 2, 3] });
    match a.response {
        Response::Rarity { order } => assert_eq!(order, vec![(3, 0), (1, 1), (2, 1), (0, 2)]),
        other => panic!("{:?}", other),
    }
    let a = ask(&mut t, Request::ListJobs);
    match a.response {
        Response::JobList { jobs } => {
            assert_eq!(jobs.len(), 1);
            assert_eq!(jobs[0].node_count, 2);
        }
        other => panic!("{:?}", other),
    }
    let a = ask(&mut t, Request::CancelJob { job_id: "j".into() });
    assert!(matches!(a.response, Response::Ack));
    assert_eq!(status(&t, "j"), JobStatus::Cancelled);
}

#[test]
fn dispatch_notices_short_bitmaps() {
    let mut t = tracker_with("j", 16, SchedulingPolicy::RarityFirst);
    ask(&mut t, heartbeat("j", "a", &[0xFF]));
    let peers = |chunk_index: u32| Request::GetPeers {
        job_id: "j".into(),
        node_id: "b".into(),
        rack_id: "r".into(),
        chunk_index,
        top_n: 5,
    };
    assert!(can_answer(&t, &peers(7), &None));
    assert!(!can_answer(&t, &peers(8), &None));
    let rarity = Request::GetRarity { job_id: "j".into(), missing: vec![] };
    assert!(!can_answer(&t, &rarity, &None));
}
