use model_dist::error::DistError;
use model_dist::metrics::{describe_metrics, Measurement, MetricKind};
use model_dist::proto::client::{ReplyError, TrackerClient};
use model_dist::proto::wire::{
    frame, frame_len, push_u32, push_u64, read_u32, read_u64, MAX_FRAME,
};
use model_dist::proto::{PeerInfo, Request, Response};
use model_dist::ratio::Ratio;
use model_dist::tracker::scheduler::CandidatePeer;

type Reply = Response<u8, u8>;

#[test]
fn frames_have_their_length_in_front() {
    assert_eq!(frame(b"{}"), vec![0, 0, 0, 2, b'{', b'}']);
    assert_eq!(frame(b""), vec![0, 0, 0, 0]);
    let long = frame(&vec![1u8; 0x1_0203]);
    assert_eq!(long[..4], [0, 1, 2, 3]);
    assert_eq!(long.len(), 0x1_0203 + 4);
}

#[test]
fn frame_round_trip() {
    let payload: Vec<u8> = (0..=255u8).cycle().take(1000).collect();
    let sent = frame(&payload);
    let len = frame_len(&sent[..4]).unwrap();
    assert_eq!(len, 1000);
    assert_eq!(&sent[4..4 + len], &payload[..]);
}

#[test]
fn frames_that_are_too_long_are_refused() {
    assert_eq!(MAX_FRAME, 16 * 1024 * 1024);
    assert_eq!(frame_len(&[1, 0, 0, 0]), Ok(MAX_FRAME));
    assert_eq!(
        frame_len(&[1, 0, 0, 1]),
        Err(DistError::Proto("frame too large: 16777217".into()))
    );
    assert_eq!(
        frame_len(&[255, 255, 255, 255]),
        Err(DistError::Proto("frame too large: 4294967295".into()))
    );
}

#[test]
fn numbers_are_big_endian() {
    let mut out = Vec::new();
    push_u32(&mut out, 0x0102_0304);
    push_u64(&mut out, 0x0506_0708_090A_0B0C);
    assert_eq!(out, vec![1, 2, 3, 4, 5, 6, 7, 8, 9, 10, 11, 12]);
    assert_eq!(read_u32(&out[..4]), 0x0102_0304);
    assert_eq!(read_u64(&out[4..]), 0x0506_0708_090A_0B0C);
    for n in [0u32, 1, 255, 256, 0xFFFF, 0x10000, u32::MAX] {
        let mut b = Vec::new();
        push_u32(&mut b, n);
        assert_eq!(b, n.to_be_bytes().to_vec());
        assert_eq!(read_u32(&b), n);
    }
    for n in [0u64, 1, 1 << 32, u64::MAX] {
        let mut b = Vec::new();
        push_u64(&mut b, n);
        assert_eq!(b, n.to_be_bytes().to_vec());
        assert_eq!(read_u64(&b), n);
    }
}

#[test]
fn client_requests() {
    assert_eq!(TrackerClient::new("h:1").addr, "h:1");
    match TrackerClient::create_job(vec![1, 2], "p".into()) {
        Request::CreateJob { manifest_bytes, policy } => {
            assert_eq!(manifest_bytes, vec![1, 2]);
            assert_eq!(policy, "p");
        }
        other => panic!("{:?}", other),
    }
    assert!(matches!(
        TrackerClient::job_status("j"),
        Request::GetStatus { job_id } if job_id == "j"
    ));
    assert!(matches!(
        TrackerClient::cancel_job("j"),
        Request::CancelJob { job_id } if job_id == "j"
    ));
    match TrackerClient::heartbeat("j", "n", "r", "a", &[9], 5) {
        Request::Heartbeat {
            job_id,
            node_id,
            rack_id,
            peer_addr,
            bitmap_bytes,
            upload_bw_mbps,
        } => {
            assert_eq!((job_id.as_str(), node_id.as_str()), ("j", "n"));
            assert_eq!((rack_id.as_str(), peer_addr.as_str()), ("r", "a"));
            assert_eq!(bitmap_bytes, vec![9]);
            assert_eq!(upload_bw_mbps, 5);
        }
        other => panic!("{:?}", other),
    }
    match TrackerClient::get_peers("j", "n", "r", 3, 5) {
        Request::GetPeers { job_id, node_id, rack_id, chunk_index, top_n } => {
            assert_eq!((job_id.as_str(), node_id.as_str(), rack_id.as_str()), ("j", "n", "r"));
            assert_eq!((chunk_index, top_n), (3, 5));
        }
        other => panic!("{:?}", other),
    }
    assert!(matches!(
        TrackerClient::get_rarity("j", vec![4]),
        Request::GetRarity { job_id, missing } if job_id == "j" && missing == vec![4]
    ));
}

#[test]
fn client_replies() {
    assert_eq!(
        TrackerClient::job_created(Reply::JobCreated { job_id: "j".into() }).unwrap(),
        "j"
    );
    assert_eq!(TrackerClient::status_body(Reply::Status { body: 4 }).unwrap(), 4);
    assert!(TrackerClient::acknowledged(Reply::Ack).is_ok());
    assert!(TrackerClient::heartbeat_ack(Reply::HeartbeatAck { job_complete: true }).unwrap());
    assert!(TrackerClient::peer_list(Reply::Peers { peers: vec![] }).unwrap().is_empty());
    assert_eq!(
        TrackerClient::rarity_list(Reply::Rarity { order: vec![(1, 2)] }).unwrap(),
        vec![(1, 2)]
    );
}

#[test]
fn client_reports_refusals_and_surprises() {
    match TrackerClient::job_created(Reply::Error { message: "no".into() }) {
        Err(ReplyError::Refused(e)) => assert_eq!(e, DistError::Proto("no".into())),
        other => panic!("{:?}", other),
    }
    assert!(matches!(
        TrackerClient::job_created(Reply::Ack),
        Err(ReplyError::Unexpected(Response::Ack))
    ));
    assert!(matches!(
        TrackerClient::acknowledged(Reply::HeartbeatAck { job_complete: false }),
        Err(ReplyError::Unexpected(Response::HeartbeatAck { job_complete: false }))
    ));
    assert!(TrackerClient::status_body(Reply::Ack).is_err());
    assert!(TrackerClient::heartbeat_ack(Reply::Ack).is_err());
    assert!(TrackerClient::peer_list(Reply::Ack).is_err());
    assert!(TrackerClient::rarity_list(Reply::Ack).is_err());
}

#[test]
fn candidates_become_peer_infos() {
    let p = PeerInfo::from(CandidatePeer {
        node_id: "n".into(),
        peer_addr: "a".into(),
        rack_id: "r".into(),
        upload_bw_mbps: 9,
    });
    let q = p.clone();
    for i in [p, q] {
        assert_eq!((i.node_id.as_str(), i.peer_addr.as_str()), ("n", "a"));
        assert_eq!((i.rack_id.as_str(), i.upload_bw_mbps), ("r", 9));
    }
}

#[test]
fn metrics_are_described() {
    let all = describe_metrics();
    let names: Vec<&str> = all.iter().map(|m| m.name).collect();
    assert_eq!(
        names,
        vec![
            "tracker_jobs_created_total",
            "tracker_jobs_complete_total",
            "tracker_peer_queries_total",
            "peer_chunks_received_total",
            "peer_chunks_served_total",
            "node_completion_ratio",
        ]
    );
    assert!(all[..5].iter().all(|m| m.kind == MetricKind::Counter));
    assert_eq!(all[5].kind, MetricKind::Gauge);
    assert_eq!(all[0].help, "Total distribution jobs created.");
    assert_eq!(all[5].help, "Per-node fraction of chunks completed (0.0 – 1.0).");
    let measured = [
        Measurement::JobCreated,
        Measurement::JobComplete,
        Measurement::PeerQuery { job_id: "j".into() },
        Measurement::ChunkReceived,
        Measurement::ChunkServed,
        Measurement::NodeCompletion {
            job_id: "j".into(),
            node_id: "n".into(),
            ratio: Ratio { num: 1, den: 2 },
        },
    ];
    for (m, d) in measured.iter().zip(all) {
        assert_eq!(m.metric(), d.name);
    }
}
