use std::collections::HashMap;

use model_dist::bitmap::ChunkBitmap;
use model_dist::error::DistError;
use model_dist::hash::hash_bytes;
use model_dist::manifest::Manifest;
use model_dist::paths::chunk_path;
use model_dist::peer::chunk_server::{chunk_request, chunk_response};
use model_dist::peer::downloader::{
    backoff_ms, fetch_order, knows_chunk, next_round, resume_chunk, round_chunks, ChunkFetch,
    FetchAction, FetchEvent, Transfer,
};
use model_dist::peer::{PeerNode, PeerNodeConfig};
use model_dist::proto::wire::{read_u32, read_u64};
use model_dist::proto::{PeerInfo, Request};

fn peer(id: &str) -> PeerInfo {
    PeerInfo {
        node_id: id.into(),
        peer_addr: format!("{id}:1"),
        rack_id: "r".into(),
        upload_bw_mbps: 1,
    }
}

fn config() -> PeerNodeConfig {
    PeerNodeConfig {
        tracker_addr: "t:1".into(),
        peer_addr: "p:1".into(),
        rack_id: "r".into(),
        job_id: "j".into(),
        data_dir: "/d".into(),
        concurrency: 8,
    }
}

#[test]
fn chunk_requests_on_the_wire() {
    let bytes = chunk_request("job-é", 0x0102_0304);
    let id = "job-é".as_bytes();
    assert_eq!(read_u32(&bytes[..4]) as usize, id.len());
    assert_eq!(&bytes[4..4 + id.len()], id);
    assert_eq!(read_u32(&bytes[4 + id.len()..]), 0x0102_0304);
    assert_eq!(chunk_request("ab", 1), vec![0, 0, 0, 2, b'a', b'b', 0, 0, 0, 1]);
}

#[test]
fn chunk_responses_on_the_wire() {
    let bytes = chunk_response(Some(&[7, 8, 9]));
    assert_eq!(bytes, vec![0, 0, 0, 0, 0, 0, 0, 0, 0, 0, 0, 3, 7, 8, 9]);
    assert_eq!(read_u64(&bytes[4..12]), 3);
    assert_eq!(chunk_response(None), vec![0, 0, 0, 1]);
}

/// Hands a response to a transfer, piece by piece, and gives back what is to be stored.
fn receive(m: &Manifest, chunk: u32, sent: &[u8], bm: &mut ChunkBitmap) -> Result<(), DistError> {
    let mut t = Transfer::new(m, "node-1", chunk);
    let mut pos = 0usize;
    while let Some(n) = t.wanted() {
        assert_eq!(t.chunk(), None);
        t = t.feed(m, sent[pos..pos + n as usize].to_vec())?;
        pos += n as usize;
    }
    assert_eq!(pos, sent.len());
    assert_eq!(t.chunk().unwrap(), &sent[12..]);
    t.stored(m, bm);
    Ok(())
}

#[test]
fn served_chunk_arrives() {
    let data = b"abcdefgh";
    let m = Manifest::build("f", "1", data, 3).unwrap();
    let mut bm = ChunkBitmap::new(m.chunk_count);
    for i in 0..m.chunk_count {
        let (s, e) = m.chunk_range(i);
        let sent = chunk_response(Some(&data[s as usize..e as usize]));
        assert_eq!(receive(&m, i, &sent, &mut bm), Ok(()));
        assert!(bm.has(i));
    }
    assert!(bm.is_complete());
    assert_eq!(next_round(&bm), None);
}

#[test]
fn bad_responses_are_reported() {
    let m = Manifest::build("f", "1", b"abcdefgh", 3).unwrap();
    let mut bm = ChunkBitmap::new(3);
    assert_eq!(
        receive(&m, 2, &chunk_response(None), &mut bm),
        Err(DistError::Proto("peer node-1 returned error status 1 for chunk 2".into()))
    );
    assert_eq!(
        receive(&m, 2, &chunk_response(Some(b"ghi")), &mut bm),
        Err(DistError::Proto("chunk 2: expected 2 bytes, got 3".into()))
    );
    assert_eq!(
        receive(&m, 2, &chunk_response(Some(b"gx")), &mut bm),
        Err(DistError::HashMismatch {
            index: 2,
            expected: hash_bytes(b"gh"),
            actual: hash_bytes(b"gx"),
        })
    );
    assert_eq!(bm.completed_count(), 0);
    assert!(knows_chunk(&m, 2));
    assert!(!knows_chunk(&m, 3));
    assert!(!knows_chunk(&m, u32::MAX));
}

#[test]
fn rounds_take_missing_chunks() {
    let mut bm = ChunkBitmap::new(6);
    bm.mark_complete(1);
    bm.mark_complete(4);
    let missing = next_round(&bm).unwrap();
    assert_eq!(missing, vec![0, 2, 3, 5]);
    assert_eq!(round_chunks(&missing, 1), vec![0, 2]);
    assert_eq!(round_chunks(&missing, 8), vec![0, 2, 3, 5]);
    assert!(round_chunks(&missing, 0).is_empty());
}

#[test]
fn tracker_ranking_is_followed() {
    let missing = vec![0u32, 2, 3, 5];
    let ranked = vec![(3, 0), (0, 1), (5, 1), (2, 4)];
    assert_eq!(fetch_order(missing.clone(), Some(ranked)), vec![3, 0, 5, 2]);
    assert_eq!(fetch_order(missing.clone(), None), missing);
    // Rankings of other chunks are ignored.
    for bad in [
        vec![(3, 0), (0, 1), (5, 1)],
        vec![(3, 0), (0, 1), (5, 1), (1, 4)],
        vec![(3, 0), (0, 1), (5, 1), (5, 4)],
        vec![],
    ] {
        assert_eq!(fetch_order(missing.clone(), Some(bad)), missing);
    }
    assert!(fetch_order(vec![], Some(vec![])).is_empty());
}

#[test]
fn backoff_doubles() {
    assert_eq!(backoff_ms(0), 200);
    assert_eq!(backoff_ms(1), 400);
    assert_eq!(backoff_ms(2), 800);
    assert_eq!(backoff_ms(10), 204_800);
    assert_eq!(backoff_ms(56), 200 << 56);
}

#[test]
fn fetch_tries_peers_in_turn() {
    let f = ChunkFetch::new();
    assert!(matches!(f.action(), FetchAction::AskTracker));
    let f = f.step(FetchEvent::Peers(vec![peer("a"), peer("b")]));
    assert!(matches!(f.action(), FetchAction::Download(p) if p.node_id == "a"));
    let f = f.step(FetchEvent::DownloadFailed);
    assert!(matches!(f.action(), FetchAction::Download(p) if p.peer_addr == "b:1"));
    let f = f.step(FetchEvent::Downloaded);
    assert!(matches!(f.action(), FetchAction::Finish(true)));
}

#[test]
fn fetch_gives_up_after_three_attempts() {
    let mut f = ChunkFetch::new();
    let mut pauses = Vec::new();
    let mut queries = 0;
    loop {
        f = match f.action() {
            FetchAction::AskTracker => {
                queries += 1;
                match queries {
                    1 => f.step(FetchEvent::QueryFailed),
                    2 => f.step(FetchEvent::Peers(vec![])),
                    _ => f.step(FetchEvent::Peers(vec![peer("a")])),
                }
            }
            FetchAction::Download(_) => f.step(FetchEvent::DownloadFailed),
            FetchAction::Pause(ms) => {
                pauses.push(ms);
                f.step(FetchEvent::Paused)
            }
            FetchAction::Finish(done) => {
                assert!(!done);
                break;
            }
        };
    }
    assert_eq!(queries, 3);
    assert_eq!(pauses, vec![200, 400, 800]);
}

#[test]
fn chunks_on_disk_are_resumed() {
    let m = Manifest::build("f", "1", b"abcdef", 2).unwrap();
    let mut bm = ChunkBitmap::new(3);
    assert!(resume_chunk(&m, &mut bm, 0, Some(b"ab")));
    assert!(!resume_chunk(&m, &mut bm, 1, Some(b"xx")));
    assert!(!resume_chunk(&m, &mut bm, 2, None));
    assert_eq!(bm.missing(), vec![1, 2]);
}

#[test]
fn finished_download_is_on_disk() {
    let data = b"abcdefgh";
    let m = Manifest::build("f", "1", data, 3).unwrap();
    let mut disk: HashMap<String, Vec<u8>> = HashMap::new();
    disk.insert(chunk_path("/d", "f", 0), b"abc".to_vec());
    disk.insert(chunk_path("/d", "f", 1), b"xyz".to_vec());
    disk.insert("/d/other".into(), b"kept".to_vec());
    let mut bm = ChunkBitmap::new(m.chunk_count);
    for i in 0..m.chunk_count {
        let found = disk.get(&chunk_path("/d", "f", i));
        resume_chunk(&m, &mut bm, i, found.map(|v| v.as_slice()));
    }
    assert_eq!(next_round(&bm), Some(vec![1, 2]));
    while let Some(missing) = next_round(&bm) {
        for i in missing {
            let (s, e) = m.chunk_range(i);
            let chunk = &data[s as usize..e as usize];
            let mut wrong = chunk.to_vec();
            wrong[0] ^= 1;
            assert!(receive(&m, i, &chunk_response(Some(&wrong)), &mut bm).is_err());
            assert!(!bm.has(i));
            assert_eq!(receive(&m, i, &chunk_response(Some(chunk)), &mut bm), Ok(()));
            disk.insert(chunk_path("/d", "f", i), chunk.to_vec());
        }
    }
    for i in 0..m.chunk_count {
        assert_eq!(m.verify_chunk(i, &disk[&chunk_path("/d", "f", i)]), Ok(()));
    }
    assert_eq!(disk["/d/other"], b"kept".to_vec());
    assert_eq!(disk.len(), 4);
}

#[test]
fn node_has_random_id() {
    let a = PeerNode::new(config());
    let b = PeerNode::new(config());
    assert_ne!(a.node_id, b.node_id);
    assert_eq!(a.node_id.len(), 36);
    assert_eq!(a.config.job_id, "j");
    assert_eq!(PeerNode::with_id("n".into(), config()).node_id, "n");
}

#[test]
fn node_reports_and_downloads() {
    let n = PeerNode::with_id("n".into(), config());
    let mut bm = ChunkBitmap::new(3);
    bm.mark_complete(0);
    match n.heartbeat(&bm) {
        Request::Heartbeat {
            job_id,
            node_id,
            rack_id,
            peer_addr,
            bitmap_bytes,
            upload_bw_mbps,
        } => {
            assert_eq!((job_id.as_str(), node_id.as_str()), ("j", "n"));
            assert_eq!((rack_id.as_str(), peer_addr.as_str()), ("r", "p:1"));
            assert_eq!(bitmap_bytes.len(), 1);
            assert_eq!(bitmap_bytes[0] & 0b1110_0000, 0b1000_0000);
            assert_eq!(upload_bw_mbps, 8_000);
        }
        other => panic!("{:?}", other),
    }
    let m = Manifest::build("f", "1", b"abc", 1).unwrap();
    let d = n.downloader_config(&m);
    assert_eq!((d.node_id.as_str(), d.job_id.as_str()), ("n", "j"));
    assert_eq!((d.rack_id.as_str(), d.tracker_addr.as_str()), ("r", "t:1"));
    assert_eq!((d.data_dir.as_str(), d.concurrency), ("/d", 8));
    assert_eq!(d.manifest, m);
}
