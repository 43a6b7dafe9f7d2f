use model_dist::bitmap::ChunkBitmap;
use model_dist::error::DistError;
use model_dist::hash::hash_bytes;
use model_dist::manifest::Manifest;
use model_dist::swarm::{
    can_answer, chunk_url, range_header, scarce_chunks, tail_phase_ec, verify_chunk, PeerNode,
    Step, Tracker,
};

fn bits(bytes: &[u8], n: u32) -> ChunkBitmap {
    ChunkBitmap::from_bytes(bytes, n)
}

fn tracker() -> Tracker {
    let mut t = Tracker::new(4);
    t.update_node("a".into(), bits(&[0b1111_0000], 4), 10, "r1".into(), 0);
    t.update_node("b".into(), bits(&[0b1100_0000], 4), 30, "r2".into(), 0);
    t.update_node("c".into(), bits(&[0b1000_0000], 4), 20, "r1".into(), 0);
    t
}

fn ids(list: &[(u32, Vec<model_dist::swarm::CandidatePeer>)]) -> Vec<(u32, Vec<String>)> {
    list.iter()
        .map(|(c, peers)| (*c, peers.iter().map(|p| p.node_id.clone()).collect()))
        .collect()
}

fn node(bitmap: ChunkBitmap) -> PeerNode {
    PeerNode {
        node_id: "me".into(),
        rack_id: "r2".into(),
        manifest: Manifest::build("f", "1", b"abcd", 1).unwrap(),
        bitmap,
        max_concurrent: 1,
    }
}

#[test]
fn rarest_chunks_come_first_from_fastest_peers() {
    let t = tracker();
    assert_eq!(t.replica_counts(), vec![3, 2, 1, 1]);
    let got = t.get_peers_rarity_first("me", &[0, 1, 2, 3], 3);
    assert_eq!(
        ids(&got),
        vec![
            (2, vec!["a".to_string()]),
            (3, vec!["a".to_string()]),
            (1, vec!["b".to_string(), "a".to_string()]),
        ]
    );
    assert_eq!(got[2].1[0].rack_id, "r2");
    assert_eq!(got[2].1[0].upload_bw, 30);
    // The requester does not count as a holder of its own.
    assert_eq!(
        ids(&t.get_peers_rarity_first("a", &[0, 2], 5)),
        vec![(2, vec![]), (0, vec!["b".to_string(), "c".to_string()])]
    );
    assert!(t.get_peers_rarity_first("me", &[], 5).is_empty());
}

#[test]
fn local_peers_come_first() {
    let t = tracker();
    assert_eq!(
        ids(&t.get_peers_topology_aware("me", "r1", &[0, 1, 2], 2)),
        vec![
            (0, vec!["c".to_string(), "a".to_string(), "b".to_string()]),
            (1, vec!["a".to_string(), "b".to_string()]),
        ]
    );
}

#[test]
fn updates_replace_a_node() {
    let mut t = tracker();
    t.update_node("b".into(), bits(&[0b0010_0000], 4), 5, "r9".into(), 1);
    assert_eq!(t.replica_counts(), vec![2, 1, 2, 1]);
    let got = t.get_peers_rarity_first("me", &[2], 1);
    assert_eq!(ids(&got), vec![(2, vec!["a".to_string(), "b".to_string()])]);
    assert_eq!(got[0].1[1].rack_id, "r9");
}

#[test]
fn short_bitmaps_cannot_answer() {
    let mut t = Tracker::new(16);
    t.update_node("a".into(), bits(&[0xFF], 16), 1, "r".into(), 0);
    assert!(can_answer(&t, "me", 7));
    assert!(!can_answer(&t, "me", 8));
    assert!(can_answer(&t, "a", 8));
}

#[test]
fn chunk_digests_are_checked() {
    assert_eq!(verify_chunk(b"ab", &hash_bytes(b"ab")), Ok(()));
    assert_eq!(
        verify_chunk(b"ab", "00"),
        Err(format!("chunk hash mismatch: expected=00 got={}", hash_bytes(b"ab")))
    );
}

#[test]
fn chunks_are_fetched_by_range() {
    let m = Manifest::build("llama", "1", b"abcdefgh", 3).unwrap();
    assert_eq!(chunk_url("host:80", &m, 2), "http://host:80/chunks/llama/2");
    assert_eq!(range_header(&m, 0), "bytes=0-2");
    assert_eq!(range_header(&m, 2), "bytes=6-7");
}

#[test]
fn node_plans_fetches_and_reports() {
    let mut t = tracker();
    let mut n = node(ChunkBitmap::new(4));
    match n.plan(&t) {
        Step::Fetch(got) => assert_eq!(
            ids(&got),
            vec![(2, vec!["a".to_string()]), (3, vec!["a".to_string()])]
        ),
        other => panic!("{:?}", other),
    }
    assert!(!n.receive(2, None));
    assert!(!n.receive(2, Some(b"x")));
    assert!(!n.bitmap.has(2));
    assert!(n.receive(2, Some(b"c")));
    assert!(n.bitmap.has(2));
    n.report(&mut t, 5);
    assert_eq!(t.replica_counts(), vec![3, 2, 2, 1]);
    let got = t.get_peers_rarity_first("x", &[2], 1);
    assert_eq!(got[0].1[0].node_id, "me");
    assert_eq!(got[0].1[0].upload_bw, 8_000);
    for (i, data) in [b"a", b"b", b"c", b"d"].iter().enumerate() {
        n.receive(i as u32, Some(*data));
    }
    assert!(matches!(n.plan(&t), Step::Done));
}

#[test]
fn node_waits_when_it_may_fetch_nothing() {
    let mut n = node(ChunkBitmap::new(4));
    n.max_concurrent = 0;
    assert!(matches!(n.plan(&tracker()), Step::Wait(200)));
}

#[test]
fn node_of_an_empty_file_waits() {
    let n = node(ChunkBitmap::new(0));
    assert!(n.bitmap.is_complete());
    assert!(matches!(n.plan(&Tracker::new(0)), Step::Wait(200)));
}

#[test]
fn last_byte_of_a_range_is_in_the_file() {
    let m = Manifest::build("f", "1", b"ab", u64::MAX).unwrap();
    assert_eq!(range_header(&m, 0), "bytes=0-1");
}

#[test]
fn scarce_chunks_have_few_holders() {
    assert_eq!(scarce_chunks(&vec![3, 2, 0, 5, 1]), vec![1, 2, 4]);
    assert!(scarce_chunks(&vec![]).is_empty());
}

#[test]
fn tail_phase_encodes_full_stripes() {
    let m = Manifest::build("f", "1", b"abcd", 1).unwrap();
    let t = tracker(); // chunks 1, 2 and 3 are scarce
    assert_eq!(tail_phase_ec(&t, &m, 3, 2), Ok(()));
    assert_eq!(tail_phase_ec(&t, &m, 1, 2), Ok(()));
    assert_eq!(
        tail_phase_ec(&t, &m, 2, 1),
        Err(DistError::ErasureError(
            "The number of provided shards is smaller than the one in codec".into()
        ))
    );
    assert_eq!(
        tail_phase_ec(&t, &m, 0, 1),
        Err(DistError::ErasureError(
            "The number of provided data shards is smaller than the one in codec".into()
        ))
    );
    let empty = Manifest { chunk_size: 0, ..m.clone() };
    assert_eq!(
        tail_phase_ec(&t, &empty, 3, 1),
        Err(DistError::ErasureError(
            "The first shard provided is of zero length".into()
        ))
    );
    let mut full = Tracker::new(1);
    for id in ["a", "b", "c"] {
        full.update_node(id.into(), bits(&[0x80], 1), 1, "r".into(), 0);
    }
    assert_eq!(tail_phase_ec(&full, &m, 4, 2), Ok(()));
}
