use model_dist::erasure::ErasureCoder;
use model_dist::error::DistError;
use model_dist::stripes::{build_ec_stripes, reconstruct_stripe, TailConfig};

fn make_coder() -> ErasureCoder {
    ErasureCoder::new(4, 2).unwrap()
}

fn text(e: DistError) -> String {
    match e {
        DistError::ErasureError(text) => text,
        other => panic!("{:?}", other),
    }
}

#[test]
fn encode_decode_no_loss() {
    let coder = make_coder();
    let sz = 1024usize;
    let mut shards: Vec<Vec<u8>> = (0..6u8).map(|i| vec![i * 10; sz]).collect();
    for s in &mut shards[4..] {
        s.fill(0);
    }

    coder.encode(&mut shards).unwrap();

    let originals = shards.clone();
    let mut recv: Vec<Option<Vec<u8>>> = shards.into_iter().map(Some).collect();
    coder.reconstruct(&mut recv).unwrap();

    for i in 0..4 {
        assert_eq!(recv[i].as_ref().unwrap(), &originals[i]);
    }
}

#[test]
fn reconstruct_two_missing_data_shards() {
    let coder = make_coder();
    let sz = 1024usize;
    let mut shards: Vec<Vec<u8>> = (0..6u8).map(|i| vec![i * 7; sz]).collect();
    for s in &mut shards[4..] {
        s.fill(0);
    }
    coder.encode(&mut shards).unwrap();

    let originals = shards.clone();
    // Lose data shard 1 and data shard 3
    let mut recv: Vec<Option<Vec<u8>>> = shards
        .into_iter()
        .enumerate()
        .map(|(i, s)| if i == 1 || i == 3 { None } else { Some(s) })
        .collect();
    coder.reconstruct(&mut recv).unwrap();
    assert_eq!(recv[1].as_ref().unwrap(), &originals[1]);
    assert_eq!(recv[3].as_ref().unwrap(), &originals[3]);
}

#[test]
fn reconstruct_fails_with_too_few_shards() {
    let coder = make_coder(); // k=4, m=2 → need 4 present
    let sz = 512usize;
    let mut shards: Vec<Vec<u8>> = (0..6).map(|_| vec![1u8; sz]).collect();
    for s in &mut shards[4..] {
        s.fill(0);
    }
    coder.encode(&mut shards).unwrap();

    // Lose 3 shards (only 3 remain → cannot reconstruct k=4)
    let mut recv: Vec<Option<Vec<u8>>> = shards
        .into_iter()
        .enumerate()
        .map(|(i, s)| if i < 3 { None } else { Some(s) })
        .collect();
    assert!(coder.reconstruct(&mut recv).is_err());
}

#[test]
fn split_and_merge() {
    let coder = ErasureCoder::new(4, 2).unwrap();
    let data: Vec<u8> = (0..=255u8).cycle().take(1000).collect();
    let shards = coder.split_into_shards(&data);
    assert_eq!(shards.len(), 4);

    let wrapped: Vec<Option<Vec<u8>>> = shards.into_iter().map(Some).collect();
    let merged = ErasureCoder::merge_shards(&wrapped, data.len(), 4);
    assert_eq!(merged, data);
}

#[test]
fn build_ec_stripes_produces_correct_shard_count() {
    let cfg = TailConfig::default(); // k=4, m=2
    let chunks: Vec<(u32, Vec<u8>)> = (0..4)
        .map(|i| (i as u32, vec![i as u8 * 5; 512]))
        .collect();
    let stripes = build_ec_stripes(&chunks, &cfg).unwrap();
    assert_eq!(stripes.len(), 1);
    assert_eq!(stripes[0].shards.len(), 6); // k+m
}

#[test]
fn coder_refuses_impossible_shard_numbers() {
    assert_eq!(
        text(ErasureCoder::new(0, 2).unwrap_err()),
        "The number of provided data shards is smaller than the one in codec"
    );
    assert_eq!(
        text(ErasureCoder::new(2, 0).unwrap_err()),
        "The number of provided parity shards is smaller than the one in codec"
    );
    assert_eq!(
        text(ErasureCoder::new(200, 57).unwrap_err()),
        "The number of provided shards is greater than the one in codec"
    );
    assert!(ErasureCoder::new(200, 56).is_ok());
    assert_eq!(ErasureCoder::new(3, 2).unwrap().total_shards(), 5);
}

#[test]
fn encode_refusals() {
    let coder = make_coder();
    let mut few: Vec<Vec<u8>> = vec![vec![1u8; 4]; 5];
    assert_eq!(text(coder.encode(&mut few).unwrap_err()), "expected 6 shards, got 5");
    let mut empty: Vec<Vec<u8>> = vec![Vec::new(); 6];
    assert_eq!(
        text(coder.encode(&mut empty).unwrap_err()),
        "The first shard provided is of zero length"
    );
    let mut uneven: Vec<Vec<u8>> = vec![vec![1u8; 4]; 6];
    uneven[5].push(1);
    assert_eq!(
        text(coder.encode(&mut uneven).unwrap_err()),
        "At least one of the provided shards is not of the correct size"
    );
    assert_eq!(uneven[5], vec![1u8; 5]);
}

#[test]
fn reconstruct_refusals() {
    let coder = make_coder();
    let mut few: Vec<Option<Vec<u8>>> = vec![Some(vec![1]), None, None, None, Some(vec![2]), None];
    assert_eq!(
        text(coder.reconstruct(&mut few).unwrap_err()),
        "need 4 shards to reconstruct, only 2 available"
    );
    assert_eq!(few[1], None);
    let mut short: Vec<Option<Vec<u8>>> = vec![Some(vec![1]); 5];
    assert_eq!(
        text(coder.reconstruct(&mut short).unwrap_err()),
        "The number of provided shards is smaller than the one in codec"
    );
    let mut uneven: Vec<Option<Vec<u8>>> = vec![Some(vec![1]); 6];
    uneven[2] = Some(vec![1, 2]);
    assert_eq!(
        text(coder.reconstruct(&mut uneven).unwrap_err()),
        "At least one of the provided shards is not of the correct size"
    );
}

#[test]
fn parity_depends_on_data() {
    let coder = make_coder();
    let mut a: Vec<Vec<u8>> = vec![vec![1], vec![2], vec![3], vec![4], vec![0], vec![0]];
    coder.encode(&mut a).unwrap();
    let mut b: Vec<Vec<u8>> = vec![vec![1], vec![2], vec![3], vec![5], vec![0], vec![0]];
    coder.encode(&mut b).unwrap();
    assert_eq!(a[..4], [vec![1], vec![2], vec![3], vec![4]]);
    assert_ne!(a[4], b[4]);
    assert_ne!(a[5], b[5]);
}

#[test]
fn split_pads_with_zeros() {
    let coder = make_coder();
    let shards = coder.split_into_shards(&[1, 2, 3, 4, 5]);
    assert_eq!(shards, vec![vec![1, 2], vec![3, 4], vec![5, 0], vec![0, 0]]);
    let wrapped: Vec<Option<Vec<u8>>> = shards.into_iter().map(Some).collect();
    assert_eq!(ErasureCoder::merge_shards(&wrapped, 3, 4), vec![1, 2, 3]);
    assert_eq!(ErasureCoder::merge_shards(&wrapped, 100, 2), vec![1, 2, 3, 4]);
}

#[test]
fn default_tail_config() {
    let cfg = TailConfig::default();
    assert_eq!(cfg.activation_threshold.num, 95);
    assert_eq!(cfg.activation_threshold.den, 100);
    assert_eq!(cfg.data_shards, 4);
    assert_eq!(cfg.parity_shards, 2);
    assert_eq!(cfg.scarce_threshold, 3);
}

#[test]
fn stripe_gives_back_chunks_from_any_k_shards() {
    let cfg = TailConfig::default();
    let chunks: Vec<(u32, Vec<u8>)> = vec![
        (3, vec![1, 2, 3]),
        (5, vec![4]),
        (8, vec![5, 6]),
        (9, vec![7, 8, 9]),
        (12, vec![10, 11]),
    ];
    let stripes = build_ec_stripes(&chunks, &cfg).unwrap();
    assert_eq!(stripes.len(), 2);
    assert_eq!(stripes[0].chunk_indices, vec![3, 5, 8, 9]);
    assert_eq!(stripes[0].shard_size, 3);
    assert_eq!(stripes[1].chunk_indices, vec![12]);
    assert_eq!(stripes[1].shard_size, 2);
    let want = vec![1, 2, 3, 4, 0, 0, 5, 6, 0, 7, 8, 9];
    let present: [[usize; 4]; 3] = [[0, 1, 2, 3], [5, 4, 1, 0], [2, 3, 4, 5]];
    for p in present {
        assert_eq!(reconstruct_stripe(&stripes[0], &p, &cfg).unwrap(), want);
    }
    assert_eq!(
        reconstruct_stripe(&stripes[1], &[1, 2, 4, 5], &cfg).unwrap(),
        vec![10, 11, 0, 0, 0, 0, 0, 0]
    );
    assert_eq!(
        text(reconstruct_stripe(&stripes[0], &[0, 1, 2], &cfg).unwrap_err()),
        "need 4 shards to reconstruct, only 3 available"
    );
}

#[test]
fn stripes_of_empty_chunks_are_refused() {
    let cfg = TailConfig::default();
    let chunks: Vec<(u32, Vec<u8>)> = vec![(0, vec![]), (1, vec![])];
    assert_eq!(
        text(build_ec_stripes(&chunks, &cfg).unwrap_err()),
        "The first shard provided is of zero length"
    );
    assert!(build_ec_stripes(&[], &cfg).unwrap().is_empty());
    let bad = TailConfig { data_shards: 0, ..cfg };
    assert_eq!(
        text(build_ec_stripes(&chunks, &bad).unwrap_err()),
        "The number of provided data shards is smaller than the one in codec"
    );
}

#[test]
fn repeated_and_unknown_indices_add_nothing() {
    let cfg = TailConfig::default();
    let chunks: Vec<(u32, Vec<u8>)> = vec![(0, vec![1]), (1, vec![2]), (2, vec![3])];
    let stripes = build_ec_stripes(&chunks, &cfg).unwrap();
    assert_eq!(
        text(reconstruct_stripe(&stripes[0], &[0, 1, 1, 0, 5, 6, 99], &cfg).unwrap_err()),
        "need 4 shards to reconstruct, only 3 available"
    );
    assert_eq!(
        reconstruct_stripe(&stripes[0], &[5, 1, 1, 4, 0, 99], &cfg).unwrap(),
        vec![1, 2, 3, 0]
    );
}

#[test]
fn empty_data_splits_and_merges() {
    let coder = ErasureCoder::new(4, 2).unwrap();
    let shards = coder.split_into_shards(&[]);
    assert_eq!(shards, vec![Vec::<u8>::new(); 4]);
    let wrapped: Vec<Option<Vec<u8>>> = shards.into_iter().map(Some).collect();
    assert!(ErasureCoder::merge_shards(&wrapped, 0, 4).is_empty());
}

#[test]
fn parity_behind_the_data_is_not_merged() {
    let coder = ErasureCoder::new(4, 2).unwrap();
    let mut shards: Vec<Option<Vec<u8>>> =
        coder.split_into_shards(b"abcdefghi").into_iter().map(Some).collect();
    shards.push(Some(vec![0xFF; 3]));
    shards.push(None);
    assert_eq!(ErasureCoder::merge_shards(&shards, 9, 4), b"abcdefghi".to_vec());
}
