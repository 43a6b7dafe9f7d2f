use model_dist::bitmap::ChunkBitmap;
use model_dist::ratio::Ratio;

fn value(r: Ratio) -> f64 {
    r.num as f64 / r.den as f64
}

#[test]
fn bitmap_operations() {
    let mut bm = ChunkBitmap::new(10);
    assert_eq!(value(bm.completion_ratio()), 0.0);
    assert!(bm.mark_complete(0));
    assert!(!bm.mark_complete(0)); // idempotent
    bm.mark_complete(5);
    assert!(bm.has(0));
    assert!(!bm.has(1));
    assert_eq!(bm.completed_count(), 2);
    let missing = bm.missing();
    assert_eq!(missing.len(), 8);
    assert!(!missing.contains(&0));
    assert!(!missing.contains(&5));
}

#[test]
fn bitmap_round_trip() {
    let mut bm = ChunkBitmap::new(16);
    bm.mark_complete(0);
    bm.mark_complete(7);
    bm.mark_complete(15);
    let bytes = bm.as_bytes().to_vec();
    let bm2 = ChunkBitmap::from_bytes(&bytes, 16);
    assert!(bm2.has(0));
    assert!(bm2.has(7));
    assert!(bm2.has(15));
    assert!(!bm2.has(1));
    assert_eq!(bm2.completed_count(), 3);
}

#[test]
fn bitmap_bytes_have_first_chunk_in_top_bit() {
    let mut bm = ChunkBitmap::new(10);
    bm.mark_complete(0);
    bm.mark_complete(9);
    let bytes = bm.as_bytes();
    assert_eq!(bytes.len(), 2);
    assert_eq!(bytes[0], 0b1000_0000);
    assert_eq!(bytes[1] & 0b1100_0000, 0b0100_0000);
}

#[test]
fn bitmap_ignores_bits_behind_last_chunk() {
    let bm = ChunkBitmap::from_bytes(&[0xFF, 0xFF], 10);
    assert_eq!(bm.completed_count(), 10);
    assert!(bm.is_complete());
    assert!(!bm.has(10));
    assert!(bm.missing().is_empty());
}

#[test]
fn bitmap_shorter_than_file() {
    let bm = ChunkBitmap::from_bytes(&[0xFF], 10);
    assert_eq!(bm.completed_count(), 8);
    assert_eq!(bm.chunk_count(), 10);
    assert!(!bm.is_complete());
    assert!(bm.covers(7));
    assert!(!bm.covers(8));
    assert!(bm.covers(10));
}

#[test]
fn bitmap_ratio_and_completion() {
    let mut bm = ChunkBitmap::new(10);
    bm.mark_complete(0);
    bm.mark_complete(5);
    assert_eq!(bm.completion_ratio(), Ratio { num: 2, den: 10 });
    assert!(!bm.mark_complete(10));
    for i in 0..10 {
        assert!(!bm.is_complete());
        bm.mark_complete(i);
    }
    assert!(bm.is_complete());
    assert_eq!(bm.completion_ratio(), Ratio { num: 10, den: 10 });
    assert!(ChunkBitmap::new(0).is_complete());
    assert_eq!(ChunkBitmap::new(0).completion_ratio(), Ratio { num: 1, den: 1 });
}

#[test]
fn bitmap_copy_is_independent() {
    let mut bm = ChunkBitmap::new(9);
    bm.mark_complete(8);
    let copy = bm.clone();
    bm.mark_complete(1);
    assert!(copy.has(8));
    assert!(!copy.has(1));
    assert_eq!(copy.completed_count(), 1);
    assert_eq!(copy.missing(), vec![0, 1, 2, 3, 4, 5, 6, 7]);
}
