use model_dist::error::DistError;
use model_dist::hash::hash_bytes;
use model_dist::manifest::{Manifest, ManifestBuilder};

fn make_data(size: usize) -> Vec<u8> {
    (0u8..=255).cycle().take(size).collect()
}

#[test]
fn manifest_chunk_count() {
    let data = make_data(200 * 1024 * 1024);
    let m = Manifest::build("m", "1", &data, 50 * 1024 * 1024).unwrap();
    assert_eq!(m.chunk_count, 4);
}

#[test]
fn manifest_verify_ok() {
    let data = make_data(100 * 1024 * 1024);
    let m = Manifest::build("m", "1", &data, 50 * 1024 * 1024).unwrap();
    let (s, e) = m.chunk_range(0);
    m.verify_chunk(0, &data[s as usize..e as usize]).unwrap();
}

#[test]
fn manifest_verify_corrupt() {
    let data = make_data(100 * 1024 * 1024);
    let m = Manifest::build("m", "1", &data, 50 * 1024 * 1024).unwrap();
    let mut corrupt = data[..50 * 1024 * 1024].to_vec();
    corrupt[0] ^= 0xFF;
    assert!(m.verify_chunk(0, &corrupt).is_err());
}

#[test]
fn digest_text_is_lowercase_hex_sha256() {
    assert_eq!(
        hash_bytes(b""),
        "e3b0c44298fc1c149afbf4c8996fb92427ae41e4649b934ca495991b7852b855"
    );
    assert_eq!(
        hash_bytes(b"abc"),
        "ba7816bf8f01cfea414140de5dae2223b00361a396177a9cb410ff61f20015ad"
    );
}

#[test]
fn manifest_of_small_file() {
    let m = Manifest::build("model", "1.2", b"abcde", 3).unwrap();
    assert_eq!(m.file_id, "model");
    assert_eq!(m.version, "1.2");
    assert_eq!(m.total_size, 5);
    assert_eq!(m.chunk_size, 3);
    assert_eq!(m.chunk_count, 2);
    assert_eq!(m.chunk_hashes, vec![hash_bytes(b"abc"), hash_bytes(b"de")]);
    assert_eq!(m.chunk_range(0), (0, 3));
    assert_eq!(m.chunk_range(1), (3, 5));
    assert_eq!(m.clone(), m);
}

#[test]
fn manifest_of_empty_file_has_no_chunks() {
    let m = Manifest::build("model", "1", b"", 3).unwrap();
    assert_eq!(m.chunk_count, 0);
    assert!(m.chunk_hashes.is_empty());
}

#[test]
fn mismatch_names_chunk_and_digests() {
    let m = Manifest::build("model", "1", b"abcde", 3).unwrap();
    let e = m.verify_chunk(1, b"xy").unwrap_err();
    assert_eq!(
        e,
        DistError::HashMismatch {
            index: 1,
            expected: hash_bytes(b"de"),
            actual: hash_bytes(b"xy"),
        }
    );
    assert_eq!(
        e.message(),
        format!(
            "chunk hash mismatch for chunk 1: expected={} got={}",
            hash_bytes(b"de"),
            hash_bytes(b"xy")
        )
    );
}

#[test]
fn streamed_manifest_equals_built_one() {
    let data = make_data(1000);
    let mut builder = ManifestBuilder::new("f", "v", 1000, 300);
    let mut pos = 0usize;
    let mut lens = Vec::new();
    while let Some(n) = builder.next_len() {
        lens.push(n);
        builder.push_chunk(&data[pos..pos + n as usize]);
        pos += n as usize;
    }
    assert_eq!(lens, vec![300, 300, 300, 100]);
    assert_eq!(builder.finish(), Manifest::build("f", "v", &data, 300).unwrap());
}

#[test]
fn error_messages() {
    assert_eq!(DistError::NoPeers(7).message(), "no peers available for chunk 7");
    assert_eq!(DistError::JobNotFound("j".into()).message(), "job not found: j");
    assert_eq!(DistError::NodeNotFound("n".into()).message(), "node not found: n");
    assert_eq!(
        DistError::ErasureError("bad".into()).message(),
        "erasure coding error: bad"
    );
    assert_eq!(DistError::Proto("bad".into()).message(), "protocol error: bad");
}

#[test]
fn chunk_size_may_exceed_the_file() {
    let m = Manifest::build("f", "v", b"ab", u64::MAX).unwrap();
    assert_eq!(m.chunk_count, 1);
    assert_eq!(m.chunk_range(0), (0, 2));
    assert_eq!(m.verify_chunk(0, b"ab"), Ok(()));
    let mut builder = ManifestBuilder::new("f", "v", 2, u64::MAX);
    assert_eq!(builder.next_len(), Some(2));
    builder.push_chunk(b"ab");
    assert_eq!(builder.next_len(), None);
    assert_eq!(builder.finish(), m);
}

#[test]
fn chunk_count_is_kept_in_its_field() {
    let full = ManifestBuilder::new("f", "v", u32::MAX as u64, 1);
    assert_eq!(full.next_len(), Some(1));
    assert_eq!(full.finish().chunk_count, u32::MAX);
    let mut cut = ManifestBuilder::new("f", "v", (1u64 << 32) + 1, 1);
    assert_eq!(cut.next_len(), Some(1));
    cut.push_chunk(b"a");
    assert_eq!(cut.next_len(), None);
    let m = cut.finish();
    assert_eq!(m.chunk_count, 1);
    assert_eq!(m.total_size, (1u64 << 32) + 1);
}
