use model_dist::delta::{DeltaPatch, PatchApplicator, Removal};
use model_dist::error::DistError;
use model_dist::hash::hash_bytes;
use model_dist::manifest::Manifest;
use model_dist::paths::chunk_path;
use model_dist::ratio::Ratio;

fn make_manifest(version: &str, data: &[u8]) -> Manifest {
    Manifest::build("model-x", version, data, 50 * 1024 * 1024).unwrap()
}

fn make_data(n: usize) -> Vec<u8> {
    (0u8..=255).cycle().take(n).collect()
}

fn value(r: Ratio) -> f64 {
    r.num as f64 / r.den as f64
}

fn small(version: &str, data: &[u8]) -> Manifest {
    Manifest::build("m", version, data, 2).unwrap()
}

#[test]
fn no_change() {
    let data = make_data(100 * 1024 * 1024);
    let m1 = make_manifest("1.0", &data);
    let m2 = make_manifest("1.0.1", &data);
    let p = DeltaPatch::compute(&m1, &m2);
    assert_eq!(p.changed.len(), 0);
    assert_eq!(p.unchanged.len(), 2);
    assert_eq!(p.deleted.len(), 0);
    assert!(value(p.transfer_reduction_pct()) > 99.0);
}

#[test]
fn one_chunk_changed() {
    let mut data = make_data(100 * 1024 * 1024);
    let m1 = make_manifest("1.0", &data);
    data[0] ^= 0xFF; // corrupt first byte → changes chunk 0
    let m2 = make_manifest("1.1", &data);
    let p = DeltaPatch::compute(&m1, &m2);
    assert_eq!(p.changed.len(), 1);
    assert!(p.changed.contains_key(&0));
    assert_eq!(p.unchanged.len(), 1);
}

#[test]
fn file_grew() {
    let data1 = make_data(100 * 1024 * 1024);
    let data2 = make_data(150 * 1024 * 1024);
    let m1 = make_manifest("1.0", &data1);
    let m2 = make_manifest("2.0", &data2);
    let p = DeltaPatch::compute(&m1, &m2);
    // chunk 2 (new) should be in changed
    assert!(p.changed.contains_key(&2));
    // chunk 0 and 1 unchanged
    assert!(p.unchanged.contains(&0));
    assert!(p.unchanged.contains(&1));
}

#[test]
fn file_shrank() {
    let data1 = make_data(150 * 1024 * 1024);
    let data2 = make_data(100 * 1024 * 1024);
    let m1 = make_manifest("1.0", &data1);
    let m2 = make_manifest("2.0", &data2);
    let p = DeltaPatch::compute(&m1, &m2);
    // chunk 2 should be deleted
    assert!(p.deleted.contains(&2));
    assert_eq!(p.deleted.len(), 1);
}

#[test]
fn chunks_to_fetch_sorted() {
    let data = make_data(200 * 1024 * 1024);
    let m1 = make_manifest("1.0", &data);
    let mut data2 = data.clone();
    data2[0] ^= 0xFF; // chunk 0
    data2[100 * 1024 * 1024] ^= 0xFF; // chunk 2
    let m2 = make_manifest("2.0", &data2);
    let p = DeltaPatch::compute(&m1, &m2);
    let fetch = p.chunks_to_fetch();
    assert_eq!(fetch, vec![0, 2]); // sorted
}

#[test]
fn patch_of_small_files() {
    let old = small("1", b"aabbccddee");
    let new = small("2", b"aaxxcc");
    let p = DeltaPatch::compute(&old, &new);
    assert_eq!(p.old_version, "1");
    assert_eq!(p.new_version, "2");
    assert_eq!(p.file_id, "m");
    assert_eq!(p.chunks_to_fetch(), vec![1]);
    assert_eq!(p.chunks_to_delete(), vec![3, 4]);
    assert_eq!(p.chunks_to_keep(), vec![0, 2]);
    assert_eq!(p.total_changed(), 1);
    assert_eq!(p.total_unchanged(), 2);
    assert_eq!(p.total_deleted(), 2);
    assert!(p.needs_fetch(1));
    assert!(!p.needs_fetch(0));
    assert!(!p.needs_fetch(3));
    assert!(!p.validate_no_spurious_overwrites(0));
    assert!(p.validate_no_spurious_overwrites(1));
    assert!(p.validate_no_spurious_overwrites(3));
    assert_eq!(p.transfer_reduction_pct(), Ratio { num: 200, den: 5 });
    assert_eq!(
        p.summary("40.0"),
        "delta 1 → 2: 1 changed, 2 unchanged, 2 deleted (40.0% transfer reduction)"
    );
}

#[test]
fn patch_leads_to_new_version() {
    let old = small("1", b"aabbccddee");
    let new = small("2", b"aaxxccddffgg");
    let p = DeltaPatch::compute(&old, &new);
    let mut store: Vec<Option<String>> = old.chunk_hashes.iter().cloned().map(Some).collect();
    store.resize(8, None);
    for i in p.chunks_to_delete() {
        store[i as usize] = None;
    }
    for i in p.chunks_to_fetch() {
        store[i as usize] = Some(p.changed[&i].clone());
    }
    let left: Vec<String> = store.into_iter().flatten().collect();
    assert_eq!(left, new.chunk_hashes);
}

#[test]
fn patch_of_empty_files_saves_everything() {
    let p = DeltaPatch::compute(&small("1", b""), &small("2", b""));
    assert_eq!(p.transfer_reduction_pct(), Ratio { num: 100, den: 1 });
}

#[test]
fn patch_checks_received_chunks() {
    let p = DeltaPatch::compute(&small("1", b"aabb"), &small("2", b"aaxx"));
    assert_eq!(p.verify_chunk(1, b"xx"), Ok(()));
    assert_eq!(
        p.verify_chunk(1, b"bb"),
        Err(DistError::HashMismatch {
            index: 1,
            expected: hash_bytes(b"xx"),
            actual: hash_bytes(b"bb"),
        })
    );
    assert_eq!(
        p.verify_chunk(0, b"aa"),
        Err(DistError::Proto("chunk 0 is not in the delta patch's changed set".into()))
    );
}

#[test]
fn patch_copy_is_equal() {
    let p = DeltaPatch::compute(&small("1", b"aabbccdd"), &small("2", b"aaxx"));
    let q = p.clone();
    assert_eq!(p.old_version, q.old_version);
    assert_eq!(p.new_version, q.new_version);
    assert_eq!(p.file_id, q.file_id);
    assert_eq!(p.changed, q.changed);
    assert_eq!(p.unchanged, q.unchanged);
    assert_eq!(p.deleted, q.deleted);
}

#[test]
fn chunk_paths() {
    assert_eq!(chunk_path("/data", "llama", 7), "/data/llama.chunk.000007");
    assert_eq!(chunk_path("/data/", "llama", 123456), "/data/llama.chunk.123456");
    assert_eq!(chunk_path("", "llama", 1234567), "llama.chunk.1234567");
    assert_eq!(chunk_path("/data", "/abs", 0), "/abs.chunk.000000");
    for dir in ["/data", "/data/", "", "rel", "a/b"] {
        for id in ["llama", "/abs", "a/b", ""] {
            let joined = std::path::PathBuf::from(dir).join(format!("{}.chunk.{:06}", id, 42u32));
            assert_eq!(chunk_path(dir, id, 42), joined.to_str().unwrap());
        }
    }
}

#[test]
fn applicator_removes_stale_chunks() {
    let p = DeltaPatch::compute(&small("1", b"aabbccddee"), &small("2", b"aa"));
    let a = PatchApplicator::new("/d".into(), "m");
    assert_eq!(a.chunk_path(3), "/d/m.chunk.000003");
    let mut sweep = a.delete_stale_chunks(&p);
    let mut seen = Vec::new();
    let outcomes = [Removal::Removed, Removal::Missing, Removal::Removed, Removal::Removed];
    for outcome in outcomes {
        seen.push(sweep.next().unwrap());
        sweep.record(outcome);
    }
    assert_eq!(sweep.next(), None);
    assert_eq!(sweep.removed, 3);
    assert_eq!(
        seen,
        vec![
            "/d/m.chunk.000001",
            "/d/m.chunk.000002",
            "/d/m.chunk.000003",
            "/d/m.chunk.000004",
        ]
    );
    assert!(!sweep.failed);
}

#[test]
fn failed_removal_ends_the_sweep() {
    let p = DeltaPatch::compute(&small("1", b"aabbccddee"), &small("2", b"aa"));
    let a = PatchApplicator::new("/d".into(), "m");
    let mut sweep = a.delete_stale_chunks(&p);
    sweep.record(Removal::Removed);
    assert_eq!(sweep.next().unwrap(), "/d/m.chunk.000002");
    sweep.record(Removal::Failed);
    assert!(sweep.failed);
    assert_eq!(sweep.next(), None);
    assert_eq!(sweep.removed, 1);
    assert_eq!(sweep.tried, 2);
}

/// Runs a sweep over the files of a list, and tells how many it removed.
fn sweep_over(a: &PatchApplicator, p: &DeltaPatch, files: &mut Vec<String>) -> usize {
    let mut sweep = a.delete_stale_chunks(p);
    while let Some(path) = sweep.next() {
        match files.iter().position(|f| *f == path) {
            Some(at) => {
                files.remove(at);
                sweep.record(Removal::Removed);
            }
            None => sweep.record(Removal::Missing),
        }
    }
    sweep.removed
}

#[test]
fn sweep_leaves_other_files_and_runs_dry() {
    let p = DeltaPatch::compute(&small("1", b"aabbccddee"), &small("2", b"aaxx"));
    let a = PatchApplicator::new("/d".into(), "m");
    let mut files: Vec<String> = vec![
        "/d/m.chunk.000000".into(),
        "/d/m.chunk.000001".into(),
        "/d/m.chunk.000002".into(),
        "/d/m.chunk.000004".into(),
        "/d/n.chunk.000004".into(),
    ];
    assert_eq!(sweep_over(&a, &p, &mut files), 2);
    assert_eq!(
        files,
        vec!["/d/m.chunk.000000", "/d/m.chunk.000001", "/d/n.chunk.000004"]
    );
    assert_eq!(sweep_over(&a, &p, &mut files), 0);
    assert_eq!(files.len(), 3);
}

#[test]
fn chunks_of_one_file_have_places_of_their_own() {
    let rooted = PatchApplicator::new("/d".into(), "/m");
    assert_eq!(rooted.chunk_path(1), "/m.chunk.000001");
    assert_ne!(rooted.chunk_path(1), rooted.chunk_path(2));
}

#[test]
fn applicator_finds_corrupt_chunks() {
    let m = small("1", b"aabbcc");
    let mut corrupt = Vec::new();
    PatchApplicator::verify_unchanged(&m, 0, Some(b"aa"), &mut corrupt);
    PatchApplicator::verify_unchanged(&m, 1, Some(b"xx"), &mut corrupt);
    PatchApplicator::verify_unchanged(&m, 2, None, &mut corrupt);
    assert_eq!(corrupt, vec![1, 2]);
    let p = DeltaPatch::compute(&m, &small("2", b"aabbccdd"));
    let mut found = Vec::new();
    for i in p.chunks_to_keep() {
        let data: Option<&[u8]> = match i {
            0 => None,
            1 => Some(b"bb"),
            _ => Some(b"cx"),
        };
        PatchApplicator::verify_unchanged(&m, i, data, &mut found);
    }
    assert_eq!(found, vec![0, 2]);
}
