use drop_client::agent::{bucket_versions, GameDownloadAgent};
use drop_client::planner::{
    generate_buckets, ChunkData, DownloadBucket, ManifestEntry, MAX_FILES_PER_BUCKET,
    TARGET_BUCKET_SIZE,
};
use drop_client::types::ApplicationDownloadError;

fn entry(path: &str, lengths: Vec<usize>, version: &str) -> ManifestEntry {
    let checksums = (0..lengths.len()).map(|i| format!("{path}-{i}")).collect();
    ManifestEntry {
        path: path.to_string(),
        chunk: ChunkData { lengths, checksums, permissions: 0o644, version_name: version.to_string() },
    }
}

fn sizes(b: &DownloadBucket) -> Vec<usize> {
    b.drops.iter().map(|d| d.length).collect()
}

#[test]
fn single_small_chunk_makes_one_bucket() {
    let manifest = vec![ManifestEntry {
        path: "a.bin".to_string(),
        chunk: ChunkData {
            lengths: vec![10],
            checksums: vec!["h1".to_string()],
            permissions: 0,
            version_name: "v1".to_string(),
        },
    }];
    let buckets = generate_buckets(&"game".to_string(), &manifest);
    assert_eq!(buckets.len(), 1);
    assert_eq!(buckets[0].drops.len(), 1);
    assert_eq!(buckets[0].game_id, "game");
    assert_eq!(buckets[0].version, "v1");
    let d = &buckets[0].drops[0];
    assert_eq!((d.filename.as_str(), d.start, d.length, d.checksum.as_str(), d.index), ("a.bin", 0, 10, "h1", 0));
}

#[test]
fn mixed_sizes_give_singleton_and_grouped_bucket() {
    let mut lengths = vec![100 * 1000 * 1000];
    lengths.extend(std::iter::repeat(1000 * 1000).take(10));
    let buckets = generate_buckets(&"g".to_string(), &vec![entry("big.pak", lengths, "v1")]);
    assert_eq!(buckets.len(), 2);
    assert_eq!(sizes(&buckets[0]), vec![100 * 1000 * 1000]);
    assert_eq!(buckets[1].drops.len(), 10);
    assert_eq!(sizes(&buckets[1]).iter().sum::<usize>(), 10 * 1000 * 1000);
}

#[test]
fn chunk_at_target_size_is_alone() {
    let buckets = generate_buckets(
        &"g".to_string(),
        &vec![entry("f", vec![5, TARGET_BUCKET_SIZE, 7], "v1")],
    );
    assert_eq!(buckets.len(), 2);
    assert_eq!(sizes(&buckets[0]), vec![TARGET_BUCKET_SIZE]);
    assert_eq!(sizes(&buckets[1]), vec![5, 7]);
}

#[test]
fn three_hundred_tiny_chunks_fill_two_buckets() {
    let buckets = generate_buckets(&"g".to_string(), &vec![entry("folder/many", vec![1; 300], "v1")]);
    assert!(buckets.len() <= (300 + 254) / 255);
    assert_eq!(buckets.len(), 2);
    assert_eq!(buckets[0].drops.len(), MAX_FILES_PER_BUCKET);
    assert_eq!(buckets[1].drops.len(), 45);
}

#[test]
fn bucket_closes_when_size_would_exceed_target() {
    let half = TARGET_BUCKET_SIZE / 2;
    let buckets = generate_buckets(&"g".to_string(), &vec![entry("f", vec![half, half, 2], "v1")]);
    assert_eq!(buckets.len(), 2);
    assert_eq!(sizes(&buckets[0]), vec![half, half]);
    assert_eq!(sizes(&buckets[1]), vec![2]);
}

#[test]
fn offsets_are_running_sums_and_disjoint() {
    let buckets = generate_buckets(&"g".to_string(), &vec![entry("f", vec![3, 4, 5], "v1")]);
    let d = &buckets[0].drops;
    assert_eq!((d[0].start, d[1].start, d[2].start), (0, 3, 7));
    for w in d.windows(2) {
        assert!(w[0].start + w[0].length <= w[1].start);
    }
}

#[test]
fn versions_are_grouped_separately() {
    let manifest = vec![entry("a", vec![1, 2], "v1"), entry("b", vec![3], "v2"), entry("c", vec![4], "v1")];
    let buckets = generate_buckets(&"g".to_string(), &manifest);
    assert_eq!(buckets.len(), 2);
    assert_eq!(buckets[0].version, "v1");
    assert_eq!(sizes(&buckets[0]), vec![1, 2, 4]);
    assert_eq!(buckets[1].version, "v2");
    let versions = bucket_versions(&buckets);
    assert_eq!(versions, vec!["v1".to_string(), "v2".to_string()]);
}

#[test]
fn empty_manifest_has_no_buckets() {
    assert!(generate_buckets(&"g".to_string(), &Vec::new()).is_empty());
}

#[test]
fn disk_full_preflight_reports_required_and_available() {
    let stored = vec![("f-0".to_string(), true)];
    let r = GameDownloadAgent::new(
        "g".to_string(),
        "v1".to_string(),
        "/games/g".to_string(),
        vec![entry("f", vec![100, 50], "v1")],
        &stored,
        40,
        0,
    );
    match r {
        Err(ApplicationDownloadError::DiskFull(required, available)) => {
            assert_eq!((required, available), (50, 40));
        }
        _ => panic!("expected a disk-full error"),
    }
}

#[test]
fn preflight_passes_when_space_suffices_and_plans_nothing_yet() {
    let stored = vec![("f-0".to_string(), true)];
    let agent = GameDownloadAgent::new(
        "g".to_string(),
        "v1".to_string(),
        "/games/g".to_string(),
        vec![entry("f", vec![100, 50], "v1")],
        &stored,
        50,
        0,
    )
    .ok()
    .expect("fits");
    assert!(agent.check_manifest_exists());
    assert_eq!(agent.dropdata().to_pairs(), vec![("f-0".to_string(), true)]);
}
