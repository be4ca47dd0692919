use zfs2s3::config::{BackupPolicy, CleanupPolicy, Config, S3};
use zfs2s3::zfs::{parse_snapshot_listing, retention_cutoff_index, Snapshot, VolumeSnapshotMap};

fn snap(name: &str, creation: i64) -> Snapshot {
    Snapshot {
        name: name.to_string(),
        creation,
    }
}

#[test]
fn try_from_valid() {
    const CREATION_TIMESTAMP: i64 = 1625078400;
    let line = format!("pool/dataset@snap1 {CREATION_TIMESTAMP}");
    let snapshot = Snapshot::try_from(line.as_str()).unwrap();
    assert_eq!(snapshot.name, "pool/dataset@snap1");
    assert_eq!(snapshot.creation, CREATION_TIMESTAMP);
}

#[test]
fn try_from_invalid_format() {
    let line = "pool/dataset@snap1 1625078400 some value";
    let result = Snapshot::try_from(line);
    assert!(result.is_err());
}

#[test]
fn try_from_invalid_timestamp() {
    let line = "pool/dataset@snap1 invalid_timestamp";
    let result = Snapshot::try_from(line);
    assert!(result.is_err());
}

#[test]
fn try_from_negative_timestamp() {
    let snapshot = Snapshot::try_from("pool/ds@old -86400").unwrap();
    assert_eq!(snapshot.creation, -86400);
}

#[test]
fn try_from_tab_separated() {
    let snapshot = Snapshot::try_from("pool/ds@s\t42").unwrap();
    assert_eq!(snapshot.name, "pool/ds@s");
    assert_eq!(snapshot.creation, 42);
}

#[test]
fn try_from_overflowing_timestamp() {
    assert!(Snapshot::try_from("pool/ds@s 9223372036854775808").is_err());
    let s = Snapshot::try_from("pool/ds@s -9223372036854775808").unwrap();
    assert_eq!(s.creation, i64::MIN);
}

#[test]
fn to_key_strips_pool_prefix() {
    let s = snap("pool/dataset@auto-backup-2025-01-01T00:00:00Z", 0);
    assert_eq!(s.to_key().unwrap(), "dataset@auto-backup-2025-01-01T00:00:00Z");
    let t = snap("plain@x", 0);
    assert_eq!(t.to_key().unwrap(), "plain@x");
}

#[test]
fn listing_discards_noise_lines() {
    let lines: Vec<String> = vec![
        "pool/v1@a 100".to_string(),
        "garbage".to_string(),
        "pool/v1@b not_a_number".to_string(),
        "pool/v2@c 200".to_string(),
    ];
    let snaps = parse_snapshot_listing(&lines);
    assert_eq!(snaps.len(), 2);
    assert_eq!(snaps[0].name, "pool/v1@a");
    assert_eq!(snaps[1].creation, 200);
}

// For every volume the built catalog is sorted by creation descending, and
// every snapshot's name starts with its volume and the separator.
#[test]
fn catalog_sorted_descending_and_prefixed() {
    let volumes = vec!["pool/v1".to_string(), "pool/v2".to_string()];
    let snaps = vec![
        snap("pool/v1@a", 100),
        snap("pool/v2@x", 50),
        snap("pool/v1@b", 300),
        snap("pool/v1@c", 200),
        snap("pool/v10@zzz", 999),
    ];
    let map = VolumeSnapshotMap::new(volumes, snaps);
    assert_eq!(map.volumes.len(), 2);
    let (path, bucket) = &map.volumes[0];
    assert_eq!(path, "pool/v1");
    let names: Vec<&str> = bucket.iter().map(|s| s.name.as_str()).collect();
    // sorted newest first; pool/v10@zzz does not belong to pool/v1
    assert_eq!(names, vec!["pool/v1@b", "pool/v1@c", "pool/v1@a"]);
    for (p, b) in &map.volumes {
        for w in b.windows(2) {
            assert!(w[0].creation >= w[1].creation);
        }
        for s in b {
            assert!(s.name.starts_with(&format!("{p}@")));
        }
    }
}

#[test]
fn catalog_deduplicates_volumes() {
    let volumes = vec!["pool/v1".to_string(), "pool/v1".to_string()];
    let map = VolumeSnapshotMap::new(volumes, vec![]);
    assert_eq!(map.volumes.len(), 1);
}

#[test]
fn refresh_keeps_volume_set() {
    let mut map = VolumeSnapshotMap::new(vec!["pool/v1".to_string()], vec![snap("pool/v1@a", 1)]);
    map.refresh(&vec![snap("pool/v1@b", 2), snap("pool/v1@c", 9)]);
    assert_eq!(map.volumes.len(), 1);
    assert_eq!(map.volumes[0].1[0].name, "pool/v1@c");
    assert_eq!(map.volumes[0].1.len(), 2);
}

// Retention scenario: keep_min = 1, every snapshot older than the cutoff:
// only the newest full survives.
#[test]
fn retention_truncates_to_newest_full() {
    let snaps = vec![
        snap("v@auto-backup-3", 300),
        snap("v@auto-backup-incremental-2", 200),
        snap("v@auto-backup-1", 100),
    ];
    let cut = retention_cutoff_index(&snaps, 1, 1_000);
    assert_eq!(cut, 1);
}

// Retention scenario: fewer than keep_min + 1 fulls exist: nothing is pruned.
#[test]
fn retention_keeps_all_when_too_few_fulls() {
    let snaps = vec![
        snap("v@auto-backup-incremental-4", 400),
        snap("v@auto-backup-incremental-3", 300),
        snap("v@auto-backup-2", 200),
        snap("v@auto-backup-1", 100),
    ];
    let cut = retention_cutoff_index(&snaps, 2, 1_000);
    assert_eq!(cut, 4);
}

// Retention scenario: keep_min = 0, only the oldest full is older than the
// cutoff, with incrementals chained to it above: deleting that full would
// strand them, so nothing is deleted.
#[test]
fn retention_spares_full_that_anchors_incrementals() {
    let snaps = vec![
        snap("v@auto-backup-incremental-3", 300),
        snap("v@auto-backup-incremental-2", 200),
        snap("v@auto-backup-1", 100),
    ];
    let cut = retention_cutoff_index(&snaps, 0, 150);
    assert_eq!(cut, 3);
    // the same holds when the newer incrementals are also past the cutoff
    let cut = retention_cutoff_index(&snaps, 0, 1_000);
    assert_eq!(cut, 3);
}

// Chain integrity after pruning: a young incremental keeps its old full
// predecessor alive.
#[test]
fn retention_keeps_predecessor_of_retained_incremental() {
    let snaps = vec![
        snap("v@auto-backup-incremental-2", 200),
        snap("v@auto-backup-1", 100),
    ];
    let cut = retention_cutoff_index(&snaps, 0, 150);
    assert_eq!(cut, 2);
}

// Boundary: keep_min = 0, newest snapshot is full and everything is older
// than the cutoff: the whole sequence is pruned.
#[test]
fn retention_prunes_all_when_newest_full_is_old() {
    let snaps = vec![snap("v@auto-backup-2", 200), snap("v@auto-backup-1", 100)];
    let cut = retention_cutoff_index(&snaps, 0, 1_000);
    assert_eq!(cut, 0);
}

#[test]
fn retention_keeps_everything_younger_than_cutoff() {
    let snaps = vec![
        snap("v@auto-backup-3", 300),
        snap("v@auto-backup-2", 200),
        snap("v@auto-backup-1", 100),
    ];
    let cut = retention_cutoff_index(&snaps, 0, 50);
    assert_eq!(cut, 3);
}

#[test]
fn apply_retention_policy_truncates_buckets() {
    let mut map = VolumeSnapshotMap::new(
        vec!["pool/v1".to_string()],
        vec![
            snap("pool/v1@auto-backup-3", 300),
            snap("pool/v1@auto-backup-incremental-2", 200),
            snap("pool/v1@auto-backup-1", 100),
        ],
    );
    map.apply_retention_policy(1, 1_000);
    assert_eq!(map.volumes[0].1.len(), 1);
    assert_eq!(map.volumes[0].1[0].name, "pool/v1@auto-backup-3");
}

// Retention destroys exactly the dropped entries; names matching an
// exclusion glob are spared.
#[test]
fn destroy_plan_spares_excluded_names() {
    let map = VolumeSnapshotMap::new(
        vec!["pool/v1".to_string()],
        vec![
            snap("pool/v1@auto-backup-3", 300),
            snap("pool/v1@auto-backup-1", 100),
            snap("pool/v1@auto-backup-keep-me", 50),
        ],
    );
    let exclude = vec!["pool/*@auto-backup-keep-*".to_string()];
    let doomed = map.plan_retention_destroy(1, 1_000, &exclude);
    assert_eq!(doomed, vec!["pool/v1@auto-backup-1".to_string()]);
}

#[test]
fn glob_filter_keeps_matching_volumes() {
    let config = Config::new(
        BackupPolicy::new(
            "0 0 0 * * * *".to_string(),
            "0 0 12 * * * *".to_string(),
            vec!["zfs2s3/vm-*".to_string()],
        ),
        CleanupPolicy::new("0 0 1 * * * *".to_string(), 1, "90d".to_string(), vec![]),
        S3::new("b".to_string(), "u".to_string(), "r".to_string()),
    );
    let map = VolumeSnapshotMap::new(
        vec!["zfs2s3/vm-100".to_string(), "other/ct-1".to_string()],
        vec![],
    );
    let kept = map.keep_volume_to_backup(&config);
    assert_eq!(kept.volumes.len(), 1);
    assert_eq!(kept.volumes[0].0, "zfs2s3/vm-100");
}
