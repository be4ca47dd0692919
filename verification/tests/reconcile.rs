use zfs2s3::zfs::{Snapshot, VolumeSnapshotMap};
use zfs2s3::{plan_missing_uploads, plan_remote_deletes, UploadAction, Zfs2S3Error};

fn snap(name: &str, creation: i64) -> Snapshot {
    Snapshot {
        name: name.to_string(),
        creation,
    }
}

fn action_key(a: &UploadAction) -> &str {
    match a {
        UploadAction::Full { key, .. } => key,
        UploadAction::Incremental { key, .. } => key,
    }
}

// Scenario: a volume with one full and one newer incremental and an empty
// remote: both are pushed, oldest first, under their derived keys.
#[test]
fn pushes_missing_snapshots_oldest_first() {
    let map = VolumeSnapshotMap::new(
        vec!["pool/v1".to_string()],
        vec![
            snap("pool/v1@auto-backup-2025-01-01T00:00:00Z", 1735689600),
            snap(
                "pool/v1@auto-backup-incremental-2025-01-02T00:00:00Z",
                1735776000,
            ),
        ],
    );
    let plan = plan_missing_uploads(&map, &vec![]).unwrap();
    let keys: Vec<&str> = plan.iter().map(action_key).collect();
    assert_eq!(
        keys,
        vec![
            "v1@auto-backup-2025-01-01T00:00:00Z",
            "v1@auto-backup-incremental-2025-01-02T00:00:00Z",
        ]
    );
    match &plan[0] {
        UploadAction::Full { name, .. } => {
            assert_eq!(name, "pool/v1@auto-backup-2025-01-01T00:00:00Z")
        }
        other => panic!("expected a full upload, got {other:?}"),
    }
    match &plan[1] {
        UploadAction::Incremental { from, to, .. } => {
            assert_eq!(from, "pool/v1@auto-backup-2025-01-01T00:00:00Z");
            assert_eq!(to, "pool/v1@auto-backup-incremental-2025-01-02T00:00:00Z");
        }
        other => panic!("expected an incremental upload, got {other:?}"),
    }
}

#[test]
fn skips_snapshots_already_remote() {
    let map = VolumeSnapshotMap::new(
        vec!["pool/v1".to_string()],
        vec![
            snap("pool/v1@auto-backup-a", 100),
            snap("pool/v1@auto-backup-incremental-b", 200),
        ],
    );
    let remote = vec!["v1@auto-backup-a".to_string()];
    let plan = plan_missing_uploads(&map, &remote).unwrap();
    assert_eq!(plan.len(), 1);
    assert_eq!(action_key(&plan[0]), "v1@auto-backup-incremental-b");
}

// A volume whose oldest snapshot is a missing incremental cannot be pushed.
#[test]
fn missing_incremental_without_predecessor_fails() {
    let map = VolumeSnapshotMap::new(
        vec!["pool/v1".to_string()],
        vec![snap("pool/v1@auto-backup-incremental-a", 100)],
    );
    match plan_missing_uploads(&map, &vec![]) {
        Err(Zfs2S3Error::UploadError(m)) => {
            assert!(m.contains("Not enough snapshots"));
            assert!(m.contains("pool/v1"));
        }
        other => panic!("expected an upload error, got {other:?}"),
    }
}

// A remote key no local snapshot derives is deleted.
#[test]
fn deletes_orphaned_remote_keys() {
    let map = VolumeSnapshotMap::new(
        vec!["pool/v1".to_string()],
        vec![snap("pool/v1@auto-backup-a", 100)],
    );
    let remote = vec!["v1@auto-backup-a".to_string(), "orphan-key".to_string()];
    let doomed = plan_remote_deletes(&map, &remote);
    assert_eq!(doomed, vec!["orphan-key".to_string()]);
}

// Running reconcile again once local and remote agree plans no work at all.
#[test]
fn reconcile_is_idempotent_once_synced() {
    let map = VolumeSnapshotMap::new(
        vec!["pool/v1".to_string()],
        vec![
            snap("pool/v1@auto-backup-a", 100),
            snap("pool/v1@auto-backup-incremental-b", 200),
        ],
    );
    let remote = vec![
        "v1@auto-backup-a".to_string(),
        "v1@auto-backup-incremental-b".to_string(),
    ];
    let plan = plan_missing_uploads(&map, &remote).unwrap();
    assert!(plan.is_empty());
    let doomed = plan_remote_deletes(&map, &remote);
    assert!(doomed.is_empty());
}

// A full reconcile cycle on concrete data converges: remote ends up exactly
// the local key set.
#[test]
fn reconcile_cycle_reaches_local_key_set() {
    let map = VolumeSnapshotMap::new(
        vec!["pool/v1".to_string()],
        vec![
            snap("pool/v1@auto-backup-a", 100),
            snap("pool/v1@auto-backup-incremental-b", 200),
        ],
    );
    let mut remote = vec!["stale-key".to_string()];
    let plan = plan_missing_uploads(&map, &remote).unwrap();
    for a in &plan {
        remote.push(action_key(a).to_string());
    }
    let doomed = plan_remote_deletes(&map, &remote);
    remote.retain(|k| !doomed.contains(k));
    remote.sort();
    assert_eq!(
        remote,
        vec![
            "v1@auto-backup-a".to_string(),
            "v1@auto-backup-incremental-b".to_string(),
        ]
    );
}
