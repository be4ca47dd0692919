use zfs2s3::config::{BackupPolicy, CleanupPolicy};
use zfs2s3::zfs::{Snapshot, VolumeSnapshotMap};
use zfs2s3::{
    bootstrap_full_names, choose_tick, next_backup_tick, next_cleanup_tick, snapshot_names,
    SnapshotType,
};

const JAN_1_2025: i64 = 1735689600; // 2025-01-01T00:00:00Z
const JAN_1_2030: i64 = 1893456000; // 2030-01-01T00:00:00Z
const JAN_1_2031: i64 = 1924992000; // 2031-01-01T00:00:00Z

fn snap(name: &str, creation: i64) -> Snapshot {
    Snapshot {
        name: name.to_string(),
        creation,
    }
}

// When full and incremental would fire at the same instant, the full wins.
#[test]
fn tie_goes_to_full() {
    match choose_tick(Some(100), Some(100)) {
        Some((t, ty)) => {
            assert_eq!(t, 100);
            assert_eq!(ty, SnapshotType::Full);
        }
        None => panic!("expected a tick"),
    }
}

#[test]
fn earlier_incremental_wins() {
    assert_eq!(
        choose_tick(Some(200), Some(100)),
        Some((100, SnapshotType::Incremental))
    );
    assert_eq!(
        choose_tick(Some(100), Some(200)),
        Some((100, SnapshotType::Full))
    );
    assert_eq!(choose_tick(None, Some(100)), None);
    assert_eq!(choose_tick(Some(100), None), None);
}

#[test]
fn next_backup_tick_follows_the_cron_schedules() {
    let policy = BackupPolicy::new(
        "0 0 0 1 1 * 2030".to_string(),
        "0 0 0 1 1 * 2031".to_string(),
        vec![],
    );
    let full = policy.schedule().unwrap();
    let incr = policy.incremental().unwrap();
    let tick = next_backup_tick(&full, &incr, JAN_1_2025).unwrap();
    assert_eq!(tick, (JAN_1_2030, SnapshotType::Full));

    // with the schedules swapped the incremental fires first
    let policy = BackupPolicy::new(
        "0 0 0 1 1 * 2031".to_string(),
        "0 0 0 1 1 * 2030".to_string(),
        vec![],
    );
    let full = policy.schedule().unwrap();
    let incr = policy.incremental().unwrap();
    let tick = next_backup_tick(&full, &incr, JAN_1_2025).unwrap();
    assert_eq!(tick, (JAN_1_2030, SnapshotType::Incremental));
}

#[test]
fn next_cleanup_tick_is_strictly_later() {
    let policy = CleanupPolicy::new("0 0 0 1 1 * 2030".to_string(), 0, "1d".to_string(), vec![]);
    let schedule = policy.schedule().unwrap();
    let next = next_cleanup_tick(&schedule, JAN_1_2025).unwrap();
    assert_eq!(next, JAN_1_2030);
    assert!(next_cleanup_tick(&schedule, JAN_1_2030).is_none());
}

// Every volume of one tick shares the batch timestamp, with the suffix of
// the chosen modality.
#[test]
fn snapshot_names_share_one_timestamp() {
    let map = VolumeSnapshotMap::new(
        vec!["pool/v1".to_string(), "pool/v2".to_string()],
        vec![],
    );
    let names = snapshot_names(&map, &SnapshotType::Full, JAN_1_2025);
    assert_eq!(
        names,
        vec![
            "pool/v1@auto-backup-2025-01-01T00:00:00Z".to_string(),
            "pool/v2@auto-backup-2025-01-01T00:00:00Z".to_string(),
        ]
    );
    let names = snapshot_names(&map, &SnapshotType::Incremental, JAN_1_2025);
    assert_eq!(
        names,
        vec![
            "pool/v1@auto-backup-incremental-2025-01-01T00:00:00Z".to_string(),
            "pool/v2@auto-backup-incremental-2025-01-01T00:00:00Z".to_string(),
        ]
    );
}

// A volume with no snapshot at all gets a bootstrap full before an
// incremental tick; volumes that have history get none.
#[test]
fn bootstrap_covers_only_empty_volumes() {
    let map = VolumeSnapshotMap::new(
        vec!["pool/v1".to_string(), "pool/v2".to_string()],
        vec![snap("pool/v2@auto-backup-old", 1)],
    );
    let names = bootstrap_full_names(&map, JAN_1_2025);
    assert_eq!(
        names,
        vec!["pool/v1@auto-backup-2025-01-01T00:00:00Z".to_string()]
    );
}

// One-shot incremental on a volume with no prior snapshots: the bootstrap
// creates a full, the tick then creates the incremental with the full as
// predecessor, and the following reconcile pushes both, full first.
#[test]
fn one_shot_incremental_bootstraps_a_full_first() {
    let map = VolumeSnapshotMap::new(vec!["pool/v1".to_string()], vec![]);
    let bootstrap = bootstrap_full_names(&map, JAN_1_2025);
    assert_eq!(
        bootstrap,
        vec!["pool/v1@auto-backup-2025-01-01T00:00:00Z".to_string()]
    );
    let tick = snapshot_names(&map, &SnapshotType::Incremental, JAN_1_2025 + 1);
    assert_eq!(
        tick,
        vec!["pool/v1@auto-backup-incremental-2025-01-01T00:00:01Z".to_string()]
    );

    // both snapshots now exist locally; reconcile pushes the full first
    let mut refreshed = map;
    refreshed.refresh(&vec![
        snap(&bootstrap[0], JAN_1_2025),
        snap(&tick[0], JAN_1_2025 + 1),
    ]);
    let plan = zfs2s3::plan_missing_uploads(&refreshed, &vec![]).unwrap();
    assert_eq!(plan.len(), 2);
    match &plan[0] {
        zfs2s3::UploadAction::Full { name, .. } => assert_eq!(name, &bootstrap[0]),
        other => panic!("expected the bootstrap full first, got {other:?}"),
    }
}

#[test]
fn is_incremental_snapshot_matches_the_marker() {
    assert!(zfs2s3::is_incremental_snapshot(
        "pool/v1@auto-backup-incremental-2025-01-01T00:00:00Z"
    ));
    assert!(!zfs2s3::is_incremental_snapshot(
        "pool/v1@auto-backup-2025-01-01T00:00:00Z"
    ));
}

#[test]
fn error_messages_name_their_cause() {
    let e = zfs2s3::Zfs2S3Error::SnapshotFailures(vec!["one".to_string(), "two".to_string()]);
    assert_eq!(e.message(), "Snapshot Failures:\n- one\n- two\n");
    let z = zfs2s3::zfs::ZfsError::CommandError("boom".to_string());
    assert_eq!(z.message(), "ZFS command error: boom");
    let c = zfs2s3::config::ConfigError::InvalidDuration("90x".to_string());
    assert_eq!(c.message(), "Invalid duration: 90x");
    assert_eq!(SnapshotType::Full.message(), "full");
    assert_eq!(SnapshotType::Incremental.message(), "incremental");
}
