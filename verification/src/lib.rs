//! Snapshot lifecycle engine for replicating volume-manager snapshots to an
//! object store: cataloguing, scheduling, reconciliation and retention.

use vstd::prelude::*;

pub mod config;
pub mod strutil;
pub mod zfs;

verus! {

use crate::strutil::contains_seq;
use crate::strutil::contains_str;

/// Marker in a snapshot suffix that identifies a backup taken by this agent.
pub open spec fn backup_marker() -> Seq<char> {
    "auto-backup-"@
}

/// Marker in a snapshot suffix that identifies an incremental backup.
pub open spec fn incremental_marker() -> Seq<char> {
    "auto-backup-incremental-"@
}

/// A snapshot name denotes an incremental backup when the incremental marker
/// occurs in it.
pub open spec fn is_incremental_name(name: Seq<char>) -> bool {
    contains_seq(name, incremental_marker())
}

/// Classifies a snapshot name: incremental when the incremental marker occurs
/// in it, full otherwise.
pub fn is_incremental_snapshot(snapshot_name: &str) -> (r: bool)
    ensures
        r == is_incremental_name(snapshot_name@),
{
    contains_str(snapshot_name, "auto-backup-incremental-")
}

/// The two backup modalities.
#[derive(Clone, Debug, PartialEq, Eq, Structural)]
pub enum SnapshotType {
    Full,
    Incremental,
}

impl SnapshotType {
    /// Human-readable form of the modality.
    pub fn message(&self) -> (r: String)
        ensures
            r@ == (match self {
                SnapshotType::Full => "full"@,
                SnapshotType::Incremental => "incremental"@,
            }),
    {
        match self {
            SnapshotType::Full => String::from_str("full"),
            SnapshotType::Incremental => String::from_str("incremental"),
        }
    }
}

use crate::config::cron_next_after;
use crate::config::next_fire_of;
use crate::config::ParsedSchedule;
use crate::zfs::key_of;
use crate::zfs::str_views;
use crate::zfs::Snapshot;
use crate::zfs::VolumeSnapshotMap;
use crate::zfs::ZfsError;

/// A failure of a backup or sync cycle.
#[derive(Debug)]
pub enum Zfs2S3Error {
    ZfsError(ZfsError),
    UploadError(String),
    SnapshotFailures(Vec<String>),
    UploadFailures(Vec<String>),
}

/// The lines of a bulleted list, one item per line.
pub open spec fn bullet_list(items: Seq<Seq<char>>) -> Seq<char>
    decreases items.len(),
{
    if items.len() == 0 {
        Seq::empty()
    } else {
        bullet_list(items.drop_last()) + "- "@ + items.last() + "\n"@
    }
}

fn bullet_lines(items: &Vec<String>) -> (r: String)
    ensures
        r@ == bullet_list(items@.map_values(|m: String| m@)),
{
    let ghost views = items@.map_values(|m: String| m@);
    let mut out = String::new();
    let mut i: usize = 0;
    while i < items.len()
        invariant
            0 <= i <= items@.len(),
            views == items@.map_values(|m: String| m@),
            out@ == bullet_list(views.take(i as int)),
        decreases items@.len() - i,
    {
        proof {
            assert(views.take(i + 1).drop_last() =~= views.take(i as int));
            assert(views.take(i + 1).last() == items@[i as int]@);
        }
        out.append("- ");
        out.append(items[i].as_str());
        out.append("\n");
        i += 1;
    }
    proof {
        assert(views.take(views.len() as int) =~= views);
    }
    out
}

impl Zfs2S3Error {
    /// Human-readable form of the failure.
    pub fn message(&self) -> (r: String)
        ensures
            match self {
                Zfs2S3Error::ZfsError(e) => r@ == "ZFS Error: "@ + e.message_text(),
                Zfs2S3Error::UploadError(m) => r@ == "Upload Error: "@ + m@,
                Zfs2S3Error::SnapshotFailures(errors) => r@ == "Snapshot Failures:\n"@
                    + bullet_list(errors@.map_values(|m: String| m@)),
                Zfs2S3Error::UploadFailures(errors) => r@ == "Upload Failures:\n"@ + bullet_list(
                    errors@.map_values(|m: String| m@),
                ),
            },
    {
        match self {
            Zfs2S3Error::ZfsError(e) => String::from_str("ZFS Error: ").concat(
                e.message().as_str(),
            ),
            Zfs2S3Error::UploadError(m) => String::from_str("Upload Error: ").concat(m.as_str()),
            Zfs2S3Error::SnapshotFailures(errors) => String::from_str(
                "Snapshot Failures:\n",
            ).concat(bullet_lines(errors).as_str()),
            Zfs2S3Error::UploadFailures(errors) => String::from_str(
                "Upload Failures:\n",
            ).concat(bullet_lines(errors).as_str()),
        }
    }
}

/// The text of a `ZfsError` message, at the spec level.
impl ZfsError {
    pub open spec fn message_text(&self) -> Seq<char> {
        match self {
            ZfsError::CommandError(s) => "ZFS command error: "@ + s@,
            ZfsError::ChildError => "Failed to spawn ZFS child process"@,
        }
    }
}

/// The ISO-8601 text `YYYY-MM-DDTHH:MM:SSZ` of a Unix timestamp.
pub uninterp spec fn iso8601_of(secs: int) -> Seq<char>;

/// Relies on chrono's `DateTime` formatting under a fixed UTC format: the
/// text depends on the timestamp alone (for the rare timestamp outside
/// chrono's range it is empty, still a function of the value).
#[verifier::external_body]
fn format_iso_8601(secs: i64) -> (r: String)
    ensures
        r@ == iso8601_of(secs as int),
{
    match chrono::DateTime::<chrono::Utc>::from_timestamp(secs, 0) {
        Some(t) => t.format("%Y-%m-%dT%H:%M:%SZ").to_string(),
        None => String::new(),
    }
}

/// The fully qualified name of a snapshot taken at `ts` on `volume`.
pub open spec fn snapshot_name(volume: Seq<char>, incremental: bool, ts: Seq<char>) -> Seq<char> {
    volume + "@"@ + (if incremental {
        incremental_marker()
    } else {
        backup_marker()
    }) + ts
}

/// A name built with the incremental suffix is classified as incremental:
/// the marker occurs right after the separator.
pub proof fn lemma_incremental_name_classified(volume: Seq<char>, ts: Seq<char>)
    ensures
        is_incremental_name(snapshot_name(volume, true, ts)),
{
    reveal_strlit("@");
    let name = snapshot_name(volume, true, ts);
    let at = volume.len() as int + 1;
    assert(name.subrange(at, at + incremental_marker().len() as int) =~= incremental_marker());
    assert(crate::strutil::occurs_at(name, incremental_marker(), at));
}

fn build_snapshot_name(volume: &String, incremental: bool, ts: &String) -> (r: String)
    ensures
        r@ == snapshot_name(volume@, incremental, ts@),
{
    let mut name = volume.clone();
    name.append("@");
    if incremental {
        name.append("auto-backup-incremental-");
    } else {
        name.append("auto-backup-");
    }
    name.append(ts.as_str());
    name
}

/// The names of the snapshots one backup tick creates: one per volume of the
/// catalog, all sharing the timestamp captured at the start of the batch.
pub fn snapshot_names(volumes: &VolumeSnapshotMap, snapshot_type: &SnapshotType, now_secs: i64) -> (r:
    Vec<String>)
    ensures
        r@.map_values(|n: String| n@) == crate::zfs::catalog_paths(volumes.volumes@).map_values(
            |v: Seq<char>| snapshot_name(
                v,
                snapshot_type is Incremental,
                iso8601_of(now_secs as int),
            ),
        ),
{
    let ts = format_iso_8601(now_secs);
    let incremental = match snapshot_type {
        SnapshotType::Full => false,
        SnapshotType::Incremental => true,
    };
    let ghost paths = crate::zfs::catalog_paths(volumes.volumes@);
    let ghost f = |v: Seq<char>| snapshot_name(v, snapshot_type is Incremental, iso8601_of(now_secs as int));
    let mut out: Vec<String> = Vec::new();
    let mut i: usize = 0;
    while i < volumes.volumes.len()
        invariant
            0 <= i <= volumes.volumes@.len(),
            ts@ == iso8601_of(now_secs as int),
            paths == crate::zfs::catalog_paths(volumes.volumes@),
            incremental == snapshot_type is Incremental,
            f == (|v: Seq<char>| snapshot_name(
                v,
                snapshot_type is Incremental,
                iso8601_of(now_secs as int),
            )),
            out@.len() == i,
            forall|k: int| 0 <= k < i ==> #[trigger] out@[k]@ == f(paths[k]),
        decreases volumes.volumes@.len() - i,
    {
        let name = build_snapshot_name(&volumes.volumes[i].0, incremental, &ts);
        out.push(name);
        i += 1;
    }
    proof {
        assert(out@.map_values(|n: String| n@) =~= paths.map_values(f));
    }
    out
}

/// The bootstrap plan for an incremental tick: a full snapshot name for every
/// catalog volume that has no snapshot at all, so the incremental that
/// follows has a predecessor.
pub fn bootstrap_full_names(volumes: &VolumeSnapshotMap, now_secs: i64) -> (r: Vec<String>)
    ensures
        r@.map_values(|n: String| n@) == volumes.volumes@.filter(
            |v: (String, Vec<Snapshot>)| v.1@.len() == 0,
        ).map_values(
            |v: (String, Vec<Snapshot>)| snapshot_name(v.0@, false, iso8601_of(now_secs as int)),
        ),
{
    let ts = format_iso_8601(now_secs);
    let ghost pred = |v: (String, Vec<Snapshot>)| v.1@.len() == 0;
    let ghost g = |v: (String, Vec<Snapshot>)| snapshot_name(
        v.0@,
        false,
        iso8601_of(now_secs as int),
    );
    let mut out: Vec<String> = Vec::new();
    let mut i: usize = 0;
    while i < volumes.volumes.len()
        invariant
            0 <= i <= volumes.volumes@.len(),
            ts@ == iso8601_of(now_secs as int),
            pred == (|v: (String, Vec<Snapshot>)| v.1@.len() == 0),
            g == (|v: (String, Vec<Snapshot>)| snapshot_name(
                v.0@,
                false,
                iso8601_of(now_secs as int),
            )),
            out@.map_values(|n: String| n@) == volumes.volumes@.take(i as int).filter(
                pred,
            ).map_values(g),
        decreases volumes.volumes@.len() - i,
    {
        proof {
            reveal(Seq::filter);
            assert(volumes.volumes@.take(i + 1).drop_last() =~= volumes.volumes@.take(i as int));
            assert(volumes.volumes@.take(i + 1).last() == volumes.volumes@[i as int]);
        }
        if volumes.volumes[i].1.len() == 0 {
            let name = build_snapshot_name(&volumes.volumes[i].0, false, &ts);
            proof {
                reveal(Seq::filter);
                assert(pred(volumes.volumes@[i as int]));
                assert(name@ == g(volumes.volumes@[i as int]));
                assert(volumes.volumes@.take(i + 1).filter(pred) == volumes.volumes@.take(
                    i as int,
                ).filter(pred).push(volumes.volumes@[i as int]));
            }
            let ghost out_before = out@;
            let ghost vi = volumes.volumes@[i as int];
            out.push(name);
            proof {
                reveal(Seq::filter);
                assert(out@ == out_before.push(name));
                assert(out@.map_values(|n: String| n@) =~= out_before.map_values(
                    |n: String| n@,
                ).push(name@));
                assert(volumes.volumes@.take(i + 1).filter(pred).map_values(g)
                    =~= volumes.volumes@.take(i as int).filter(pred).map_values(g).push(g(vi)));
                assert(out@.map_values(|n: String| n@) =~= volumes.volumes@.take(i + 1).filter(
                    pred,
                ).map_values(g));
            }
        } else {
            proof {
                reveal(Seq::filter);
                assert(out@.map_values(|n: String| n@) =~= volumes.volumes@.take(i + 1).filter(
                    pred,
                ).map_values(g));
            }
        }
        i += 1;
    }
    proof {
        assert(volumes.volumes@.take(volumes.volumes@.len() as int) =~= volumes.volumes@);
    }
    out
}

/// Picks the next backup tick from the two upcoming fire times: the earlier
/// wins, and on a tie the full backup is chosen over the incremental. `None`
/// when either schedule has no upcoming instant.
pub fn choose_tick(full_next: Option<i64>, incremental_next: Option<i64>) -> (r: Option<
    (i64, SnapshotType),
>)
    ensures
        match (full_next, incremental_next) {
            (Some(f), Some(n)) => r == Some(
                if n < f {
                    (n, SnapshotType::Incremental)
                } else {
                    (f, SnapshotType::Full)
                },
            ),
            _ => r is None,
        },
{
    match (full_next, incremental_next) {
        (Some(f), Some(n)) => if n < f {
            Some((n, SnapshotType::Incremental))
        } else {
            Some((f, SnapshotType::Full))
        },
        _ => None,
    }
}

/// The next backup tick after `now_secs` under the two cron schedules: the
/// earlier of the two next fire times, the tie to the full backup; nothing
/// when either schedule has no upcoming instant.
pub fn next_backup_tick(
    schedule: &ParsedSchedule,
    incremental: &ParsedSchedule,
    now_secs: i64,
) -> (r: Option<(i64, SnapshotType)>)
    ensures
        r == (match (
            next_fire_of(schedule.expr(), now_secs as int),
            next_fire_of(incremental.expr(), now_secs as int),
        ) {
            (Some(f), Some(n)) => Some(
                if n < f {
                    (n, SnapshotType::Incremental)
                } else {
                    (f, SnapshotType::Full)
                },
            ),
            _ => None,
        }),
        r matches Some(t) ==> t.0 > now_secs,
{
    let f = cron_next_after(schedule, now_secs);
    let n = cron_next_after(incremental, now_secs);
    choose_tick(f, n)
}

/// The next cleanup instant after `now_secs` under the cleanup schedule.
pub fn next_cleanup_tick(schedule: &ParsedSchedule, now_secs: i64) -> (r: Option<i64>)
    ensures
        r == next_fire_of(schedule.expr(), now_secs as int),
        r matches Some(t) ==> t > now_secs,
{
    cron_next_after(schedule, now_secs)
}

/// One planned upload: a self-contained full stream, or an incremental
/// stream from the predecessor snapshot.
#[derive(Debug)]
pub enum UploadAction {
    Full { name: String, key: String },
    Incremental { from: String, to: String, key: String },
}

/// The abstract form of an upload action: incremental flag, subject name,
/// predecessor name (empty for a full), remote key.
pub open spec fn action_model(a: UploadAction) -> (bool, Seq<char>, Seq<char>, Seq<char>) {
    match a {
        UploadAction::Full { name, key } => (false, name@, Seq::empty(), key@),
        UploadAction::Incremental { from, to, key } => (true, to@, from@, key@),
    }
}

/// The upload plan for one volume, covering its snapshots at positions
/// `upto` and beyond, oldest first: each snapshot whose derived key is absent
/// from the remote set is pushed, a full as itself, an incremental from its
/// predecessor at the next position.
pub open spec fn vol_plan_upto(
    snaps: Seq<Snapshot>,
    remote: Set<Seq<char>>,
    upto: int,
) -> Seq<(bool, Seq<char>, Seq<char>, Seq<char>)>
    decreases snaps.len() - upto,
{
    if upto < 0 || upto >= snaps.len() {
        Seq::empty()
    } else {
        vol_plan_upto(snaps, remote, upto + 1) + (if remote.contains(key_of(snaps[upto].name@)) {
            Seq::empty()
        } else if is_incremental_name(snaps[upto].name@) {
            seq![
                (true, snaps[upto].name@, snaps[upto + 1].name@, key_of(snaps[upto].name@)),
            ]
        } else {
            seq![(false, snaps[upto].name@, Seq::<char>::empty(), key_of(snaps[upto].name@))]
        })
    }
}

/// A volume whose oldest snapshot is a missing incremental cannot be pushed:
/// there is no predecessor to stream from.
pub open spec fn vol_plan_blocked(snaps: Seq<Snapshot>, remote: Set<Seq<char>>) -> bool {
    snaps.len() > 0 && !remote.contains(key_of(snaps[snaps.len() - 1].name@))
        && is_incremental_name(snaps[snaps.len() - 1].name@)
}

/// Whether the key list holds `key`.
fn contains_key(remote: &Vec<String>, key: &String) -> (r: bool)
    ensures
        r == str_views(remote@).contains(key@),
{
    let mut i: usize = 0;
    while i < remote.len()
        invariant
            0 <= i <= remote@.len(),
            forall|k: int| 0 <= k < i ==> #[trigger] remote@[k]@ != key@,
        decreases remote@.len() - i,
    {
        if remote[i].eq(key) {
            assert(str_views(remote@)[i as int] == key@);
            return true;
        }
        i += 1;
    }
    assert forall|k: int| 0 <= k < str_views(remote@).len() implies #[trigger] str_views(
        remote@,
    )[k] != key@ by {
        assert(remote@[k]@ != key@);
    }
    false
}

/// The set of keys in the remote listing.
pub open spec fn remote_key_set(remote: Seq<String>) -> Set<Seq<char>> {
    str_views(remote).to_set()
}

/// Plans the uploads for one volume: its snapshots are walked oldest first,
/// and each one missing from the remote listing becomes an action. A missing
/// incremental with no predecessor blocks the volume.
pub fn plan_volume_uploads(volume: &String, snaps: &Vec<Snapshot>, remote: &Vec<String>) -> (r:
    Result<Vec<UploadAction>, Zfs2S3Error>)
    ensures
        match r {
            Ok(plan) => !vol_plan_blocked(snaps@, remote_key_set(remote@)) && plan@.map_values(
                |a: UploadAction| action_model(a),
            ) == vol_plan_upto(snaps@, remote_key_set(remote@), 0),
            Err(e) => vol_plan_blocked(snaps@, remote_key_set(remote@)) && (e matches
                Zfs2S3Error::UploadError(m) && m@
                == "Not enough snapshots to perform incremental upload for volume: "@ + volume@),
        },
{
    let ghost rset = remote_key_set(remote@);
    let mut plan: Vec<UploadAction> = Vec::new();
    let n = snaps.len();
    let mut i: usize = n;
    while i > 0
        invariant
            rset == remote_key_set(remote@),
            n == snaps@.len(),
            0 <= i <= n,
            plan@.map_values(|a: UploadAction| action_model(a)) == vol_plan_upto(
                snaps@,
                rset,
                i as int,
            ),
            i < n ==> !vol_plan_blocked(snaps@, rset),
        decreases i,
    {
        let j = i - 1;
        let key_str = match snaps[j].to_key() {
            Ok(k) => k,
            Err(_) => {
                return Err(Zfs2S3Error::UploadError(String::from_str(
                    "Not enough snapshots to perform incremental upload for volume: ",
                ).concat(volume.as_str())));
            },
        };
        let key = key_str.to_owned();
        let ghost plan_before = plan@;
        if !contains_key(remote, &key) {
            assert(str_views(remote@).contains(key@) == rset.contains(key@));
            if is_incremental_snapshot(snaps[j].name.as_str()) {
                if j + 1 >= n {
                    assert(vol_plan_blocked(snaps@, rset));
                    return Err(Zfs2S3Error::UploadError(String::from_str(
                        "Not enough snapshots to perform incremental upload for volume: ",
                    ).concat(volume.as_str())));
                }
                let action = UploadAction::Incremental {
                    from: snaps[j + 1].name.clone(),
                    to: snaps[j].name.clone(),
                    key,
                };
                assert(action_model(action) == (
                    true,
                    snaps@[j as int].name@,
                    snaps@[j + 1].name@,
                    key_of(snaps@[j as int].name@),
                ));
                plan.push(action);
            } else {
                let action = UploadAction::Full { name: snaps[j].name.clone(), key };
                assert(action_model(action) == (
                    false,
                    snaps@[j as int].name@,
                    Seq::<char>::empty(),
                    key_of(snaps@[j as int].name@),
                ));
                plan.push(action);
            }
            proof {
                assert(plan@ == plan_before.push(plan@.last()));
                assert(plan@.map_values(|a: UploadAction| action_model(a)) =~= vol_plan_upto(
                    snaps@,
                    rset,
                    j as int,
                ));
            }
        } else {
            assert(str_views(remote@).contains(key@) == rset.contains(key@));
            assert(plan@.map_values(|a: UploadAction| action_model(a)) =~= vol_plan_upto(
                snaps@,
                rset,
                j as int,
            ));
        }
        proof {
            if j == n - 1 {
                assert(!vol_plan_blocked(snaps@, rset));
            }
        }
        i = j;
    }
    assert(n > 0 ==> !vol_plan_blocked(snaps@, rset));
    Ok(plan)
}

/// The upload plan of a whole catalog: the volumes' plans in catalog order.
pub open spec fn catalog_plan(
    volumes: Seq<(String, Vec<Snapshot>)>,
    remote: Set<Seq<char>>,
) -> Seq<(bool, Seq<char>, Seq<char>, Seq<char>)>
    decreases volumes.len(),
{
    if volumes.len() == 0 {
        Seq::empty()
    } else {
        catalog_plan(volumes.drop_last(), remote) + vol_plan_upto(volumes.last().1@, remote, 0)
    }
}

/// Some volume of the catalog is blocked: its oldest snapshot is a missing
/// incremental.
pub open spec fn catalog_plan_blocked(
    volumes: Seq<(String, Vec<Snapshot>)>,
    remote: Set<Seq<char>>,
) -> bool {
    exists|i: int|
        0 <= i < volumes.len() && vol_plan_blocked(#[trigger] volumes[i].1@, remote)
}

/// Plans the uploads that bring the remote listing up to the catalog: every
/// volume's missing snapshots, oldest first within each volume. Fails when
/// some volume's oldest snapshot is a missing incremental, naming that
/// volume.
pub fn plan_missing_uploads(volumes: &VolumeSnapshotMap, remote: &Vec<String>) -> (r: Result<
    Vec<UploadAction>,
    Zfs2S3Error,
>)
    ensures
        match r {
            Ok(plan) => !catalog_plan_blocked(volumes.volumes@, remote_key_set(remote@))
                && plan@.map_values(|a: UploadAction| action_model(a)) == catalog_plan(
                volumes.volumes@,
                remote_key_set(remote@),
            ),
            Err(e) => exists|i: int|
                {
                    &&& 0 <= i < volumes.volumes@.len()
                    &&& vol_plan_blocked(#[trigger] volumes.volumes@[i].1@, remote_key_set(remote@))
                    &&& forall|k: int|
                        0 <= k < i ==> !vol_plan_blocked(
                            #[trigger] volumes.volumes@[k].1@,
                            remote_key_set(remote@),
                        )
                    &&& e matches Zfs2S3Error::UploadError(m) && m@
                        == "Not enough snapshots to perform incremental upload for volume: "@
                        + volumes.volumes@[i].0@
                },
        },
{
    let ghost rset = remote_key_set(remote@);
    let mut plan: Vec<UploadAction> = Vec::new();
    let mut i: usize = 0;
    while i < volumes.volumes.len()
        invariant
            rset == remote_key_set(remote@),
            0 <= i <= volumes.volumes@.len(),
            plan@.map_values(|a: UploadAction| action_model(a)) == catalog_plan(
                volumes.volumes@.take(i as int),
                rset,
            ),
            forall|k: int|
                0 <= k < i ==> !vol_plan_blocked(#[trigger] volumes.volumes@[k].1@, rset),
        decreases volumes.volumes@.len() - i,
    {
        let ghost plan_before = plan@;
        let mut vol_plan = match plan_volume_uploads(
            &volumes.volumes[i].0,
            &volumes.volumes[i].1,
            remote,
        ) {
            Ok(p) => p,
            Err(e) => {
                assert(vol_plan_blocked(volumes.volumes@[i as int].1@, rset));
                return Err(e);
            },
        };
        let ghost vol_model = vol_plan@.map_values(|a: UploadAction| action_model(a));
        let mut k: usize = 0;
        let m = vol_plan.len();
        while k < m
            invariant
                0 <= k <= m,
                m == vol_plan@.len() + k,
                m == vol_model.len(),
                vol_plan@.map_values(|a: UploadAction| action_model(a)) == vol_model.skip(k as int),
                plan@.map_values(|a: UploadAction| action_model(a)) == catalog_plan(
                    volumes.volumes@.take(i as int),
                    rset,
                ) + vol_model.take(k as int),
            decreases m - k,
        {
            let ghost vp_before = vol_plan@;
            let ghost p_before = plan@;
            let a = vol_plan.remove(0);
            plan.push(a);
            proof {
                assert(vol_plan@ =~= vp_before.skip(1));
                assert(vp_before.map_values(|a: UploadAction| action_model(a))[0] == action_model(
                    vp_before[0],
                ));
                assert(vol_model.skip(k as int)[0] == vol_model[k as int]);
                assert(action_model(a) == vol_model[k as int]);
                assert forall|t: int|
                    0 <= t < vol_plan@.len() implies vol_plan@.map_values(
                    |a: UploadAction| action_model(a),
                )[t] == #[trigger] vol_model.skip(k + 1)[t] by {
                    assert(vol_plan@[t] == vp_before[t + 1]);
                    assert(vp_before.map_values(|a: UploadAction| action_model(a))[t + 1]
                        == action_model(vp_before[t + 1]));
                    assert(vol_model.skip(k as int)[t + 1] == vol_model[k + 1 + t]);
                    assert(vol_model.skip(k + 1)[t] == vol_model[k + 1 + t]);
                }
                assert(vol_plan@.map_values(|a: UploadAction| action_model(a)) =~= vol_model.skip(
                    k + 1,
                ));
                assert(plan@ == p_before.push(a));
                assert(plan@.map_values(|a: UploadAction| action_model(a)) =~= p_before.map_values(
                    |a: UploadAction| action_model(a),
                ).push(action_model(a)));
                assert(catalog_plan(volumes.volumes@.take(i as int), rset) + vol_model.take(k + 1)
                    =~= (catalog_plan(volumes.volumes@.take(i as int), rset) + vol_model.take(
                    k as int,
                )).push(vol_model[k as int]));
                assert(plan@.map_values(|a: UploadAction| action_model(a)) == catalog_plan(
                    volumes.volumes@.take(i as int),
                    rset,
                ) + vol_model.take(k + 1));
            }
            k += 1;
        }
        proof {
            assert(volumes.volumes@.take(i + 1).drop_last() =~= volumes.volumes@.take(i as int));
            assert(volumes.volumes@.take(i + 1).last() == volumes.volumes@[i as int]);
            assert(vol_model.take(m as int) =~= vol_model);
            assert(plan@.map_values(|a: UploadAction| action_model(a)) =~= catalog_plan(
                volumes.volumes@.take(i + 1),
                rset,
            ));
        }
        i += 1;
    }
    proof {
        assert(volumes.volumes@.take(volumes.volumes@.len() as int) =~= volumes.volumes@);
    }
    Ok(plan)
}

/// Some snapshot of the catalog derives `k` as its remote key.
pub open spec fn local_has_key(volumes: Seq<(String, Vec<Snapshot>)>, k: Seq<char>) -> bool {
    exists|i: int, j: int|
        0 <= i < volumes.len() && 0 <= j < volumes[i].1@.len() && key_of(
            #[trigger] volumes[i].1@[j].name@,
        ) == k
}

/// The set of remote keys the catalog's snapshots derive.
pub open spec fn local_key_set(volumes: Seq<(String, Vec<Snapshot>)>) -> Set<Seq<char>> {
    Set::new(|k: Seq<char>| local_has_key(volumes, k))
}

/// Whether some snapshot of one bucket derives `key`.
fn bucket_has_key(snaps: &Vec<Snapshot>, key: &String) -> (r: bool)
    ensures
        r <==> exists|j: int|
            0 <= j < snaps@.len() && key_of(#[trigger] snaps@[j].name@) == key@,
{
    let mut j: usize = 0;
    while j < snaps.len()
        invariant
            0 <= j <= snaps@.len(),
            forall|a: int| 0 <= a < j ==> key_of(#[trigger] snaps@[a].name@) != key@,
        decreases snaps@.len() - j,
    {
        let k = match snaps[j].to_key() {
            Ok(k) => k,
            Err(_) => {
                return false;
            },
        };
        let ks = k.to_owned();
        if ks.eq(key) {
            assert(key_of(snaps@[j as int].name@) == key@);
            return true;
        }
        j += 1;
    }
    false
}

/// Whether some snapshot of the catalog derives `key`.
fn catalog_has_key(volumes: &VolumeSnapshotMap, key: &String) -> (r: bool)
    ensures
        r == local_has_key(volumes.volumes@, key@),
{
    let mut i: usize = 0;
    while i < volumes.volumes.len()
        invariant
            0 <= i <= volumes.volumes@.len(),
            forall|a: int, b: int|
                0 <= a < i && 0 <= b < volumes.volumes@[a].1@.len() ==> key_of(
                    #[trigger] volumes.volumes@[a].1@[b].name@,
                ) != key@,
        decreases volumes.volumes@.len() - i,
    {
        if bucket_has_key(&volumes.volumes[i].1, key) {
            return true;
        }
        i += 1;
    }
    false
}

/// Plans the deletions that bring the remote listing down to the catalog:
/// every listed key that no local snapshot derives, in listing order.
pub fn plan_remote_deletes(volumes: &VolumeSnapshotMap, remote: &Vec<String>) -> (r: Vec<String>)
    ensures
        str_views(r@) == str_views(remote@).filter(
            |k: Seq<char>| !local_has_key(volumes.volumes@, k),
        ),
{
    let ghost pred = |k: Seq<char>| !local_has_key(volumes.volumes@, k);
    let mut out: Vec<String> = Vec::new();
    let mut i: usize = 0;
    while i < remote.len()
        invariant
            0 <= i <= remote@.len(),
            pred == (|k: Seq<char>| !local_has_key(volumes.volumes@, k)),
            str_views(out@) == str_views(remote@).take(i as int).filter(pred),
        decreases remote@.len() - i,
    {
        proof {
            reveal(Seq::filter);
            assert(str_views(remote@).take(i + 1).drop_last() =~= str_views(remote@).take(i as int));
            assert(str_views(remote@).take(i + 1).last() == remote@[i as int]@);
        }
        if !catalog_has_key(volumes, &remote[i]) {
            out.push(remote[i].clone());
            proof {
                reveal(Seq::filter);
                assert(str_views(out@) =~= str_views(remote@).take(i + 1).filter(pred));
            }
        } else {
            proof {
                reveal(Seq::filter);
                assert(str_views(out@) =~= str_views(remote@).take(i + 1).filter(pred));
            }
        }
        i += 1;
    }
    proof {
        assert(str_views(remote@).take(remote@.len() as int) =~= str_views(remote@));
    }
    out
}

/// A key occurs in an upload plan.
pub open spec fn plan_has_key(
    plan: Seq<(bool, Seq<char>, Seq<char>, Seq<char>)>,
    k: Seq<char>,
) -> bool {
    exists|i: int| 0 <= i < plan.len() && #[trigger] plan[i].3 == k
}

proof fn lemma_vol_plan_keys(snaps: Seq<Snapshot>, remote: Set<Seq<char>>, upto: int, k: Seq<char>)
    requires
        0 <= upto,
    ensures
        plan_has_key(vol_plan_upto(snaps, remote, upto), k) <==> (!remote.contains(k) && exists|j: int|
            upto <= j < snaps.len() && 0 <= j && key_of(#[trigger] snaps[j].name@) == k),
    decreases snaps.len() - upto,
{
    if 0 <= upto < snaps.len() {
        lemma_vol_plan_keys(snaps, remote, upto + 1, k);
        let rest = vol_plan_upto(snaps, remote, upto + 1);
        let whole = vol_plan_upto(snaps, remote, upto);
        if plan_has_key(whole, k) {
            let i = choose|i: int| 0 <= i < whole.len() && #[trigger] whole[i].3 == k;
            if i < rest.len() {
                assert(rest[i].3 == k);
            } else {
                assert(whole[i].3 == key_of(snaps[upto].name@));
            }
        }
        if !remote.contains(k) {
            if exists|j: int| upto <= j < snaps.len() && 0 <= j && key_of(#[trigger] snaps[j].name@) == k {
                let j = choose|j: int|
                    upto <= j < snaps.len() && 0 <= j && key_of(#[trigger] snaps[j].name@) == k;
                if j == upto {
                    assert(whole[rest.len() as int].3 == k);
                } else {
                    assert(plan_has_key(rest, k));
                    let i = choose|i: int| 0 <= i < rest.len() && #[trigger] rest[i].3 == k;
                    assert(whole[i].3 == k);
                }
            }
        }
    }
}

proof fn lemma_catalog_plan_keys(
    volumes: Seq<(String, Vec<Snapshot>)>,
    remote: Set<Seq<char>>,
    k: Seq<char>,
)
    ensures
        plan_has_key(catalog_plan(volumes, remote), k) <==> (!remote.contains(k) && local_has_key(
            volumes,
            k,
        )),
    decreases volumes.len(),
{
    if volumes.len() > 0 {
        lemma_catalog_plan_keys(volumes.drop_last(), remote, k);
        let last = volumes.last();
        lemma_vol_plan_keys(last.1@, remote, 0, k);
        let front = catalog_plan(volumes.drop_last(), remote);
        let tail = vol_plan_upto(last.1@, remote, 0);
        let whole = catalog_plan(volumes, remote);
        assert(whole == front + tail);
        if plan_has_key(whole, k) {
            let i = choose|i: int| 0 <= i < whole.len() && #[trigger] whole[i].3 == k;
            if i < front.len() {
                assert(front[i].3 == k);
                assert(plan_has_key(front, k));
                assert(local_has_key(volumes.drop_last(), k));
                let (a, b) = choose|a: int, b: int|
                    0 <= a < volumes.drop_last().len() && 0 <= b < volumes.drop_last()[a].1@.len()
                        && key_of(#[trigger] volumes.drop_last()[a].1@[b].name@) == k;
                assert(key_of(volumes[a].1@[b].name@) == k);
            } else {
                assert(tail[i - front.len()].3 == k);
                assert(plan_has_key(tail, k));
                let j = choose|j: int|
                    0 <= j < last.1@.len() && 0 <= j && key_of(#[trigger] last.1@[j].name@) == k;
                assert(key_of(volumes[volumes.len() - 1].1@[j].name@) == k);
            }
        }
        if !remote.contains(k) && local_has_key(volumes, k) {
            let (a, b) = choose|a: int, b: int|
                0 <= a < volumes.len() && 0 <= b < volumes[a].1@.len() && key_of(
                    #[trigger] volumes[a].1@[b].name@,
                ) == k;
            if a < volumes.len() - 1 {
                assert(key_of(volumes.drop_last()[a].1@[b].name@) == k);
                assert(local_has_key(volumes.drop_last(), k));
                assert(plan_has_key(front, k));
                let i = choose|i: int| 0 <= i < front.len() && #[trigger] front[i].3 == k;
                assert(whole[i].3 == k);
            } else {
                assert(key_of(last.1@[b].name@) == k);
                assert(plan_has_key(tail, k));
                let i = choose|i: int| 0 <= i < tail.len() && #[trigger] tail[i].3 == k;
                assert(whole[front.len() + i].3 == k);
            }
        }
    }
}

/// After one reconcile cycle the remote key set equals the catalog's key
/// set: pushing the planned uploads adds exactly the missing local keys, and
/// deleting the keys no local snapshot derives removes exactly the rest.
pub proof fn lemma_reconcile_converges(
    volumes: Seq<(String, Vec<Snapshot>)>,
    remote: Set<Seq<char>>,
)
    ensures
        ({
            let pushed = remote.union(
                Set::new(|k: Seq<char>| plan_has_key(catalog_plan(volumes, remote), k)),
            );
            pushed.difference(pushed.difference(local_key_set(volumes))) =~= local_key_set(volumes)
        }),
{
    assert forall|k: Seq<char>|
        plan_has_key(catalog_plan(volumes, remote), k) implies local_has_key(volumes, k) by {
        lemma_catalog_plan_keys(volumes, remote, k);
    }
    assert forall|k: Seq<char>|
        local_has_key(volumes, k) && !remote.contains(k) implies plan_has_key(
        catalog_plan(volumes, remote),
        k,
    ) by {
        lemma_catalog_plan_keys(volumes, remote, k);
    }
}

/// Reconciling twice with no intervening change is a no-op: when the remote
/// key set already equals the catalog's key set, the upload plan is empty and
/// no listed key is planned for deletion.
pub proof fn lemma_reconcile_idempotent(
    volumes: Seq<(String, Vec<Snapshot>)>,
    remote: Set<Seq<char>>,
    listing: Seq<Seq<char>>,
)
    requires
        remote =~= local_key_set(volumes),
        forall|i: int| 0 <= i < listing.len() ==> remote.contains(#[trigger] listing[i]),
    ensures
        catalog_plan(volumes, remote) == Seq::<(bool, Seq<char>, Seq<char>, Seq<char>)>::empty(),
        listing.filter(|k: Seq<char>| !local_has_key(volumes, k)) == Seq::<Seq<char>>::empty(),
    decreases volumes.len(),
{
    lemma_catalog_plan_empty(volumes, remote);
    lemma_filter_local_empty(volumes, listing);
}

proof fn lemma_catalog_plan_empty(volumes: Seq<(String, Vec<Snapshot>)>, remote: Set<Seq<char>>)
    requires
        forall|a: int, b: int|
            0 <= a < volumes.len() && 0 <= b < volumes[a].1@.len() ==> remote.contains(
                key_of(#[trigger] volumes[a].1@[b].name@),
            ),
    ensures
        catalog_plan(volumes, remote) == Seq::<(bool, Seq<char>, Seq<char>, Seq<char>)>::empty(),
    decreases volumes.len(),
{
    if volumes.len() > 0 {
        assert(forall|a: int, b: int|
            0 <= a < volumes.drop_last().len() && 0 <= b < volumes.drop_last()[a].1@.len()
                ==> remote.contains(key_of(#[trigger] volumes.drop_last()[a].1@[b].name@)));
        lemma_catalog_plan_empty(volumes.drop_last(), remote);
        lemma_vol_plan_empty(volumes.last().1@, remote, 0, volumes, volumes.len() - 1);
        assert(catalog_plan(volumes, remote) =~= Seq::<
            (bool, Seq<char>, Seq<char>, Seq<char>),
        >::empty());
    }
}

proof fn lemma_vol_plan_empty(
    snaps: Seq<Snapshot>,
    remote: Set<Seq<char>>,
    upto: int,
    volumes: Seq<(String, Vec<Snapshot>)>,
    a: int,
)
    requires
        0 <= a < volumes.len(),
        snaps == volumes[a].1@,
        forall|b: int|
            0 <= b < snaps.len() ==> remote.contains(key_of(#[trigger] snaps[b].name@)),
    ensures
        vol_plan_upto(snaps, remote, upto) == Seq::<(bool, Seq<char>, Seq<char>, Seq<char>)>::empty(),
    decreases snaps.len() - upto,
{
    if 0 <= upto < snaps.len() {
        lemma_vol_plan_empty(snaps, remote, upto + 1, volumes, a);
        assert(remote.contains(key_of(snaps[upto].name@)));
        assert(vol_plan_upto(snaps, remote, upto) =~= Seq::<
            (bool, Seq<char>, Seq<char>, Seq<char>),
        >::empty());
    }
}

proof fn lemma_filter_local_empty(volumes: Seq<(String, Vec<Snapshot>)>, listing: Seq<Seq<char>>)
    requires
        forall|i: int| 0 <= i < listing.len() ==> local_has_key(volumes, #[trigger] listing[i]),
    ensures
        listing.filter(|k: Seq<char>| !local_has_key(volumes, k)) == Seq::<Seq<char>>::empty(),
    decreases listing.len(),
{
    reveal(Seq::filter);
    if listing.len() > 0 {
        assert(forall|i: int|
            0 <= i < listing.drop_last().len() ==> local_has_key(
                volumes,
                #[trigger] listing.drop_last()[i],
            ));
        lemma_filter_local_empty(volumes, listing.drop_last());
        assert(local_has_key(volumes, listing.last()));
    }
}

} // verus!
