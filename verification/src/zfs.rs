//! The snapshot catalog: parsing the volume manager's snapshot listing,
//! bucketing snapshots by volume, deriving remote keys, and the retention
//! pruning that preserves full/incremental chains.

use vstd::prelude::*;

verus! {

use vstd::multiset::Multiset;

use crate::config::Config;
use crate::is_incremental_name;
use crate::strutil::field1;
use crate::strutil::field2;
use crate::strutil::find_last_char;
use crate::strutil::has_two_fields;
use crate::strutil::int_value;
use crate::strutil::is_i64_literal;
use crate::strutil::parse_i64;
use crate::strutil::starts_with;
use crate::strutil::two_fields;

/// A local snapshot: its fully qualified name `<volume>@<suffix>` and its
/// creation time in seconds since the Unix epoch, as recorded by the volume
/// manager.
#[derive(Debug, Clone)]
pub struct Snapshot {
    pub name: String,
    pub creation: i64,
}

/// A rejected snapshot listing line or name.
#[derive(Debug, Clone)]
pub enum SnapshotError {
    InvalidFormat(String),
    TimestampError(String),
    FailedToExtractKey(String),
}

impl SnapshotError {
    /// Human-readable form of the rejection.
    pub fn message(&self) -> (r: String)
        ensures
            match self {
                SnapshotError::InvalidFormat(s) => r@ == "Invalid snapshot format: "@ + s@,
                SnapshotError::TimestampError(s) => r@ == "Invalid timestamp in snapshot: "@ + s@,
                SnapshotError::FailedToExtractKey(s) => r@
                    == "Failed to extract key from snapshot name: "@ + s@,
            },
    {
        match self {
            SnapshotError::InvalidFormat(s) => String::from_str(
                "Invalid snapshot format: ",
            ).concat(s.as_str()),
            SnapshotError::TimestampError(s) => String::from_str(
                "Invalid timestamp in snapshot: ",
            ).concat(s.as_str()),
            SnapshotError::FailedToExtractKey(s) => String::from_str(
                "Failed to extract key from snapshot name: ",
            ).concat(s.as_str()),
        }
    }
}

/// A failed call of the volume manager.
#[derive(Debug, Clone)]
pub enum ZfsError {
    CommandError(String),
    ChildError,
}

impl ZfsError {
    /// Human-readable form of the failure.
    pub fn message(&self) -> (r: String)
        ensures
            match self {
                ZfsError::CommandError(s) => r@ == "ZFS command error: "@ + s@,
                ZfsError::ChildError => r@ == "Failed to spawn ZFS child process"@,
            },
    {
        match self {
            ZfsError::CommandError(s) => String::from_str("ZFS command error: ").concat(
                s.as_str(),
            ),
            ZfsError::ChildError => String::from_str("Failed to spawn ZFS child process"),
        }
    }
}

/// Position of the last path separator in `s`, or `-1` when `s` holds none.
pub open spec fn last_sep_idx(s: Seq<char>) -> int
    decreases s.len(),
{
    if s.len() == 0 {
        -1
    } else if s.last() == '/' {
        s.len() - 1
    } else {
        last_sep_idx(s.drop_last())
    }
}

/// The remote key of a snapshot name: what follows the last `/`, the whole
/// name when it holds none.
pub open spec fn key_of(name: Seq<char>) -> Seq<char> {
    name.skip(last_sep_idx(name) + 1)
}

proof fn lemma_last_sep_idx(s: Seq<char>)
    ensures
        -1 <= last_sep_idx(s) < s.len(),
        last_sep_idx(s) >= 0 ==> s[last_sep_idx(s)] == '/',
        forall|j: int| last_sep_idx(s) < j < s.len() ==> s[j] != '/',
    decreases s.len(),
{
    if s.len() > 0 && s.last() != '/' {
        lemma_last_sep_idx(s.drop_last());
        assert(forall|j: int| 0 <= j < s.len() - 1 ==> s[j] == s.drop_last()[j]);
    }
}

impl Snapshot {
    /// Parses one listing line `<name> <unix-seconds>`: exactly two
    /// whitespace-separated fields whose second is a decimal 64-bit count of
    /// seconds. Anything else is rejected, with the reason.
    pub fn try_from(line: &str) -> (r: Result<Snapshot, SnapshotError>)
        ensures
            match r {
                Ok(s) => {
                    &&& has_two_fields(line@)
                    &&& is_i64_literal(field2(line@))
                    &&& s.name@ == field1(line@)
                    &&& s.creation == int_value(field2(line@))
                },
                Err(e) => match e {
                    SnapshotError::InvalidFormat(m) => !has_two_fields(line@) && m@ == line@,
                    SnapshotError::TimestampError(m) => has_two_fields(line@) && !is_i64_literal(
                        field2(line@),
                    ) && m@ == field2(line@),
                    SnapshotError::FailedToExtractKey(_) => false,
                },
            },
    {
        let (name_field, ts_field) = match two_fields(line) {
            Some(p) => p,
            None => {
                return Err(SnapshotError::InvalidFormat(line.to_owned()));
            },
        };
        match parse_i64(ts_field) {
            Some(creation) => Ok(Snapshot { name: name_field.to_owned(), creation }),
            None => Err(SnapshotError::TimestampError(ts_field.to_owned())),
        }
    }

    /// The remote key of this snapshot: its name without the pool and dataset
    /// prefix, up to and including the last `/`.
    pub fn to_key(&self) -> (r: Result<&str, SnapshotError>)
        ensures
            r matches Ok(k) && k@ == key_of(self.name@),
    {
        proof {
            lemma_last_sep_idx(self.name@);
        }
        let n = self.name.as_str().unicode_len();
        match find_last_char(self.name.as_str(), '/') {
            Some(i) => {
                let k = self.name.as_str().substring_char(i + 1, n);
                assert(k@ =~= key_of(self.name@));
                Ok(k)
            },
            None => {
                let k = self.name.as_str().substring_char(0, n);
                assert(k@ =~= key_of(self.name@));
                Ok(k)
            },
        }
    }
}

/// Parses a snapshot listing: keeps each line that parses, silently discards
/// the rest.
pub fn parse_snapshot_listing(lines: &Vec<String>) -> (r: Vec<Snapshot>)
    ensures
        r@.map_values(|s: Snapshot| (s.name@, s.creation as int)) == lines@.map_values(
            |l: String| l@,
        ).filter_map(|l: Seq<char>| parsed_line(l)),
{
    let ghost views = lines@.map_values(|l: String| l@);
    let ghost f = |l: Seq<char>| parsed_line(l);
    let mut out: Vec<Snapshot> = Vec::new();
    let mut i: usize = 0;
    while i < lines.len()
        invariant
            0 <= i <= lines@.len(),
            views == lines@.map_values(|l: String| l@),
            f == (|l: Seq<char>| parsed_line(l)),
            out@.map_values(|s: Snapshot| (s.name@, s.creation as int)) == views.take(
                i as int,
            ).filter_map(f),
        decreases lines@.len() - i,
    {
        proof {
            assert(views.take(i + 1).drop_last() =~= views.take(i as int));
            assert(views.take(i + 1).last() == lines@[i as int]@);
        }
        match Snapshot::try_from(lines[i].as_str()) {
            Ok(s) => {
                out.push(s);
                proof {
                    assert(out@.map_values(|s: Snapshot| (s.name@, s.creation as int))
                        =~= views.take(i + 1).filter_map(f));
                }
            },
            Err(_) => {
                proof {
                    assert(out@.map_values(|s: Snapshot| (s.name@, s.creation as int))
                        =~= views.take(i + 1).filter_map(f));
                }
            },
        }
        i += 1;
    }
    proof {
        assert(views.take(lines@.len() as int) =~= views);
    }
    out
}

/// What one listing line denotes: the snapshot's name and creation time when
/// the line is well-formed, nothing when it is noise.
pub open spec fn parsed_line(l: Seq<char>) -> Option<(Seq<char>, int)> {
    if has_two_fields(l) && is_i64_literal(field2(l)) {
        Some((field1(l), int_value(field2(l))))
    } else {
        None
    }
}

/// Whether `glob` matches `path`.
pub uninterp spec fn glob_matches(glob: Seq<char>, path: Seq<char>) -> bool;

/// Relies on `fast_glob::glob_match`: whether the pattern matches the path
/// depends on the two texts alone.
#[verifier::external_body]
fn glob_match_str(glob: &str, path: &str) -> (r: bool)
    ensures
        r == glob_matches(glob@, path@),
{
    fast_glob::glob_match(glob, path)
}

/// `path` matches at least one of `patterns`.
pub open spec fn matches_any(path: Seq<char>, patterns: Seq<Seq<char>>) -> bool {
    exists|i: int| 0 <= i < patterns.len() && glob_matches(patterns[i], path)
}

/// Whether `path` matches any of the glob patterns.
fn matches_any_glob(path: &str, patterns: &Vec<String>) -> (r: bool)
    ensures
        r == matches_any(path@, patterns@.map_values(|p: String| p@)),
{
    let ghost views = patterns@.map_values(|p: String| p@);
    let mut i: usize = 0;
    while i < patterns.len()
        invariant
            0 <= i <= patterns@.len(),
            views == patterns@.map_values(|p: String| p@),
            forall|k: int| 0 <= k < i ==> !glob_matches(views[k], path@),
        decreases patterns@.len() - i,
    {
        if glob_match_str(patterns[i].as_str(), path) {
            assert(glob_matches(views[i as int], path@));
            return true;
        }
        i += 1;
    }
    false
}

/// `name` belongs to `volume`: it starts with the volume path followed by the
/// suffix separator.
pub open spec fn belongs_to(name: Seq<char>, volume: Seq<char>) -> bool {
    starts_with(name, volume + "@"@)
}

/// Snapshot sequences are ordered by creation time, newest first.
pub open spec fn sorted_desc(s: Seq<Snapshot>) -> bool {
    forall|i: int, j: int| 0 <= i <= j < s.len() ==> s[i].creation >= s[j].creation
}

proof fn lemma_insert_multiset(s: Seq<Snapshot>, p: int, x: Snapshot)
    requires
        0 <= p <= s.len(),
    ensures
        s.insert(p, x).to_multiset() =~= s.to_multiset().insert(x),
{
    broadcast use vstd::seq_lib::group_to_multiset_ensures;

    assert(s.insert(p, x) =~= s.take(p) + (seq![x] + s.skip(p)));
    assert(s =~= s.take(p) + s.skip(p));
    vstd::seq_lib::lemma_multiset_commutative(s.take(p), seq![x] + s.skip(p));
    vstd::seq_lib::lemma_multiset_commutative(seq![x], s.skip(p));
    vstd::seq_lib::lemma_multiset_commutative(s.take(p), s.skip(p));
    assert(Seq::<Snapshot>::empty().push(x) =~= seq![x]);
    assert(seq![x].to_multiset() =~= Multiset::empty().insert(x));
}

/// Sorts snapshots by creation time, newest first, by insertion.
fn sort_snapshots_desc(snapshots: Vec<Snapshot>) -> (r: Vec<Snapshot>)
    ensures
        sorted_desc(r@),
        r@.to_multiset() == snapshots@.to_multiset(),
{
    broadcast use vstd::seq_lib::group_to_multiset_ensures;

    let mut out: Vec<Snapshot> = Vec::new();
    let mut i: usize = 0;
    while i < snapshots.len()
        invariant
            0 <= i <= snapshots@.len(),
            sorted_desc(out@),
            out@.to_multiset() == snapshots@.take(i as int).to_multiset(),
        decreases snapshots@.len() - i,
    {
        let x = Snapshot { name: snapshots[i].name.clone(), creation: snapshots[i].creation };
        assert(x == snapshots@[i as int]);
        let mut p: usize = 0;
        while p < out.len() && out[p].creation >= x.creation
            invariant
                0 <= p <= out@.len(),
                forall|k: int| 0 <= k < p ==> out@[k].creation >= x.creation,
            decreases out@.len() - p,
        {
            p += 1;
        }
        let ghost out_before = out@;
        proof {
            broadcast use vstd::seq_lib::group_to_multiset_ensures;

            lemma_insert_multiset(out_before, p as int, x);
            assert(snapshots@.take(i + 1) =~= snapshots@.take(i as int).push(
                snapshots@[i as int],
            ));
            assert(snapshots@.take(i as int).push(snapshots@[i as int]).to_multiset()
                =~= snapshots@.take(i as int).to_multiset().insert(snapshots@[i as int]));
            assert(snapshots@.take(i + 1).to_multiset() =~= snapshots@.take(
                i as int,
            ).to_multiset().insert(snapshots@[i as int]));
        }
        out.insert(p, x);
        proof {
            assert(out@ == out_before.insert(p as int, x));
            assert(out@.len() == out_before.len() + 1);
            assert(forall|k: int| 0 <= k < p ==> out@[k] == out_before[k]);
            assert(out@[p as int] == x);
            assert(forall|k: int| p < k < out@.len() ==> out@[k] == out_before[k - 1]);
            assert(p == out_before.len() || out_before[p as int].creation < x.creation);
            assert forall|a: int, b: int|
                0 <= a <= b < out@.len() implies out@[a].creation >= out@[b].creation by {
                if a < p && b > p {
                    assert(out_before[a].creation >= x.creation);
                    assert(x.creation > out_before[b - 1].creation);
                }
            }
        }
        i += 1;
    }
    proof {
        assert(snapshots@.take(snapshots@.len() as int) =~= snapshots@);
    }
    out
}

/// The snapshots of `snapshots` that belong to `volume`, in listing order.
pub open spec fn volume_snapshots(snapshots: Seq<Snapshot>, volume: Seq<char>) -> Seq<Snapshot> {
    snapshots.filter(|s: Snapshot| belongs_to(s.name@, volume))
}

/// A volume's bucket is well formed: sorted newest first and holding exactly
/// the snapshots of the listing that belong to the volume.
pub open spec fn bucket_ok(bucket: Seq<Snapshot>, volume: Seq<char>, snapshots: Seq<Snapshot>) -> bool {
    &&& sorted_desc(bucket)
    &&& bucket.to_multiset() == volume_snapshots(snapshots, volume).to_multiset()
}

/// The snapshots of the listing that belong to `volume`, sorted newest first.
fn map_snapshot_to_volume(volume: &str, snapshots: &Vec<Snapshot>) -> (r: Vec<Snapshot>)
    ensures
        bucket_ok(r@, volume@, snapshots@),
        forall|j: int| 0 <= j < r@.len() ==> belongs_to(#[trigger] r@[j].name@, volume@),
{
    broadcast use vstd::seq_lib::group_to_multiset_ensures;

    let ghost pred = |s: Snapshot| belongs_to(s.name@, volume@);
    let mut prefix = volume.to_owned();
    prefix.append("@");
    let mut matching: Vec<Snapshot> = Vec::new();
    let mut i: usize = 0;
    while i < snapshots.len()
        invariant
            0 <= i <= snapshots@.len(),
            pred == (|s: Snapshot| belongs_to(s.name@, volume@)),
            prefix@ == volume@ + "@"@,
            matching@ == snapshots@.take(i as int).filter(pred),
        decreases snapshots@.len() - i,
    {
        proof {
            reveal(Seq::filter);
            assert(snapshots@.take(i + 1).drop_last() =~= snapshots@.take(i as int));
            assert(snapshots@.take(i + 1).last() == snapshots@[i as int]);
        }
        if crate::strutil::starts_with_str(snapshots[i].name.as_str(), prefix.as_str()) {
            let s = Snapshot { name: snapshots[i].name.clone(), creation: snapshots[i].creation };
            proof {
                reveal(Seq::filter);
                assert(s == snapshots@[i as int]);
                assert(pred(snapshots@[i as int]));
            }
            matching.push(s);
            proof {
                reveal(Seq::filter);
                assert(matching@ =~= snapshots@.take(i + 1).filter(pred));
            }
        } else {
            proof {
                reveal(Seq::filter);
                assert(!pred(snapshots@[i as int]));
                assert(matching@ =~= snapshots@.take(i + 1).filter(pred));
            }
        }
        i += 1;
    }
    proof {
        assert(snapshots@.take(snapshots@.len() as int) =~= snapshots@);
    }
    let r = sort_snapshots_desc(matching);
    proof {
        assert forall|j: int| 0 <= j < r@.len() implies belongs_to(#[trigger] r@[j].name@, volume@)
        by {
            assert(r@.to_multiset().contains(r@[j]));
            let m = volume_snapshots(snapshots@, volume@);
            assert(m.contains(r@[j]));
            let k = choose|k: int| 0 <= k < m.len() && m[k] == r@[j];
            snapshots@.lemma_filter_pred(pred, k);
        }
    }
    r
}

/// Whether some entry of `volumes` already carries `name` as its path.
fn contains_path(volumes: &Vec<(String, Vec<Snapshot>)>, name: &String) -> (r: bool)
    ensures
        r <==> exists|a: int|
            0 <= a < volumes@.len() && #[trigger] volumes@[a].0@ == name@,
{
    let mut k: usize = 0;
    while k < volumes.len()
        invariant
            0 <= k <= volumes@.len(),
            forall|a: int| 0 <= a < k ==> #[trigger] volumes@[a].0@ != name@,
        decreases volumes@.len() - k,
    {
        if volumes[k].0.eq(name) {
            assert(volumes@[k as int].0@ == name@);
            return true;
        }
        k += 1;
    }
    false
}

/// A mapping from volume paths to their snapshots, newest first.
#[derive(Debug)]
pub struct VolumeSnapshotMap {
    pub volumes: Vec<(String, Vec<Snapshot>)>,
}

/// The volume paths of a catalog, in order.
pub open spec fn catalog_paths(volumes: Seq<(String, Vec<Snapshot>)>) -> Seq<Seq<char>> {
    volumes.map_values(|v: (String, Vec<Snapshot>)| v.0@)
}

/// The distinct elements of `s`, keeping the first occurrence of each.
pub open spec fn dedup_firsts(s: Seq<Seq<char>>) -> Seq<Seq<char>>
    decreases s.len(),
{
    if s.len() == 0 {
        Seq::empty()
    } else {
        let rest = dedup_firsts(s.drop_last());
        if rest.contains(s.last()) {
            rest
        } else {
            rest.push(s.last())
        }
    }
}

impl VolumeSnapshotMap {
    /// Every bucket is sorted newest first.
    pub open spec fn buckets_sorted(&self) -> bool {
        forall|i: int| 0 <= i < self.volumes@.len() ==> sorted_desc(#[trigger] self.volumes@[i].1@)
    }

    /// Every snapshot sits in the bucket of its own volume.
    pub open spec fn buckets_prefixed(&self) -> bool {
        forall|i: int, j: int|
            0 <= i < self.volumes@.len() && 0 <= j < self.volumes@[i].1@.len() ==> belongs_to(
                #[trigger] self.volumes@[i].1@[j].name@,
                self.volumes@[i].0@,
            )
    }

    /// No volume path appears twice.
    pub open spec fn paths_unique(&self) -> bool {
        forall|i: int, j: int|
            0 <= i < j < self.volumes@.len() ==> self.volumes@[i].0@ != self.volumes@[j].0@
    }

    /// A well-formed catalog: sorted buckets, prefixed names, distinct paths.
    pub open spec fn wf(&self) -> bool {
        self.buckets_sorted() && self.buckets_prefixed() && self.paths_unique()
    }

    /// Builds the catalog from the volume listing and the snapshot listing:
    /// one bucket per distinct volume, first occurrences first, each holding
    /// the volume's snapshots newest first. Volumes without snapshots get an
    /// empty bucket.
    #[verifier::spinoff_prover]
    #[verifier::rlimit(60)]
    pub fn new(volume_names: Vec<String>, snapshots: Vec<Snapshot>) -> (r: Self)
        ensures
            r.wf(),
            catalog_paths(r.volumes@) == dedup_firsts(
                volume_names@.map_values(|v: String| v@),
            ),
            forall|i: int|
                0 <= i < r.volumes@.len() ==> bucket_ok(
                    #[trigger] r.volumes@[i].1@,
                    r.volumes@[i].0@,
                    snapshots@,
                ),
    {
        let ghost name_views = volume_names@.map_values(|v: String| v@);
        let mut volumes: Vec<(String, Vec<Snapshot>)> = Vec::new();
        let mut i: usize = 0;
        while i < volume_names.len()
            invariant
                0 <= i <= volume_names@.len(),
                name_views == volume_names@.map_values(|v: String| v@),
                catalog_paths(volumes@) == dedup_firsts(name_views.take(i as int)),
                forall|a: int, b: int|
                    0 <= a < b < volumes@.len() ==> volumes@[a].0@ != volumes@[b].0@,
                forall|a: int|
                    0 <= a < volumes@.len() ==> bucket_ok(
                        #[trigger] volumes@[a].1@,
                        volumes@[a].0@,
                        snapshots@,
                    ),
                forall|a: int, j: int|
                    0 <= a < volumes@.len() && 0 <= j < volumes@[a].1@.len() ==> belongs_to(
                        #[trigger] volumes@[a].1@[j].name@,
                        volumes@[a].0@,
                    ),
            decreases volume_names@.len() - i,
        {
            proof {
                assert(name_views.take(i + 1).drop_last() =~= name_views.take(i as int));
                assert(name_views.take(i + 1).last() == volume_names@[i as int]@);
            }
            let seen = contains_path(&volumes, &volume_names[i]);
            let ghost name = volume_names@[i as int]@;
            let ghost dd = dedup_firsts(name_views.take(i as int));
            proof {
                assert(dd == catalog_paths(volumes@));
                assert forall|a: int| 0 <= a < volumes@.len() implies dd[a]
                    == #[trigger] volumes@[a].0@ by {
                    assert(catalog_paths(volumes@)[a] == volumes@[a].0@);
                }
                if seen {
                    let a = choose|a: int|
                        0 <= a < volumes@.len() && #[trigger] volumes@[a].0@ == name;
                    assert(dd[a] == name);
                    assert(dd.contains(name));
                } else {
                    assert forall|a: int| 0 <= a < dd.len() implies dd[a] != name by {
                        assert(volumes@[a].0@ != name);
                    }
                    assert(!dd.contains(name));
                }
            }
            if !seen {
                let bucket = map_snapshot_to_volume(volume_names[i].as_str(), &snapshots);
                let path = volume_names[i].clone();
                proof {
                    assert(path@ == name);
                }
                volumes.push((path, bucket));
                proof {
                    assert(catalog_paths(volumes@) =~= dedup_firsts(name_views.take(i + 1)));
                    let m = volumes@.len() - 1;
                    assert(volumes@[m].0 == path && volumes@[m].1 == bucket);
                    assert(bucket_ok(volumes@[m].1@, volumes@[m].0@, snapshots@));
                    assert(forall|j: int|
                        0 <= j < volumes@[m].1@.len() ==> belongs_to(
                            #[trigger] volumes@[m].1@[j].name@,
                            volumes@[m].0@,
                        ));
                }
            } else {
                assert(catalog_paths(volumes@) =~= dedup_firsts(name_views.take(i + 1)));
            }
            i += 1;
        }
        proof {
            assert(name_views.take(name_views.len() as int) =~= name_views);
            assert forall|a: int|
                0 <= a < volumes@.len() implies sorted_desc(#[trigger] volumes@[a].1@) by {
                assert(bucket_ok(volumes@[a].1@, volumes@[a].0@, snapshots@));
            }
        }
        VolumeSnapshotMap { volumes }
    }

    /// The volume paths of the catalog, in order.
    pub fn volumes(&self) -> (r: Vec<String>)
        ensures
            r@.map_values(|v: String| v@) == catalog_paths(self.volumes@),
    {
        let mut out: Vec<String> = Vec::new();
        let mut i: usize = 0;
        while i < self.volumes.len()
            invariant
                0 <= i <= self.volumes@.len(),
                out@.len() == i,
                forall|k: int| 0 <= k < i ==> #[trigger] out@[k]@ == self.volumes@[k].0@,
            decreases self.volumes@.len() - i,
        {
            out.push(self.volumes[i].0.clone());
            i += 1;
        }
        proof {
            assert(out@.map_values(|v: String| v@) =~= catalog_paths(self.volumes@));
        }
        out
    }

    /// Keeps exactly the volumes whose path matches one of the policy's
    /// backup globs, in order.
    pub fn keep_volume_to_backup(self, config: &Config) -> (r: Self)
        ensures
            r.volumes@ == self.volumes@.filter(
                |v: (String, Vec<Snapshot>)| matches_any(
                    v.0@,
                    config.backup.volumes@.map_values(|p: String| p@),
                ),
            ),
            self.wf() ==> r.wf(),
    {
        let ghost orig = self.volumes@;
        let ghost patterns = config.backup.volumes@.map_values(|p: String| p@);
        let ghost pred = |v: (String, Vec<Snapshot>)| matches_any(v.0@, patterns);
        let mut kept: Vec<(String, Vec<Snapshot>)> = Vec::new();
        let mut rest = self.volumes;
        let ghost wf_in = self.wf();
        while rest.len() > 0
            invariant
                patterns == config.backup.volumes@.map_values(|p: String| p@),
                pred == (|v: (String, Vec<Snapshot>)| matches_any(v.0@, patterns)),
                rest@.len() <= orig.len(),
                rest@ == orig.skip(orig.len() - rest@.len()),
                kept@ == orig.take(orig.len() - rest@.len()).filter(pred),
            decreases rest@.len(),
        {
            let ghost k = orig.len() - rest@.len();
            let ghost rest_before = rest@;
            let v = rest.remove(0);
            proof {
                reveal(Seq::filter);
                assert(v == rest_before[0]);
                assert(rest_before[0] == orig[k]);
                assert(rest@ == rest_before.remove(0));
                assert(rest@ =~= orig.skip(k + 1));
                assert(orig.take(k + 1).drop_last() =~= orig.take(k));
                assert(orig.take(k + 1).last() == orig[k]);
            }
            if matches_any_glob(v.0.as_str(), &config.backup.volumes) {
                kept.push(v);
            }
            assert(kept@ =~= orig.take(k + 1).filter(pred));
        }
        proof {
            assert(orig.take(orig.len() as int) =~= orig);
            if wf_in {
                assert forall|i: int| 0 <= i < orig.filter(pred).len() implies {
                    &&& sorted_desc(#[trigger] orig.filter(pred)[i].1@)
                    &&& forall|j: int|
                        0 <= j < orig.filter(pred)[i].1@.len() ==> belongs_to(
                            #[trigger] orig.filter(pred)[i].1@[j].name@,
                            orig.filter(pred)[i].0@,
                        )
                } by {
                    lemma_filter_member_from(orig, pred, i);
                    let b = choose|b: int|
                        0 <= b < orig.len() && #[trigger] orig[b] == orig.filter(pred)[i];
                    assert(sorted_desc(orig[b].1@));
                }
                assert forall|i: int, j: int| 0 <= i < j < orig.filter(pred).len() implies
                    orig.filter(pred)[i].0@ != orig.filter(pred)[j].0@ by {
                    lemma_filter_keeps_distinct(orig, pred, i, j);
                }
            }
        }
        VolumeSnapshotMap { volumes: kept }
    }
}

/// Two distinct positions of a filtered sequence come from two distinct
/// positions of the original, in order.
proof fn lemma_filter_keeps_distinct(
    s: Seq<(String, Vec<Snapshot>)>,
    pred: spec_fn((String, Vec<Snapshot>)) -> bool,
    i: int,
    j: int,
)
    requires
        0 <= i < j < s.filter(pred).len(),
        forall|a: int, b: int| 0 <= a < b < s.len() ==> s[a].0@ != s[b].0@,
    ensures
        s.filter(pred)[i].0@ != s.filter(pred)[j].0@,
    decreases s.len(),
{
    reveal(Seq::filter);
    if s.len() > 0 {
        let f = s.filter(pred);
        let fd = s.drop_last().filter(pred);
        assert(forall|a: int, b: int|
            0 <= a < b < s.drop_last().len() ==> s.drop_last()[a].0@ != s.drop_last()[b].0@);
        if pred(s.last()) {
            assert(f == fd.push(s.last()));
            if j < fd.len() {
                lemma_filter_keeps_distinct(s.drop_last(), pred, i, j);
            } else {
                s.drop_last().lemma_filter_pred(pred, i);
                assert(f[i] == fd[i]);
                assert(f[j] == s.last());
                lemma_filter_member_from(s.drop_last(), pred, i);
                let b = choose|b: int|
                    0 <= b < s.drop_last().len() && #[trigger] s.drop_last()[b] == fd[i];
                assert(s[b] == fd[i]);
                assert(s[b].0@ != s.last().0@);
            }
        } else {
            assert(f == fd);
            lemma_filter_keeps_distinct(s.drop_last(), pred, i, j);
        }
    }
}

/// Every element of a filtered sequence occurs in the original.
proof fn lemma_filter_member_from(
    s: Seq<(String, Vec<Snapshot>)>,
    pred: spec_fn((String, Vec<Snapshot>)) -> bool,
    i: int,
)
    requires
        0 <= i < s.filter(pred).len(),
    ensures
        exists|b: int| 0 <= b < s.len() && #[trigger] s[b] == s.filter(pred)[i],
    decreases s.len(),
{
    reveal(Seq::filter);
    if s.len() > 0 {
        let f = s.filter(pred);
        let fd = s.drop_last().filter(pred);
        if pred(s.last()) && i == fd.len() {
            assert(s[s.len() - 1] == f[i]);
        } else {
            lemma_filter_member_from(s.drop_last(), pred, i);
            let b = choose|b: int|
                0 <= b < s.drop_last().len() && #[trigger] s.drop_last()[b] == fd[i];
            assert(s[b] == f[i]);
        }
    }
}

impl VolumeSnapshotMap {
    /// Rebuilds every bucket from a fresh snapshot listing, keeping the
    /// volume set.
    #[verifier::spinoff_prover]
    #[verifier::rlimit(60)]
    pub fn refresh(&mut self, snapshots: &Vec<Snapshot>)
        ensures
            final(self).volumes@.len() == old(self).volumes@.len(),
            forall|i: int|
                0 <= i < final(self).volumes@.len() ==> #[trigger] final(self).volumes@[i].0
                    == old(self).volumes@[i].0,
            forall|i: int|
                0 <= i < final(self).volumes@.len() ==> bucket_ok(
                    #[trigger] final(self).volumes@[i].1@,
                    final(self).volumes@[i].0@,
                    snapshots@,
                ),
            old(self).paths_unique() ==> final(self).wf(),
    {
        let mut rebuilt: Vec<(String, Vec<Snapshot>)> = Vec::new();
        let mut i: usize = 0;
        while i < self.volumes.len()
            invariant
                0 <= i <= self.volumes@.len(),
                rebuilt@.len() == i,
                forall|k: int|
                    0 <= k < i ==> #[trigger] rebuilt@[k].0 == self.volumes@[k].0,
                forall|k: int|
                    0 <= k < i ==> bucket_ok(
                        #[trigger] rebuilt@[k].1@,
                        rebuilt@[k].0@,
                        snapshots@,
                    ),
                forall|k: int, j: int|
                    0 <= k < i && 0 <= j < rebuilt@[k].1@.len() ==> belongs_to(
                        #[trigger] rebuilt@[k].1@[j].name@,
                        rebuilt@[k].0@,
                    ),
            decreases self.volumes@.len() - i,
        {
            let path = self.volumes[i].0.clone();
            let bucket = map_snapshot_to_volume(path.as_str(), snapshots);
            rebuilt.push((path, bucket));
            proof {
                let m = rebuilt@.len() - 1;
                assert(rebuilt@[m].0 == path && rebuilt@[m].1 == bucket);
                assert(bucket_ok(rebuilt@[m].1@, rebuilt@[m].0@, snapshots@));
                assert(forall|j: int|
                    0 <= j < rebuilt@[m].1@.len() ==> belongs_to(
                        #[trigger] rebuilt@[m].1@[j].name@,
                        rebuilt@[m].0@,
                    ));
            }
            i += 1;
        }
        self.volumes = rebuilt;
        proof {
            assert forall|a: int|
                0 <= a < self.volumes@.len() implies sorted_desc(
                #[trigger] self.volumes@[a].1@,
            ) by {
                assert(bucket_ok(self.volumes@[a].1@, self.volumes@[a].0@, snapshots@));
            }
        }
    }
}

/// A snapshot is full when its name does not carry the incremental marker.
pub open spec fn is_full(s: Snapshot) -> bool {
    !is_incremental_name(s.name@)
}

/// Index of the `k`-th full snapshot at or after position `i`, counting from
/// zero; the length of `s` when there is none.
pub open spec fn full_idx(s: Seq<Snapshot>, i: int, k: int) -> int
    decreases s.len() - i,
{
    if i < 0 || i >= s.len() {
        s.len() as int
    } else if is_full(s[i]) {
        if k <= 0 {
            i
        } else {
            full_idx(s, i + 1, k - 1)
        }
    } else {
        full_idx(s, i + 1, k)
    }
}

/// First position at or after `i` whose snapshot was created before `cut`;
/// the length of `s` when there is none.
pub open spec fn first_older_idx(s: Seq<Snapshot>, i: int, cut: int) -> int
    decreases s.len() - i,
{
    if i < 0 || i >= s.len() {
        s.len() as int
    } else if s[i].creation < cut {
        i
    } else {
        first_older_idx(s, i + 1, cut)
    }
}

/// Position of the last full snapshot before `t`, or `-1` when `s[0..t]`
/// holds none.
pub open spec fn last_full_before(s: Seq<Snapshot>, t: int) -> int
    decreases t,
{
    if t <= 0 {
        -1
    } else if is_full(s[t - 1]) {
        t - 1
    } else {
        last_full_before(s, t - 1)
    }
}

/// How many entries of the descending sequence `s` retention keeps: find the
/// `keep_min`-th full snapshot (retain everything when there are fewer than
/// `keep_min + 1` fulls), from there the first snapshot older than `cut`,
/// then walk back to the last full before that point and keep it and
/// everything newer. When no full lies before that point, cutting there
/// would destroy the full that the retained incrementals chain to, so
/// everything is retained instead — except when nothing would be retained
/// at all, or nothing pruned, where the cut stands.
pub open spec fn retention_cutoff(s: Seq<Snapshot>, keep_min: int, cut: int) -> int {
    let start = full_idx(s, 0, keep_min);
    if start == s.len() {
        s.len() as int
    } else {
        let t = first_older_idx(s, start, cut);
        let p = last_full_before(s, t);
        if p >= 0 {
            p + 1
        } else if t == 0 || t == s.len() {
            t
        } else {
            s.len() as int
        }
    }
}

proof fn lemma_full_idx_bounds(s: Seq<Snapshot>, i: int, k: int)
    requires
        0 <= i <= s.len(),
    ensures
        i <= full_idx(s, i, k) <= s.len(),
        full_idx(s, i, k) < s.len() ==> is_full(s[full_idx(s, i, k)]),
    decreases s.len() - i,
{
    if i < s.len() {
        lemma_full_idx_bounds(s, i + 1, k - 1);
        lemma_full_idx_bounds(s, i + 1, k);
    }
}

proof fn lemma_first_older_bounds(s: Seq<Snapshot>, i: int, cut: int)
    requires
        0 <= i <= s.len(),
    ensures
        i <= first_older_idx(s, i, cut) <= s.len(),
        first_older_idx(s, i, cut) < s.len() ==> s[first_older_idx(s, i, cut)].creation < cut,
        forall|j: int| i <= j < first_older_idx(s, i, cut) ==> #[trigger] s[j].creation >= cut,
    decreases s.len() - i,
{
    if i < s.len() {
        lemma_first_older_bounds(s, i + 1, cut);
    }
}

proof fn lemma_last_full_bounds(s: Seq<Snapshot>, t: int)
    requires
        0 <= t <= s.len(),
    ensures
        -1 <= last_full_before(s, t) < t,
        last_full_before(s, t) >= 0 ==> is_full(s[last_full_before(s, t)]),
        forall|j: int| last_full_before(s, t) < j < t ==> !is_full(#[trigger] s[j]),
    decreases t,
{
    if t > 0 {
        lemma_last_full_bounds(s, t - 1);
    }
}

/// The retention cutoff lies within the sequence.
pub proof fn lemma_retention_cutoff_bounds(s: Seq<Snapshot>, keep_min: int, cut: int)
    requires
        0 <= keep_min,
    ensures
        0 <= retention_cutoff(s, keep_min, cut) <= s.len(),
{
    lemma_full_idx_bounds(s, 0, keep_min);
    let start = full_idx(s, 0, keep_min);
    if start < s.len() {
        lemma_first_older_bounds(s, start, cut);
        lemma_last_full_bounds(s, first_older_idx(s, start, cut));
    }
}

/// Computes how many entries of the descending sequence retention keeps.
pub fn retention_cutoff_index(snapshots: &Vec<Snapshot>, keep_min: usize, cutoff_ts: i64) -> (r:
    usize)
    ensures
        r == retention_cutoff(snapshots@, keep_min as int, cutoff_ts as int),
        r <= snapshots@.len(),
{
    let ghost s = snapshots@;
    let n = snapshots.len();
    let mut j: usize = 0;
    let mut k: usize = keep_min;
    let mut found = false;
    let mut start: usize = n;
    while j < n && !found
        invariant
            n == s.len(),
            s == snapshots@,
            0 <= j <= n,
            !found ==> 0 <= k <= keep_min && full_idx(s, 0, keep_min as int) == full_idx(
                s,
                j as int,
                k as int,
            ) && start == n,
            found ==> start < n && start == full_idx(s, 0, keep_min as int),
        decreases n - j + (if found { 0int } else { 1int }),
    {
        if !crate::is_incremental_snapshot(snapshots[j].name.as_str()) {
            if k == 0 {
                start = j;
                found = true;
            } else {
                k -= 1;
                j += 1;
            }
        } else {
            j += 1;
        }
    }
    if !found {
        assert(start == full_idx(s, 0, keep_min as int));
        return n;
    }
    let mut t: usize = start;
    while t < n && !(snapshots[t].creation < cutoff_ts)
        invariant
            n == s.len(),
            s == snapshots@,
            start <= t <= n,
            first_older_idx(s, start as int, cutoff_ts as int) == first_older_idx(
                s,
                t as int,
                cutoff_ts as int,
            ),
        decreases n - t,
    {
        t += 1;
    }
    assert(t == first_older_idx(s, start as int, cutoff_ts as int));
    let mut q: usize = t;
    let mut p_found = false;
    let mut cut_idx: usize = t;
    while q > 0 && !p_found
        invariant
            n == s.len(),
            s == snapshots@,
            0 <= q <= t <= n,
            !p_found ==> last_full_before(s, t as int) == last_full_before(s, q as int) && cut_idx
                == t,
            p_found ==> 1 <= cut_idx <= t && cut_idx == last_full_before(s, t as int) + 1,
        decreases q + (if p_found { 0int } else { 1int }),
    {
        if !crate::is_incremental_snapshot(snapshots[q - 1].name.as_str()) {
            p_found = true;
            cut_idx = q;
        } else {
            q -= 1;
        }
    }
    if !p_found {
        assert(last_full_before(s, t as int) == -1);
        if t > 0 && t < n {
            return n;
        }
    }
    cut_idx
}

/// The first `n` snapshots of `v`, copied.
fn clone_prefix(v: &Vec<Snapshot>, n: usize) -> (r: Vec<Snapshot>)
    requires
        n <= v@.len(),
    ensures
        r@ == v@.take(n as int),
{
    let mut out: Vec<Snapshot> = Vec::new();
    let mut j: usize = 0;
    while j < n
        invariant
            n <= v@.len(),
            0 <= j <= n,
            out@.len() == j,
            forall|a: int| 0 <= a < j ==> #[trigger] out@[a] == v@[a],
        decreases n - j,
    {
        let snap = Snapshot { name: v[j].name.clone(), creation: v[j].creation };
        assert(snap == v@[j as int]);
        out.push(snap);
        j += 1;
    }
    proof {
        assert(out@ =~= v@.take(n as int));
    }
    out
}

impl VolumeSnapshotMap {
    /// Applies the retention policy to every bucket: each is truncated at its
    /// retention cutoff for the given `keep_min` and cutoff time.
    #[verifier::spinoff_prover]
    #[verifier::rlimit(60)]
    pub fn apply_retention_policy(&mut self, keep_min: usize, cutoff_ts: i64)
        requires
            old(self).wf(),
        ensures
            final(self).wf(),
            final(self).volumes@.len() == old(self).volumes@.len(),
            forall|i: int|
                0 <= i < final(self).volumes@.len() ==> #[trigger] final(self).volumes@[i].0
                    == old(self).volumes@[i].0,
            forall|i: int|
                0 <= i < final(self).volumes@.len() ==> #[trigger] final(self).volumes@[i].1@
                    == old(self).volumes@[i].1@.take(
                    retention_cutoff(old(self).volumes@[i].1@, keep_min as int, cutoff_ts as int),
                ),
    {
        let ghost orig = self.volumes@;
        let mut rebuilt: Vec<(String, Vec<Snapshot>)> = Vec::new();
        let mut i: usize = 0;
        while i < self.volumes.len()
            invariant
                orig == self.volumes@,
                0 <= i <= orig.len(),
                rebuilt@.len() == i,
                forall|k: int| 0 <= k < i ==> #[trigger] rebuilt@[k].0 == orig[k].0,
                forall|k: int|
                    0 <= k < i ==> #[trigger] rebuilt@[k].1@ == orig[k].1@.take(
                        retention_cutoff(orig[k].1@, keep_min as int, cutoff_ts as int),
                    ),
            decreases orig.len() - i,
        {
            proof {
                lemma_retention_cutoff_bounds(orig[i as int].1@, keep_min as int, cutoff_ts as int);
            }
            let path = self.volumes[i].0.clone();
            let cut = retention_cutoff_index(&self.volumes[i].1, keep_min, cutoff_ts);
            let bucket = clone_prefix(&self.volumes[i].1, cut);
            let ghost rebuilt_before = rebuilt@;
            rebuilt.push((path, bucket));
            proof {
                assert forall|k: int|
                    0 <= k < i + 1 implies #[trigger] rebuilt@[k].1@ == orig[k].1@.take(
                    retention_cutoff(orig[k].1@, keep_min as int, cutoff_ts as int),
                ) by {
                    if k < i {
                        assert(rebuilt@[k] == rebuilt_before[k]);
                        assert(rebuilt_before[k].1@ == orig[k].1@.take(
                            retention_cutoff(orig[k].1@, keep_min as int, cutoff_ts as int),
                        ));
                    } else {
                        assert(rebuilt@[k].1@ == orig[i as int].1@.take(cut as int));
                    }
                }
                assert forall|k: int|
                    0 <= k < i + 1 implies #[trigger] rebuilt@[k].0 == orig[k].0 by {
                    if k < i {
                        assert(rebuilt@[k] == rebuilt_before[k]);
                    }
                }
            }
            proof {
                let m = rebuilt@.len() - 1;
                assert(rebuilt@[m].0 == path && rebuilt@[m].1 == bucket);
                assert(path == orig[m].0);
                assert(rebuilt@[m].1@ == orig[m].1@.take(
                    retention_cutoff(orig[m].1@, keep_min as int, cutoff_ts as int),
                ));
            }
            i += 1;
        }
        self.volumes = rebuilt;
        proof {
            assert forall|i: int|
                0 <= i < self.volumes@.len() implies sorted_desc(#[trigger] self.volumes@[i].1@)
                && (forall|j: int|
                    0 <= j < self.volumes@[i].1@.len() ==> belongs_to(
                        #[trigger] self.volumes@[i].1@[j].name@,
                        self.volumes@[i].0@,
                    )) by {
                lemma_retention_cutoff_bounds(orig[i].1@, keep_min as int, cutoff_ts as int);
                assert(old(self).buckets_sorted());
                assert(old(self).buckets_prefixed());
                assert(sorted_desc(old(self).volumes@[i].1@));
                assert(orig[i].1@ == old(self).volumes@[i].1@);
                assert(self.volumes@[i].1@ == orig[i].1@.take(
                    retention_cutoff(orig[i].1@, keep_min as int, cutoff_ts as int),
                ));
                assert forall|j: int|
                    0 <= j < self.volumes@[i].1@.len() implies belongs_to(
                        #[trigger] self.volumes@[i].1@[j].name@,
                        self.volumes@[i].0@,
                    ) by {
                    assert(self.volumes@[i].1@[j] == old(self).volumes@[i].1@[j]);
                    assert(belongs_to(old(self).volumes@[i].1@[j].name@, old(self).volumes@[i].0@));
                }
            }
            assert(old(self).paths_unique());
        }
    }
}

/// Number of full snapshots at positions `[i, end)`.
pub open spec fn fulls_in(s: Seq<Snapshot>, i: int, end: int) -> int
    decreases end - i,
{
    if i >= end {
        0
    } else {
        (if 0 <= i < s.len() && is_full(s[i]) {
            1int
        } else {
            0int
        }) + fulls_in(s, i + 1, end)
    }
}

/// Number of full snapshots in `s`.
pub open spec fn count_fulls(s: Seq<Snapshot>) -> int {
    fulls_in(s, 0, s.len() as int)
}

proof fn lemma_fulls_in_nonneg(s: Seq<Snapshot>, i: int, end: int)
    ensures
        fulls_in(s, i, end) >= 0,
    decreases end - i,
{
    if i < end {
        lemma_fulls_in_nonneg(s, i + 1, end);
    }
}

proof fn lemma_fulls_in_split(s: Seq<Snapshot>, i: int, j: int, end: int)
    requires
        i <= j <= end,
    ensures
        fulls_in(s, i, end) == fulls_in(s, i, j) + fulls_in(s, j, end),
    decreases j - i,
{
    if i < j {
        lemma_fulls_in_split(s, i + 1, j, end);
    }
}

proof fn lemma_full_idx_count(s: Seq<Snapshot>, i: int, k: int)
    requires
        0 <= i <= s.len(),
        0 <= k,
    ensures
        full_idx(s, i, k) < s.len() ==> fulls_in(s, i, full_idx(s, i, k)) == k,
        full_idx(s, i, k) == s.len() ==> fulls_in(s, i, s.len() as int) <= k,
    decreases s.len() - i,
{
    lemma_full_idx_bounds(s, i, k);
    if i < s.len() {
        if is_full(s[i]) {
            if k > 0 {
                lemma_full_idx_count(s, i + 1, k - 1);
                lemma_full_idx_bounds(s, i + 1, k - 1);
            }
        } else {
            lemma_full_idx_count(s, i + 1, k);
            lemma_full_idx_bounds(s, i + 1, k);
        }
    }
}

proof fn lemma_last_full_count(s: Seq<Snapshot>, t: int)
    requires
        0 <= t <= s.len(),
    ensures
        last_full_before(s, t) == -1 ==> fulls_in(s, 0, t) == 0,
        last_full_before(s, t) >= 0 ==> fulls_in(s, last_full_before(s, t) + 1, t) == 0,
    decreases t,
{
    lemma_last_full_bounds(s, t);
    if t > 0 {
        assert(fulls_in(s, t, t) == 0);
        if !is_full(s[t - 1]) {
            assert(fulls_in(s, t - 1, t) == 0);
            lemma_last_full_count(s, t - 1);
            let p = last_full_before(s, t - 1);
            if p == -1 {
                lemma_fulls_in_split(s, 0, t - 1, t);
            } else {
                lemma_fulls_in_split(s, p + 1, t - 1, t);
            }
        }
    }
}

/// After retention at least `min(keep_min, count_fulls(s))` full snapshots
/// remain: the pruned sequence `s.take(retention_cutoff(..))` still holds that
/// many fulls.
pub proof fn lemma_retention_keeps_min_fulls(s: Seq<Snapshot>, keep_min: int, cut: int)
    requires
        0 <= keep_min,
    ensures
        fulls_in(s, 0, retention_cutoff(s, keep_min, cut)) >= (if keep_min <= count_fulls(s) {
            keep_min
        } else {
            count_fulls(s)
        }),
{
    let start = full_idx(s, 0, keep_min);
    lemma_full_idx_bounds(s, 0, keep_min);
    lemma_full_idx_count(s, 0, keep_min);
    if start == s.len() {
        // everything is retained
    } else {
        let t = first_older_idx(s, start, cut);
        lemma_first_older_bounds(s, start, cut);
        let p = last_full_before(s, t);
        lemma_last_full_bounds(s, t);
        lemma_last_full_count(s, t);
        if t > start {
            // s[start] is full and lies in [0, t), so a full precedes t
            if p == -1 {
                lemma_fulls_in_split(s, 0, start, t);
                lemma_fulls_in_split(s, start + 1, t, t);
                assert(fulls_in(s, start, t) >= 1) by {
                    lemma_fulls_in_nonneg(s, start + 1, t);
                }
                lemma_fulls_in_nonneg(s, 0, start);
                assert(false);
            }
            if p < start {
                lemma_fulls_in_split(s, p + 1, start, t);
                assert(fulls_in(s, start, t) >= 1) by {
                    lemma_fulls_in_nonneg(s, start + 1, t);
                }
                lemma_fulls_in_nonneg(s, p + 1, start);
                assert(false);
            }
            lemma_fulls_in_split(s, 0, start, p + 1);
            lemma_fulls_in_nonneg(s, start, p + 1);
        } else {
            if p >= 0 {
                lemma_fulls_in_split(s, 0, p + 1, t);
            } else {
                lemma_fulls_in_nonneg(s, 0, t);
            }
        }
    }
}

/// Chain integrity of retention: every retained incremental snapshot that
/// has a predecessor in the original sequence keeps that predecessor too.
pub proof fn lemma_retention_chain(s: Seq<Snapshot>, keep_min: int, cut: int)
    requires
        0 <= keep_min,
    ensures
        forall|i: int|
            (0 <= i < retention_cutoff(s, keep_min, cut) && !is_full(#[trigger] s[i]) && i + 1
                < s.len()) ==> i + 1 < retention_cutoff(s, keep_min, cut),
{
    let c = retention_cutoff(s, keep_min, cut);
    let start = full_idx(s, 0, keep_min);
    lemma_full_idx_bounds(s, 0, keep_min);
    if start < s.len() {
        let t = first_older_idx(s, start, cut);
        lemma_first_older_bounds(s, start, cut);
        let p = last_full_before(s, t);
        lemma_last_full_bounds(s, t);
        assert forall|i: int|
            (0 <= i < c && !is_full(s[i]) && i + 1 < s.len()) implies i + 1 < c by {
            if p >= 0 {
                assert(is_full(s[c - 1]));
            }
        }
    }
}

/// With `keep_min = 0`, the newest snapshot full and every snapshot older
/// than the cutoff, retention prunes the whole sequence.
pub proof fn lemma_retention_prunes_all(s: Seq<Snapshot>, cut: int)
    requires
        s.len() > 0,
        is_full(s[0]),
        forall|i: int| 0 <= i < s.len() ==> #[trigger] s[i].creation < cut,
    ensures
        retention_cutoff(s, 0, cut) == 0,
{
    assert(full_idx(s, 0, 0) == 0);
    assert(first_older_idx(s, 0, cut) == 0);
    assert(last_full_before(s, 0) == -1);
}

/// The names one volume's retention pass destroys: the entries dropped by
/// the truncation, except those matching an exclusion glob.
pub open spec fn vol_dropped(
    bucket: Seq<Snapshot>,
    keep_min: int,
    cut: int,
    excl: Seq<Seq<char>>,
) -> Seq<Seq<char>> {
    bucket.skip(retention_cutoff(bucket, keep_min, cut)).map_values(
        |s: Snapshot| s.name@,
    ).filter(|n: Seq<char>| !matches_any(n, excl))
}

/// The names a whole catalog's retention pass destroys, in catalog order.
pub open spec fn retention_dropped(
    volumes: Seq<(String, Vec<Snapshot>)>,
    keep_min: int,
    cut: int,
    excl: Seq<Seq<char>>,
) -> Seq<Seq<char>>
    decreases volumes.len(),
{
    if volumes.len() == 0 {
        Seq::empty()
    } else {
        retention_dropped(volumes.drop_last(), keep_min, cut, excl) + vol_dropped(
            volumes.last().1@,
            keep_min,
            cut,
            excl,
        )
    }
}

/// The destroy plan of one bucket.
fn vol_dropped_names(bucket: &Vec<Snapshot>, keep_min: usize, cutoff_ts: i64, exclude: &Vec<
    String,
>) -> (r: Vec<String>)
    ensures
        str_views(r@) == vol_dropped(
            bucket@,
            keep_min as int,
            cutoff_ts as int,
            str_views(exclude@),
        ),
{
    proof {
        lemma_retention_cutoff_bounds(bucket@, keep_min as int, cutoff_ts as int);
    }
    let cut = retention_cutoff_index(bucket, keep_min, cutoff_ts);
    let ghost dropped = bucket@.skip(cut as int).map_values(|s: Snapshot| s.name@);
    let ghost pred = |n: Seq<char>| !matches_any(n, str_views(exclude@));
    let mut out: Vec<String> = Vec::new();
    let mut j: usize = cut;
    while j < bucket.len()
        invariant
            cut <= j <= bucket@.len(),
            dropped == bucket@.skip(cut as int).map_values(|s: Snapshot| s.name@),
            pred == (|n: Seq<char>| !matches_any(n, str_views(exclude@))),
            str_views(out@) == dropped.take(j - cut).filter(pred),
        decreases bucket@.len() - j,
    {
        proof {
            reveal(Seq::filter);
            assert(dropped.take(j - cut + 1).drop_last() =~= dropped.take(j - cut));
            assert(dropped.take(j - cut + 1).last() == bucket@[j as int].name@);
        }
        if !matches_any_glob(bucket[j].name.as_str(), exclude) {
            out.push(bucket[j].name.clone());
            proof {
                reveal(Seq::filter);
                assert(str_views(out@) =~= dropped.take(j - cut + 1).filter(pred));
            }
        } else {
            proof {
                reveal(Seq::filter);
                assert(str_views(out@) =~= dropped.take(j - cut + 1).filter(pred));
            }
        }
        j += 1;
    }
    proof {
        assert(dropped.take(dropped.len() as int) =~= dropped);
    }
    out
}

impl VolumeSnapshotMap {
    /// Plans which snapshots a retention pass destroys: per volume, exactly
    /// the entries the truncation drops, except those whose names match an
    /// exclusion glob. Computed against the catalog as it stands, before
    /// `apply_retention_policy` prunes it.
    pub fn plan_retention_destroy(
        &self,
        keep_min: usize,
        cutoff_ts: i64,
        exclude: &Vec<String>,
    ) -> (r: Vec<String>)
        ensures
            str_views(r@) == retention_dropped(
                self.volumes@,
                keep_min as int,
                cutoff_ts as int,
                str_views(exclude@),
            ),
    {
        let ghost excl = str_views(exclude@);
        let mut out: Vec<String> = Vec::new();
        let mut i: usize = 0;
        while i < self.volumes.len()
            invariant
                0 <= i <= self.volumes@.len(),
                excl == str_views(exclude@),
                str_views(out@) == retention_dropped(
                    self.volumes@.take(i as int),
                    keep_min as int,
                    cutoff_ts as int,
                    excl,
                ),
            decreases self.volumes@.len() - i,
        {
            let mut vol_out = vol_dropped_names(&self.volumes[i].1, keep_min, cutoff_ts, exclude);
            let ghost vol_views = str_views(vol_out@);
            let m = vol_out.len();
            let mut k: usize = 0;
            while k < m
                invariant
                    0 <= k <= m,
                    m == vol_out@.len() + k,
                    m == vol_views.len(),
                    str_views(vol_out@) == vol_views.skip(k as int),
                    str_views(out@) == retention_dropped(
                        self.volumes@.take(i as int),
                        keep_min as int,
                        cutoff_ts as int,
                        excl,
                    ) + vol_views.take(k as int),
                decreases m - k,
            {
                let ghost vo_before = vol_out@;
                let ghost o_before = out@;
                let name = vol_out.remove(0);
                out.push(name);
                proof {
                    assert(vol_out@ =~= vo_before.skip(1));
                    assert(str_views(vo_before)[0] == vol_views.skip(k as int)[0]);
                    assert(vol_views.skip(k as int)[0] == vol_views[k as int]);
                    assert forall|t: int|
                        0 <= t < vol_out@.len() implies str_views(vol_out@)[t]
                        == #[trigger] vol_views.skip(k + 1)[t] by {
                        assert(vol_out@[t] == vo_before[t + 1]);
                        assert(str_views(vo_before)[t + 1] == vo_before[t + 1]@);
                        assert(vol_views.skip(k as int)[t + 1] == vol_views[k + 1 + t]);
                        assert(vol_views.skip(k + 1)[t] == vol_views[k + 1 + t]);
                    }
                    assert(str_views(vol_out@) =~= vol_views.skip(k + 1));
                    assert(out@ == o_before.push(name));
                    assert(str_views(out@) =~= str_views(o_before).push(name@));
                    assert(name@ == vol_views[k as int]);
                    assert(retention_dropped(
                        self.volumes@.take(i as int),
                        keep_min as int,
                        cutoff_ts as int,
                        excl,
                    ) + vol_views.take(k + 1) =~= (retention_dropped(
                        self.volumes@.take(i as int),
                        keep_min as int,
                        cutoff_ts as int,
                        excl,
                    ) + vol_views.take(k as int)).push(vol_views[k as int]));
                    assert(str_views(out@) == retention_dropped(
                        self.volumes@.take(i as int),
                        keep_min as int,
                        cutoff_ts as int,
                        excl,
                    ) + vol_views.take(k + 1));
                }
                k += 1;
            }
            proof {
                assert(self.volumes@.take(i + 1).drop_last() =~= self.volumes@.take(i as int));
                assert(self.volumes@.take(i + 1).last() == self.volumes@[i as int]);
                assert(vol_views.take(m as int) =~= vol_views);
                assert(str_views(out@) =~= retention_dropped(
                    self.volumes@.take(i + 1),
                    keep_min as int,
                    cutoff_ts as int,
                    excl,
                ));
            }
            i += 1;
        }
        proof {
            assert(self.volumes@.take(self.volumes@.len() as int) =~= self.volumes@);
        }
        out
    }
}

/// The views of a sequence of strings.
pub open spec fn str_views(v: Seq<String>) -> Seq<Seq<char>> {
    v.map_values(|s: String| s@)
}

/// Retention safety over a whole catalog: after pruning every bucket at its
/// retention cutoff, each bucket still holds at least `min(keep_min, its
/// fulls)` full snapshots, and each retained incremental that had a
/// predecessor keeps it.
pub proof fn lemma_retention_policy_safe(
    volumes: Seq<(String, Vec<Snapshot>)>,
    keep_min: int,
    cut: int,
)
    requires
        0 <= keep_min,
    ensures
        forall|v: int|
            0 <= v < volumes.len() ==> fulls_in(
                #[trigger] volumes[v].1@,
                0,
                retention_cutoff(volumes[v].1@, keep_min, cut),
            ) >= (if keep_min <= count_fulls(volumes[v].1@) {
                keep_min
            } else {
                count_fulls(volumes[v].1@)
            }),
        forall|v: int, i: int|
            {
                &&& 0 <= v < volumes.len()
                &&& 0 <= i < retention_cutoff(volumes[v].1@, keep_min, cut)
                &&& !is_full(#[trigger] volumes[v].1@[i])
                &&& i + 1 < volumes[v].1@.len()
            } ==> i + 1 < retention_cutoff(volumes[v].1@, keep_min, cut),
{
    assert forall|v: int|
        0 <= v < volumes.len() implies fulls_in(
        #[trigger] volumes[v].1@,
        0,
        retention_cutoff(volumes[v].1@, keep_min, cut),
    ) >= (if keep_min <= count_fulls(volumes[v].1@) {
        keep_min
    } else {
        count_fulls(volumes[v].1@)
    }) by {
        lemma_retention_keeps_min_fulls(volumes[v].1@, keep_min, cut);
    }
    assert forall|v: int, i: int|
        {
            &&& 0 <= v < volumes.len()
            &&& 0 <= i < retention_cutoff(volumes[v].1@, keep_min, cut)
            &&& !is_full(#[trigger] volumes[v].1@[i])
            &&& i + 1 < volumes[v].1@.len()
        } implies i + 1 < retention_cutoff(volumes[v].1@, keep_min, cut) by {
        lemma_retention_chain(volumes[v].1@, keep_min, cut);
    }
}

} // verus!
