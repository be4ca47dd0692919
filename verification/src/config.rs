//! Configuration of the backup agent: cron schedules for full and incremental
//! backups, the cleanup schedule, the retention bounds and the object-store
//! coordinates, together with their validation.

use vstd::prelude::*;

verus! {

#[verifier::external_type_specification]
#[verifier::external_body]
pub struct ExSchedule(cron::Schedule);

/// A parsed cron schedule, kept together with the expression it was parsed
/// from, so that contracts can speak of what the schedule fires by naming the
/// text. Values exist only through parsing, so the two always agree.
pub struct ParsedSchedule {
    inner: cron::Schedule,
    expression: String,
}

impl ParsedSchedule {
    /// The cron expression this schedule was parsed from.
    pub closed spec fn expr(&self) -> Seq<char> {
        self.expression@
    }
}

/// Whether `expr` is a well-formed seven-field cron expression.
pub uninterp spec fn cron_valid(expr: Seq<char>) -> bool;

/// Relies on `cron::Schedule::try_from`: parsing succeeds on exactly the
/// well-formed cron expressions, and the result depends on the text alone.
#[verifier::external_body]
pub(crate) fn cron_parse(expr: &str) -> (r: Option<ParsedSchedule>)
    ensures
        r is Some <==> cron_valid(expr@),
        r matches Some(s) ==> s.expr() == expr@,
{
    match cron::Schedule::try_from(expr) {
        Ok(inner) => Some(ParsedSchedule { inner, expression: expr.to_owned() }),
        Err(_) => None,
    }
}

/// The next instant after `now` at which the schedule of expression `expr`
/// fires, if any.
pub uninterp spec fn next_fire_of(expr: Seq<char>, now: int) -> Option<i64>;

/// Relies on `cron::Schedule::after` and its iterator: the first yielded
/// instant depends on the expression and the given time alone, and lies
/// strictly after it (the search starts one second later). A time too large
/// for chrono yields nothing rather than overflowing in that search.
#[verifier::external_body]
pub(crate) fn cron_next_after(schedule: &ParsedSchedule, now_secs: i64) -> (r: Option<i64>)
    ensures
        r == next_fire_of(schedule.expr(), now_secs as int),
        r matches Some(t) ==> t > now_secs,
{
    if now_secs == i64::MAX {
        return None;
    }
    if chrono::DateTime::<chrono::Utc>::from_timestamp(now_secs + 1, 0).is_none() {
        return None;
    }
    let now = match chrono::DateTime::<chrono::Utc>::from_timestamp(now_secs, 0) {
        Some(t) => t,
        None => {
            return None;
        },
    };
    schedule.inner.after(&now).next().map(|t| t.timestamp())
}

/// The seconds of the duration that `text` denotes, when it is a well-formed
/// human-readable duration.
pub uninterp spec fn duration_secs_of(text: Seq<char>) -> Option<u64>;

/// Relies on `humantime::parse_duration`: the result depends on the text
/// alone; sub-second precision is dropped.
#[verifier::external_body]
pub(crate) fn parse_duration_secs(text: &str) -> (r: Option<u64>)
    ensures
        r == duration_secs_of(text@),
{
    humantime::parse_duration(text).ok().map(|d| d.as_secs())
}

/// Relies on `chrono::Utc::now` for the current wall-clock time in seconds
/// since the Unix epoch. Nothing is promised of the value.
#[verifier::external_body]
pub fn now_unix_secs() -> i64 {
    chrono::Utc::now().timestamp()
}

/// A rejected piece of configuration.
#[derive(Debug, Clone, PartialEq)]
pub enum ConfigError {
    InvalidCronExpression(String),
    InvalidDuration(String),
    InvalidToml(String),
}

impl ConfigError {
    /// Human-readable form of the rejection.
    pub fn message(&self) -> (r: String)
        ensures
            match self {
                ConfigError::InvalidCronExpression(e) => r@ == "Invalid cron expression: "@ + e@,
                ConfigError::InvalidDuration(e) => r@ == "Invalid duration: "@ + e@,
                ConfigError::InvalidToml(e) => r@ == "Invalid TOML configuration: "@ + e@,
            },
    {
        match self {
            ConfigError::InvalidCronExpression(e) => String::from_str(
                "Invalid cron expression: ",
            ).concat(e.as_str()),
            ConfigError::InvalidDuration(e) => String::from_str("Invalid duration: ").concat(
                e.as_str(),
            ),
            ConfigError::InvalidToml(e) => String::from_str(
                "Invalid TOML configuration: ",
            ).concat(e.as_str()),
        }
    }
}

/// When to take snapshots, and of which volumes.
pub struct BackupPolicy {
    /// When to take full snapshots (seven-field cron expression).
    pub schedule: String,
    /// When to take incremental snapshots (seven-field cron expression).
    pub incremental: String,
    /// Glob patterns selecting the volumes to back up.
    pub volumes: Vec<String>,
}

impl BackupPolicy {
    pub fn new(schedule: String, incremental: String, volumes: Vec<String>) -> (r: Self)
        ensures
            r.schedule_expr() == schedule@,
            r.incremental_expr() == incremental@,
            r.volumes == volumes,
    {
        BackupPolicy { schedule, incremental, volumes }
    }

    /// The cron expression for full backups.
    pub open spec fn schedule_expr(&self) -> Seq<char> {
        self.schedule@
    }

    /// The cron expression for incremental backups.
    pub open spec fn incremental_expr(&self) -> Seq<char> {
        self.incremental@
    }

    /// The parsed schedule for full backups.
    pub fn schedule(&self) -> (r: Result<ParsedSchedule, ConfigError>)
        ensures
            r is Ok <==> cron_valid(self.schedule_expr()),
            r matches Ok(s) ==> s.expr() == self.schedule_expr(),
            r matches Err(e) ==> (e matches ConfigError::InvalidCronExpression(m) && m@
                == self.schedule_expr()),
    {
        to_cron(self.schedule.as_str())
    }

    /// The parsed schedule for incremental backups.
    pub fn incremental(&self) -> (r: Result<ParsedSchedule, ConfigError>)
        ensures
            r is Ok <==> cron_valid(self.incremental_expr()),
            r matches Ok(s) ==> s.expr() == self.incremental_expr(),
            r matches Err(e) ==> (e matches ConfigError::InvalidCronExpression(m) && m@
                == self.incremental_expr()),
    {
        to_cron(self.incremental.as_str())
    }
}

/// When to prune snapshots, and how many to keep.
pub struct CleanupPolicy {
    /// When to run cleanup (seven-field cron expression).
    pub schedule: String,
    /// Keep at least this many full snapshots per volume.
    pub keep_min: usize,
    /// Keep snapshots younger than this duration.
    pub keep_duration: String,
    /// Glob patterns naming snapshots never to destroy.
    pub exclude: Vec<String>,
}

impl CleanupPolicy {
    pub fn new(schedule: String, keep_min: usize, keep_duration: String, exclude: Vec<String>) -> (r:
        Self)
        ensures
            r.schedule_expr() == schedule@,
            r.keep_min == keep_min,
            r.keep_duration_text() == keep_duration@,
            r.exclude == exclude,
    {
        CleanupPolicy { schedule, keep_min, keep_duration, exclude }
    }

    /// The cron expression for cleanup runs.
    pub open spec fn schedule_expr(&self) -> Seq<char> {
        self.schedule@
    }

    /// The configured retention duration text.
    pub open spec fn keep_duration_text(&self) -> Seq<char> {
        self.keep_duration@
    }

    /// The parsed schedule for cleanup runs.
    pub fn schedule(&self) -> (r: Result<ParsedSchedule, ConfigError>)
        ensures
            r is Ok <==> cron_valid(self.schedule_expr()),
            r matches Ok(s) ==> s.expr() == self.schedule_expr(),
            r matches Err(e) ==> (e matches ConfigError::InvalidCronExpression(m) && m@
                == self.schedule_expr()),
    {
        to_cron(self.schedule.as_str())
    }

    /// The retention cutoff for a cleanup running at `now_secs`: everything
    /// whose creation time lies before the cutoff is old enough to prune.
    pub fn keep_duration_at(&self, now_secs: i64) -> (r: Result<i64, ConfigError>)
        ensures
            match r {
                Ok(cut) => duration_secs_of(self.keep_duration_text()) matches Some(d)
                    && cut == now_secs - d && i64::MIN <= now_secs - d,
                Err(e) => {
                    &&& (duration_secs_of(self.keep_duration_text()) matches Some(d) ==> now_secs
                        - d < i64::MIN)
                    &&& (e matches ConfigError::InvalidDuration(m) && m@
                        == self.keep_duration_text())
                },
            },
    {
        let d = match parse_duration_secs(self.keep_duration.as_str()) {
            Some(d) => d,
            None => {
                return Err(ConfigError::InvalidDuration(self.keep_duration.clone()));
            },
        };
        let diff: i128 = now_secs as i128 - d as i128;
        if diff >= i64::MIN as i128 {
            Ok(diff as i64)
        } else {
            Err(ConfigError::InvalidDuration(self.keep_duration.clone()))
        }
    }

    /// The retention cutoff for a cleanup running now.
    pub fn keep_duration(&self) -> (r: Result<i64, ConfigError>)
        ensures
            r is Ok ==> duration_secs_of(self.keep_duration_text()) is Some,
            duration_secs_of(self.keep_duration_text()) is None ==> (r matches Err(e) && e matches
                ConfigError::InvalidDuration(m) && m@ == self.keep_duration_text()),
    {
        let now = now_unix_secs();
        self.keep_duration_at(now)
    }
}

/// Coordinates of the object store; credentials come from the environment.
pub struct S3 {
    /// Bucket name.
    pub bucket: String,
    /// Endpoint URL.
    pub url: String,
    /// Region.
    pub region: String,
}

impl S3 {
    pub fn new(bucket: String, url: String, region: String) -> (r: Self)
        ensures
            r.bucket == bucket,
            r.url == url,
            r.region == region,
    {
        S3 { bucket, url, region }
    }
}

/// The whole agent configuration.
pub struct Config {
    pub backup: BackupPolicy,
    pub cleanup: CleanupPolicy,
    pub s3: S3,
}

impl Config {
    pub fn new(backup: BackupPolicy, cleanup: CleanupPolicy, s3: S3) -> (r: Self)
        ensures
            r.backup == backup,
            r.cleanup == cleanup,
            r.s3 == s3,
    {
        Config { backup, cleanup, s3 }
    }

    /// All cron expressions and the retention duration are well-formed.
    pub open spec fn valid(&self) -> bool {
        &&& cron_valid(self.backup.schedule_expr())
        &&& cron_valid(self.backup.incremental_expr())
        &&& cron_valid(self.cleanup.schedule_expr())
        &&& duration_secs_of(self.cleanup.keep_duration_text()) is Some
    }

    /// Validates the configuration: both backup schedules, the cleanup
    /// schedule and the retention duration must parse. The first rejected
    /// piece is reported.
    pub fn validate(&self) -> (r: Result<(), ConfigError>)
        ensures
            r is Ok <==> self.valid(),
            r matches Err(e) ==> match e {
                ConfigError::InvalidCronExpression(m) => {
                    ||| (m@ == self.backup.schedule_expr() && !cron_valid(
                        self.backup.schedule_expr(),
                    ))
                    ||| (m@ == self.backup.incremental_expr() && cron_valid(
                        self.backup.schedule_expr(),
                    ) && !cron_valid(self.backup.incremental_expr()))
                    ||| (m@ == self.cleanup.schedule_expr() && cron_valid(
                        self.backup.schedule_expr(),
                    ) && cron_valid(self.backup.incremental_expr()) && !cron_valid(
                        self.cleanup.schedule_expr(),
                    ))
                },
                ConfigError::InvalidDuration(m) => m@ == self.cleanup.keep_duration_text()
                    && cron_valid(self.backup.schedule_expr()) && cron_valid(
                    self.backup.incremental_expr(),
                ) && cron_valid(self.cleanup.schedule_expr()) && duration_secs_of(
                    self.cleanup.keep_duration_text(),
                ) is None,
                ConfigError::InvalidToml(_) => false,
            },
    {
        if let Err(e) = self.backup.schedule() {
            return Err(e);
        }
        if let Err(e) = self.backup.incremental() {
            return Err(e);
        }
        if let Err(e) = self.cleanup.schedule() {
            return Err(e);
        }
        match parse_duration_secs(self.cleanup.keep_duration.as_str()) {
            Some(_) => Ok(()),
            None => Err(ConfigError::InvalidDuration(self.cleanup.keep_duration.clone())),
        }
    }
}

/// Parses a cron expression, reporting the expression itself on rejection.
fn to_cron(expression: &str) -> (r: Result<ParsedSchedule, ConfigError>)
    ensures
        r is Ok <==> cron_valid(expression@),
        r matches Ok(s) ==> s.expr() == expression@,
        r matches Err(e) ==> (e matches ConfigError::InvalidCronExpression(m) && m@
            == expression@),
{
    match cron_parse(expression) {
        Some(s) => Ok(s),
        None => Err(ConfigError::InvalidCronExpression(expression.to_owned())),
    }
}

} // verus!
