use zfs2s3::config::{BackupPolicy, CleanupPolicy, Config, ConfigError, S3};

/// Builds a `Config` from TOML text the way the daemon's loader does, then
/// validates it. A missing required field or unparsable TOML is an error, as
/// is any invalid cron expression or duration.
fn config_from_toml(text: &str) -> Result<Config, ConfigError> {
    let table: toml::Table = text
        .parse()
        .map_err(|e: toml::de::Error| ConfigError::InvalidToml(e.to_string()))?;
    let str_at = |section: &str, key: &str| -> Option<String> {
        table
            .get(section)?
            .get(key)?
            .as_str()
            .map(|s| s.to_string())
    };
    let str_list_at = |section: &str, key: &str| -> Vec<String> {
        table
            .get(section)
            .and_then(|s| s.get(key))
            .and_then(|v| v.as_array())
            .map(|a| {
                a.iter()
                    .filter_map(|v| v.as_str().map(|s| s.to_string()))
                    .collect()
            })
            .unwrap_or_default()
    };
    let missing = |what: &str| ConfigError::InvalidToml(format!("missing field `{what}`"));
    let backup = BackupPolicy::new(
        str_at("backup", "schedule").ok_or(missing("backup.schedule"))?,
        str_at("backup", "incremental").unwrap_or_default(),
        str_list_at("backup", "volumes"),
    );
    let keep_min = table
        .get("cleanup")
        .and_then(|s| s.get("keep_min"))
        .and_then(|v| v.as_integer())
        .ok_or(missing("cleanup.keep_min"))?;
    let cleanup = CleanupPolicy::new(
        str_at("cleanup", "schedule").ok_or(missing("cleanup.schedule"))?,
        keep_min as usize,
        str_at("cleanup", "keep_duration").ok_or(missing("cleanup.keep_duration"))?,
        str_list_at("cleanup", "exclude"),
    );
    let s3 = S3::new(
        str_at("s3", "bucket").ok_or(missing("s3.bucket"))?,
        str_at("s3", "url").ok_or(missing("s3.url"))?,
        str_at("s3", "region").unwrap_or_default(),
    );
    let config = Config::new(backup, cleanup, s3);
    config.validate()?;
    Ok(config)
}

#[test]
fn invalid_config_wrong_cron() {
    const CONFIG: &str = r#"
[backup]
schedule = "* * 0 "
incremental = "0 4 * 14 * * *"
volumes = ["zfs2s3/vm-*", "zfs2s3/ct-*"]

[cleanup]
schedule = "* * 5 * *"
keep_min = 3
keep_duration = "90d"

[s3]
bucket = "my-bucket"
url = "http://localhost:3900"
"#;
    let config = config_from_toml(CONFIG);

    assert!(config.is_err());
}

#[test]
fn invalid_config_wrong_duration() {
    const CONFIG: &str = r#"
[backup]
schedule = "0 0 0 15 * * *"
incremental = "0 4 * 14 * * *"
volumes = ["zfs2s3/vm-*", "zfs2s3/ct-*"]

[cleanup]
schedule = "0 0 5 * * * *"
keep_min = 3
keep_duration = "90x"

[s3]
bucket = "my-bucket"
url = "http://localhost:3900"
"#;
    let config = config_from_toml(CONFIG);
    assert!(config.is_err());
}

#[test]
fn invalid_config_field_missing() {
    const CONFIG: &str = r#"
[backup]
schedule = "0 0 0 15 * * *"
incremental = "0 4 * 14 * * *"
volumes = ["zfs2s3/vm-*", "zfs2s3/ct-*"]

[cleanup]
schedule = "0 0 5 * * * *"
keep_duration = "90d"

[s3]
bucket = "my-bucket"
url = "http://localhost:3900"
"#;
    let config = config_from_toml(CONFIG);
    assert!(config.is_err());
}

#[test]
fn valid_config() {
    const CONFIG: &str = r#"
[backup]
schedule = " 0 0 5 * * Sun *"
incremental = "0 30 4 * * Mon-Sat *"
volumes = ["zfs2s3/vm-*", "zfs2s3/ct-*"]

[cleanup]
schedule = "0 0 5 * * * *"
keep_min = 3
keep_duration = "3 months"

[s3]
bucket = "my-bucket"
url = "http://localhost:3900"
region = "garage"
"#;

    let config = config_from_toml(CONFIG);
    assert!(config.is_ok());
}

#[test]
fn keep_duration_cutoff_is_now_minus_duration() {
    let cleanup = CleanupPolicy::new(
        "0 0 5 * * * *".to_string(),
        1,
        "90d".to_string(),
        vec![],
    );
    let cutoff = cleanup.keep_duration_at(1_000_000_000).unwrap();
    assert_eq!(cutoff, 1_000_000_000 - 90 * 86400);
}

#[test]
fn keep_duration_rejects_nonsense() {
    let cleanup = CleanupPolicy::new(
        "0 0 5 * * * *".to_string(),
        1,
        "ninety days-ish".to_string(),
        vec![],
    );
    assert!(cleanup.keep_duration_at(0).is_err());
    assert!(cleanup.keep_duration().is_err());
}

#[test]
fn validate_reports_the_bad_expression() {
    let config = Config::new(
        BackupPolicy::new(
            "0 0 0 * * * *".to_string(),
            "not a cron".to_string(),
            vec![],
        ),
        CleanupPolicy::new("0 0 1 * * * *".to_string(), 0, "1d".to_string(), vec![]),
        S3::new(String::new(), String::new(), String::new()),
    );
    match config.validate() {
        Err(ConfigError::InvalidCronExpression(e)) => assert_eq!(e, "not a cron"),
        other => panic!("unexpected result: {other:?}"),
    }
}
