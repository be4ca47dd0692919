[package]
name = "zfs2s3"
version = "0.1.0"
edition = "2021"
publish = false

[dependencies]
chrono = "*"
cron = "*"
humantime = "*"
fast-glob = "*"
log = "*"
env_logger = "*"
clap = { version = "*", features = ["derive", "env"] }
serde = { version = "*", features = ["derive"] }
toml = "*"
tokio = { version = "*", features = ["macros", "rt-multi-thread", "process", "signal", "sync", "time", "fs", "io-util"] }
tokio-util = "*"
futures = "*"
object_store = { version = "*", features = ["aws"] }
