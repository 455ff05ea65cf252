[package]
name = "hermesmq"
version = "0.2.0"
edition = "2021"
publish = false

[dependencies]
anyhow = "1"
bytes = "1"
clap = { version = "4", features = ["derive", "env"] }
openraft = { version = "0.9", features = ["serde", "storage-v2", "loosen-follower-log-revert"] }
postcard = { version = "1", features = ["use-std"] }
prost = "0.13"
redb = "2"
serde = { version = "1", features = ["derive"] }
thiserror = "2"
tokio = { version = "1", features = ["full"] }
tracing = "0.1"
tracing-subscriber = { version = "0.3", features = ["env-filter"] }
