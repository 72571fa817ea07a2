[package]
name = "fast-file-sync"
version = "0.1.0"
edition = "2021"
publish = false

[dependencies]
blake3 = "1"
ulid = "1"
unicode-normalization = "0.1"
roxmltree = "*"
ignore = "0.4"
serde = { version = "1", features = ["derive"] }
serde_json = "1"
thiserror = "*"
rayon = "1"
trash = "*"
tracing = "0.1"
tracing-appender = "0.2"
tracing-subscriber = { version = "0.3", features = ["env-filter"] }
tokio = { version = "1", features = ["sync", "time", "rt", "macros"] }

[dev-dependencies]
tempfile = "3"
