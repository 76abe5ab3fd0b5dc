[package]
name = "nohrs"
version = "0.1.0"
edition = "2021"
publish = false

[dependencies]
tantivy = "0.22"
grep = "0.3"
ignore = "0.4"
tokio = { version = "1", features = ["rt-multi-thread", "sync", "fs", "time", "macros"] }
dirs = "5"
serde = { version = "1", features = ["derive"] }
notify = "6"
notify-debouncer-mini = "0.4"

[dev-dependencies]
tempfile = "3"
