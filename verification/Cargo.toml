[package]
name = "ragu"
version = "0.1.0"
edition = "2021"
publish = false

[dependencies]
heck = "*"
pathdiff = "*"
sha2 = "*"
hex = "*"
anyhow = "*"
bincode = "1"
chrono = { version = "*", features = ["serde"] }
clap = { version = "*", features = ["derive"] }
dirs = "*"
flate2 = "*"
git2 = "*"
glob = "*"
reqwest = { version = "*", default-features = false, features = ["blocking"] }
serde = { version = "*", features = ["derive"] }
serde_json = "*"
serde_yaml = "*"
sysinfo = "*"
tar = "*"
tempfile = "*"
tokio = { version = "*", features = ["rt", "rt-multi-thread", "macros"] }
walkdir = "*"
which = "*"
yaml-rust = "*"
