[package]
name = "nofs"
version = "0.1.0"
edition = "2021"
publish = false

[dependencies]
clap = { version = "*", features = ["derive"] }
clap_complete = "*"
clap_mangen = "*"
dashmap = "*"
dirs = "*"
filetime = "*"
fs4 = { version = "*", features = ["sync"] }
glob = "*"
rand = "*"
reflink = "*"
regex = "*"
serde = { version = "*", features = ["derive"] }
serde_json = "*"
thiserror = "*"
toml = "*"
walkdir = "*"

[dev-dependencies]
tempfile = "*"
