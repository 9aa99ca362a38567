[package]
name = "bsync"
version = "0.1.0"
edition = "2021"
publish = false

[dependencies]
anyhow = "1"
blake3 = "1"
byteorder = "1"
chrono = "0.4"
dirs = "*"
fs2 = "0.4"
hex = "0.4"
indicatif = "*"
itertools = "*"
log = "0.4"
lru = "0.7"
nbd = "*"
parking_lot = "*"
pretty_env_logger = "*"
prettytable-rs = "*"
rusqlite = { version = "*", features = ["bundled"] }
serde = { version = "1", features = ["derive"] }
serde_json = "1"
serde_yaml = "*"
sha2 = "0.10"
shell-escape = "0.1"
size_format = "*"
snap = "1"
ssh2 = "*"
structopt = "0.3"
thiserror = "1"
zstd = "*"
