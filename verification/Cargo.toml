[package]
name = "local_ci"
version = "0.1.0"
edition = "2021"
publish = false

[dependencies]
anyhow = "=1.0.104"
async-channel = "=2.5.0"
async-condvar-fair = { version = "=1.0.1", features = ["parking_lot_0_12"] }
clap = { version = "=4.6.7", features = ["derive"] }
futures = "=0.3.34"
git2 = { version = "=0.19.0", default-features = false }
log = "=0.4.34"
nix = { version = "=0.29.0", features = ["signal"] }
parking_lot = "=0.12.5"
schemars = "=0.8.22"
serde = { version = "=1.0.229", features = ["derive"] }
serde_json = "=1.0.154"
tokio = { version = "=1.54.1", features = ["fs", "io-util", "macros", "process", "rt-multi-thread", "sync", "time"] }
tokio-util = "=0.7.20"
