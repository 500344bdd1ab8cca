[package]
name = "slayerfs_meta"
version = "0.1.0"
edition = "2021"
publish = false

[dependencies]
async-channel = "=2.5.0"
async-trait = "0.1"
bytes = "=1.12.1"
etcd-client = "0.8.4"
futures-util = "0.3"
parking_lot = "=0.12.5"
serde = "1"
tokio = { version = "=1.54.1", features = ["rt", "sync", "time"] }
tokio-util = "=0.7.20"
