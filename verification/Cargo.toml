[package]
name = "torrent_core"
version = "0.1.0"
edition = "2021"
publish = false

[dependencies]
sha1 = "0.10"
rand = "0.8"
tokio = { version = "1", features = ["full"] }
async-channel = "2"
num_cpus = "1"
