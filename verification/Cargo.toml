[package]
name = "shuffle_store"
version = "0.1.0"
edition = "2021"
publish = false

[dependencies]
croaring = "*"
url = "*"
bytes = "*"
anyhow = "*"
tokio = { version = "*", features = ["full"] }
fs2 = "*"
hdfs-native = "*"
