[package]
name = "mtree"
version = "0.1.0"
edition = "2021"
publish = false

[dependencies]
blake2 = "0.10"
bincode = "1"
clap = { version = "4", features = ["derive"] }
http-body-util = "0.1"
hyper = { version = "1", features = ["full"] }
hyper-util = { version = "0.1", features = ["full"] }
serde = { version = "1", features = ["derive"] }
tokio = { version = "1", features = ["full"] }

[dev-dependencies]
rand = "0.8"
