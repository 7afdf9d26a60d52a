[package]
name = "segraph"
version = "0.1.0"
edition = "2021"
publish = false

[dependencies]
axum = { version = "0.8", features = ["ws"] }
bytes = "1"
clap = { version = "4", features = ["derive"] }
futures-util = "0.3"
neo4rs = "*"
rand = "*"
rand_distr = "*"
rkyv = { version = "0.8", features = ["bytes-1"] }
rusqlite = { version = "*", features = ["bundled"] }
serde = { version = "1", features = ["derive"] }
serde_json = "1"
tempfile = "3"
thiserror = "2"
tokio = { version = "1", features = ["full"] }
url = "2"
