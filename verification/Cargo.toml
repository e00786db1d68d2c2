[package]
name = "gitrends"
version = "0.1.0"
edition = "2021"
publish = false

[dependencies]
glob = "*"
git2 = "*"
parquet = "*"
parquet_derive = "*"
serde = { version = "*", features = ["derive"] }
serde_json = "*"
serde_yaml = "*"
clap = { version = "*", features = ["derive"] }
chrono = "*"
log = "*"
fern = "*"
thiserror = "*"
axum = "*"
tokio = { version = "*", features = ["rt-multi-thread", "macros", "net", "signal", "sync"] }
tower-http = { version = "*", features = ["fs"] }
arc-swap = "*"
