[package]
name = "length_stats"
version = "0.1.0"
edition = "2021"
publish = false

[dependencies]
anyhow = "*"
clap = { version = "*", features = ["derive"] }
glob = "*"
prost = "*"
serde = { version = "*", features = ["derive"] }
serde_json = "*"
toml = "*"
tracing = "*"
tracing-subscriber = "*"
zstd = "*"
