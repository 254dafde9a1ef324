[package]
name = "hyperlight"
version = "0.1.0"
edition = "2021"
publish = false

[dependencies]
anyhow = "1"
bytes = "1"
clap = { version = "4", features = ["derive"] }
fixedbitset = "0.5"
flatbuffers = "25"
log = "0.4"
regex = "1"
serde = { version = "1", features = ["derive"] }
serde_json = "1"
smallvec = "1"
tokio = { version = "1", features = ["rt", "macros"] }
toml = "0.9"
tracing = "0.1"
criterion-swarm = "*"
criterion-markdown = "*"

[dev-dependencies]
quickcheck = "1"
