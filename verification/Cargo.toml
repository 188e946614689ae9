[package]
name = "srv"
version = "0.1.0"
edition = "2021"
publish = false

[dependencies]
anyhow = "1"
bincode = "1"
clap = "2"
lazy_static = "1"
nanoid = "0.4"
serde = { version = "1", features = ["derive"] }
serde_json = "1"
shellexpand = "2"
sled = "0.34"
tokio = { version = "1", features = ["macros", "rt-multi-thread"] }
tracing = "0.1"
tracing-subscriber = { version = "0.3", features = ["env-filter"] }
warp = "0.3"

[dev-dependencies]
regex = "1"
