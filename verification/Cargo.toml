[package]
name = "tabletop_atlas"
version = "0.1.0"
edition = "2021"
publish = false

[dependencies]
anyhow = "=1.0.104"
async-openai = { version = "=0.42.2", features = ["embedding", "chat-completion"] }
chrono = { version = "=0.4.45", features = ["serde"] }
clap = "=4.6.7"
dropshot = "=0.17.1"
http = "=1.5.0"
include_dir = "=0.7.4"
mime_guess = "=2.0.5"
pdf-extract = "=0.12.1"
rusqlite = { version = "=0.40.2", features = ["bundled"] }
rusqlite_migration = "=2.6.0"
schemars = { version = "=0.8.22", features = ["chrono", "uuid1"] }
semver = "=1.0.28"
serde = { version = "=1.0.229", features = ["derive"] }
serde_json = "=1.0.154"
sqlite-vec = "=0.1.9"
tokio = { version = "=1.54.1", features = ["full"] }
tracing = "=0.1.44"
uuid = { version = "=1.29.0", features = ["v4", "serde"] }
