[package]
name = "loogle"
version = "0.1.0"
edition = "2021"
publish = false

[dependencies]
askama = "0.12"
askama_axum = "0.3"
async-compression = { version = "0.4", features = ["tokio", "zstd"] }
axum = "0.6"
clap = { version = "4", features = ["derive", "env"] }
color-eyre = "0.6"
dotenv = "0.15"
flume = "0.11"
notify = "6"
rayon = "1"
serde = { version = "1", features = ["derive"] }
serde_json = "1"
sha3 = "0.10"
tokio = { version = "1", features = ["full"] }
tower-http = { version = "0.4", features = ["fs"] }
tracing = "0.1"
tracing-subscriber = "0.3"
walkdir = "2"
