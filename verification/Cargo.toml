[package]
name = "hf_mount"
version = "0.1.0"
edition = "2021"
publish = false

[dependencies]
async-trait = "*"
bytes = "*"
chrono = "*"
clap = { version = "*", features = ["derive", "env"] }
fuser = { version = "*", default-features = false }
futures = "*"
libc = "*"
reqwest = { version = "0.12", default-features = false, features = ["rustls-tls", "json", "stream"] }
serde = { version = "*", features = ["derive"] }
serde_json = "*"
tokio = { version = "*", features = ["full"] }
tracing = "*"
tracing-subscriber = { version = "*", features = ["env-filter"] }
uuid = { version = "*", features = ["v4"] }
xet-client = "*"
xet-core-structures = "*"
xet-data = "*"
xet-runtime = "*"
