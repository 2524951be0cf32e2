[package]
name = "dash"
version = "0.1.0"
edition = "2021"
publish = false

[dependencies]
time = { version = "=0.3.55", features = ["serde"] }
argon2 = "=0.5.3"
rspotify-model = "=0.16.1"
rand = "=0.10.3"
tokio = { version = "=1.54.1", features = ["sync", "time", "macros", "rt", "fs"] }
anyhow = "=1.0.104"
serde = { version = "=1.0.229", features = ["derive"] }
serde_json = "=1.0.154"
rspotify = { version = "=0.16.1", default-features = false, features = ["client-reqwest", "reqwest-rustls-tls", "cli", "env-file"] }
rspotify-http = { version = "=0.16.1", default-features = false, features = ["client-reqwest", "reqwest-rustls-tls"] }
charming = "=0.6.0"
futures = "=0.3.34"
async-stream = "=0.3.6"
reqwest = { version = "=0.12.28", default-features = false, features = ["json", "rustls-tls"] }
