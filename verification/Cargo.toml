[package]
name = "itoken"
version = "0.2.0"
edition = "2021"
publish = false

[dependencies]
async-stream = "0.3"
axum = "0.7"
clap = { version = "4", features = ["derive"] }
ed25519-dalek = "2"
futures = "0.3"
hex = "0.4"
libp2p = { version = "0.54", features = ["tokio", "tcp", "dns", "noise", "yamux", "gossipsub", "kad", "identify", "macros", "request-response", "json"] }
libp2p-request-response = { version = "0.27", features = ["json"] }
parking_lot = "0.12"
rand = "0.8"
reqwest = { version = "0.12", default-features = false, features = ["json", "stream"] }
serde = { version = "1", features = ["derive"] }
serde_json = "1"
sha2 = "0.10"
tokio = { version = "1", features = ["full"] }
tower-http = { version = "0.5", features = ["cors"] }
tracing = "0.1"
tracing-subscriber = { version = "0.3", features = ["env-filter"] }
uuid = { version = "1", features = ["v4"] }
