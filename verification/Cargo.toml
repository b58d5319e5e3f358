[package]
name = "helix_desktop"
version = "0.1.0"
edition = "2021"
publish = false

[dependencies]
serde = { version = "1", features = ["derive"] }
serde_json = "1"
tokio = { version = "1", features = ["full"] }
reqwest = { version = "0.12", default-features = false, features = ["json", "stream", "rustls-tls"] }
futures-util = "0.3"
zip = { version = "2", default-features = false, features = ["deflate"] }
chrono = "0.4"
anyhow = "1"
log = "0.4"
sysinfo = "0.33"
