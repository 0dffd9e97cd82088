[package]
name = "context-guardian"
version = "0.5.0"
edition = "2021"
publish = false

[dependencies]
serde = { version = "1", features = ["derive"] }
serde_json = "1"
sha2 = "0.10"
hex = "0.4"
hmac = "0.12"
flate2 = "1"
rand = "0.8"
base64 = "0.22"
libc = "0.2"
rusqlite = { version = "*", features = ["bundled"] }
ureq = { version = "2", features = ["json"] }
rustls = { version = "0.23", default-features = false, features = ["ring", "std", "tls12", "logging"] }
rustls-pemfile = "2"
tokio = { version = "1", features = ["rt-multi-thread", "macros", "net", "io-util", "time", "sync", "signal", "fs"] }
futures-util = { version = "0.3", features = ["sink"] }
axum = { version = "0.8", features = ["ws"] }
reqwest = { version = "0.12", default-features = false, features = ["json", "rustls-tls"] }
tokio-tungstenite = "*"
