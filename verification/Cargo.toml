[package]
name = "rxterm"
version = "0.1.0"
edition = "2021"
publish = false

[dependencies]
russh = "0.45"
russh-keys = "0.45"
base64 = "0.22"
serde = { version = "1", features = ["derive"] }
serde_json = "1"
thiserror = "1"
tokio = { version = "1", features = ["full"] }
async-trait = "0.1"
dirs = "5"
uuid = { version = "1", features = ["v4"] }
zeroize = "1"
log = "0.4"
vnc-rs = "0.5"
