[package]
name = "command_relay"
version = "0.1.0"
edition = "2021"
publish = false

[dependencies]
tokio = { version = "*", features = ["full"] }
axum = { version = "*", features = ["ws"] }
tower-http = { version = "*", features = ["fs"] }
log = "*"
colog = "*"

[dev-dependencies]
serde_json = "*"
