[package]
name = "subrpc_core"
version = "0.1.0"
edition = "2021"
publish = false

[dependencies]
anyhow = "*"
chrono = "*"
clap = { version = "*", features = ["derive"] }
color-eyre = "*"
dirs = "*"
env_logger = "*"
jsonrpsee = { version = "*", features = ["http-client", "ws-client"] }
log = "*"
reqwest = { version = "*", default-features = false, features = ["blocking"] }
tokio = { version = "*", features = ["rt"] }
webbrowser = "*"

[dev-dependencies]
serde_json = "*"
