[package]
name = "qemu_hmp"
version = "0.1.0"
edition = "2021"
publish = false

[dependencies]
anyhow = "*"
base64 = "*"
chrono = "*"
clap = { version = "*", features = ["derive"] }
crossterm = "*"
dirs = "*"
nu-ansi-term = "*"
qapi = { version = "*", features = ["qmp"] }
qapi-qmp = "*"
reedline = "*"
serde = { version = "*", features = ["derive"] }
serde_json = "*"
tokio = { version = "*", features = ["full"] }
