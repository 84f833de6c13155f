[package]
name = "ws_core"
version = "0.1.0"
edition = "2021"
publish = false

[dependencies]
anstream = "*"
anstyle = "*"
anyhow = "*"
clap = { version = "*", features = ["derive"] }
clap_complete = "*"
pathdiff = "*"
petname = "*"
serde = { version = "*", features = ["derive"] }
shellexpand = "*"
toml = "*"
