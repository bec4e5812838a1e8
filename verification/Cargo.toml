[package]
name = "psctl"
version = "0.1.0"
edition = "2021"
publish = false

[dependencies]
url = "*"
clap = { version = "*", features = ["derive"] }
colored = "*"
ctrlc = "*"
futures = "*"
humantime = "*"
humantime-serde = "*"
nix = { version = "*", features = ["signal"] }
reqwest = { version = "*", default-features = false }
serde = { version = "*", features = ["derive"] }
serde_yaml = "*"
tokio = { version = "*", features = ["full"] }
