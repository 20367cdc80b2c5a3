[package]
name = "skillctl"
version = "0.1.0"
edition = "2021"
publish = false

[dependencies]
blake3 = "*"
clap = { version = "*", features = ["derive"] }
globset = "*"
serde = { version = "*", features = ["derive"] }
sha2 = "*"
shellexpand = "*"
tabwriter = "*"
tempfile = "*"
thiserror = "*"
toml = "*"
walkdir = "*"
