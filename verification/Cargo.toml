[package]
name = "cargo_attribution"
version = "0.1.0"
edition = "2021"
publish = false

[dependencies]
anyhow = "*"
bytes = "*"
cargo_metadata = "*"
clap = { version = "*", features = ["derive"] }
color-eyre = "*"
reqwest = { version = "*", default-features = false }
serde = { version = "*", features = ["derive"] }
spdx = "*"
taplo = "*"
tokio = { version = "*", features = ["rt-multi-thread", "macros", "fs", "io-util"] }
toml = "*"
toml_edit = "*"
