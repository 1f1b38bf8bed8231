[package]
name = "zesh"
version = "0.1.0"
edition = "2021"
publish = false

[dependencies]
anyhow = "*"
clap = { version = "*", features = ["derive"] }
dirs = "*"
ignore = "*"
serde = { version = "*", features = ["derive"] }
shellexpand = "*"
skim = "*"
toml = "*"

[dev-dependencies]
tempfile = "*"
