[package]
name = "nix_tree"
version = "0.1.0"
edition = "2021"
publish = false

[dependencies]
anyhow = "*"
bytesize = "*"
crossterm = "*"
ratatui = "*"
serde = { version = "*", features = ["derive"] }
serde_json = "*"
tokio = { version = "*", features = ["macros", "rt-multi-thread", "process", "fs", "time"] }
