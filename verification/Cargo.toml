[package]
name = "eurydice"
version = "0.1.0"
edition = "2021"
publish = false

[dependencies]
clap = { version = "*", features = ["derive"] }
colored = "*"
env_logger = "*"
itertools = "*"
lofty = "*"
log = "*"
rusqlite = { version = "*", features = ["bundled"] }
serde = { version = "*", features = ["derive"] }
serde_json = "*"
tabled = "*"
walkdir = "*"
