[package]
name = "mbutiles"
version = "0.1.0"
edition = "2021"
publish = false

[dependencies]
flate2 = "*"
rusqlite = { version = "*", features = ["bundled"] }
walkdir = "*"
docopt = "*"
serde = { version = "*", features = ["derive"] }
log = "*"
simplelog = "*"

[dev-dependencies]
serde_json = "*"
