[package]
name = "repo_mode"
version = "0.1.0"
edition = "2021"
publish = false

[dependencies]
chrono = { version = "0.4", default-features = false, features = ["std", "clock"] }
siphasher = "1"
dunce = "1"
dirs = "6"
serde = { version = "1", features = ["derive"] }
serde_json = "1"
pathfinder_geometry = "0.5"

[dev-dependencies]
tempfile = "3"
