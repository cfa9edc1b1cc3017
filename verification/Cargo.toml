[package]
name = "createcore_updater"
version = "0.1.0"
edition = "2021"
publish = false

[dependencies]
anyhow = "1"
csv = "1"
serde = { version = "1", features = ["derive"] }
ureq = { version = "2", features = ["json"] }
