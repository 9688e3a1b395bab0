[package]
name = "calendar_queue"
version = "0.1.0"
edition = "2021"
publish = false

[dependencies]
rayon = "1"
crossbeam-queue = "0.3"
csv = "1"
serde = { version = "1", features = ["derive"] }
ordered-float = "*"

[dev-dependencies]
rand = "0.8"
