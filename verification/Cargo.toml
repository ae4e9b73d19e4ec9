[package]
name = "dirdiff"
version = "0.1.0"
edition = "2021"
publish = false

[dependencies]
chrono = "0.4"
clap = "3.2"
csv = "1"
hex = "0.4"
serde = { version = "1", features = ["derive"] }
serde_millis = "0.1"
sha1 = "0.10"
walkdir = "2"
