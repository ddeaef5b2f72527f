[package]
name = "podsync"
version = "0.1.0"
edition = "2021"
publish = false

[dependencies]
quickxml_to_serde = "*"
serde_json = "1"
chrono = "0.4"
unicode-width = "*"
id3 = "*"
reqwest = { version = "*", default-features = false }
tokio = { version = "1", features = ["rt-multi-thread", "macros"] }
futures = "0.3"
indicatif = "*"
dirs = "*"
serde = { version = "1", features = ["derive"] }
