[package]
name = "wiktionary"
version = "0.1.0"
edition = "2021"
publish = false

[dependencies]
quick-xml = "*"
regex = "*"
serde = { version = "*", features = ["derive"] }
serde_json = "*"
