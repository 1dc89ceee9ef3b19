[package]
name = "kn_core"
version = "0.1.0"
edition = "2021"
publish = false

[dependencies]
kanji = "*"
serde = { version = "*", features = ["derive"] }
serde_json = "*"
gumdrop = "*"
rustyline = "*"
