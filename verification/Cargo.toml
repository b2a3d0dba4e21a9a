[package]
name = "ht"
version = "0.1.0"
edition = "2021"
publish = false

[dependencies]
ansi_term = "0.12"
clap = "2"
failure = "0.1"
libc = "0.2"
reqwest = { version = "0.12", default-features = false, features = ["blocking"] }
serde_json = { version = "1", features = ["preserve_order"] }
