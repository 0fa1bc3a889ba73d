[package]
name = "backlog_mdbook"
version = "0.1.0"
edition = "2021"
publish = false

[dependencies]
clap = { version = "4", features = ["derive"] }
mdbook = { version = "0.4", default-features = false }
reqwest = { version = "0.11", features = ["blocking", "json"] }
serde = { version = "1", features = ["derive"] }
thiserror = "1"
