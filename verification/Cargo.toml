[package]
name = "chronotheus"
version = "0.1.0"
edition = "2021"
publish = false

[dependencies]
urlencoding = "*"
anyhow = "*"
axum = "*"
clap = { version = "*", features = ["derive"] }
env_logger = "*"
log = "*"
regex = "*"
reqwest = { version = "*", default-features = false, features = ["json"] }
serde = { version = "*", features = ["derive"] }
serde_json = "*"
tokio = { version = "*", features = ["macros", "rt-multi-thread", "net"] }
toml = "*"
