[package]
name = "mastodon_list_bot"
version = "0.1.0"
edition = "2021"
publish = false

[dependencies]
anyhow = "*"
backoff = { version = "*", features = ["tokio"] }
chrono = "*"
clap = { version = "*", features = ["derive"] }
reqwest = { version = "*", default-features = false, features = ["json", "rustls-tls"] }
serde = { version = "*", features = ["derive"] }
serde_json = "*"
tokio = { version = "*", features = ["macros", "rt-multi-thread", "sync", "time"] }
tracing = "*"
tracing-subscriber = "*"
