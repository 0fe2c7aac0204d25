[package]
name = "movie_search"
version = "0.1.0"
edition = "2021"
publish = false

[dependencies]
anyhow = "=1.0.104"
axum = "=0.8.9"
csv = "=1.4.0"
image = { version = "=0.25.10", default-features = false, features = ["png", "jpeg"] }
include_dir = "=0.7.4"
serde = { version = "=1.0.229", features = ["derive"] }
serde_json = "=1.0.154"
spin-sdk = "=4.0.0"
tiny_http = "=0.12.0"
tokio = { version = "=1.54.1", features = ["macros", "rt-multi-thread", "net"] }
tower-http = { version = "=0.7.1", features = ["trace"] }
tracing-subscriber = "=0.3.23"
