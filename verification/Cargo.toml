[package]
name = "webadev"
version = "0.1.0"
edition = "2021"
publish = false

[dependencies]
axum = "0.8"
tokio = { version = "1", features = ["full"] }
futures-util = "0.3"
mime_guess = "2"
notify = "8"
clap = { version = "4", features = ["derive"] }
