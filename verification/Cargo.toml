[package]
name = "engine_broker"
version = "0.1.0"
edition = "2021"
publish = false

[dependencies]
hex = "0.4"
rand = "0.8"
sha2 = "0.10"
shakmaty = { version = "0.22", features = ["variant"] }
axum = "0.6"
axum-extra = { version = "0.7", features = ["typed-routing"] }
axum-macros = "0.3"
clap = { version = "4", features = ["derive"] }
mongodb = "2"
serde = { version = "1", features = ["derive"] }
serde_with = "2"
tokio = { version = "1", features = ["full"] }
