[package]
name = "authority_agg"
version = "0.1.0"
edition = "2021"
publish = false

[dependencies]
rand = "0.8"
tokio = { version = "1", features = ["full"] }
futures = "0.3"
axum = "0.5"
prometheus = "0.13"
