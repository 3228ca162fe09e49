[package]
name = "halyard_tachys"
version = "0.1.0"
edition = "2021"
publish = false

[dependencies]
indexmap = "2"
rustc-hash = "2"
axum = { version = "0.8", default-features = false }
thiserror = "2"
futures = "0.3"
tracing = "0.1"
