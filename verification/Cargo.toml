[package]
name = "lease_pool"
version = "0.1.0"
edition = "2021"
publish = false

[dependencies]
sqlx = { version = "0.7", default-features = false, features = ["runtime-tokio", "sqlite"] }
tokio = { version = "1", features = ["rt-multi-thread", "macros", "sync", "time"] }
