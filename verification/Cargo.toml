[package]
name = "url_priority_queue"
version = "0.1.0"
edition = "2021"
publish = false

[dependencies]
actix-web = { version = "4", default-features = false, features = ["macros"] }
log = "0.4"
redis = { version = "0.23", default-features = false, features = ["aio", "tokio-comp"] }
serde = { version = "1", features = ["derive"] }
tokio = { version = "1", features = ["sync", "macros", "rt-multi-thread"] }
