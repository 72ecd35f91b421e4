[package]
name = "dltrack"
version = "0.1.0"
edition = "2021"
publish = false

[dependencies]
uuid = { version = "*", features = ["v4"] }
actix-web = "*"
actix-files = "*"
serde = { version = "*", features = ["derive"] }
tokio = { version = "*", features = ["sync", "rt-multi-thread", "macros"] }
log = "*"
log4rs = "*"
