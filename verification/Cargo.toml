[package]
name = "brostorian"
version = "0.1.0"
edition = "2021"
publish = false

[dependencies]
anyhow = "*"
clap = { version = "*", features = ["derive"] }
futures = "*"
sqlx = { version = "*", features = ["sqlite", "runtime-tokio"] }
tokio = { version = "*", features = ["macros", "rt-multi-thread"] }
url = "*"
