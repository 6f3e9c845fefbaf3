[package]
name = "tasklist"
version = "0.1.0"
edition = "2021"
publish = false

[dependencies]
chrono = "0.4"
clap = { version = "4", features = ["derive"] }
sqlx = { version = "0.8", default-features = false, features = ["sqlite", "runtime-async-std"] }
async-std = "1"
dirs = "*"
dotenvy = "*"
