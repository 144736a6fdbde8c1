[package]
name = "sqlshuffle"
version = "0.1.0"
edition = "2021"
publish = false

[dependencies]
anyhow = "*"
argh = "*"
env_logger = "*"
log = "*"
sqlparser = "*"
sqlx = { version = "*", default-features = false, features = ["mysql", "runtime-tokio"] }
tokio = { version = "*", features = ["macros", "rt-multi-thread"] }
