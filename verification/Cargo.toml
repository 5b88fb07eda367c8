[package]
name = "vote_ledger"
version = "0.1.0"
edition = "2021"
publish = false

[dependencies]
sqlx = { version = "*", default-features = false, features = ["runtime-tokio", "postgres", "time"] }
tracing = "*"
